//! Block layout, step by step.
//!
//! A block container stacks its in-flow children from top to bottom and
//! collapses the vertical margins that meet. Here stand the steps of
//! that: which size wins where several are given, which children take
//! part, what a child is laid out with, where it is placed, and how far
//! margins collapse. The module `algorithm` puts them together.

use crate::geometry::{Line, Point, Rect, Size};
pub mod algorithm;

use crate::compute::leaf::{maybe_apply_aspect_ratio, resolved_size, resolved_size_of, with_aspect_ratio};
use crate::math::{clamp_of, clamp_value_of, less_of, less_where_set, max_of};
use crate::style::dimension::{AvailableSpace, LengthPercentageAuto};
use crate::tree::{Layout, LayoutInput, SizingMode};
use crate::scalar::Scalar;
use crate::style::{Display, Position, Style};
use crate::tree::{CollapsibleMarginSet, LayoutOutput, NodeId, RunMode};
use vstd::prelude::*;

verus! {

/// What block layout keeps for one child that makes a box.
#[derive(Copy, Clone, Debug, PartialEq, Eq, Structural)]
pub struct BlockItem {
    /// The child.
    pub node_id: NodeId,
    /// The child's place among the children that make a box.
    pub order: u32,
    /// The preferred size, resolved.
    pub size: Size<Option<Scalar>>,
    /// The least size, resolved.
    pub min_size: Size<Option<Scalar>>,
    /// The greatest size, resolved.
    pub max_size: Size<Option<Scalar>>,
    /// Whether the child is in the flow.
    pub position: Position,
    /// What padding and border take along each axis.
    pub padding_border_sum: Size<Scalar>,
    /// The size of the border box, once computed.
    pub computed_size: Size<Scalar>,
    /// Where the box would stand without its inset, once computed.
    pub static_position: Point<Scalar>,
    /// Whether the margins above and below the child meet through it.
    pub can_be_collapsed_through: bool,
    /// The child's first baseline, measured from its top edge.
    pub baseline: Option<Scalar>,
}

/// The size that minimum and maximum settle between them: on an axis where
/// both are set and the maximum does not exceed the minimum, the minimum.
pub open spec fn settled_by_bounds(min: Option<Scalar>, max: Option<Scalar>) -> Option<Scalar> {
    match (min, max) {
        (Some(min), Some(max)) => if max.less_eq(min) {
            Some(min)
        } else {
            None
        },
        _ => None,
    }
}

/// The dimensions that a block container takes for known: on each axis the
/// first that is set of what the parent settled, what minimum and maximum
/// settle between them, the style's size bounded by them, and, for the
/// width only, `stretch_width`, the available width less the margins.
pub open spec fn known_dimensions_of(
    known_dimensions: Size<Option<Scalar>>,
    min_size: Size<Option<Scalar>>,
    max_size: Size<Option<Scalar>>,
    style_size: Size<Option<Scalar>>,
    stretch_width: Option<Scalar>,
) -> Size<Option<Scalar>> {
    known_dimensions.or_else_of(
        Size {
            width: settled_by_bounds(min_size.width, max_size.width),
            height: settled_by_bounds(min_size.height, max_size.height),
        },
    ).or_else_of(style_size.clamped(min_size, max_size)).or_else_of(
        Size { width: stretch_width, height: None },
    )
}

/// The size that minimum and maximum settle between them, per axis.
pub fn min_max_definite_size(min_size: Size<Option<Scalar>>, max_size: Size<Option<Scalar>>) -> (size:
    Size<Option<Scalar>>)
    ensures
        size.width == settled_by_bounds(min_size.width, max_size.width),
        size.height == settled_by_bounds(min_size.height, max_size.height),
{
    Size {
        width: settle(min_size.width, max_size.width),
        height: settle(min_size.height, max_size.height),
    }
}

fn settle(min: Option<Scalar>, max: Option<Scalar>) -> (size: Option<Scalar>)
    ensures
        size == settled_by_bounds(min, max),
{
    match (min, max) {
        (Some(min), Some(max)) => if max.le(min) {
            Some(min)
        } else {
            None
        },
        _ => None,
    }
}

/// The dimensions that a block container takes for known before it looks
/// at its children.
pub fn styled_based_known_dimensions(
    known_dimensions: Size<Option<Scalar>>,
    min_size: Size<Option<Scalar>>,
    max_size: Size<Option<Scalar>>,
    style_size: Size<Option<Scalar>>,
    stretch_width: Option<Scalar>,
) -> (size: Size<Option<Scalar>>)
    ensures
        size == known_dimensions_of(
            known_dimensions,
            min_size,
            max_size,
            style_size,
            stretch_width,
        ),
{
    let clamped_style_size = style_size.maybe_clamp(min_size, max_size);
    known_dimensions.or(min_max_definite_size(min_size, max_size)).or(clamped_style_size).or(
        Size { width: stretch_width, height: None },
    )
}

/// Whether a container's own margins collapse with those of its children:
/// at the top where the parent allows it, the container does not scroll
/// vertically and is in the flow, and neither padding nor border separates
/// the margins; at the bottom the same, and the height is left to the
/// content.
pub open spec fn margins_collapse_with_children(
    style: Style,
    vertical_margins_are_collapsible: Line<bool>,
    padding: Rect<Scalar>,
    border: Rect<Scalar>,
    size: Size<Option<Scalar>>,
) -> Line<bool> {
    Line {
        start: vertical_margins_are_collapsible.start && !style.overflow.y.scrolls()
            && style.position == Position::Relative && padding.top.same(Scalar::zero_value())
            && border.top.same(Scalar::zero_value()),
        end: vertical_margins_are_collapsible.end && !style.overflow.y.scrolls() && style.position
            == Position::Relative && padding.bottom.same(Scalar::zero_value())
            && border.bottom.same(Scalar::zero_value()) && size.height is None,
    }
}

/// Whether a container's own margins collapse with those of its children.
pub fn own_margins_collapse_with_children(
    style: &Style,
    vertical_margins_are_collapsible: Line<bool>,
    padding: Rect<Scalar>,
    border: Rect<Scalar>,
    size: Size<Option<Scalar>>,
) -> (collapse: Line<bool>)
    ensures
        collapse == margins_collapse_with_children(
            *style,
            vertical_margins_are_collapsible,
            padding,
            border,
            size,
        ),
{
    let in_flow = matches!(style.position, Position::Relative);
    let scrolls = style.overflow.y.is_scroll_container();
    Line {
        start: vertical_margins_are_collapsible.start && !scrolls && in_flow && padding.top.num_eq(
            Scalar(0),
        ) && border.top.num_eq(Scalar(0)),
        end: vertical_margins_are_collapsible.end && !scrolls && in_flow
            && padding.bottom.num_eq(Scalar(0)) && border.bottom.num_eq(Scalar(0))
            && size.height.is_none(),
    }
}

/// Whether the style of a node keeps margins from collapsing through it:
/// it is no block, it scrolls vertically, it is out of the flow, or it has
/// padding or border at the top or bottom.
pub open spec fn keeps_margins_apart(style: Style, padding: Rect<Scalar>, border: Rect<Scalar>) -> bool {
    ||| style.display != Display::Block
    ||| style.overflow.y.scrolls()
    ||| style.position == Position::Absolute
    ||| Scalar::zero_value().less(padding.top)
    ||| Scalar::zero_value().less(padding.bottom)
    ||| Scalar::zero_value().less(border.top)
    ||| Scalar::zero_value().less(border.bottom)
}

/// Whether the style of a node keeps margins from collapsing through it.
pub fn has_styles_preventing_being_collapsed_through(
    style: &Style,
    padding: Rect<Scalar>,
    border: Rect<Scalar>,
) -> (prevents: bool)
    ensures
        prevents == keeps_margins_apart(*style, padding, border),
{
    let zero = Scalar(0);
    !matches!(style.display, Display::Block) || style.overflow.y.is_scroll_container() || matches!(
        style.position,
        Position::Absolute
    ) || padding.top.gt(zero) || padding.bottom.gt(zero) || border.top.gt(zero) || border.bottom.gt(
        zero,
    )
}

/// A child of a block container: its node and its style.
pub struct BlockChild {
    /// The child.
    pub node_id: NodeId,
    /// The child's style.
    pub style: Style,
}

/// The children of `list` that make a box, in order: those whose display
/// is not `Hidden`.
pub open spec fn shown_of(list: Seq<BlockChild>) -> Seq<BlockChild>
    decreases list.len(),
{
    if list.len() == 0 {
        Seq::empty()
    } else if list.last().style.display == Display::Hidden {
        shown_of(list.drop_last())
    } else {
        shown_of(list.drop_last()).push(list.last())
    }
}

/// The item that block layout starts with for `child` at place `order`
/// among the children that make a box: its sizes resolved against the
/// content box of the container with the aspect ratio applied, its
/// padding and border against the width of that box, nothing computed
/// yet.
pub open spec fn item_of(child: BlockChild, order: int, node_inner_size: Size<Option<Scalar>>) -> BlockItem {
    BlockItem {
        node_id: child.node_id,
        order: order as u32,
        size: resolved_size_of(child.style.size, node_inner_size, child.style.aspect_ratio),
        min_size: resolved_size_of(child.style.min_size, node_inner_size, child.style.aspect_ratio),
        max_size: resolved_size_of(child.style.max_size, node_inner_size, child.style.aspect_ratio),
        position: child.style.position,
        padding_border_sum: child.style.padding.resolved_or_zero(node_inner_size.width).added(
            child.style.border.resolved_or_zero(node_inner_size.width),
        ).axis_sums(),
        computed_size: Size { width: Scalar::zero_value(), height: Scalar::zero_value() },
        static_position: Point { x: Scalar::zero_value(), y: Scalar::zero_value() },
        can_be_collapsed_through: false,
        baseline: None,
    }
}

/// The items of the children `kids`, which all make a box.
pub open spec fn items_of(kids: Seq<BlockChild>, node_inner_size: Size<Option<Scalar>>) -> Seq<BlockItem> {
    Seq::new(kids.len(), |j: int| item_of(kids[j], j, node_inner_size))
}

/// The items of a block container with the given children: one for each
/// child that makes a box, in order, numbered from 0; and for each item
/// the place of its child among all the children.
pub fn generate_item_list(children: &Vec<BlockChild>, node_inner_size: Size<Option<Scalar>>) -> (out: (
    Vec<BlockItem>,
    Vec<usize>,
))
    requires
        children@.len() <= u32::MAX,
    ensures
        out.0@ == items_of(shown_of(children@), node_inner_size),
        out.1@.len() == out.0@.len(),
        forall|j: int|
            0 <= j < out.1@.len() ==> (#[trigger] out.1@[j]) < children@.len() && children@[out.1@[j] as int]
                == shown_of(children@)[j],
{
    let mut items: Vec<BlockItem> = Vec::new();
    let mut places: Vec<usize> = Vec::new();
    let mut i: usize = 0;
    proof {
        assert(children@.take(0) =~= Seq::empty());
    }
    while i < children.len()
        invariant
            i <= children.len(),
            children@.len() <= u32::MAX,
            items@.len() == shown_of(children@.take(i as int)).len(),
            places@.len() == items@.len(),
            items@.len() <= i,
            forall|k: int|
                0 <= k < items@.len() ==> #[trigger] items@[k] == item_of(
                    shown_of(children@.take(i as int))[k],
                    k,
                    node_inner_size,
                ),
            forall|k: int|
                0 <= k < places@.len() ==> (#[trigger] places@[k]) < i && children@[places@[k] as int]
                    == shown_of(children@.take(i as int))[k],
        decreases children.len() - i,
    {
        let child = &children[i];
        proof {
            assert(children@.take(i + 1).drop_last() =~= children@.take(i as int));
            assert(children@.take(i + 1).last() == *child);
        }
        if !matches!(child.style.display, Display::Hidden) {
            let order = items.len() as u32;
            let aspect_ratio = child.style.aspect_ratio;
            items.push(
                BlockItem {
                    node_id: child.node_id,
                    order,
                    size: resolved_size(&child.style.size, node_inner_size, aspect_ratio),
                    min_size: resolved_size(&child.style.min_size, node_inner_size, aspect_ratio),
                    max_size: resolved_size(&child.style.max_size, node_inner_size, aspect_ratio),
                    position: child.style.position,
                    padding_border_sum: child.style.padding.resolve_or_zero(node_inner_size.width).plus(
                        &child.style.border.resolve_or_zero(node_inner_size.width),
                    ).sum_axes(),
                    computed_size: Size { width: Scalar(0), height: Scalar(0) },
                    static_position: Point { x: Scalar(0), y: Scalar(0) },
                    can_be_collapsed_through: false,
                    baseline: None,
                },
            );
            places.push(i);
        }
        i += 1;
    }
    proof {
        assert(children@.take(children@.len() as int) =~= children@);
        assert(items@ =~= items_of(shown_of(children@), node_inner_size));
    }
    (items, places)
}

/// A child that makes no box leaves no trace among the children that
/// block layout works with: a list of children with such a child put in
/// anywhere has the shown children of the list without it.
pub proof fn lemma_hidden_child_is_not_shown(list: Seq<BlockChild>, at: int, hidden: BlockChild)
    requires
        0 <= at <= list.len(),
        hidden.style.display == Display::Hidden,
    ensures
        shown_of(list.insert(at, hidden)) == shown_of(list),
    decreases list.len(),
{
    let longer = list.insert(at, hidden);
    if at == list.len() {
        assert(longer.drop_last() =~= list);
        assert(longer.last() == hidden);
    } else {
        assert(longer.last() == list.last());
        assert(longer.drop_last() =~= list.drop_last().insert(at, hidden));
        lemma_hidden_child_is_not_shown(list.drop_last(), at, hidden);
    }
}

/// Taking a child that makes no box out of a list of children leaves the
/// shown children what they were.
pub proof fn lemma_removing_hidden_child_changes_nothing(list: Seq<BlockChild>, at: int)
    requires
        0 <= at < list.len(),
        list[at].style.display == Display::Hidden,
    ensures
        shown_of(list.remove(at)) == shown_of(list),
{
    assert(list.remove(at).insert(at, list[at]) =~= list);
    lemma_hidden_child_is_not_shown(list.remove(at), at, list[at]);
}

/// The margins that block layout carries from one in-flow child to the next.
#[derive(Copy, Clone, Debug, PartialEq, Eq, Structural)]
pub struct FlowMargins {
    /// The margins that meet at the container's top edge, as far as the
    /// children seen so far add to them.
    pub first_child_top_margin_set: CollapsibleMarginSet,
    /// The margins that meet below the last child that took up room.
    pub active_collapsible_margin_set: CollapsibleMarginSet,
    /// Whether no child has taken up room yet, so that the margins of the
    /// next one still meet the container's top edge.
    pub is_collapsing_with_first_margin_set: bool,
}

impl FlowMargins {
    /// The state before the first child.
    pub open spec fn initial() -> FlowMargins {
        FlowMargins {
            first_child_top_margin_set: CollapsibleMarginSet::empty(),
            active_collapsible_margin_set: CollapsibleMarginSet::empty(),
            is_collapsing_with_first_margin_set: true,
        }
    }

    /// The state after an in-flow child with the given margin sets. A child
    /// that margins collapse through adds both its sets to the active set,
    /// and to the first set as long as no child has taken up room. Any
    /// other child adds its top set to the first set if it is the first to
    /// take up room, and leaves its bottom set as the active one.
    pub open spec fn after(
        self,
        top: CollapsibleMarginSet,
        bottom: CollapsibleMarginSet,
        can_be_collapsed_through: bool,
    ) -> FlowMargins {
        FlowMargins {
            first_child_top_margin_set: if !self.is_collapsing_with_first_margin_set {
                self.first_child_top_margin_set
            } else if can_be_collapsed_through {
                self.first_child_top_margin_set.with_set(top).with_set(bottom)
            } else {
                self.first_child_top_margin_set.with_set(top)
            },
            active_collapsible_margin_set: if can_be_collapsed_through {
                self.active_collapsible_margin_set.with_set(top).with_set(bottom)
            } else {
                bottom
            },
            is_collapsing_with_first_margin_set: self.is_collapsing_with_first_margin_set
                && can_be_collapsed_through,
        }
    }

    /// The state before the first child.
    pub fn new() -> (state: FlowMargins)
        ensures
            state == FlowMargins::initial(),
    {
        FlowMargins {
            first_child_top_margin_set: CollapsibleMarginSet::zero(),
            active_collapsible_margin_set: CollapsibleMarginSet::zero(),
            is_collapsing_with_first_margin_set: true,
        }
    }

    /// The margins whose collapsed sum separates the next child from what
    /// stands above it, given the child's own collapsed top margin; nothing
    /// where the child's margins still meet the container's top edge and
    /// collapse with the container's own, so that the child starts flush.
    pub fn offset_set(&self, own_margins_collapse_at_start: bool, resolved_top_margin: Scalar) -> (set:
        Option<CollapsibleMarginSet>)
        ensures
            set == (if self.is_collapsing_with_first_margin_set && own_margins_collapse_at_start {
                None
            } else {
                Some(self.active_collapsible_margin_set.with_margin(resolved_top_margin))
            }),
    {
        if self.is_collapsing_with_first_margin_set && own_margins_collapse_at_start {
            None
        } else {
            Some(self.active_collapsible_margin_set.collapse_with_margin(resolved_top_margin))
        }
    }

    /// The state after an in-flow child, and whether the child takes up
    /// room, so that the next one starts below it.
    pub fn advance(
        self,
        top: CollapsibleMarginSet,
        bottom: CollapsibleMarginSet,
        can_be_collapsed_through: bool,
    ) -> (next: (FlowMargins, bool))
        ensures
            next.0 == self.after(top, bottom, can_be_collapsed_through),
            next.1 == !can_be_collapsed_through,
    {
        let mut first = self.first_child_top_margin_set;
        let mut collapsing = self.is_collapsing_with_first_margin_set;
        if collapsing {
            if can_be_collapsed_through {
                first = first.collapse_with_set(top).collapse_with_set(bottom);
            } else {
                first = first.collapse_with_set(top);
                collapsing = false;
            }
        }
        let active = if can_be_collapsed_through {
            self.active_collapsible_margin_set.collapse_with_set(top).collapse_with_set(bottom)
        } else {
            bottom
        };
        (
            FlowMargins {
                first_child_top_margin_set: first,
                active_collapsible_margin_set: active,
                is_collapsing_with_first_margin_set: collapsing,
            },
            !can_be_collapsed_through,
        )
    }

    /// The margins whose collapsed sum the container adds below its last
    /// child; nothing where they collapse with the container's own bottom margin.
    pub fn trailing_set(&self, own_margins_collapse_at_end: bool) -> (set: Option<
        CollapsibleMarginSet,
    >)
        ensures
            set == (if own_margins_collapse_at_end {
                None
            } else {
                Some(self.active_collapsible_margin_set)
            }),
    {
        if own_margins_collapse_at_end {
            None
        } else {
            Some(self.active_collapsible_margin_set)
        }
    }
}

/// The margins that meet at one edge of a child: those that the child's
/// layout reports, and the child's own margin at that edge, which counts
/// as zero where it is `auto`.
pub fn item_margin_set(reported: CollapsibleMarginSet, margin: Option<Scalar>) -> (set:
    CollapsibleMarginSet)
    ensures
        set == reported.with_margin(
            match margin {
                Some(m) => m,
                None => Scalar::zero_value(),
            },
        ),
{
    match margin {
        Some(m) => reported.collapse_with_margin(m),
        None => reported.collapse_with_margin(Scalar(0)),
    }
}

/// The dimensions that an in-flow child is laid out with: its size bounded
/// by its minimum and maximum, and for a width that this leaves open,
/// `stretch_width`, the container's inner width less the child's margins.
pub fn in_flow_known_dimensions(item: &BlockItem, stretch_width: Scalar) -> (known: Size<
    Option<Scalar>,
>)
    ensures
        known.height == clamp_of(item.size.height, item.min_size.height, item.max_size.height),
        known.width == Some(
            match clamp_of(item.size.width, item.min_size.width, item.max_size.width) {
                Some(width) => width,
                None => stretch_width,
            },
        ),
{
    let clamped = item.size.maybe_clamp(item.min_size, item.max_size);
    Size {
        width: match clamped.width {
            Some(width) => Some(width),
            None => Some(stretch_width),
        },
        height: clamped.height,
    }
}

/// By how many margins the free space along an axis is divided: by those
/// of the two that are `auto`; by none, so that `auto` margins are zero,
/// where there is no `auto` margin, or where both are `auto` and the size
/// along the axis is left open as well.
pub open spec fn auto_margin_count(start_is_auto: bool, end_is_auto: bool, size_is_auto: bool) -> int {
    if start_is_auto && end_is_auto {
        if size_is_auto {
            0
        } else {
            2
        }
    } else if start_is_auto || end_is_auto {
        1
    } else {
        0
    }
}

/// By how many margins the free horizontal space of an in-flow child is divided.
pub fn in_flow_auto_margin_divisor(
    margin_left: Option<Scalar>,
    margin_right: Option<Scalar>,
    width: Option<Scalar>,
) -> (divisor: u8)
    ensures
        divisor == auto_margin_count(margin_left is None, margin_right is None, width is None),
{
    let count: u8 = (if margin_left.is_none() {
        1u8
    } else {
        0u8
    }) + (if margin_right.is_none() {
        1u8
    } else {
        0u8
    });
    if count == 2 && width.is_none() {
        0
    } else {
        count
    }
}

/// How far an inset moves a box along an axis: by the inset at the start;
/// else against the axis by the inset at the end; else not at all.
pub open spec fn inset_offset_of(start: Option<Scalar>, end: Option<Scalar>) -> Scalar {
    match (start, end) {
        (Some(start), _) => start,
        (None, Some(end)) => end.negated(),
        (None, None) => Scalar::zero_value(),
    }
}

/// How far an inset moves a box along an axis.
pub fn inset_offset_along(start: Option<Scalar>, end: Option<Scalar>) -> (offset: Scalar)
    ensures
        offset == inset_offset_of(start, end),
{
    match (start, end) {
        (Some(start), _) => start,
        (None, Some(end)) => end.neg(),
        (None, None) => Scalar(0),
    }
}

/// The height of the content: what the children take up, but not less than nothing.
pub fn content_height(committed_y_offset: Scalar) -> (height: Scalar)
    ensures
        height == Scalar::zero_value().larger(committed_y_offset),
{
    Scalar(0).max(committed_y_offset)
}

/// The least size of an absolutely placed box: its minimum where one is
/// set, but on no axis less than padding and border take.
pub fn absolute_min_size(min_size: Size<Option<Scalar>>, padding_border_sum: Size<Scalar>) -> (size:
    Size<Option<Scalar>>)
    ensures
        size.width == Some(
            match min_size.width {
                Some(min) => min.larger(padding_border_sum.width),
                None => padding_border_sum.width,
            },
        ),
        size.height == Some(
            match min_size.height {
                Some(min) => min.larger(padding_border_sum.height),
                None => padding_border_sum.height,
            },
        ),
{
    Size {
        width: match min_size.width {
            Some(min) => Some(min.max(padding_border_sum.width)),
            None => Some(padding_border_sum.width),
        },
        height: match min_size.height {
            Some(min) => Some(min.max(padding_border_sum.height)),
            None => Some(padding_border_sum.height),
        },
    }
}

/// The size of an absolutely placed box: on each axis what is known, else
/// what was measured, bounded by minimum and maximum.
pub fn absolute_final_size(
    known_dimensions: Size<Option<Scalar>>,
    measured_size: Size<Scalar>,
    min_size: Size<Option<Scalar>>,
    max_size: Size<Option<Scalar>>,
) -> (size: Size<Scalar>)
    ensures
        size.width == clamp_value_of(
            match known_dimensions.width {
                Some(width) => width,
                None => measured_size.width,
            },
            min_size.width,
            max_size.width,
        ),
        size.height == clamp_value_of(
            match known_dimensions.height {
                Some(height) => height,
                None => measured_size.height,
            },
            min_size.height,
            max_size.height,
        ),
{
    known_dimensions.unwrap_or(measured_size).maybe_clamp(min_size, max_size)
}

/// The margin at one edge of an absolutely placed box as far as it is not
/// `auto`: the margin at that edge where the inset at that edge is set and
/// the margin is not `auto`, else zero.
pub open spec fn non_auto_margin_of(inset: Option<Scalar>, margin: Option<Scalar>) -> Scalar {
    match (inset, margin) {
        (Some(_), Some(margin)) => margin,
        _ => Scalar::zero_value(),
    }
}

/// The margins of an absolutely placed box as far as they are not `auto`,
/// each edge by its own inset and margin.
pub fn non_auto_margin(inset: Rect<Option<Scalar>>, margin: Rect<Option<Scalar>>) -> (out: Rect<
    Scalar,
>)
    ensures
        out.left == non_auto_margin_of(inset.left, margin.left),
        out.right == non_auto_margin_of(inset.right, margin.right),
        out.top == non_auto_margin_of(inset.top, margin.top),
        out.bottom == non_auto_margin_of(inset.bottom, margin.bottom),
{
    Rect {
        left: non_auto_margin_at(inset.left, margin.left),
        right: non_auto_margin_at(inset.right, margin.right),
        top: non_auto_margin_at(inset.top, margin.top),
        bottom: non_auto_margin_at(inset.bottom, margin.bottom),
    }
}

fn non_auto_margin_at(inset: Option<Scalar>, margin: Option<Scalar>) -> (out: Scalar)
    ensures
        out == non_auto_margin_of(inset, margin),
{
    match (inset, margin) {
        (Some(_), Some(margin)) => margin,
        _ => Scalar(0),
    }
}

/// By how many margins the free space of an absolutely placed box along
/// an axis is divided: by those of the two that are `auto`; by none where
/// there is none, or where both are `auto` and the style leaves the size
/// open or sets one that is not below the free space.
pub fn absolute_auto_margin_divisor(
    margin_start: Option<Scalar>,
    margin_end: Option<Scalar>,
    style_size: Option<Scalar>,
    free_space: Scalar,
) -> (divisor: u8)
    ensures
        divisor == auto_margin_count(
            margin_start is None,
            margin_end is None,
            match style_size {
                Some(size) => free_space.less_eq(size),
                None => true,
            },
        ),
{
    let count: u8 = (if margin_start.is_none() {
        1u8
    } else {
        0u8
    }) + (if margin_end.is_none() {
        1u8
    } else {
        0u8
    });
    let size_decides = match style_size {
        Some(size) => size.ge(free_space),
        None => true,
    };
    if count == 2 && size_decides {
        0
    } else {
        count
    }
}

/// The margin at an edge once `auto` margins are resolved: the margin
/// itself, or the share of `auto` margins where it is `auto`.
pub fn resolved_margin_at(margin: Option<Scalar>, auto_margin_size: Scalar) -> (out: Scalar)
    ensures
        out == (match margin {
            Some(margin) => margin,
            None => auto_margin_size,
        }),
{
    match margin {
        Some(margin) => margin,
        None => auto_margin_size,
    }
}

/// Whether margins collapse through every item in the flow.
pub fn all_in_flow_children_can_be_collapsed_through(items: &Vec<BlockItem>) -> (all: bool)
    ensures
        all == (forall|i: int|
            0 <= i < items@.len() ==> (#[trigger] items@[i]).position == Position::Absolute
                || items@[i].can_be_collapsed_through),
{
    let mut i: usize = 0;
    while i < items.len()
        invariant
            i <= items.len(),
            forall|j: int|
                0 <= j < i ==> (#[trigger] items@[j]).position == Position::Absolute
                    || items@[j].can_be_collapsed_through,
        decreases items.len() - i,
    {
        if !matches!(items[i].position, Position::Absolute) && !items[i].can_be_collapsed_through {
            return false;
        }
        i += 1;
    }
    true
}

/// The margins that meet at one edge of the container: those of its
/// children where its own margin collapses with theirs, else its own
/// margin alone.
pub fn container_margin_set(
    collapses_with_children: bool,
    children_set: CollapsibleMarginSet,
    own_margin: Scalar,
) -> (set: CollapsibleMarginSet)
    ensures
        set == (if collapses_with_children {
            children_set
        } else {
            CollapsibleMarginSet::of_margin(own_margin)
        }),
{
    if collapses_with_children {
        children_set
    } else {
        CollapsibleMarginSet::from_margin(own_margin)
    }
}

/// A child that margins collapse through takes up no room and passes its
/// margins on; any other child takes up room and ends the collapsing with
/// the container's top edge.
pub proof fn lemma_collapse_through(
    state: FlowMargins,
    top: CollapsibleMarginSet,
    bottom: CollapsibleMarginSet,
)
    ensures
        state.after(top, bottom, true).active_collapsible_margin_set
            == state.active_collapsible_margin_set.with_set(top).with_set(bottom),
        state.after(top, bottom, true).is_collapsing_with_first_margin_set
            == state.is_collapsing_with_first_margin_set,
        state.after(top, bottom, false).active_collapsible_margin_set == bottom,
        !state.after(top, bottom, false).is_collapsing_with_first_margin_set,
        !state.is_collapsing_with_first_margin_set ==> state.after(
            top,
            bottom,
            true,
        ).first_child_top_margin_set == state.first_child_top_margin_set && state.after(
            top,
            bottom,
            false,
        ).first_child_top_margin_set == state.first_child_top_margin_set,
{
}

/// The number one.
pub open spec fn one() -> Scalar {
    Scalar(crate::style::ONE_BITS)
}

/// The number two.
pub open spec fn two() -> Scalar {
    Scalar(0x4000_0000)
}

/// A count of at most two margins as a number.
pub open spec fn count_of(divisor: int) -> Scalar {
    if divisor == 2 {
        two()
    } else {
        one()
    }
}

/// The share of `free_space` that each of `divisor` margins takes; zero
/// where none takes a share.
pub open spec fn share_of(free_space: Scalar, divisor: int) -> Scalar {
    if divisor == 0 {
        Scalar::zero_value()
    } else {
        free_space.quotient(count_of(divisor))
    }
}

fn share(free_space: Scalar, divisor: u8) -> (out: Scalar)
    requires
        divisor <= 2,
    ensures
        out == share_of(free_space, divisor as int),
{
    if divisor == 0 {
        Scalar(0)
    } else if divisor == 2 {
        free_space.over(Scalar(0x4000_0000))
    } else {
        free_space.over(Scalar(crate::style::ONE_BITS))
    }
}

/// The value that is set, or zero.
pub open spec fn or_zero(value: Option<Scalar>) -> Scalar {
    match value {
        Some(v) => v,
        None => Scalar::zero_value(),
    }
}

fn unwrap_or_zero(value: Option<Scalar>) -> (out: Scalar)
    ensures
        out == or_zero(value),
{
    match value {
        Some(v) => v,
        None => Scalar(0),
    }
}

/// The dimensions that a block container takes for known before it looks
/// at its children, from its style and what it is laid out with. Size,
/// minimum and maximum are resolved against the parent's size with the
/// aspect ratio applied; the width stretches to the space on offer less
/// the horizontal margins where nothing else settles it. No dimension is
/// less than what padding and border take.
#[verifier::opaque]
pub open spec fn block_known_dimensions_of(style: Style, inputs: LayoutInput) -> Size<Option<Scalar>> {
    let settled = known_dimensions_of(
        inputs.known_dimensions,
        resolved_size_of(style.min_size, inputs.parent_size, style.aspect_ratio),
        resolved_size_of(style.max_size, inputs.parent_size, style.aspect_ratio),
        resolved_size_of(style.size, inputs.parent_size, style.aspect_ratio),
        less_of(
            inputs.available_space.width.amount(),
            style.margin.resolved_or_zero(inputs.parent_size.width).horizontal_sum(),
        ),
    );
    let padding_border = style.padding.resolved_or_zero(inputs.parent_size.width).added(
        style.border.resolved_or_zero(inputs.parent_size.width),
    ).axis_sums();
    Size {
        width: max_of(settled.width, Some(padding_border.width)),
        height: max_of(settled.height, Some(padding_border.height)),
    }
}

/// The dimensions that a block container takes for known before it looks
/// at its children.
pub fn block_known_dimensions(style: &Style, inputs: LayoutInput) -> (known: Size<Option<Scalar>>)
    ensures
        known == block_known_dimensions_of(*style, inputs),
{
    proof {
        reveal(block_known_dimensions_of);
    }
    let aspect_ratio = style.aspect_ratio;
    let margin = style.margin.resolve_or_zero(inputs.parent_size.width);
    let min_size = resolved_size(&style.min_size, inputs.parent_size, aspect_ratio);
    let max_size = resolved_size(&style.max_size, inputs.parent_size, aspect_ratio);
    let style_size = resolved_size(&style.size, inputs.parent_size, aspect_ratio);
    let stretch_width = crate::math::maybe_sub(
        inputs.available_space.width.into_option(),
        margin.horizontal_axis_sum(),
    );
    let padding_border = style.padding.resolve_or_zero(inputs.parent_size.width).plus(
        &style.border.resolve_or_zero(inputs.parent_size.width),
    ).sum_axes();
    styled_based_known_dimensions(
        inputs.known_dimensions,
        min_size,
        max_size,
        style_size,
        stretch_width,
    ).maybe_max(padding_border.map_some())
}

/// What block layout works with for a container: its sizes and insets,
/// resolved against the parent's size, and how its margins behave.
#[derive(Copy, Clone, Debug, PartialEq, Eq, Structural)]
pub struct BlockBox {
    /// The preferred size.
    pub size: Size<Option<Scalar>>,
    /// The least size.
    pub min_size: Size<Option<Scalar>>,
    /// The greatest size.
    pub max_size: Size<Option<Scalar>>,
    /// The padding.
    pub padding: Rect<Scalar>,
    /// The border.
    pub border: Rect<Scalar>,
    /// The room that scrollbars take.
    pub scrollbar_gutter: Rect<Scalar>,
    /// What padding, border and scrollbars take.
    pub content_box_inset: Rect<Scalar>,
    /// The size of the content box, where the size of the container is known.
    pub container_content_box_size: Size<Option<Scalar>>,
    /// Whether the container's own margins collapse with its children's.
    pub own_margins_collapse_with_children: Line<bool>,
    /// Whether the style keeps margins from collapsing through the container.
    pub keeps_margins_apart: bool,
}

/// The sizes and insets of a block container.
#[verifier::opaque]
pub open spec fn block_box_of(style: Style, inputs: LayoutInput) -> BlockBox {
    let size = resolved_size_of(style.size, inputs.parent_size, style.aspect_ratio);
    let padding = style.padding.resolved_or_zero(inputs.parent_size.width);
    let border = style.border.resolved_or_zero(inputs.parent_size.width);
    let scrollbar_gutter = crate::compute::leaf::scrollbar_gutter_of(style);
    let content_box_inset = padding.added(border).added(scrollbar_gutter);
    BlockBox {
        size,
        min_size: resolved_size_of(style.min_size, inputs.parent_size, style.aspect_ratio),
        max_size: resolved_size_of(style.max_size, inputs.parent_size, style.aspect_ratio),
        padding,
        border,
        scrollbar_gutter,
        content_box_inset,
        container_content_box_size: inputs.known_dimensions.reduced_by(content_box_inset.axis_sums()),
        own_margins_collapse_with_children: margins_collapse_with_children(
            style,
            inputs.vertical_margins_are_collapsible,
            padding,
            border,
            size,
        ),
        keeps_margins_apart: keeps_margins_apart(style, padding, border),
    }
}

/// The sizes and insets of a block container.
pub fn block_box(style: &Style, inputs: LayoutInput) -> (container: BlockBox)
    ensures
        container == block_box_of(*style, inputs),
{
    proof {
        reveal(block_box_of);
    }
    let size = resolved_size(&style.size, inputs.parent_size, style.aspect_ratio);
    let padding = style.padding.resolve_or_zero(inputs.parent_size.width);
    let border = style.border.resolve_or_zero(inputs.parent_size.width);
    let scrollbar_gutter = crate::compute::leaf::scrollbar_gutter(style);
    let content_box_inset = padding.plus(&border).plus(&scrollbar_gutter);
    BlockBox {
        size,
        min_size: resolved_size(&style.min_size, inputs.parent_size, style.aspect_ratio),
        max_size: resolved_size(&style.max_size, inputs.parent_size, style.aspect_ratio),
        padding,
        border,
        scrollbar_gutter,
        content_box_inset,
        container_content_box_size: inputs.known_dimensions.maybe_sub(content_box_inset.sum_axes()),
        own_margins_collapse_with_children: own_margins_collapse_with_children(
            style,
            inputs.vertical_margins_are_collapsible,
            padding,
            border,
            size,
        ),
        keeps_margins_apart: has_styles_preventing_being_collapsed_through(style, padding, border),
    }
}

/// A full layout of a child under its own size styles.
pub open spec fn child_request(
    known_dimensions: Size<Option<Scalar>>,
    parent_size: Size<Option<Scalar>>,
    available_space: Size<AvailableSpace>,
    sizing_mode: SizingMode,
    collapsible: bool,
) -> LayoutInput {
    LayoutInput {
        run_mode: RunMode::PerformLayout,
        sizing_mode,
        known_dimensions,
        parent_size,
        available_space,
        vertical_margins_are_collapsible: Line { start: collapsible, end: collapsible },
    }
}

/// What an in-flow child is laid out with when the width of the content
/// is asked for: its own bounded size, no parent size, and the available
/// width less its horizontal margins under a min-content height.
#[verifier::opaque]
pub open spec fn content_width_request_of(
    item: BlockItem,
    child_margin: Rect<LengthPercentageAuto>,
    available_width: AvailableSpace,
) -> LayoutInput {
    child_request(
        item.size.clamped(item.min_size, item.max_size),
        Size { width: None, height: None },
        Size {
            width: available_width.reduced_by(
                child_margin.resolved_or_zero(available_width.amount()).horizontal_sum(),
            ),
            height: AvailableSpace::MinContent,
        },
        SizingMode::InherentSize,
        true,
    )
}

/// What an in-flow child is laid out with when the width of the content is asked for.
pub fn content_width_request(
    item: &BlockItem,
    child_margin: &Rect<LengthPercentageAuto>,
    available_width: AvailableSpace,
) -> (request: LayoutInput)
    ensures
        request == content_width_request_of(*item, *child_margin, available_width),
{
    proof {
        reveal(content_width_request_of);
    }
    let margin_sum = child_margin.resolve_or_zero(available_width.into_option()).horizontal_axis_sum();
    LayoutInput {
        run_mode: RunMode::PerformLayout,
        sizing_mode: SizingMode::InherentSize,
        known_dimensions: item.size.maybe_clamp(item.min_size, item.max_size),
        parent_size: Size { width: None, height: None },
        available_space: Size {
            width: available_width.maybe_sub(margin_sum),
            height: AvailableSpace::MinContent,
        },
        vertical_margins_are_collapsible: Line { start: true, end: true },
    }
}

/// The width that an in-flow child asks of the content: its known width,
/// or the width of its layout with its horizontal margins; but not less
/// than its padding and border take.
pub open spec fn content_width_of(
    item: BlockItem,
    child_margin: Rect<LengthPercentageAuto>,
    available_width: AvailableSpace,
    laid_out_width: Scalar,
) -> Scalar {
    (match clamp_of(item.size.width, item.min_size.width, item.max_size.width) {
        Some(width) => width,
        None => laid_out_width.sum(
            child_margin.resolved_or_zero(available_width.amount()).horizontal_sum(),
        ),
    }).larger(item.padding_border_sum.width)
}

/// Whether the width that an in-flow child asks of the content takes a layout of the child.
pub fn content_width_takes_layout(item: &BlockItem) -> (needed: bool)
    ensures
        needed == (clamp_of(item.size.width, item.min_size.width, item.max_size.width) is None),
{
    crate::math::maybe_clamp(item.size.width, item.min_size.width, item.max_size.width).is_none()
}

/// The width that an in-flow child asks of the content.
pub fn content_width(
    item: &BlockItem,
    child_margin: &Rect<LengthPercentageAuto>,
    available_width: AvailableSpace,
    laid_out_width: Scalar,
) -> (width: Scalar)
    ensures
        width == content_width_of(*item, *child_margin, available_width, laid_out_width),
{
    let width = match crate::math::maybe_clamp(
        item.size.width,
        item.min_size.width,
        item.max_size.width,
    ) {
        Some(width) => width,
        None => laid_out_width.plus(
            child_margin.resolve_or_zero(available_width.into_option()).horizontal_axis_sum(),
        ),
    };
    width.max(item.padding_border_sum.width)
}

/// The width of a container whose width is not known: the widest that a
/// child asks of the content, with the container's insets, bounded by
/// minimum and maximum; but not less than padding and border take.
pub open spec fn intrinsic_outer_width_of(container: BlockBox, max_child_width: Scalar) -> Scalar {
    clamp_value_of(
        max_child_width.sum(container.content_box_inset.horizontal_sum()),
        container.min_size.width,
        container.max_size.width,
    ).larger(container.padding.added(container.border).horizontal_sum())
}

/// The height of a container whose height is not known: the height of
/// its content, bounded by minimum and maximum; but not less than padding
/// and border take.
pub open spec fn intrinsic_outer_height_of(container: BlockBox, content_height: Scalar) -> Scalar {
    clamp_value_of(content_height, container.min_size.height, container.max_size.height).larger(
        container.padding.added(container.border).vertical_sum(),
    )
}

/// The height of a container whose height is not known.
pub fn intrinsic_outer_height(container: &BlockBox, content_height: Scalar) -> (height: Scalar)
    ensures
        height == intrinsic_outer_height_of(*container, content_height),
{
    crate::math::clamp_value(content_height, container.min_size.height, container.max_size.height).max(
        container.padding.plus(&container.border).vertical_axis_sum(),
    )
}

/// The width of a container whose width is not known.
pub fn intrinsic_outer_width(container: &BlockBox, max_child_width: Scalar) -> (width: Scalar)
    ensures
        width == intrinsic_outer_width_of(*container, max_child_width),
{
    crate::math::clamp_value(
        max_child_width.plus(container.content_box_inset.horizontal_axis_sum()),
        container.min_size.width,
        container.max_size.width,
    ).max(container.padding.plus(&container.border).horizontal_axis_sum())
}

/// What the in-flow children of a container are laid out against.
#[derive(Copy, Clone, Debug, PartialEq, Eq, Structural)]
pub struct FlowContext {
    /// The width of the container's border box.
    pub container_outer_width: Scalar,
    /// The width of the container's content box.
    pub container_inner_width: Scalar,
    /// What padding, border and scrollbars take, resolved against the container's width.
    pub resolved_content_box_inset: Rect<Scalar>,
    /// Whether the container's own margins collapse with its children's.
    pub own_margins_collapse_with_children: Line<bool>,
}

/// How far down the flow has come, and the margins that it carries.
#[derive(Copy, Clone, Debug, PartialEq, Eq, Structural)]
pub struct FlowState {
    /// Where the next child that takes up room starts.
    pub committed_y_offset: Scalar,
    /// The margins carried from child to child.
    pub margins: FlowMargins,
}

/// What the in-flow children of a container of the given width are laid
/// out against: the inner width is the outer width less what the insets
/// take horizontally as first resolved; the insets themselves are
/// resolved anew against the container's width.
#[verifier::opaque]
pub open spec fn flow_context_of(style: Style, container: BlockBox, container_outer_width: Scalar) -> FlowContext {
    FlowContext {
        container_outer_width,
        container_inner_width: container_outer_width.difference(
            container.content_box_inset.horizontal_sum(),
        ),
        resolved_content_box_inset: style.padding.resolved_or_zero(
            Some(container_outer_width),
        ).added(style.border.resolved_or_zero(Some(container_outer_width))).added(
            container.scrollbar_gutter,
        ),
        own_margins_collapse_with_children: container.own_margins_collapse_with_children,
    }
}

/// What the in-flow children of a container of the given width are laid out against.
pub fn flow_context(style: &Style, container: &BlockBox, container_outer_width: Scalar) -> (context:
    FlowContext)
    ensures
        context == flow_context_of(*style, *container, container_outer_width),
{
    proof {
        reveal(flow_context_of);
    }
    let resolved_padding = style.padding.resolve_or_zero(Some(container_outer_width));
    let resolved_border = style.border.resolve_or_zero(Some(container_outer_width));
    FlowContext {
        container_outer_width,
        container_inner_width: container_outer_width.minus(
            container.content_box_inset.horizontal_axis_sum(),
        ),
        resolved_content_box_inset: resolved_padding.plus(&resolved_border).plus(
            &container.scrollbar_gutter,
        ),
        own_margins_collapse_with_children: container.own_margins_collapse_with_children,
    }
}

/// The flow before the first child: at the top of the content box, with no margins.
pub fn flow_start(context: &FlowContext) -> (state: FlowState)
    ensures
        state == (FlowState {
            committed_y_offset: context.resolved_content_box_inset.top,
            margins: FlowMargins::initial(),
        }),
{
    FlowState {
        committed_y_offset: context.resolved_content_box_inset.top,
        margins: FlowMargins::new(),
    }
}

/// The margins of a child that are not `auto`, left and right together.
pub open spec fn non_auto_x_margin_sum_of(item_margin: Rect<Option<Scalar>>) -> Scalar {
    or_zero(item_margin.left).sum(or_zero(item_margin.right))
}

/// What an in-flow child is laid out with: its bounded size, with the
/// inner width of the container less its horizontal margins for a width
/// that this leaves open; the container's width for the parent's; and
/// that same space on offer, under a min-content height. Its margins may
/// collapse with the container's.
#[verifier::opaque]
pub open spec fn in_flow_request_of(
    context: FlowContext,
    item: BlockItem,
    child_margin: Rect<LengthPercentageAuto>,
) -> LayoutInput {
    let item_margin = child_margin.resolved(context.container_outer_width);
    let x_margin_sum = non_auto_x_margin_sum_of(item_margin);
    let clamped = item.size.clamped(item.min_size, item.max_size);
    child_request(
        Size {
            width: Some(
                match clamped.width {
                    Some(width) => width,
                    None => context.container_inner_width.difference(x_margin_sum),
                },
            ),
            height: clamped.height,
        },
        Size { width: Some(context.container_outer_width), height: None },
        Size {
            width: AvailableSpace::Definite(context.container_inner_width.difference(x_margin_sum)),
            height: AvailableSpace::MinContent,
        },
        SizingMode::InherentSize,
        true,
    )
}

/// What an in-flow child is laid out with.
pub fn in_flow_request(
    context: &FlowContext,
    item: &BlockItem,
    child_margin: &Rect<LengthPercentageAuto>,
) -> (request: LayoutInput)
    ensures
        request == in_flow_request_of(*context, *item, *child_margin),
{
    proof {
        reveal(in_flow_request_of);
    }
    let item_margin = child_margin.resolve_to_option(context.container_outer_width);
    let x_margin_sum = unwrap_or_zero(item_margin.left).plus(unwrap_or_zero(item_margin.right));
    let stretch = context.container_inner_width.minus(x_margin_sum);
    LayoutInput {
        run_mode: RunMode::PerformLayout,
        sizing_mode: SizingMode::InherentSize,
        known_dimensions: in_flow_known_dimensions(item, stretch),
        parent_size: Size { width: Some(context.container_outer_width), height: None },
        available_space: Size {
            width: AvailableSpace::Definite(stretch),
            height: AvailableSpace::MinContent,
        },
        vertical_margins_are_collapsible: Line { start: true, end: true },
    }
}

/// Where an in-flow child stands and what the flow is after it, given the
/// layout of the child. The child's margins are gathered with those that
/// its layout reports; `auto` margins share the free horizontal space;
/// the inset moves the box without moving what follows; and the child
/// starts below what the flow has committed by the collapsed margin that
/// separates it from what stands above.
#[verifier::opaque]
pub open spec fn placed_in_flow_of(
    context: FlowContext,
    state: FlowState,
    item: BlockItem,
    child_margin: Rect<LengthPercentageAuto>,
    child_inset: Rect<LengthPercentageAuto>,
    item_layout: LayoutOutput,
) -> (FlowState, BlockItem, Layout) {
    let item_margin = child_margin.resolved(context.container_outer_width);
    let x_margin_sum = non_auto_x_margin_sum_of(item_margin);
    let top_set = item_layout.top_margin.with_margin(or_zero(item_margin.top));
    let bottom_set = item_layout.bottom_margin.with_margin(or_zero(item_margin.bottom));
    let free_x_space = Scalar::zero_value().larger(
        context.container_inner_width.difference(item_layout.size.width).difference(x_margin_sum),
    );
    let auto_margin = share_of(
        free_x_space,
        auto_margin_count(item_margin.left is None, item_margin.right is None, item.size.width is None),
    );
    let margin_left = match item_margin.left {
        Some(m) => m,
        None => auto_margin,
    };
    let offset_x = inset_offset_of(
        child_inset.left.resolved(context.container_inner_width),
        child_inset.right.resolved(context.container_inner_width),
    );
    let offset_y = inset_offset_of(
        child_inset.top.resolved(Scalar::zero_value()),
        child_inset.bottom.resolved(Scalar::zero_value()),
    );
    let y_margin_offset = if state.margins.is_collapsing_with_first_margin_set
        && context.own_margins_collapse_with_children.start {
        Scalar::zero_value()
    } else {
        state.margins.active_collapsible_margin_set.with_margin(top_set.resolved()).resolved()
    };
    let placed = BlockItem {
        computed_size: item_layout.size,
        baseline: item_layout.first_baselines.y,
        can_be_collapsed_through: item_layout.margins_can_collapse_through,
        static_position: Point {
            x: context.resolved_content_box_inset.left,
            y: state.committed_y_offset.sum(state.margins.active_collapsible_margin_set.resolved()),
        },
        ..item
    };
    let layout = Layout {
        order: item.order,
        size: item_layout.size,
        location: Point {
            x: context.resolved_content_box_inset.left.sum(offset_x).sum(margin_left),
            y: state.committed_y_offset.sum(offset_y).sum(y_margin_offset),
        },
    };
    let next = FlowState {
        committed_y_offset: if item_layout.margins_can_collapse_through {
            state.committed_y_offset
        } else {
            state.committed_y_offset.sum(item_layout.size.height.sum(y_margin_offset))
        },
        margins: state.margins.after(top_set, bottom_set, item_layout.margins_can_collapse_through),
    };
    (next, placed, layout)
}

/// Where an in-flow child stands and what the flow is after it.
pub fn place_in_flow_item(
    context: &FlowContext,
    state: FlowState,
    item: BlockItem,
    child_margin: &Rect<LengthPercentageAuto>,
    child_inset: &Rect<LengthPercentageAuto>,
    item_layout: LayoutOutput,
) -> (placed: (FlowState, BlockItem, Layout))
    ensures
        placed == placed_in_flow_of(
            *context,
            state,
            item,
            *child_margin,
            *child_inset,
            item_layout,
        ),
{
    proof {
        reveal(placed_in_flow_of);
    }
    let item_margin = child_margin.resolve_to_option(context.container_outer_width);
    let x_margin_sum = unwrap_or_zero(item_margin.left).plus(unwrap_or_zero(item_margin.right));
    let top_set = item_margin_set(item_layout.top_margin, item_margin.top);
    let bottom_set = item_margin_set(item_layout.bottom_margin, item_margin.bottom);
    let free_x_space = Scalar(0).max(
        context.container_inner_width.minus(item_layout.size.width).minus(x_margin_sum),
    );
    let auto_margin = share(
        free_x_space,
        in_flow_auto_margin_divisor(item_margin.left, item_margin.right, item.size.width),
    );
    let margin_left = resolved_margin_at(item_margin.left, auto_margin);
    let offset_x = inset_offset_along(
        child_inset.left.resolve_to_option(context.container_inner_width),
        child_inset.right.resolve_to_option(context.container_inner_width),
    );
    let offset_y = inset_offset_along(
        child_inset.top.resolve_to_option(Scalar(0)),
        child_inset.bottom.resolve_to_option(Scalar(0)),
    );
    let y_margin_offset = match state.margins.offset_set(
        context.own_margins_collapse_with_children.start,
        top_set.resolve(),
    ) {
        Some(set) => set.resolve(),
        None => Scalar(0),
    };
    let mut placed = item;
    placed.computed_size = item_layout.size;
    placed.baseline = item_layout.first_baselines.y;
    placed.can_be_collapsed_through = item_layout.margins_can_collapse_through;
    placed.static_position = Point {
        x: context.resolved_content_box_inset.left,
        y: state.committed_y_offset.plus(state.margins.active_collapsible_margin_set.resolve()),
    };
    let layout = Layout {
        order: item.order,
        size: item_layout.size,
        location: Point {
            x: context.resolved_content_box_inset.left.plus(offset_x).plus(margin_left),
            y: state.committed_y_offset.plus(offset_y).plus(y_margin_offset),
        },
    };
    let (margins, takes_up_room) = state.margins.advance(
        top_set,
        bottom_set,
        item_layout.margins_can_collapse_through,
    );
    let committed_y_offset = if takes_up_room {
        state.committed_y_offset.plus(item_layout.size.height.plus(y_margin_offset))
    } else {
        state.committed_y_offset
    };
    (FlowState { committed_y_offset, margins }, placed, layout)
}

/// An item out of the flow keeps the place where it would have stood in it.
pub fn note_static_position(state: &FlowState, item: BlockItem) -> (noted: BlockItem)
    ensures
        noted == (BlockItem {
            static_position: Point { x: item.static_position.x, y: state.committed_y_offset },
            ..item
        }),
{
    let mut noted = item;
    noted.static_position.y = state.committed_y_offset;
    noted
}

/// The height of the content once the flow has ended, with the margin
/// sets that meet at the container's top and bottom edge: what the flow
/// has committed, with the bottom insets and, where they do not collapse
/// with the container's own margin, the margins below the last child;
/// but not less than nothing.
#[verifier::opaque]
pub open spec fn flow_end_of(context: FlowContext, state: FlowState) -> (
    Scalar,
    CollapsibleMarginSet,
    CollapsibleMarginSet,
) {
    let bottom_y_margin_offset = if context.own_margins_collapse_with_children.end {
        Scalar::zero_value()
    } else {
        state.margins.active_collapsible_margin_set.resolved()
    };
    (
        Scalar::zero_value().larger(
            state.committed_y_offset.sum(
                context.resolved_content_box_inset.bottom.sum(bottom_y_margin_offset),
            ),
        ),
        state.margins.first_child_top_margin_set,
        state.margins.active_collapsible_margin_set,
    )
}

/// The height of the content once the flow has ended, with the margin
/// sets that meet at the container's top and bottom edge.
pub fn flow_end(context: &FlowContext, state: &FlowState) -> (end: (
    Scalar,
    CollapsibleMarginSet,
    CollapsibleMarginSet,
))
    ensures
        end == flow_end_of(*context, *state),
{
    proof {
        reveal(flow_end_of);
    }
    let bottom_y_margin_offset = match state.margins.trailing_set(
        context.own_margins_collapse_with_children.end,
    ) {
        Some(set) => set.resolve(),
        None => Scalar(0),
    };
    (
        content_height(
            state.committed_y_offset.plus(
                context.resolved_content_box_inset.bottom.plus(bottom_y_margin_offset),
            ),
        ),
        state.margins.first_child_top_margin_set,
        state.margins.active_collapsible_margin_set,
    )
}

/// The area in which absolutely placed children are placed: the padding
/// box of the container, as its size and the offset of its corner.
#[verifier::opaque]
pub open spec fn absolute_area_of(context: FlowContext, style: Style, container: BlockBox, final_outer_size: Size<Scalar>) -> (
    Size<Scalar>,
    Point<Scalar>,
) {
    let inset = style.border.resolved_or_zero(Some(context.container_outer_width)).added(
        container.scrollbar_gutter,
    );
    (final_outer_size.reduced_by(inset.axis_sums()), Point { x: inset.left, y: inset.top })
}

/// The area in which absolutely placed children are placed.
pub fn absolute_area(
    context: &FlowContext,
    style: &Style,
    container: &BlockBox,
    final_outer_size: Size<Scalar>,
) -> (area: (Size<Scalar>, Point<Scalar>))
    ensures
        area == absolute_area_of(*context, *style, *container, final_outer_size),
{
    proof {
        reveal(absolute_area_of);
    }
    let inset = style.border.resolve_or_zero(Some(context.container_outer_width)).plus(
        &container.scrollbar_gutter,
    );
    (final_outer_size.minus(inset.sum_axes()), Point { x: inset.left, y: inset.top })
}

/// What the layout of an absolutely placed child works with.
#[derive(Copy, Clone, Debug, PartialEq, Eq, Structural)]
pub struct AbsoluteBox {
    /// The margins; nothing where one is `auto`.
    pub margin: Rect<Option<Scalar>>,
    /// The insets; nothing where one is `auto`.
    pub inset: Rect<Option<Scalar>>,
    /// The size that the style states.
    pub style_size: Size<Option<Scalar>>,
    /// The least size, which is at least what padding and border take.
    pub min_size: Size<Option<Scalar>>,
    /// The greatest size.
    pub max_size: Size<Option<Scalar>>,
    /// The dimensions that are known before the child is laid out.
    pub known_dimensions: Size<Option<Scalar>>,
}

/// The size along an axis that insets at both ends leave: the area less
/// the margins that are set, less the insets; but not less than nothing.
pub open spec fn size_between_of(
    area: Scalar,
    margin_start: Option<Scalar>,
    margin_end: Option<Scalar>,
    start: Scalar,
    end: Scalar,
) -> Scalar {
    less_where_set(less_where_set(area, margin_start), margin_end).difference(start).difference(
        end,
    ).larger(Scalar::zero_value())
}

/// The dimensions of an absolutely placed child once the width is taken
/// from the insets where it follows from them.
pub open spec fn with_width_from_insets(
    known: Size<Option<Scalar>>,
    area_width: Scalar,
    margin: Rect<Option<Scalar>>,
    inset: Rect<Option<Scalar>>,
    aspect_ratio: Option<Scalar>,
    min_size: Size<Option<Scalar>>,
    max_size: Size<Option<Scalar>>,
) -> Size<Option<Scalar>> {
    if known.width is None && inset.left is Some && inset.right is Some {
        with_aspect_ratio(
            Size {
                width: Some(
                    size_between_of(
                        area_width,
                        margin.left,
                        margin.right,
                        inset.left.unwrap(),
                        inset.right.unwrap(),
                    ),
                ),
                height: known.height,
            },
            aspect_ratio,
        ).clamped(min_size, max_size)
    } else {
        known
    }
}

/// The dimensions of an absolutely placed child once the height is taken
/// from the insets where it follows from them.
pub open spec fn with_height_from_insets(
    known: Size<Option<Scalar>>,
    area_height: Scalar,
    margin: Rect<Option<Scalar>>,
    inset: Rect<Option<Scalar>>,
    aspect_ratio: Option<Scalar>,
    min_size: Size<Option<Scalar>>,
    max_size: Size<Option<Scalar>>,
) -> Size<Option<Scalar>> {
    if known.height is None && inset.top is Some && inset.bottom is Some {
        with_aspect_ratio(
            Size {
                width: known.width,
                height: Some(
                    size_between_of(
                        area_height,
                        margin.top,
                        margin.bottom,
                        inset.top.unwrap(),
                        inset.bottom.unwrap(),
                    ),
                ),
            },
            aspect_ratio,
        ).clamped(min_size, max_size)
    } else {
        known
    }
}

/// What the layout of an absolutely placed child works with: margins and
/// insets resolved against the area, the sizes of the style resolved
/// against it with the aspect ratio applied, and the dimensions that are
/// known: the bounded size of the style, with each dimension that this
/// leaves open taken from the insets where both are set.
#[verifier::opaque]
pub open spec fn absolute_box_of(child_style: Style, area_size: Size<Scalar>) -> AbsoluteBox {
    let area = Size { width: Some(area_size.width), height: Some(area_size.height) };
    let margin = child_style.margin.resolved(area_size.width);
    let padding_border_sum = child_style.padding.resolved_or_zero(Some(area_size.width)).added(
        child_style.border.resolved_or_zero(Some(area_size.width)),
    ).axis_sums();
    let inset = Rect {
        left: child_style.inset.left.resolved(area_size.width),
        right: child_style.inset.right.resolved(area_size.width),
        top: child_style.inset.top.resolved(area_size.height),
        bottom: child_style.inset.bottom.resolved(area_size.height),
    };
    let style_size = resolved_size_of(child_style.size, area, child_style.aspect_ratio);
    let stated_min = resolved_size_of(child_style.min_size, area, child_style.aspect_ratio);
    let min_size = Size {
        width: Some(
            match stated_min.width {
                Some(min) => min.larger(padding_border_sum.width),
                None => padding_border_sum.width,
            },
        ),
        height: Some(
            match stated_min.height {
                Some(min) => min.larger(padding_border_sum.height),
                None => padding_border_sum.height,
            },
        ),
    };
    let max_size = resolved_size_of(child_style.max_size, area, child_style.aspect_ratio);
    let from_style = style_size.clamped(min_size, max_size);
    let with_width = with_width_from_insets(
        from_style,
        area_size.width,
        margin,
        inset,
        child_style.aspect_ratio,
        min_size,
        max_size,
    );
    AbsoluteBox {
        margin,
        inset,
        style_size,
        min_size,
        max_size,
        known_dimensions: with_height_from_insets(
            with_width,
            area_size.height,
            margin,
            inset,
            child_style.aspect_ratio,
            min_size,
            max_size,
        ),
    }
}

fn size_between(
    area: Scalar,
    margin_start: Option<Scalar>,
    margin_end: Option<Scalar>,
    start: Scalar,
    end: Scalar,
) -> (size: Scalar)
    ensures
        size == size_between_of(area, margin_start, margin_end, start, end),
{
    crate::math::sub_where_set(crate::math::sub_where_set(area, margin_start), margin_end).minus(
        start,
    ).minus(end).max(Scalar(0))
}

/// What the layout of an absolutely placed child works with.
pub fn absolute_box(child_style: &Style, area_size: Size<Scalar>) -> (child: AbsoluteBox)
    ensures
        child == absolute_box_of(*child_style, area_size),
{
    proof {
        reveal(absolute_box_of);
    }
    let area = area_size.map_some();
    let aspect_ratio = child_style.aspect_ratio;
    let margin = child_style.margin.resolve_to_option(area_size.width);
    let padding_border_sum = child_style.padding.resolve_or_zero(Some(area_size.width)).plus(
        &child_style.border.resolve_or_zero(Some(area_size.width)),
    ).sum_axes();
    let inset = Rect {
        left: child_style.inset.left.resolve_to_option(area_size.width),
        right: child_style.inset.right.resolve_to_option(area_size.width),
        top: child_style.inset.top.resolve_to_option(area_size.height),
        bottom: child_style.inset.bottom.resolve_to_option(area_size.height),
    };
    let style_size = resolved_size(&child_style.size, area, aspect_ratio);
    let min_size = absolute_min_size(
        resolved_size(&child_style.min_size, area, aspect_ratio),
        padding_border_sum,
    );
    let max_size = resolved_size(&child_style.max_size, area, aspect_ratio);
    let mut known_dimensions = style_size.maybe_clamp(min_size, max_size);
    match (known_dimensions.width, inset.left, inset.right) {
        (None, Some(left), Some(right)) => {
            known_dimensions.width = Some(
                size_between(area_size.width, margin.left, margin.right, left, right),
            );
            known_dimensions = maybe_apply_aspect_ratio(known_dimensions, aspect_ratio).maybe_clamp(
                min_size,
                max_size,
            );
        },
        _ => {},
    }
    match (known_dimensions.height, inset.top, inset.bottom) {
        (None, Some(top), Some(bottom)) => {
            known_dimensions.height = Some(
                size_between(area_size.height, margin.top, margin.bottom, top, bottom),
            );
            known_dimensions = maybe_apply_aspect_ratio(known_dimensions, aspect_ratio).maybe_clamp(
                min_size,
                max_size,
            );
        },
        _ => {},
    }
    AbsoluteBox { margin, inset, style_size, min_size, max_size, known_dimensions }
}

/// What an absolutely placed child is laid out with: its known
/// dimensions, the area for the parent's size, the area bounded by the
/// child's minimum and maximum for the space on offer, and its content
/// alone deciding what is left open.
#[verifier::opaque]
pub open spec fn absolute_request_of(child: AbsoluteBox, area_size: Size<Scalar>) -> LayoutInput {
    child_request(
        child.known_dimensions,
        Size { width: Some(area_size.width), height: Some(area_size.height) },
        Size {
            width: AvailableSpace::Definite(
                clamp_value_of(area_size.width, child.min_size.width, child.max_size.width),
            ),
            height: AvailableSpace::Definite(
                clamp_value_of(area_size.height, child.min_size.height, child.max_size.height),
            ),
        },
        SizingMode::ContentSize,
        false,
    )
}

/// What an absolutely placed child is laid out with.
pub fn absolute_request(child: &AbsoluteBox, area_size: Size<Scalar>) -> (request: LayoutInput)
    ensures
        request == absolute_request_of(*child, area_size),
{
    proof {
        reveal(absolute_request_of);
    }
    LayoutInput {
        run_mode: RunMode::PerformLayout,
        sizing_mode: SizingMode::ContentSize,
        known_dimensions: child.known_dimensions,
        parent_size: area_size.map_some(),
        available_space: Size {
            width: AvailableSpace::Definite(
                crate::math::clamp_value(area_size.width, child.min_size.width, child.max_size.width),
            ),
            height: AvailableSpace::Definite(
                crate::math::clamp_value(
                    area_size.height,
                    child.min_size.height,
                    child.max_size.height,
                ),
            ),
        },
        vertical_margins_are_collapsible: Line { start: false, end: false },
    }
}

/// The offset along one axis of an absolutely placed box from the corner
/// of the area: from the start edge by inset and margin where the inset
/// at the start is set; else from the end edge where that inset is set;
/// else the place in the flow, where one is kept for the axis, with the
/// margin.
pub open spec fn absolute_offset_of(
    start: Option<Scalar>,
    end: Option<Scalar>,
    margin_start: Scalar,
    margin_end: Scalar,
    area: Scalar,
    size: Scalar,
    static_offset: Option<Scalar>,
) -> Scalar {
    match (start, end) {
        (Some(start), _) => start.sum(margin_start),
        (None, Some(end)) => area.difference(size).difference(end).difference(margin_end),
        (None, None) => match static_offset {
            Some(offset) => offset.sum(margin_start),
            None => margin_start,
        },
    }
}

fn absolute_offset(
    start: Option<Scalar>,
    end: Option<Scalar>,
    margin_start: Scalar,
    margin_end: Scalar,
    area: Scalar,
    size: Scalar,
    static_offset: Option<Scalar>,
) -> (offset: Scalar)
    ensures
        offset == absolute_offset_of(start, end, margin_start, margin_end, area, size, static_offset),
{
    match (start, end) {
        (Some(start), _) => start.plus(margin_start),
        (None, Some(end)) => area.minus(size).minus(end).minus(margin_end),
        (None, None) => match static_offset {
            Some(offset) => offset.plus(margin_start),
            None => margin_start,
        },
    }
}

/// The margin at each end of an axis of an absolutely placed box once
/// `auto` margins are resolved. `auto` margins share what the insets
/// leave of the area beside the box and the margins that are set; without
/// an inset at the end they have nothing to share.
pub open spec fn absolute_margins_of(
    start: Option<Scalar>,
    end: Option<Scalar>,
    margin_start: Option<Scalar>,
    margin_end: Option<Scalar>,
    style_size: Option<Scalar>,
    area: Scalar,
    size: Scalar,
    set_margin_sum: Scalar,
) -> (Scalar, Scalar) {
    let space = match end {
        Some(end) => area.difference(end).difference(or_zero(start)),
        None => size,
    };
    let free_space = space.difference(size).difference(set_margin_sum);
    let auto_margin = share_of(
        free_space,
        auto_margin_count(
            margin_start is None,
            margin_end is None,
            match style_size {
                Some(stated) => free_space.less_eq(stated),
                None => true,
            },
        ),
    );
    (
        match margin_start {
            Some(m) => m,
            None => auto_margin,
        },
        match margin_end {
            Some(m) => m,
            None => auto_margin,
        },
    )
}

fn absolute_margins(
    start: Option<Scalar>,
    end: Option<Scalar>,
    margin_start: Option<Scalar>,
    margin_end: Option<Scalar>,
    style_size: Option<Scalar>,
    area: Scalar,
    size: Scalar,
    set_margin_sum: Scalar,
) -> (margins: (Scalar, Scalar))
    ensures
        margins == absolute_margins_of(
            start,
            end,
            margin_start,
            margin_end,
            style_size,
            area,
            size,
            set_margin_sum,
        ),
{
    let space = match end {
        Some(end) => area.minus(end).minus(unwrap_or_zero(start)),
        None => size,
    };
    let free_space = space.minus(size).minus(set_margin_sum);
    let auto_margin = share(
        free_space,
        absolute_auto_margin_divisor(margin_start, margin_end, style_size, free_space),
    );
    (resolved_margin_at(margin_start, auto_margin), resolved_margin_at(margin_end, auto_margin))
}

/// Where an absolutely placed child stands, given a layout of it: its
/// size is what is known of it, else what was measured, bounded by
/// minimum and maximum; its corner is offset from the corner of the area
/// along each axis as its insets and margins say.
#[verifier::opaque]
pub open spec fn placed_absolute_of(
    child: AbsoluteBox,
    item: BlockItem,
    measured_size: Size<Scalar>,
    area_size: Size<Scalar>,
    area_offset: Point<Scalar>,
) -> Layout {
    let size = Size {
        width: clamp_value_of(
            match child.known_dimensions.width {
                Some(width) => width,
                None => measured_size.width,
            },
            child.min_size.width,
            child.max_size.width,
        ),
        height: clamp_value_of(
            match child.known_dimensions.height {
                Some(height) => height,
                None => measured_size.height,
            },
            child.min_size.height,
            child.max_size.height,
        ),
    };
    let set_margins = Rect {
        left: non_auto_margin_of(child.inset.left, child.margin.left),
        right: non_auto_margin_of(child.inset.right, child.margin.right),
        top: non_auto_margin_of(child.inset.top, child.margin.top),
        bottom: non_auto_margin_of(child.inset.bottom, child.margin.bottom),
    };
    let x_margins = absolute_margins_of(
        child.inset.left,
        child.inset.right,
        child.margin.left,
        child.margin.right,
        child.style_size.width,
        area_size.width,
        size.width,
        set_margins.horizontal_sum(),
    );
    let y_margins = absolute_margins_of(
        child.inset.top,
        child.inset.bottom,
        child.margin.top,
        child.margin.bottom,
        child.style_size.height,
        area_size.height,
        size.height,
        set_margins.vertical_sum(),
    );
    Layout {
        order: item.order,
        size,
        location: Point {
            x: area_offset.x.sum(
                absolute_offset_of(
                    child.inset.left,
                    child.inset.right,
                    x_margins.0,
                    x_margins.1,
                    area_size.width,
                    size.width,
                    None,
                ),
            ),
            y: area_offset.y.sum(
                absolute_offset_of(
                    child.inset.top,
                    child.inset.bottom,
                    y_margins.0,
                    y_margins.1,
                    area_size.height,
                    size.height,
                    Some(item.static_position.y),
                ),
            ),
        },
    }
}

/// Where an absolutely placed child stands, given a layout of it.
pub fn place_absolute_item(
    child: &AbsoluteBox,
    item: &BlockItem,
    measured_size: Size<Scalar>,
    area_size: Size<Scalar>,
    area_offset: Point<Scalar>,
) -> (layout: Layout)
    ensures
        layout == placed_absolute_of(*child, *item, measured_size, area_size, area_offset),
{
    proof {
        reveal(placed_absolute_of);
    }
    let size = absolute_final_size(
        child.known_dimensions,
        measured_size,
        child.min_size,
        child.max_size,
    );
    let set_margins = non_auto_margin(child.inset, child.margin);
    let x_margins = absolute_margins(
        child.inset.left,
        child.inset.right,
        child.margin.left,
        child.margin.right,
        child.style_size.width,
        area_size.width,
        size.width,
        set_margins.horizontal_axis_sum(),
    );
    let y_margins = absolute_margins(
        child.inset.top,
        child.inset.bottom,
        child.margin.top,
        child.margin.bottom,
        child.style_size.height,
        area_size.height,
        size.height,
        set_margins.vertical_axis_sum(),
    );
    Layout {
        order: item.order,
        size,
        location: Point {
            x: area_offset.x.plus(
                absolute_offset(
                    child.inset.left,
                    child.inset.right,
                    x_margins.0,
                    x_margins.1,
                    area_size.width,
                    size.width,
                    None,
                ),
            ),
            y: area_offset.y.plus(
                absolute_offset(
                    child.inset.top,
                    child.inset.bottom,
                    y_margins.0,
                    y_margins.1,
                    area_size.height,
                    size.height,
                    Some(item.static_position.y),
                ),
            ),
        },
    }
}

/// Where minimum and maximum conflict along the width, the minimum
/// decides the width of a block container that the parent has not
/// settled, whatever the style's size and the space on offer, as long as
/// padding and border take less.
pub proof fn lemma_block_min_overrides_max(style: Style, inputs: LayoutInput, a: Scalar, b: Scalar)
    requires
        inputs.known_dimensions.width is None,
        resolved_size_of(style.min_size, inputs.parent_size, style.aspect_ratio).width == Some(a),
        resolved_size_of(style.max_size, inputs.parent_size, style.aspect_ratio).width == Some(b),
        b.less(a),
        style.padding.resolved_or_zero(inputs.parent_size.width).added(
            style.border.resolved_or_zero(inputs.parent_size.width),
        ).horizontal_sum().less(a),
    ensures
        block_known_dimensions_of(style, inputs).width == Some(a),
{
    reveal(block_known_dimensions_of);
}

/// The height of a block container that is left to its content is
/// finite and not negative, and not less than padding and border take,
/// where those and the bounds are finite and not negative and the
/// content is of finite height.
pub proof fn lemma_block_height_is_finite_and_not_negative(container: BlockBox, content_height: Scalar)
    requires
        content_height.finite(),
        container.min_size.height is Some ==> container.min_size.height.unwrap().finite(),
        container.max_size.height is Some ==> container.max_size.height.unwrap().finite(),
        container.padding.added(container.border).vertical_sum().finite(),
        Scalar::zero_value().less_eq(container.padding.added(container.border).vertical_sum()),
    ensures
        intrinsic_outer_height_of(container, content_height).finite(),
        Scalar::zero_value().less_eq(intrinsic_outer_height_of(container, content_height)),
        container.padding.added(container.border).vertical_sum().less_eq(
            intrinsic_outer_height_of(container, content_height),
        ),
{
}

/// The width of a block container that is left to its content is finite
/// and not negative, and not less than padding and border take, where
/// those and the bounds are finite and not negative and the content with
/// the insets is of finite width.
pub proof fn lemma_block_width_is_finite_and_not_negative(container: BlockBox, max_child_width: Scalar)
    requires
        max_child_width.sum(container.content_box_inset.horizontal_sum()).finite(),
        container.min_size.width is Some ==> container.min_size.width.unwrap().finite(),
        container.max_size.width is Some ==> container.max_size.width.unwrap().finite(),
        container.padding.added(container.border).horizontal_sum().finite(),
        Scalar::zero_value().less_eq(container.padding.added(container.border).horizontal_sum()),
    ensures
        intrinsic_outer_width_of(container, max_child_width).finite(),
        Scalar::zero_value().less_eq(intrinsic_outer_width_of(container, max_child_width)),
        container.padding.added(container.border).horizontal_sum().less_eq(
            intrinsic_outer_width_of(container, max_child_width),
        ),
{
}

} // verus!
