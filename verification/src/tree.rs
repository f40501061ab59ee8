//! Node identity, what a layout run takes and gives, and the arena that owns the nodes.

pub mod cache;
pub mod slots;
pub mod taffy_tree;

use crate::geometry::{Line, Point, Size};
use crate::scalar::Scalar;
use crate::style::dimension::AvailableSpace;
use vstd::prelude::*;

verus! {

/// The identity of a node. The engine treats it as an opaque number.
#[derive(Copy, Clone, Debug, PartialEq, Eq, Hash, Structural)]
pub struct NodeId(pub u64);

impl NodeId {
    /// The node with the given number.
    pub fn new(value: u64) -> (id: NodeId)
        ensures
            id.0 == value,
    {
        NodeId(value)
    }

    /// The number of the node.
    pub fn value(self) -> (value: u64)
        ensures
            value == self.0,
    {
        self.0
    }
}

/// What a layout run is asked to produce.
#[derive(Copy, Clone, Debug, PartialEq, Eq, Structural)]
pub enum RunMode {
    /// Sizes and positions of the node and everything below it.
    PerformLayout,
    /// The node's size only.
    ComputeSize,
    /// Zeroed layouts for a subtree that makes no boxes.
    PerformHiddenLayout,
}

/// Whether a node's own size styles apply.
#[derive(Copy, Clone, Debug, PartialEq, Eq, Structural)]
pub enum SizingMode {
    /// Only the content decides.
    ContentSize,
    /// The node's `size`, `min_size` and `max_size` apply.
    InherentSize,
}

/// The vertical margins that meet at one place, gathered so that they can
/// collapse into one: the largest of the positive ones and the most negative
/// of the negative ones.
#[derive(Copy, Clone, Debug, PartialEq, Eq, Structural)]
pub struct CollapsibleMarginSet {
    /// The largest positive margin; zero if there is none.
    pub positive: Scalar,
    /// The most negative margin; zero if there is none.
    pub negative: Scalar,
}

/// The size and position of a node's box.
#[derive(Copy, Clone, Debug, PartialEq, Eq, Structural)]
pub struct Layout {
    /// The node's place in the painting order among its siblings.
    pub order: u32,
    /// Width and height of the border box.
    pub size: Size<Scalar>,
    /// The top-left corner, relative to the parent's.
    pub location: Point<Scalar>,
}

/// What a layout algorithm is given for one node.
#[derive(Copy, Clone, Debug, PartialEq, Eq, Structural)]
pub struct LayoutInput {
    /// What is to be produced.
    pub run_mode: RunMode,
    /// Whether the node's own size styles apply.
    pub sizing_mode: SizingMode,
    /// The sizes that the parent has already settled for the node.
    pub known_dimensions: Size<Option<Scalar>>,
    /// The parent's size, where known: the basis of percentages.
    pub parent_size: Size<Option<Scalar>>,
    /// The space on offer.
    pub available_space: Size<AvailableSpace>,
    /// Whether the node's top and bottom margins may collapse with its parent's.
    pub vertical_margins_are_collapsible: Line<bool>,
}

/// What a layout algorithm gives back for one node.
#[derive(Copy, Clone, Debug, PartialEq, Eq, Structural)]
pub struct LayoutOutput {
    /// The size of the border box.
    pub size: Size<Scalar>,
    /// The size of the content, which may exceed the box.
    pub content_size: Size<Scalar>,
    /// The first baseline on each axis, where there is one.
    pub first_baselines: Point<Option<Scalar>>,
    /// The margins that meet at the top edge.
    pub top_margin: CollapsibleMarginSet,
    /// The margins that meet at the bottom edge.
    pub bottom_margin: CollapsibleMarginSet,
    /// Whether the node is empty in such a way that the margins above and below it meet.
    pub margins_can_collapse_through: bool,
}

/// What the tree's owner reports instead of a result.
#[derive(Copy, Clone, Debug, PartialEq, Eq, Structural)]
pub enum TaffyError {
    /// The parent has no child at that index.
    ChildIndexOutOfBounds {
        /// The parent.
        parent: NodeId,
        /// The index that was asked for.
        child_index: usize,
        /// The number of children that the parent has.
        child_count: usize,
    },
    /// The parent is not in the tree.
    InvalidParentNode(NodeId),
    /// The child is not in the tree.
    InvalidChildNode(NodeId),
    /// The node is not in the tree.
    InvalidInputNode(NodeId),
}

impl CollapsibleMarginSet {
    /// The set of no margins.
    pub open spec fn empty() -> CollapsibleMarginSet {
        CollapsibleMarginSet { positive: Scalar::zero_value(), negative: Scalar::zero_value() }
    }

    /// The set that holds `margin` alone: a margin that is not below zero
    /// counts as positive, any other as negative.
    pub open spec fn of_margin(margin: Scalar) -> CollapsibleMarginSet {
        if Scalar::zero_value().less_eq(margin) {
            CollapsibleMarginSet { positive: margin, negative: Scalar::zero_value() }
        } else {
            CollapsibleMarginSet { positive: Scalar::zero_value(), negative: margin }
        }
    }

    /// This set with `margin` added to it.
    pub open spec fn with_margin(self, margin: Scalar) -> CollapsibleMarginSet {
        if Scalar::zero_value().less_eq(margin) {
            CollapsibleMarginSet { positive: self.positive.larger(margin), negative: self.negative }
        } else {
            CollapsibleMarginSet { positive: self.positive, negative: self.negative.smaller(margin) }
        }
    }

    /// The union of the two sets.
    pub open spec fn with_set(self, other: CollapsibleMarginSet) -> CollapsibleMarginSet {
        CollapsibleMarginSet {
            positive: self.positive.larger(other.positive),
            negative: self.negative.smaller(other.negative),
        }
    }

    /// The set of no margins.
    pub fn zero() -> (set: CollapsibleMarginSet)
        ensures
            set == CollapsibleMarginSet::empty(),
    {
        CollapsibleMarginSet { positive: Scalar(0), negative: Scalar(0) }
    }

    /// The set that holds `margin` alone.
    pub fn from_margin(margin: Scalar) -> (set: CollapsibleMarginSet)
        ensures
            set == CollapsibleMarginSet::of_margin(margin),
    {
        if margin.ge(Scalar(0)) {
            CollapsibleMarginSet { positive: margin, negative: Scalar(0) }
        } else {
            CollapsibleMarginSet { positive: Scalar(0), negative: margin }
        }
    }

    /// This set with `margin` added to it.
    pub fn collapse_with_margin(self, margin: Scalar) -> (set: CollapsibleMarginSet)
        ensures
            set == self.with_margin(margin),
    {
        if margin.ge(Scalar(0)) {
            CollapsibleMarginSet { positive: self.positive.max(margin), negative: self.negative }
        } else {
            CollapsibleMarginSet { positive: self.positive, negative: self.negative.min(margin) }
        }
    }

    /// The union of the two sets.
    pub fn collapse_with_set(self, other: CollapsibleMarginSet) -> (set: CollapsibleMarginSet)
        ensures
            set == self.with_set(other),
    {
        CollapsibleMarginSet {
            positive: self.positive.max(other.positive),
            negative: self.negative.min(other.negative),
        }
    }

    /// The margin that the set collapses to: the largest positive margin
    /// and the most negative one together.
    pub open spec fn resolved(self) -> Scalar {
        self.positive.sum(self.negative)
    }

    /// The margin that the set collapses to.
    pub fn resolve(&self) -> (margin: Scalar)
        ensures
            margin == self.resolved(),
    {
        self.positive.plus(self.negative)
    }

    /// Whether the set holds numbers, its positive part not below zero and
    /// its negative part not above.
    pub open spec fn well_formed(self) -> bool {
        Scalar::zero_value().less_eq(self.positive) && self.negative.less_eq(Scalar::zero_value())
    }
}

impl Layout {
    /// The layout of a box without extent at the origin.
    pub open spec fn zeroed(order: u32) -> Layout {
        Layout {
            order,
            size: Size { width: Scalar::zero_value(), height: Scalar::zero_value() },
            location: Point { x: Scalar::zero_value(), y: Scalar::zero_value() },
        }
    }

    /// The layout of a box without extent at the origin, first in order.
    pub fn new() -> (layout: Layout)
        ensures
            layout == Layout::zeroed(0),
    {
        Layout::with_order(0)
    }

    /// The layout of a box without extent at the origin.
    pub fn with_order(order: u32) -> (layout: Layout)
        ensures
            layout == Layout::zeroed(order),
    {
        Layout {
            order,
            size: Size { width: Scalar(0), height: Scalar(0) },
            location: Point { x: Scalar(0), y: Scalar(0) },
        }
    }
}

impl LayoutOutput {
    /// The output for a box of the given size whose content fits, without
    /// baselines or margins.
    pub open spec fn of_sizes(size: Size<Scalar>, content_size: Size<Scalar>) -> LayoutOutput {
        LayoutOutput {
            size,
            content_size,
            first_baselines: Point { x: None, y: None },
            top_margin: CollapsibleMarginSet::empty(),
            bottom_margin: CollapsibleMarginSet::empty(),
            margins_can_collapse_through: false,
        }
    }

    /// The output for a node that makes no box.
    pub open spec fn hidden_value() -> LayoutOutput {
        LayoutOutput::of_sizes(
            Size { width: Scalar::zero_value(), height: Scalar::zero_value() },
            Size { width: Scalar::zero_value(), height: Scalar::zero_value() },
        )
    }

    /// The output for a node that makes no box: no extent, no baselines, no margins.
    pub fn hidden() -> (output: LayoutOutput)
        ensures
            output == LayoutOutput::hidden_value(),
    {
        LayoutOutput::from_sizes(Size::<Scalar>::zero(), Size::<Scalar>::zero())
    }

    /// The output for a box of the given size and content size, without
    /// baselines or margins.
    pub fn from_sizes(size: Size<Scalar>, content_size: Size<Scalar>) -> (output: LayoutOutput)
        ensures
            output == LayoutOutput::of_sizes(size, content_size),
    {
        LayoutOutput {
            size,
            content_size,
            first_baselines: Point { x: None, y: None },
            top_margin: CollapsibleMarginSet::zero(),
            bottom_margin: CollapsibleMarginSet::zero(),
            margins_can_collapse_through: false,
        }
    }

    /// The output for a box of the given size with no content beyond it.
    pub fn from_outer_size(size: Size<Scalar>) -> (output: LayoutOutput)
        ensures
            output == LayoutOutput::of_sizes(
                size,
                Size { width: Scalar::zero_value(), height: Scalar::zero_value() },
            ),
    {
        LayoutOutput::from_sizes(size, Size::<Scalar>::zero())
    }
}

/// Gathering margins does not depend on their order or grouping.
pub proof fn lemma_margin_sets_commute(
    a: CollapsibleMarginSet,
    b: CollapsibleMarginSet,
    c: CollapsibleMarginSet,
)
    requires
        !a.positive.nan() && !a.negative.nan(),
        !b.positive.nan() && !b.negative.nan(),
        !c.positive.nan() && !c.negative.nan(),
    ensures
        a.with_set(b) == b.with_set(a),
        a.with_set(b).with_set(c) == a.with_set(b.with_set(c)),
        a.with_set(a) == a,
{
    crate::scalar::lemma_larger_smaller_commute(a.positive, b.positive, c.positive);
    crate::scalar::lemma_larger_smaller_commute(a.negative, b.negative, c.negative);
}

/// Adding a margin to a set is taking the union with the set of that margin
/// alone, and the empty set adds nothing to a well-formed set.
pub proof fn lemma_margin_is_singleton_union(set: CollapsibleMarginSet, margin: Scalar)
    requires
        set.well_formed(),
        !margin.nan(),
    ensures
        set.with_margin(margin).positive.same(
            set.with_set(CollapsibleMarginSet::of_margin(margin)).positive,
        ),
        set.with_margin(margin).negative.same(
            set.with_set(CollapsibleMarginSet::of_margin(margin)).negative,
        ),
        set.with_margin(margin).well_formed(),
        set.with_set(CollapsibleMarginSet::empty()).positive.same(set.positive),
        set.with_set(CollapsibleMarginSet::empty()).negative.same(set.negative),
{
}

} // verus!
