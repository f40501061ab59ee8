//! Layout of a node without children, and the sizing steps that all
//! algorithms share.

use crate::geometry::{Rect, Size};
use crate::math::{clamp_of, clamp_value_of, max_of};
use crate::scalar::Scalar;
use crate::style::dimension::{AvailableSpace, Dimension};
use crate::style::{Overflow, Style};
use crate::tree::{LayoutInput, LayoutOutput, RunMode, SizingMode};
use crate::geometry::Point;
use crate::tree::CollapsibleMarginSet;
use vstd::prelude::*;

verus! {

/// The size with the axis filled in that an aspect ratio asks for: the
/// height as the width divided by the ratio, or the width as the height
/// times the ratio, where there is a ratio and exactly one axis is known.
pub open spec fn with_aspect_ratio(size: Size<Option<Scalar>>, aspect_ratio: Option<Scalar>) -> Size<
    Option<Scalar>,
> {
    match (aspect_ratio, size.width, size.height) {
        (Some(ratio), Some(width), None) => Size {
            width: size.width,
            height: Some(width.quotient(ratio)),
        },
        (Some(ratio), None, Some(height)) => Size {
            width: Some(height.product(ratio)),
            height: size.height,
        },
        _ => size,
    }
}

/// The size with the axis filled in that an aspect ratio asks for.
pub fn maybe_apply_aspect_ratio(size: Size<Option<Scalar>>, aspect_ratio: Option<Scalar>) -> (out:
    Size<Option<Scalar>>)
    ensures
        out == with_aspect_ratio(size, aspect_ratio),
{
    match (aspect_ratio, size.width, size.height) {
        (Some(ratio), Some(width), None) => Size {
            width: size.width,
            height: Some(width.over(ratio)),
        },
        (Some(ratio), None, Some(height)) => Size {
            width: Some(height.times(ratio)),
            height: size.height,
        },
        _ => size,
    }
}

/// A size of a style resolved against a context, with the aspect ratio applied.
pub open spec fn resolved_size_of(
    size: Size<crate::style::dimension::Dimension>,
    context: Size<Option<Scalar>>,
    aspect_ratio: Option<Scalar>,
) -> Size<Option<Scalar>> {
    with_aspect_ratio(size.resolved_against(context), aspect_ratio)
}

/// A size of a style resolved against a context, with the aspect ratio applied.
pub fn resolved_size(
    size: &Size<crate::style::dimension::Dimension>,
    context: Size<Option<Scalar>>,
    aspect_ratio: Option<Scalar>,
) -> (out: Size<Option<Scalar>>)
    ensures
        out == resolved_size_of(*size, context, aspect_ratio),
{
    maybe_apply_aspect_ratio(size.maybe_resolve(context), aspect_ratio)
}

/// The size that a leaf starts from: what the parent settled and, where
/// the leaf's own size styles apply, the style's size for the rest.
pub open spec fn leaf_node_size_of(
    sizing_mode: SizingMode,
    known_dimensions: Size<Option<Scalar>>,
    style_size: Size<Option<Scalar>>,
) -> Size<Option<Scalar>> {
    match sizing_mode {
        SizingMode::ContentSize => known_dimensions,
        SizingMode::InherentSize => known_dimensions.or_else_of(style_size),
    }
}

/// The size that a leaf starts from.
pub fn leaf_node_size(
    sizing_mode: SizingMode,
    known_dimensions: Size<Option<Scalar>>,
    style_size: Size<Option<Scalar>>,
) -> (size: Size<Option<Scalar>>)
    ensures
        size == leaf_node_size_of(sizing_mode, known_dimensions, style_size),
{
    match sizing_mode {
        SizingMode::ContentSize => known_dimensions,
        SizingMode::InherentSize => known_dimensions.or(style_size),
    }
}

/// The size of a leaf along one axis where no measure function sizes it:
/// the size that it starts from, or what padding, border and scrollbar
/// take where that is open; bounded by minimum and maximum; and not less
/// than padding and border take.
pub open spec fn leaf_axis_size_of(
    node_size: Option<Scalar>,
    min: Option<Scalar>,
    max: Option<Scalar>,
    content_box_inset: Scalar,
    padding_border: Scalar,
) -> Scalar {
    clamp_value_of(
        match node_size {
            Some(size) => size,
            None => content_box_inset,
        },
        min,
        max,
    ).larger(padding_border)
}

/// The size of a leaf, given what stands for an axis that is open: the
/// size that it starts from, or `open_size` where an axis is open,
/// bounded by minimum and maximum, and not less than padding and border
/// take.
fn leaf_size_without_measure(
    node_size: Size<Option<Scalar>>,
    min_size: Size<Option<Scalar>>,
    max_size: Size<Option<Scalar>>,
    open_size: Size<Scalar>,
    padding_border: Size<Scalar>,
) -> (size: Size<Scalar>)
    ensures
        size.width == leaf_axis_size_of(
            node_size.width,
            min_size.width,
            max_size.width,
            open_size.width,
            padding_border.width,
        ),
        size.height == leaf_axis_size_of(
            node_size.height,
            min_size.height,
            max_size.height,
            open_size.height,
            padding_border.height,
        ),
{
    Size {
        width: leaf_axis_size(
            node_size.width,
            min_size.width,
            max_size.width,
            open_size.width,
            padding_border.width,
        ),
        height: leaf_axis_size(
            node_size.height,
            min_size.height,
            max_size.height,
            open_size.height,
            padding_border.height,
        ),
    }
}

fn leaf_axis_size(
    node_size: Option<Scalar>,
    min: Option<Scalar>,
    max: Option<Scalar>,
    content_box_inset: Scalar,
    padding_border: Scalar,
) -> (size: Scalar)
    ensures
        size == leaf_axis_size_of(node_size, min, max, content_box_inset, padding_border),
{
    let start = match node_size {
        Some(size) => size,
        None => content_box_inset,
    };
    crate::math::clamp_value(start, min, max).max(padding_border)
}

/// A leaf is never smaller than its padding and border: where those are
/// not negative, and every length that enters is finite, the size of the
/// leaf is finite and not negative.
pub proof fn lemma_leaf_size_is_finite_and_not_negative(
    node_size: Option<Scalar>,
    min: Option<Scalar>,
    max: Option<Scalar>,
    content_box_inset: Scalar,
    padding_border: Scalar,
)
    requires
        node_size is Some ==> node_size.unwrap().finite(),
        min is Some ==> min.unwrap().finite(),
        max is Some ==> max.unwrap().finite(),
        content_box_inset.finite(),
        padding_border.finite(),
        Scalar::zero_value().less_eq(padding_border),
    ensures
        leaf_axis_size_of(node_size, min, max, content_box_inset, padding_border).finite(),
        Scalar::zero_value().less_eq(
            leaf_axis_size_of(node_size, min, max, content_box_inset, padding_border),
        ),
        padding_border.less_eq(
            leaf_axis_size_of(node_size, min, max, content_box_inset, padding_border),
        ),
{
}

/// What leaf layout works with: the node's sizes and insets, resolved.
#[derive(Copy, Clone, Debug, PartialEq, Eq, Structural)]
pub struct LeafBox {
    /// The size that the leaf starts from.
    pub node_size: Size<Option<Scalar>>,
    /// The least size.
    pub min_size: Size<Option<Scalar>>,
    /// The greatest size.
    pub max_size: Size<Option<Scalar>>,
    /// The margin.
    pub margin: Rect<Scalar>,
    /// The padding.
    pub padding: Rect<Scalar>,
    /// The border.
    pub border: Rect<Scalar>,
    /// What padding, border and scrollbar take.
    pub content_box_inset: Rect<Scalar>,
    /// Whether the style keeps margins from collapsing through the leaf.
    pub keeps_margins_apart: bool,
}

/// The room that a scrollbar takes beside content that scrolls along the other axis.
pub open spec fn scrollbar_gutter_of(style: Style) -> Rect<Scalar> {
    Rect {
        left: Scalar::zero_value(),
        top: Scalar::zero_value(),
        right: if style.overflow.y is Scroll {
            style.scrollbar_width
        } else {
            Scalar::zero_value()
        },
        bottom: if style.overflow.x is Scroll {
            style.scrollbar_width
        } else {
            Scalar::zero_value()
        },
    }
}

/// The room that a scrollbar takes beside content that scrolls along the other axis.
pub fn scrollbar_gutter(style: &Style) -> (gutter: Rect<Scalar>)
    ensures
        gutter == scrollbar_gutter_of(*style),
{
    Rect {
        left: Scalar(0),
        top: Scalar(0),
        right: if matches!(style.overflow.y, Overflow::Scroll) {
            style.scrollbar_width
        } else {
            Scalar(0)
        },
        bottom: if matches!(style.overflow.x, Overflow::Scroll) {
            style.scrollbar_width
        } else {
            Scalar(0)
        },
    }
}

/// The sizes and insets of a leaf: size, minimum and maximum resolved
/// against the parent's size with the aspect ratio applied, where the
/// leaf's own size styles apply; margin, padding and border resolved
/// against the parent's width. Where what the parent settled and the
/// style's size leave exactly one axis open, the aspect ratio fills it.
pub open spec fn leaf_box_of(inputs: LayoutInput, style: Style) -> LeafBox {
    let own = inputs.sizing_mode == SizingMode::InherentSize;
    let none = Size { width: None, height: None };
    let padding = style.padding.resolved_or_zero(inputs.parent_size.width);
    let border = style.border.resolved_or_zero(inputs.parent_size.width);
    LeafBox {
        node_size: with_aspect_ratio(
            leaf_node_size_of(
                inputs.sizing_mode,
                inputs.known_dimensions,
                resolved_size_of(style.size, inputs.parent_size, style.aspect_ratio),
            ),
            if own {
                style.aspect_ratio
            } else {
                None
            },
        ),
        min_size: if own {
            resolved_size_of(style.min_size, inputs.parent_size, style.aspect_ratio)
        } else {
            none
        },
        max_size: if own {
            resolved_size_of(style.max_size, inputs.parent_size, style.aspect_ratio)
        } else {
            none
        },
        margin: style.margin.resolved_or_zero(inputs.parent_size.width),
        padding,
        border,
        content_box_inset: padding.added(border).added(scrollbar_gutter_of(style)),
        keeps_margins_apart: crate::compute::block::keeps_margins_apart(style, padding, border)
            || style.overflow.x.scrolls(),
    }
}

/// The sizes and insets of a leaf.
pub fn leaf_box(inputs: LayoutInput, style: &Style) -> (leaf: LeafBox)
    ensures
        leaf == leaf_box_of(inputs, *style),
{
    let none: Size<Option<Scalar>> = Size { width: None, height: None };
    let own = matches!(inputs.sizing_mode, SizingMode::InherentSize);
    let padding = style.padding.resolve_or_zero(inputs.parent_size.width);
    let border = style.border.resolve_or_zero(inputs.parent_size.width);
    let style_size = resolved_size(&style.size, inputs.parent_size, style.aspect_ratio);
    LeafBox {
        node_size: maybe_apply_aspect_ratio(
            leaf_node_size(inputs.sizing_mode, inputs.known_dimensions, style_size),
            if own {
                style.aspect_ratio
            } else {
                None
            },
        ),
        min_size: if own {
            resolved_size(&style.min_size, inputs.parent_size, style.aspect_ratio)
        } else {
            none
        },
        max_size: if own {
            resolved_size(&style.max_size, inputs.parent_size, style.aspect_ratio)
        } else {
            none
        },
        margin: style.margin.resolve_or_zero(inputs.parent_size.width),
        padding,
        border,
        content_box_inset: padding.plus(&border).plus(&scrollbar_gutter(style)),
        keeps_margins_apart: crate::compute::block::has_styles_preventing_being_collapsed_through(
            style,
            padding,
            border,
        ) || style.overflow.x.is_scroll_container(),
    }
}

/// The bottom of the content box of a leaf of the given height, measured
/// from its top edge: the leaf's baseline.
pub open spec fn content_bottom_of(leaf: LeafBox, height: Scalar) -> Scalar {
    height.difference(leaf.padding.bottom.sum(leaf.border.bottom))
}

/// What a leaf of the given size reports: no content beyond the box
/// unless the caller says so, the bottom of the content box for a
/// baseline, and margins that collapse through it only where it has no
/// height and its style does not keep them apart.
pub open spec fn leaf_output_of(leaf: LeafBox, size: Size<Scalar>, content_size: Size<Scalar>, empty: bool) -> LayoutOutput {
    LayoutOutput {
        size,
        content_size,
        first_baselines: Point { x: None, y: Some(content_bottom_of(leaf, size.height)) },
        top_margin: CollapsibleMarginSet::empty(),
        bottom_margin: CollapsibleMarginSet::empty(),
        margins_can_collapse_through: !leaf.keeps_margins_apart && empty,
    }
}

/// The layout of a leaf that no measure function sizes: on each axis the
/// size that it starts from, or what its insets take where that is open,
/// bounded by minimum and maximum and not less than padding and border
/// take.
pub open spec fn unmeasured_leaf_of(leaf: LeafBox) -> LayoutOutput {
    let padding_border = leaf.padding.added(leaf.border).axis_sums();
    let inset = leaf.content_box_inset.axis_sums();
    let width = leaf_axis_size_of(
        leaf.node_size.width,
        leaf.min_size.width,
        leaf.max_size.width,
        inset.width,
        padding_border.width,
    );
    let height = leaf_axis_size_of(
        leaf.node_size.height,
        leaf.min_size.height,
        leaf.max_size.height,
        inset.height,
        padding_border.height,
    );
    let size = Size { width, height };
    leaf_output_of(
        leaf,
        size,
        Size { width: Scalar::zero_value(), height: Scalar::zero_value() },
        size.height.same(Scalar::zero_value()),
    )
}

/// What the measure function of a leaf is asked: the dimensions of the
/// content box that are known, and the space that is on offer for the
/// content. The known dimensions are those of the leaf less its insets;
/// the space is the space on offer less the margin, or the leaf's size or
/// maximum where that is set, bounded by minimum and maximum, less the insets.
pub open spec fn measure_request_of(inputs: LayoutInput, leaf: LeafBox) -> (
    Size<Option<Scalar>>,
    Size<AvailableSpace>,
) {
    let inset = leaf.content_box_inset.axis_sums();
    let margin = leaf.margin.axis_sums();
    (
        leaf.node_size.reduced_by(inset),
        Size {
            width: content_space_of(
                inputs.available_space.width,
                margin.width,
                leaf.node_size.width,
                leaf.min_size.width,
                leaf.max_size.width,
                inset.width,
            ),
            height: content_space_of(
                inputs.available_space.height,
                margin.height,
                leaf.node_size.height,
                leaf.min_size.height,
                leaf.max_size.height,
                inset.height,
            ),
        },
    )
}

/// The space on offer for the content of a leaf along one axis.
pub open spec fn content_space_of(
    available: AvailableSpace,
    margin: Scalar,
    node_size: Option<Scalar>,
    min: Option<Scalar>,
    max: Option<Scalar>,
    inset: Scalar,
) -> AvailableSpace {
    match available.reduced_by(margin).set_to(max).set_to(node_size) {
        AvailableSpace::Definite(space) => AvailableSpace::Definite(
            clamp_value_of(space, min, max).difference(inset),
        ),
        other => other,
    }
}

fn content_space(
    available: AvailableSpace,
    margin: Scalar,
    node_size: Option<Scalar>,
    min: Option<Scalar>,
    max: Option<Scalar>,
    inset: Scalar,
) -> (space: AvailableSpace)
    ensures
        space == content_space_of(available, margin, node_size, min, max, inset),
{
    match available.maybe_sub(margin).maybe_set(max).maybe_set(node_size) {
        AvailableSpace::Definite(space) => AvailableSpace::Definite(
            crate::math::clamp_value(space, min, max).minus(inset),
        ),
        other => other,
    }
}

/// What the measure function of a leaf is asked.
pub fn measure_request(inputs: LayoutInput, leaf: &LeafBox) -> (request: (
    Size<Option<Scalar>>,
    Size<AvailableSpace>,
))
    ensures
        request == measure_request_of(inputs, *leaf),
{
    let inset = leaf.content_box_inset.sum_axes();
    let margin = leaf.margin.sum_axes();
    (
        leaf.node_size.maybe_sub(inset),
        Size {
            width: content_space(
                inputs.available_space.width,
                margin.width,
                leaf.node_size.width,
                leaf.min_size.width,
                leaf.max_size.width,
                inset.width,
            ),
            height: content_space(
                inputs.available_space.height,
                margin.height,
                leaf.node_size.height,
                leaf.min_size.height,
                leaf.max_size.height,
                inset.height,
            ),
        },
    )
}

/// The layout of a leaf whose content was measured as `measured`: on each
/// axis the size that it starts from, or the measured content with the
/// insets added back where that is open, bounded by minimum and maximum
/// and not less than padding and border take; the height not less than
/// the aspect ratio asks for. The content is the measured size with the padding.
pub open spec fn measured_leaf_of(leaf: LeafBox, measured: Size<Scalar>) -> LayoutOutput {
    let padding_border = leaf.padding.added(leaf.border).axis_sums();
    let inset = leaf.content_box_inset.axis_sums();
    let width = leaf_axis_size_of(
        leaf.node_size.width,
        leaf.min_size.width,
        leaf.max_size.width,
        measured.width.sum(inset.width),
        padding_border.width,
    );
    let height = leaf_axis_size_of(
        leaf.node_size.height,
        leaf.min_size.height,
        leaf.max_size.height,
        measured.height.sum(inset.height),
        padding_border.height,
    );
    let size = Size { width, height };
    leaf_output_of(
        leaf,
        size,
        Size {
            width: measured.width.sum(leaf.padding.horizontal_sum()),
            height: measured.height.sum(leaf.padding.vertical_sum()),
        },
        size.height.same(Scalar::zero_value()) && measured.height.same(Scalar::zero_value()),
    )
}

fn leaf_report(leaf: &LeafBox, size: Size<Scalar>, content_size: Size<Scalar>, empty: bool) -> (output:
    LayoutOutput)
    ensures
        output == leaf_output_of(*leaf, size, content_size, empty),
{
    LayoutOutput {
        size,
        content_size,
        first_baselines: Point {
            x: None,
            y: Some(size.height.minus(leaf.padding.bottom.plus(leaf.border.bottom))),
        },
        top_margin: CollapsibleMarginSet::zero(),
        bottom_margin: CollapsibleMarginSet::zero(),
        margins_can_collapse_through: !leaf.keeps_margins_apart && empty,
    }
}

/// The layout of a leaf that no measure function sizes.
pub fn unmeasured_leaf(leaf: &LeafBox) -> (output: LayoutOutput)
    ensures
        output == unmeasured_leaf_of(*leaf),
{
    let padding_border = leaf.padding.plus(&leaf.border).sum_axes();
    let inset = leaf.content_box_inset.sum_axes();
    let size = leaf_size_without_measure(
        leaf.node_size,
        leaf.min_size,
        leaf.max_size,
        inset,
        padding_border,
    );
    leaf_report(leaf, size, Size::<Scalar>::zero(), size.height.is_zero())
}

/// The layout of a leaf whose content was measured as `measured`.
pub fn measured_leaf(leaf: &LeafBox, measured: Size<Scalar>) -> (output: LayoutOutput)
    ensures
        output == measured_leaf_of(*leaf, measured),
{
    let padding_border = leaf.padding.plus(&leaf.border).sum_axes();
    let inset = leaf.content_box_inset.sum_axes();
    let size = leaf_size_without_measure(
        leaf.node_size,
        leaf.min_size,
        leaf.max_size,
        measured.plus(inset),
        padding_border,
    );
    let content = Size {
        width: measured.width.plus(leaf.padding.horizontal_axis_sum()),
        height: measured.height.plus(leaf.padding.vertical_axis_sum()),
    };
    leaf_report(leaf, size, content, size.height.is_zero() && measured.height.is_zero())
}

/// Lays out a node without children. Where a measure function is given,
/// it is asked once, for the content under the constraints that the
/// node's own sizes leave, and the layout follows from what it answers;
/// else the layout follows from the style alone.
pub fn compute_leaf_layout<MeasureFunction>(
    inputs: LayoutInput,
    style: &Style,
    measure_function: Option<MeasureFunction>,
) -> (output: LayoutOutput) where
    MeasureFunction: FnOnce(Size<Option<Scalar>>, Size<AvailableSpace>) -> Size<Scalar>,

    requires
        measure_function is Some ==> call_requires(
            measure_function.unwrap(),
            measure_request_of(inputs, leaf_box_of(inputs, *style)),
        ),
    ensures
        measure_function is None ==> output == unmeasured_leaf_of(leaf_box_of(inputs, *style)),
        measure_function is Some ==> exists|measured: Size<Scalar>|
            call_ensures(
                measure_function.unwrap(),
                measure_request_of(inputs, leaf_box_of(inputs, *style)),
                measured,
            ) && output == measured_leaf_of(leaf_box_of(inputs, *style), measured),
{
    let leaf = leaf_box(inputs, style);
    match measure_function {
        Some(measure) => {
            let request = measure_request(inputs, &leaf);
            let measured = measure(request.0, request.1);
            measured_leaf(&leaf, measured)
        },
        None => unmeasured_leaf(&leaf),
    }
}

/// A leaf whose style fixes both dimensions and bounds neither, and
/// whose padding and border fit into the size, has the size that the
/// style states, whatever space is on offer, whatever the parent's size
/// and whatever aspect ratio the style names: as numbers always, and bit
/// for bit where the size is above zero and above padding and border.
pub proof fn lemma_fixed_size_leaf_layout(
    inputs: LayoutInput,
    style: Style,
    w: Scalar,
    h: Scalar,
)
    requires
        inputs.sizing_mode == SizingMode::InherentSize,
        inputs.known_dimensions == (Size::<Option<Scalar>> { width: None, height: None }),
        style.size == (Size { width: Dimension::Length(w), height: Dimension::Length(h) }),
        style.min_size == (Size { width: Dimension::Auto, height: Dimension::Auto }),
        style.max_size == (Size { width: Dimension::Auto, height: Dimension::Auto }),
        Scalar::zero_value().less_eq(w),
        Scalar::zero_value().less_eq(h),
        leaf_box_of(inputs, style).padding.added(
            leaf_box_of(inputs, style).border,
        ).axis_sums().width.less_eq(w),
        leaf_box_of(inputs, style).padding.added(
            leaf_box_of(inputs, style).border,
        ).axis_sums().height.less_eq(h),
    ensures
        unmeasured_leaf_of(leaf_box_of(inputs, style)).size.width.same(w),
        unmeasured_leaf_of(leaf_box_of(inputs, style)).size.height.same(h),
        Scalar::zero_value().less(w) && leaf_box_of(inputs, style).padding.added(
            leaf_box_of(inputs, style).border,
        ).axis_sums().width.less(w) ==> unmeasured_leaf_of(leaf_box_of(inputs, style)).size.width
            == w,
        Scalar::zero_value().less(h) && leaf_box_of(inputs, style).padding.added(
            leaf_box_of(inputs, style).border,
        ).axis_sums().height.less(h) ==> unmeasured_leaf_of(leaf_box_of(inputs, style)).size.height
            == h,
{
}

/// A leaf whose minimum exceeds its maximum along an axis has the minimum
/// for its size along that axis, where padding and border take less,
/// whatever size it starts from.
pub proof fn lemma_leaf_layout_min_overrides_max(leaf: LeafBox, a: Scalar, b: Scalar)
    requires
        leaf.min_size.width == Some(a),
        leaf.max_size.width == Some(b),
        b.less(a),
        leaf.padding.added(leaf.border).axis_sums().width.less(a),
    ensures
        unmeasured_leaf_of(leaf).size.width == a,
{
}

/// A leaf whose style states a minimum above its maximum on both axes
/// is as large as the minimum on both, whatever size and aspect ratio
/// the style names and whatever space is on offer, where padding and
/// border take less.
pub proof fn lemma_leaf_min_overrides_max_and_size(
    inputs: LayoutInput,
    style: Style,
    a: Scalar,
    b: Scalar,
)
    requires
        inputs.sizing_mode == SizingMode::InherentSize,
        style.min_size == (Size { width: Dimension::Length(a), height: Dimension::Length(a) }),
        style.max_size == (Size { width: Dimension::Length(b), height: Dimension::Length(b) }),
        Scalar::zero_value().less_eq(b),
        b.less(a),
        leaf_box_of(inputs, style).padding.added(leaf_box_of(inputs, style).border).axis_sums().width.less(
            a,
        ),
        leaf_box_of(inputs, style).padding.added(
            leaf_box_of(inputs, style).border,
        ).axis_sums().height.less(a),
    ensures
        unmeasured_leaf_of(leaf_box_of(inputs, style)).size == (Size { width: a, height: a }),
{
}

/// With an aspect ratio and a width fixed by the style, and the height
/// left open, a leaf is as wide as the style states and as high as the
/// width divided by the ratio, where nothing bounds the size and padding
/// and border take less.
pub proof fn lemma_aspect_ratio_sets_height(
    inputs: LayoutInput,
    style: Style,
    w: Scalar,
    r: Scalar,
)
    requires
        inputs.sizing_mode == SizingMode::InherentSize,
        inputs.known_dimensions == (Size::<Option<Scalar>> { width: None, height: None }),
        style.size == (Size { width: Dimension::Length(w), height: Dimension::Auto }),
        style.min_size == (Size { width: Dimension::Auto, height: Dimension::Auto }),
        style.max_size == (Size { width: Dimension::Auto, height: Dimension::Auto }),
        style.aspect_ratio == Some(r),
        Scalar::zero_value().less(w),
        leaf_box_of(inputs, style).padding.added(leaf_box_of(inputs, style).border).axis_sums().width.less(
            w,
        ),
        leaf_box_of(inputs, style).padding.added(
            leaf_box_of(inputs, style).border,
        ).axis_sums().height.less(w.quotient(r)),
    ensures
        leaf_box_of(inputs, style).node_size == (Size {
            width: Some(w),
            height: Some(w.quotient(r)),
        }),
        unmeasured_leaf_of(leaf_box_of(inputs, style)).size == (Size {
            width: w,
            height: w.quotient(r),
        }),
{
}

/// With an aspect ratio and a width fixed by the style, and the height
/// left open, a leaf is as high as the width divided by the ratio allows
/// within its bounds: that height, bounded by minimum and maximum, the
/// minimum winning, and not less than padding and border take. The
/// bounds are those of the style with the ratio applied to them.
pub proof fn lemma_aspect_ratio_sets_height_within_bounds(
    inputs: LayoutInput,
    style: Style,
    w: Scalar,
    r: Scalar,
)
    requires
        inputs.sizing_mode == SizingMode::InherentSize,
        inputs.known_dimensions == (Size::<Option<Scalar>> { width: None, height: None }),
        style.size == (Size { width: Dimension::Length(w), height: Dimension::Auto }),
        style.aspect_ratio == Some(r),
        Scalar::zero_value().less(w),
    ensures
        ({
            let leaf = leaf_box_of(inputs, style);
            let padding_border = leaf.padding.added(leaf.border).axis_sums();
            &&& leaf.min_size == resolved_size_of(style.min_size, inputs.parent_size, Some(r))
            &&& leaf.max_size == resolved_size_of(style.max_size, inputs.parent_size, Some(r))
            &&& unmeasured_leaf_of(leaf).size.height == clamp_value_of(
                w.quotient(r),
                leaf.min_size.height,
                leaf.max_size.height,
            ).larger(padding_border.height)
            &&& unmeasured_leaf_of(leaf).size.width == clamp_value_of(
                w,
                leaf.min_size.width,
                leaf.max_size.width,
            ).larger(padding_border.width)
        }),
{
}

/// What padding and border of a leaf take along each axis is a number
/// that is not negative, whatever the style says: a length that is
/// negative or no number counts as zero.
pub proof fn lemma_leaf_insets_are_not_negative(inputs: LayoutInput, style: Style)
    ensures
        Scalar::zero_value().less_eq(
            leaf_box_of(inputs, style).padding.added(leaf_box_of(inputs, style).border).axis_sums().width,
        ),
        Scalar::zero_value().less_eq(
            leaf_box_of(inputs, style).padding.added(
                leaf_box_of(inputs, style).border,
            ).axis_sums().height,
        ),
{
    let leaf = leaf_box_of(inputs, style);
    crate::scalar::exact::lemma_sum_is_not_negative(leaf.padding.left, leaf.border.left);
    crate::scalar::exact::lemma_sum_is_not_negative(leaf.padding.right, leaf.border.right);
    crate::scalar::exact::lemma_sum_is_not_negative(leaf.padding.top, leaf.border.top);
    crate::scalar::exact::lemma_sum_is_not_negative(leaf.padding.bottom, leaf.border.bottom);
    let both = leaf.padding.added(leaf.border);
    crate::scalar::exact::lemma_sum_is_not_negative(both.left, both.right);
    crate::scalar::exact::lemma_sum_is_not_negative(both.top, both.bottom);
}

/// The size of a leaf is never negative along either axis, and never
/// less than padding and border take, whatever its style, whatever it is
/// laid out with, and whatever a measure function answers.
pub proof fn lemma_leaf_size_is_not_negative(inputs: LayoutInput, style: Style, measured: Size<Scalar>)
    ensures
        Scalar::zero_value().less_eq(unmeasured_leaf_of(leaf_box_of(inputs, style)).size.width),
        Scalar::zero_value().less_eq(unmeasured_leaf_of(leaf_box_of(inputs, style)).size.height),
        Scalar::zero_value().less_eq(measured_leaf_of(leaf_box_of(inputs, style), measured).size.width),
        Scalar::zero_value().less_eq(
            measured_leaf_of(leaf_box_of(inputs, style), measured).size.height,
        ),
{
    lemma_leaf_insets_are_not_negative(inputs, style);
}

/// The size of a leaf that no measure function sizes is finite where
/// the sizes that it starts from and is bounded by, what its insets take
/// and what padding and border take are finite.
pub proof fn lemma_leaf_size_is_finite(leaf: LeafBox)
    requires
        leaf.node_size.width is Some ==> leaf.node_size.width.unwrap().finite(),
        leaf.node_size.height is Some ==> leaf.node_size.height.unwrap().finite(),
        leaf.min_size.width is Some ==> leaf.min_size.width.unwrap().finite(),
        leaf.min_size.height is Some ==> leaf.min_size.height.unwrap().finite(),
        leaf.max_size.width is Some ==> leaf.max_size.width.unwrap().finite(),
        leaf.max_size.height is Some ==> leaf.max_size.height.unwrap().finite(),
        leaf.content_box_inset.axis_sums().width.finite(),
        leaf.content_box_inset.axis_sums().height.finite(),
        leaf.padding.added(leaf.border).axis_sums().width.finite(),
        leaf.padding.added(leaf.border).axis_sums().height.finite(),
    ensures
        unmeasured_leaf_of(leaf).size.width.finite(),
        unmeasured_leaf_of(leaf).size.height.finite(),
{
}

} // verus!
