//! Block layout of a container from its style and the styles of its
//! children, with the layout of each child asked of the caller.

use crate::compute::block::{
    absolute_area, absolute_area_of, absolute_box, absolute_box_of, absolute_request,
    absolute_request_of, all_in_flow_children_can_be_collapsed_through, block_box, block_box_of,
    block_known_dimensions, block_known_dimensions_of, container_margin_set, content_width,
    content_width_of, content_width_request, content_width_request_of, content_width_takes_layout,
    flow_context, flow_context_of, flow_end, flow_end_of, flow_start, generate_item_list,
    in_flow_request, in_flow_request_of, intrinsic_outer_height, intrinsic_outer_height_of,
    intrinsic_outer_width, intrinsic_outer_width_of, items_of,
    note_static_position, place_absolute_item, place_in_flow_item, placed_absolute_of,
    placed_in_flow_of, shown_of, BlockBox, BlockChild, BlockItem, FlowContext, FlowMargins, FlowState,
};
use crate::compute::taffy_tree::{hidden_input, hidden_layout_input};
use crate::geometry::{Line, Point, Size};
use crate::math::clamp_of;
use crate::scalar::Scalar;
use crate::style::dimension::AvailableSpace;
use crate::style::{Position, Style};
use crate::tree::{
    CollapsibleMarginSet, Layout, LayoutInput, LayoutOutput, NodeId, RunMode, SizingMode,
};
use vstd::prelude::*;

verus! {

/// What a container is laid out with once the dimensions that follow from
/// its style are taken for known.
pub open spec fn inner_inputs_of(style: Style, inputs: LayoutInput) -> LayoutInput {
    LayoutInput { known_dimensions: block_known_dimensions_of(style, inputs), ..inputs }
}

/// The width on offer to the content of a container.
pub open spec fn content_space_width_of(style: Style, inputs: LayoutInput) -> AvailableSpace {
    inputs.available_space.width.reduced_by(
        block_box_of(style, inputs).content_box_inset.horizontal_sum(),
    )
}

/// The widest that the in-flow children among the first `widths.len()`
/// ask of the content, where `widths` holds what came of laying each out;
/// nothing, where there is none.
pub open spec fn widest_of(
    kids: Seq<BlockChild>,
    items: Seq<BlockItem>,
    available_width: AvailableSpace,
    widths: Seq<LayoutOutput>,
) -> Scalar
    decreases widths.len(),
{
    if widths.len() == 0 {
        Scalar::zero_value()
    } else {
        let at = widths.len() - 1;
        let before = widest_of(kids, items, available_width, widths.drop_last());
        if items[at].position == Position::Absolute {
            before
        } else {
            before.larger(
                content_width_of(
                    items[at],
                    kids[at].style.margin,
                    available_width,
                    widths[at].size.width,
                ),
            )
        }
    }
}

/// The width of the border box of a container: the width that is known,
/// else the width that its content asks for.
pub open spec fn outer_width_of(
    style: Style,
    inputs: LayoutInput,
    kids: Seq<BlockChild>,
    widths: Seq<LayoutOutput>,
) -> Scalar {
    match inputs.known_dimensions.width {
        Some(width) => width,
        None => {
            let container = block_box_of(style, inputs);
            intrinsic_outer_width_of(
                container,
                widest_of(
                    kids,
                    items_of(kids, container.container_content_box_size),
                    content_space_width_of(style, inputs),
                    widths,
                ),
            )
        },
    }
}

/// The flow once some of the children are placed: how far it has come,
/// the items of those children as they stand, and the layouts of the
/// in-flow children among them.
pub ghost struct Flow {
    /// How far down the flow has come.
    pub state: FlowState,
    /// The items that the flow has passed.
    pub items: Seq<BlockItem>,
    /// The layouts of the in-flow children that the flow has passed.
    pub layouts: Seq<(NodeId, Layout)>,
}

/// The flow once the first `flows.len()` children are placed, where
/// `flows` holds what came of laying each out. A child out of the flow
/// only notes where the flow stands.
pub open spec fn flow_of(
    context: FlowContext,
    kids: Seq<BlockChild>,
    items: Seq<BlockItem>,
    flows: Seq<LayoutOutput>,
) -> Flow
    decreases flows.len(),
{
    if flows.len() == 0 {
        Flow {
            state: FlowState {
                committed_y_offset: context.resolved_content_box_inset.top,
                margins: FlowMargins::initial(),
            },
            items: Seq::empty(),
            layouts: Seq::empty(),
        }
    } else {
        let at = flows.len() - 1;
        let before = flow_of(context, kids, items, flows.drop_last());
        if items[at].position == Position::Absolute {
            Flow {
                state: before.state,
                items: before.items.push(
                    BlockItem {
                        static_position: Point {
                            x: items[at].static_position.x,
                            y: before.state.committed_y_offset,
                        },
                        ..items[at]
                    },
                ),
                layouts: before.layouts,
            }
        } else {
            let placed = placed_in_flow_of(
                context,
                before.state,
                items[at],
                kids[at].style.margin,
                kids[at].style.inset,
                flows[at],
            );
            Flow {
                state: placed.0,
                items: before.items.push(placed.1),
                layouts: before.layouts.push((items[at].node_id, placed.2)),
            }
        }
    }
}

/// The layouts of the absolutely placed children among the first
/// `absolutes.len()`, where `absolutes` holds what came of laying each
/// out.
pub open spec fn placed_absolutes_of(
    kids: Seq<BlockChild>,
    items: Seq<BlockItem>,
    area_size: Size<Scalar>,
    area_offset: Point<Scalar>,
    absolutes: Seq<LayoutOutput>,
) -> Seq<(NodeId, Layout)>
    decreases absolutes.len(),
{
    if absolutes.len() == 0 {
        Seq::empty()
    } else {
        let at = absolutes.len() - 1;
        let before = placed_absolutes_of(kids, items, area_size, area_offset, absolutes.drop_last());
        if items[at].position == Position::Absolute {
            before.push(
                (
                    items[at].node_id,
                    placed_absolute_of(
                        absolute_box_of(kids[at].style, area_size),
                        items[at],
                        absolutes[at].size,
                        area_size,
                        area_offset,
                    ),
                ),
            )
        } else {
            before
        }
    }
}

/// The first baseline of a container: the top of its first in-flow item
/// with that item's baseline, or height where it has none. Nothing if no
/// item is in the flow.
pub open spec fn first_baseline_of(items: Seq<BlockItem>) -> Option<Scalar>
    decreases items.len(),
{
    if items.len() == 0 {
        None
    } else if items[0].position != Position::Absolute {
        Some(
            items[0].static_position.y.sum(
                match items[0].baseline {
                    Some(baseline) => baseline,
                    None => items[0].computed_size.height,
                },
            ),
        )
    } else {
        first_baseline_of(items.skip(1))
    }
}

/// Whether margins collapse through every item in the flow.
pub open spec fn all_collapse_through(items: Seq<BlockItem>) -> bool {
    forall|i: int|
        0 <= i < items.len() ==> (#[trigger] items[i]).position == Position::Absolute
            || items[i].can_be_collapsed_through
}

/// What block layout reports for a container once its children are laid
/// out: its size; its first baseline; at each edge the margins of its
/// children where its own collapse with them, else its own margin; and
/// whether margins collapse through it, which they do where its style
/// does not keep them apart and they collapse through all its in-flow
/// children.
pub open spec fn block_result_of(
    style: Style,
    inputs: LayoutInput,
    container: BlockBox,
    final_outer_size: Size<Scalar>,
    items: Seq<BlockItem>,
    first_child_top_margin_set: CollapsibleMarginSet,
    last_child_bottom_margin_set: CollapsibleMarginSet,
) -> LayoutOutput {
    LayoutOutput {
        size: final_outer_size,
        content_size: Size { width: Scalar::zero_value(), height: Scalar::zero_value() },
        first_baselines: Point { x: None, y: first_baseline_of(items) },
        top_margin: if container.own_margins_collapse_with_children.start {
            first_child_top_margin_set
        } else {
            CollapsibleMarginSet::of_margin(
                style.margin.top.resolved_or_zero(inputs.parent_size.width),
            )
        },
        bottom_margin: if container.own_margins_collapse_with_children.end {
            last_child_bottom_margin_set
        } else {
            CollapsibleMarginSet::of_margin(
                style.margin.bottom.resolved_or_zero(inputs.parent_size.width),
            )
        },
        margins_can_collapse_through: !container.keeps_margins_apart && all_collapse_through(items),
    }
}

/// The flow context of a container whose children answered `widths` when
/// the width of the content was asked for.
pub open spec fn context_of(
    style: Style,
    inputs: LayoutInput,
    kids: Seq<BlockChild>,
    widths: Seq<LayoutOutput>,
) -> FlowContext {
    flow_context_of(style, block_box_of(style, inputs), outer_width_of(style, inputs, kids, widths))
}

/// The flow of a container when all its children are placed.
pub open spec fn whole_flow_of(
    style: Style,
    inputs: LayoutInput,
    kids: Seq<BlockChild>,
    widths: Seq<LayoutOutput>,
    flows: Seq<LayoutOutput>,
) -> Flow {
    flow_of(
        context_of(style, inputs, kids, widths),
        kids,
        items_of(kids, block_box_of(style, inputs).container_content_box_size),
        flows,
    )
}

/// The size of the border box of a container: its width, and the height
/// that is known, else the height that its content asks for.
pub open spec fn outer_size_of(
    style: Style,
    inputs: LayoutInput,
    kids: Seq<BlockChild>,
    widths: Seq<LayoutOutput>,
    flows: Seq<LayoutOutput>,
) -> Size<Scalar> {
    let container = block_box_of(style, inputs);
    Size {
        width: outer_width_of(style, inputs, kids, widths),
        height: match inputs.known_dimensions.height {
            Some(height) => height,
            None => intrinsic_outer_height_of(
                container,
                flow_end_of(
                    context_of(style, inputs, kids, widths),
                    whole_flow_of(style, inputs, kids, widths, flows).state,
                ).0,
            ),
        },
    }
}

/// The area in which the absolutely placed children of a container are
/// placed.
pub open spec fn area_of(
    style: Style,
    inputs: LayoutInput,
    kids: Seq<BlockChild>,
    widths: Seq<LayoutOutput>,
    flows: Seq<LayoutOutput>,
) -> (Size<Scalar>, Point<Scalar>) {
    absolute_area_of(
        context_of(style, inputs, kids, widths),
        style,
        block_box_of(style, inputs),
        outer_size_of(style, inputs, kids, widths, flows),
    )
}

/// Whether the size of a container is all that is asked for.
pub open spec fn only_size_asked(inputs: LayoutInput) -> bool {
    inputs.run_mode == RunMode::ComputeSize
}

/// What a container with the children `kids`, which all make a box,
/// reports, and the layouts of its children, once the dimensions that
/// follow from its style are taken for known; `widths`, `flows` and
/// `absolutes` hold what came of laying out the children. Where only the
/// size is asked for, the layout ends as soon as the size is known.
pub open spec fn inner_layout_of(
    style: Style,
    inputs: LayoutInput,
    kids: Seq<BlockChild>,
    widths: Seq<LayoutOutput>,
    flows: Seq<LayoutOutput>,
    absolutes: Seq<LayoutOutput>,
) -> (LayoutOutput, Seq<(NodeId, Layout)>) {
    let nothing = Size { width: Scalar::zero_value(), height: Scalar::zero_value() };
    if only_size_asked(inputs) && inputs.known_dimensions.height is Some {
        (
            LayoutOutput::of_sizes(
                Size {
                    width: outer_width_of(style, inputs, kids, widths),
                    height: inputs.known_dimensions.height.unwrap(),
                },
                nothing,
            ),
            Seq::empty(),
        )
    } else {
        let flow = whole_flow_of(style, inputs, kids, widths, flows);
        let final_outer_size = outer_size_of(style, inputs, kids, widths, flows);
        if only_size_asked(inputs) {
            (LayoutOutput::of_sizes(final_outer_size, nothing), flow.layouts)
        } else {
            let end = flow_end_of(context_of(style, inputs, kids, widths), flow.state);
            let area = area_of(style, inputs, kids, widths, flows);
            (
                block_result_of(
                    style,
                    inputs,
                    block_box_of(style, inputs),
                    final_outer_size,
                    flow.items,
                    end.1,
                    end.2,
                ),
                flow.layouts + placed_absolutes_of(kids, flow.items, area.0, area.1, absolutes),
            )
        }
    }
}

/// What a container with the given children reports, and the layouts of
/// its children that make a box. Where only the size is asked for and
/// the style settles it, no child is looked at.
pub open spec fn shown_layout_of(
    style: Style,
    inputs: LayoutInput,
    children: Seq<BlockChild>,
    widths: Seq<LayoutOutput>,
    flows: Seq<LayoutOutput>,
    absolutes: Seq<LayoutOutput>,
) -> (LayoutOutput, Seq<(NodeId, Layout)>) {
    let known = block_known_dimensions_of(style, inputs);
    if only_size_asked(inputs) && known.width is Some && known.height is Some {
        (
            LayoutOutput::of_sizes(
                Size { width: known.width.unwrap(), height: known.height.unwrap() },
                Size { width: Scalar::zero_value(), height: Scalar::zero_value() },
            ),
            Seq::empty(),
        )
    } else {
        inner_layout_of(
            style,
            inner_inputs_of(style, inputs),
            shown_of(children),
            widths,
            flows,
            absolutes,
        )
    }
}

/// Whether `widths` holds, for each in-flow child of which the width of
/// the content takes a layout, what `layout_child` answers to what that
/// child is laid out with.
pub open spec fn widths_answered<F: Fn(NodeId, LayoutInput) -> LayoutOutput>(
    layout_child: F,
    kids: Seq<BlockChild>,
    items: Seq<BlockItem>,
    available_width: AvailableSpace,
    widths: Seq<LayoutOutput>,
) -> bool {
    forall|j: int|
        0 <= j < widths.len() && items[j].position != Position::Absolute && clamp_of(
            items[j].size.width,
            items[j].min_size.width,
            items[j].max_size.width,
        ) is None ==> call_ensures(
            layout_child,
            (
                items[j].node_id,
                content_width_request_of(items[j], kids[j].style.margin, available_width),
            ),
            #[trigger] widths[j],
        )
}

/// Whether `flows` holds, for each in-flow child, what `layout_child`
/// answers to what that child is laid out with.
pub open spec fn flows_answered<F: Fn(NodeId, LayoutInput) -> LayoutOutput>(
    layout_child: F,
    context: FlowContext,
    kids: Seq<BlockChild>,
    items: Seq<BlockItem>,
    flows: Seq<LayoutOutput>,
) -> bool {
    forall|j: int|
        0 <= j < flows.len() && items[j].position != Position::Absolute ==> call_ensures(
            layout_child,
            (items[j].node_id, in_flow_request_of(context, items[j], kids[j].style.margin)),
            #[trigger] flows[j],
        )
}

/// Whether `absolutes` holds, for each absolutely placed child, what
/// `layout_child` answers to what that child is laid out with.
pub open spec fn absolutes_answered<F: Fn(NodeId, LayoutInput) -> LayoutOutput>(
    layout_child: F,
    kids: Seq<BlockChild>,
    items: Seq<BlockItem>,
    area_size: Size<Scalar>,
    absolutes: Seq<LayoutOutput>,
) -> bool {
    forall|j: int|
        0 <= j < absolutes.len() && items[j].position == Position::Absolute ==> call_ensures(
            layout_child,
            (
                items[j].node_id,
                absolute_request_of(absolute_box_of(kids[j].style, area_size), area_size),
            ),
            #[trigger] absolutes[j],
        )
}

/// Whether `widths`, `flows` and `absolutes` hold what `layout_child`
/// answers for the children `kids` of a container in each pass that its
/// layout makes: one over the in-flow children where the width of the
/// container is not known; one over them to place them, unless the size
/// is all that is asked for and the height is known; and one over the
/// absolutely placed children, unless the size is all that is asked for.
pub open spec fn answered<F: Fn(NodeId, LayoutInput) -> LayoutOutput>(
    layout_child: F,
    style: Style,
    inputs: LayoutInput,
    kids: Seq<BlockChild>,
    widths: Seq<LayoutOutput>,
    flows: Seq<LayoutOutput>,
    absolutes: Seq<LayoutOutput>,
) -> bool {
    let items = items_of(kids, block_box_of(style, inputs).container_content_box_size);
    &&& inputs.known_dimensions.width is None ==> widths.len() == kids.len() && widths_answered(
        layout_child,
        kids,
        items,
        content_space_width_of(style, inputs),
        widths,
    )
    &&& !(only_size_asked(inputs) && inputs.known_dimensions.height is Some) ==> flows.len()
        == kids.len() && flows_answered(
        layout_child,
        context_of(style, inputs, kids, widths),
        kids,
        items,
        flows,
    )
    &&& !only_size_asked(inputs) ==> absolutes.len() == kids.len() && absolutes_answered(
        layout_child,
        kids,
        whole_flow_of(style, inputs, kids, widths, flows).items,
        area_of(style, inputs, kids, widths, flows).0,
        absolutes,
    )
}

/// The widest that the in-flow children ask of the content of a
/// container whose width is not known.
fn determine_content_based_container_width<F: Fn(NodeId, LayoutInput) -> LayoutOutput>(
    children: &Vec<BlockChild>,
    items: &Vec<BlockItem>,
    places: &Vec<usize>,
    Ghost(kids): Ghost<Seq<BlockChild>>,
    available_width: AvailableSpace,
    layout_child: &F,
) -> (out: (Scalar, Ghost<Seq<LayoutOutput>>))
    requires
        forall|node: NodeId, request: LayoutInput| call_requires(*layout_child, (node, request)),
        items@.len() == kids.len(),
        places@.len() == kids.len(),
        forall|j: int|
            0 <= j < kids.len() ==> (#[trigger] places@[j]) < children@.len() && children@[places@[j] as int]
                == kids[j],
        forall|j: int| 0 <= j < kids.len() ==> (#[trigger] items@[j]).node_id == kids[j].node_id,
    ensures
        out.1@.len() == kids.len(),
        widths_answered(*layout_child, kids, items@, available_width, out.1@),
        out.0 == widest_of(kids, items@, available_width, out.1@),
{
    let mut max_child_width = Scalar(0);
    let ghost mut widths: Seq<LayoutOutput> = Seq::empty();
    let mut j: usize = 0;
    while j < items.len()
        invariant
            j <= items@.len(),
            items@.len() == kids.len(),
            places@.len() == kids.len(),
            forall|node: NodeId, request: LayoutInput|
                call_requires(*layout_child, (node, request)),
            forall|k: int|
                0 <= k < kids.len() ==> (#[trigger] places@[k]) < children@.len()
                    && children@[places@[k] as int] == kids[k],
            widths.len() == j,
            widths_answered(*layout_child, kids, items@, available_width, widths),
            max_child_width == widest_of(kids, items@, available_width, widths),
        decreases items@.len() - j,
    {
        let item = items[j];
        let child = &children[places[j]];
        let ghost before = widths;
        if matches!(item.position, Position::Absolute) {
            proof {
                widths = widths.push(LayoutOutput::hidden_value());
            }
        } else if content_width_takes_layout(&item) {
            let request = content_width_request(&item, &child.style.margin, available_width);
            let answer = layout_child(item.node_id, request);
            let width = content_width(&item, &child.style.margin, available_width, answer.size.width);
            max_child_width = max_child_width.max(width);
            proof {
                widths = widths.push(answer);
            }
        } else {
            let width = content_width(&item, &child.style.margin, available_width, Scalar(0));
            max_child_width = max_child_width.max(width);
            proof {
                widths = widths.push(LayoutOutput::hidden_value());
            }
        }
        proof {
            assert(widths.drop_last() =~= before);
        }
        j += 1;
    }
    (max_child_width, Ghost(widths))
}

/// Places the in-flow children one below the other, and notes for the
/// others where the flow stood when it came to them.
fn perform_final_layout_on_in_flow_children<F: Fn(NodeId, LayoutInput) -> LayoutOutput>(
    children: &Vec<BlockChild>,
    items: &mut Vec<BlockItem>,
    places: &Vec<usize>,
    Ghost(kids): Ghost<Seq<BlockChild>>,
    context: &FlowContext,
    layout_child: &F,
) -> (out: (FlowState, Vec<(NodeId, Layout)>, Ghost<Seq<LayoutOutput>>))
    requires
        forall|node: NodeId, request: LayoutInput| call_requires(*layout_child, (node, request)),
        old(items)@.len() == kids.len(),
        places@.len() == kids.len(),
        forall|j: int|
            0 <= j < kids.len() ==> (#[trigger] places@[j]) < children@.len() && children@[places@[j] as int]
                == kids[j],
    ensures
        out.2@.len() == kids.len(),
        flows_answered(*layout_child, *context, kids, old(items)@, out.2@),
        out.0 == flow_of(*context, kids, old(items)@, out.2@).state,
        out.1@ == flow_of(*context, kids, old(items)@, out.2@).layouts,
        final(items)@ == flow_of(*context, kids, old(items)@, out.2@).items,
        final(items)@.len() == kids.len(),
{
    let ghost start = items@;
    let mut state = flow_start(context);
    let mut layouts: Vec<(NodeId, Layout)> = Vec::new();
    let ghost mut flows: Seq<LayoutOutput> = Seq::empty();
    let mut j: usize = 0;
    proof {
        assert(layouts@ =~= flow_of(*context, kids, start, flows).layouts);
    }
    while j < items.len()
        invariant
            j <= items@.len(),
            items@.len() == kids.len(),
            start.len() == kids.len(),
            places@.len() == kids.len(),
            forall|node: NodeId, request: LayoutInput|
                call_requires(*layout_child, (node, request)),
            forall|k: int|
                0 <= k < kids.len() ==> (#[trigger] places@[k]) < children@.len()
                    && children@[places@[k] as int] == kids[k],
            flows.len() == j,
            flows_answered(*layout_child, *context, kids, start, flows),
            state == flow_of(*context, kids, start, flows).state,
            layouts@ == flow_of(*context, kids, start, flows).layouts,
            flow_of(*context, kids, start, flows).items.len() == j,
            forall|k: int|
                0 <= k < j ==> #[trigger] items@[k] == flow_of(*context, kids, start, flows).items[k],
            forall|k: int| j <= k < items@.len() ==> #[trigger] items@[k] == start[k],
        decreases items@.len() - j,
    {
        let item = items[j];
        let child = &children[places[j]];
        let ghost before = flows;
        if matches!(item.position, Position::Absolute) {
            let noted = note_static_position(&state, item);
            items.set(j, noted);
            proof {
                flows = flows.push(LayoutOutput::hidden_value());
            }
        } else {
            let request = in_flow_request(context, &item, &child.style.margin);
            let answer = layout_child(item.node_id, request);
            let placed = place_in_flow_item(
                context,
                state,
                item,
                &child.style.margin,
                &child.style.inset,
                answer,
            );
            state = placed.0;
            items.set(j, placed.1);
            layouts.push((item.node_id, placed.2));
            proof {
                flows = flows.push(answer);
            }
        }
        proof {
            assert(flows.drop_last() =~= before);
        }
        j += 1;
    }
    proof {
        assert(items@ =~= flow_of(*context, kids, start, flows).items);
    }
    (state, layouts, Ghost(flows))
}

/// Places the absolutely placed children in the area given.
fn perform_absolute_layout_on_absolute_children<F: Fn(NodeId, LayoutInput) -> LayoutOutput>(
    children: &Vec<BlockChild>,
    items: &Vec<BlockItem>,
    places: &Vec<usize>,
    Ghost(kids): Ghost<Seq<BlockChild>>,
    area_size: Size<Scalar>,
    area_offset: Point<Scalar>,
    layout_child: &F,
) -> (out: (Vec<(NodeId, Layout)>, Ghost<Seq<LayoutOutput>>))
    requires
        forall|node: NodeId, request: LayoutInput| call_requires(*layout_child, (node, request)),
        items@.len() == kids.len(),
        places@.len() == kids.len(),
        forall|j: int|
            0 <= j < kids.len() ==> (#[trigger] places@[j]) < children@.len() && children@[places@[j] as int]
                == kids[j],
    ensures
        out.1@.len() == kids.len(),
        absolutes_answered(*layout_child, kids, items@, area_size, out.1@),
        out.0@ == placed_absolutes_of(kids, items@, area_size, area_offset, out.1@),
{
    let mut layouts: Vec<(NodeId, Layout)> = Vec::new();
    let ghost mut absolutes: Seq<LayoutOutput> = Seq::empty();
    let mut j: usize = 0;
    proof {
        assert(layouts@ =~= placed_absolutes_of(kids, items@, area_size, area_offset, absolutes));
    }
    while j < items.len()
        invariant
            j <= items@.len(),
            items@.len() == kids.len(),
            places@.len() == kids.len(),
            forall|node: NodeId, request: LayoutInput|
                call_requires(*layout_child, (node, request)),
            forall|k: int|
                0 <= k < kids.len() ==> (#[trigger] places@[k]) < children@.len()
                    && children@[places@[k] as int] == kids[k],
            absolutes.len() == j,
            absolutes_answered(*layout_child, kids, items@, area_size, absolutes),
            layouts@ == placed_absolutes_of(kids, items@, area_size, area_offset, absolutes),
        decreases items@.len() - j,
    {
        let item = items[j];
        let child = &children[places[j]];
        let ghost before = absolutes;
        if matches!(item.position, Position::Absolute) {
            let placing = absolute_box(&child.style, area_size);
            let request = absolute_request(&placing, area_size);
            let answer = layout_child(item.node_id, request);
            let layout = place_absolute_item(&placing, &item, answer.size, area_size, area_offset);
            layouts.push((item.node_id, layout));
            proof {
                absolutes = absolutes.push(answer);
            }
        } else {
            proof {
                absolutes = absolutes.push(LayoutOutput::hidden_value());
            }
        }
        proof {
            assert(absolutes.drop_last() =~= before);
        }
        j += 1;
    }
    (layouts, Ghost(absolutes))
}

/// The first baseline of a container with the given items.
fn first_vertical_baseline(items: &Vec<BlockItem>) -> (baseline: Option<Scalar>)
    ensures
        baseline == first_baseline_of(items@),
{
    let mut i: usize = 0;
    proof {
        assert(items@.skip(0) =~= items@);
    }
    while i < items.len()
        invariant
            i <= items@.len(),
            first_baseline_of(items@) == first_baseline_of(items@.skip(i as int)),
        decreases items@.len() - i,
    {
        proof {
            assert(items@.skip(i as int)[0] == items@[i as int]);
            assert(items@.skip(i as int).skip(1) =~= items@.skip(i + 1));
        }
        if !matches!(items[i].position, Position::Absolute) {
            let baseline = match items[i].baseline {
                Some(baseline) => baseline,
                None => items[i].computed_size.height,
            };
            return Some(items[i].static_position.y.plus(baseline));
        }
        i += 1;
    }
    None
}

/// Lays out a container once the dimensions that follow from its style
/// are taken for known.
fn compute_inner<F: Fn(NodeId, LayoutInput) -> LayoutOutput>(
    style: &Style,
    inputs: LayoutInput,
    children: &Vec<BlockChild>,
    layout_child: &F,
) -> (out: (LayoutOutput, Vec<(NodeId, Layout)>))
    requires
        children@.len() <= u32::MAX,
        forall|node: NodeId, request: LayoutInput| call_requires(*layout_child, (node, request)),
    ensures
        exists|widths: Seq<LayoutOutput>, flows: Seq<LayoutOutput>, absolutes: Seq<LayoutOutput>|
            answered(*layout_child, *style, inputs, shown_of(children@), widths, flows, absolutes)
                && (out.0, out.1@) == #[trigger] inner_layout_of(
                *style,
                inputs,
                shown_of(children@),
                widths,
                flows,
                absolutes,
            ),
{
    let ghost kids = shown_of(children@);
    let container = block_box(style, inputs);
    let (mut items, places) = generate_item_list(children, container.container_content_box_size);
    let ghost items_at_start = items@;
    let ghost mut widths: Seq<LayoutOutput> = Seq::empty();
    let ghost mut flows: Seq<LayoutOutput> = Seq::empty();
    let ghost mut absolutes: Seq<LayoutOutput> = Seq::empty();
    let container_outer_width = match inputs.known_dimensions.width {
        Some(width) => width,
        None => {
            let available_width = inputs.available_space.width.maybe_sub(
                container.content_box_inset.horizontal_axis_sum(),
            );
            let widest = determine_content_based_container_width(
                children,
                &items,
                &places,
                Ghost(kids),
                available_width,
                layout_child,
            );
            proof {
                widths = widest.1@;
            }
            intrinsic_outer_width(&container, widest.0)
        },
    };
    assert(container_outer_width == outer_width_of(*style, inputs, kids, widths));
    match (inputs.run_mode, inputs.known_dimensions.height) {
        (RunMode::ComputeSize, Some(container_outer_height)) => {
            let out = (
                LayoutOutput::from_outer_size(
                    Size { width: container_outer_width, height: container_outer_height },
                ),
                Vec::new(),
            );
            proof {
                assert(out.1@ =~= Seq::empty());
                assert(answered(*layout_child, *style, inputs, kids, widths, flows, absolutes));
                assert((out.0, out.1@) == inner_layout_of(
                    *style,
                    inputs,
                    kids,
                    widths,
                    flows,
                    absolutes,
                ));
            }
            return out;
        },
        _ => {},
    }
    let context = flow_context(style, &container, container_outer_width);
    let flowed = perform_final_layout_on_in_flow_children(
        children,
        &mut items,
        &places,
        Ghost(kids),
        &context,
        layout_child,
    );
    proof {
        flows = flowed.2@;
    }
    let state = flowed.0;
    let mut layouts = flowed.1;
    let end = flow_end(&context, &state);
    let container_outer_height = match inputs.known_dimensions.height {
        Some(height) => height,
        None => intrinsic_outer_height(&container, end.0),
    };
    let final_outer_size = Size { width: container_outer_width, height: container_outer_height };
    assert(final_outer_size == outer_size_of(*style, inputs, kids, widths, flows));
    if matches!(inputs.run_mode, RunMode::ComputeSize) {
        let out = (LayoutOutput::from_outer_size(final_outer_size), layouts);
        proof {
            assert(answered(*layout_child, *style, inputs, kids, widths, flows, absolutes));
            assert((out.0, out.1@) == inner_layout_of(
                *style,
                inputs,
                kids,
                widths,
                flows,
                absolutes,
            ));
        }
        return out;
    }
    let area = absolute_area(&context, style, &container, final_outer_size);
    let placed = perform_absolute_layout_on_absolute_children(
        children,
        &items,
        &places,
        Ghost(kids),
        area.0,
        area.1,
        layout_child,
    );
    proof {
        absolutes = placed.1@;
    }
    let ghost in_flow_layouts = layouts@;
    let mut absolute_layouts = placed.0;
    layouts.append(&mut absolute_layouts);
    let children_collapse_through = all_in_flow_children_can_be_collapsed_through(&items);
    let output = LayoutOutput {
        size: final_outer_size,
        content_size: Size { width: Scalar(0), height: Scalar(0) },
        first_baselines: Point { x: None, y: first_vertical_baseline(&items) },
        top_margin: container_margin_set(
            container.own_margins_collapse_with_children.start,
            end.1,
            style.margin.top.resolve_or_zero(inputs.parent_size.width),
        ),
        bottom_margin: container_margin_set(
            container.own_margins_collapse_with_children.end,
            end.2,
            style.margin.bottom.resolve_or_zero(inputs.parent_size.width),
        ),
        margins_can_collapse_through: !container.keeps_margins_apart && children_collapse_through,
    };
    proof {
        assert(layouts@ =~= in_flow_layouts + placed.0@);
        assert(answered(*layout_child, *style, inputs, kids, widths, flows, absolutes));
        assert((output, layouts@) == inner_layout_of(
            *style,
            inputs,
            kids,
            widths,
            flows,
            absolutes,
        ));
    }
    (output, layouts)
}

/// Lays out the children of a block container that make a box.
fn compute_shown<F: Fn(NodeId, LayoutInput) -> LayoutOutput>(
    style: &Style,
    inputs: LayoutInput,
    children: &Vec<BlockChild>,
    layout_child: &F,
) -> (out: (LayoutOutput, Vec<(NodeId, Layout)>))
    requires
        children@.len() <= u32::MAX,
        forall|node: NodeId, request: LayoutInput| call_requires(*layout_child, (node, request)),
    ensures
        exists|widths: Seq<LayoutOutput>, flows: Seq<LayoutOutput>, absolutes: Seq<LayoutOutput>|
            answered(
                *layout_child,
                *style,
                inner_inputs_of(*style, inputs),
                shown_of(children@),
                widths,
                flows,
                absolutes,
            ) && (out.0, out.1@) == #[trigger] shown_layout_of(
                *style,
                inputs,
                children@,
                widths,
                flows,
                absolutes,
            ),
{
    let known_dimensions = block_known_dimensions(style, inputs);
    let inner_inputs = LayoutInput { known_dimensions, ..inputs };
    match (inputs.run_mode, known_dimensions.width, known_dimensions.height) {
        (RunMode::ComputeSize, Some(width), Some(height)) => {
            let out = (LayoutOutput::from_outer_size(Size { width, height }), Vec::new());
            proof {
                let none = Seq::<LayoutOutput>::empty();
                assert(out.1@ =~= Seq::empty());
                assert(answered(
                    *layout_child,
                    *style,
                    inner_inputs,
                    shown_of(children@),
                    none,
                    none,
                    none,
                ));
                assert((out.0, out.1@) == shown_layout_of(
                    *style,
                    inputs,
                    children@,
                    none,
                    none,
                    none,
                ));
            }
            out
        },
        _ => {
            let out = compute_inner(style, inner_inputs, children, layout_child);
            proof {
                let (widths, flows, absolutes) = choose|
                    widths: Seq<LayoutOutput>,
                    flows: Seq<LayoutOutput>,
                    absolutes: Seq<LayoutOutput>,
                |
                    answered(
                        *layout_child,
                        *style,
                        inner_inputs,
                        shown_of(children@),
                        widths,
                        flows,
                        absolutes,
                    ) && (out.0, out.1@) == #[trigger] inner_layout_of(
                        *style,
                        inner_inputs,
                        shown_of(children@),
                        widths,
                        flows,
                        absolutes,
                    );
                assert((out.0, out.1@) == shown_layout_of(
                    *style,
                    inputs,
                    children@,
                    widths,
                    flows,
                    absolutes,
                ));
            }
            out
        },
    }
}

/// What a container with the given children reports, and the layouts of
/// its children: those that make a box as block layout places them, the
/// in-flow children first, and behind them, in a full layout, those that
/// make no box, each with an empty box that keeps the child's place among
/// all the children for its order.
pub open spec fn block_layout_of(
    style: Style,
    inputs: LayoutInput,
    children: Seq<BlockChild>,
    widths: Seq<LayoutOutput>,
    flows: Seq<LayoutOutput>,
    absolutes: Seq<LayoutOutput>,
) -> (LayoutOutput, Seq<(NodeId, Layout)>) {
    let shown = shown_layout_of(style, inputs, children, widths, flows, absolutes);
    (
        shown.0,
        if only_size_asked(inputs) {
            shown.1
        } else {
            shown.1 + hidden_of(children)
        },
    )
}

/// Whether `hiddens` holds, for each child that makes no box, what
/// `layout_child` answers to a hidden run of that child: the run that
/// gives the child and every node below it an empty box and has them
/// forget what they remember.
pub open spec fn hiddens_answered<F: Fn(NodeId, LayoutInput) -> LayoutOutput>(
    layout_child: F,
    children: Seq<BlockChild>,
    hiddens: Seq<LayoutOutput>,
) -> bool {
    forall|j: int|
        0 <= j < hiddens.len() && children[j].style.display == crate::style::Display::Hidden
            ==> call_ensures(
            layout_child,
            (children[j].node_id, hidden_input()),
            #[trigger] hiddens[j],
        )
}

/// Asks for a hidden run of every child that makes no box, in order,
/// and gives the layouts that those children get.
fn perform_hidden_layout_on_hidden_children<F: Fn(NodeId, LayoutInput) -> LayoutOutput>(
    children: &Vec<BlockChild>,
    layout_child: &F,
) -> (out: (Vec<(NodeId, Layout)>, Ghost<Seq<LayoutOutput>>))
    requires
        children@.len() <= u32::MAX,
        forall|node: NodeId, request: LayoutInput| call_requires(*layout_child, (node, request)),
    ensures
        out.0@ == hidden_of(children@),
        out.1@.len() == children@.len(),
        hiddens_answered(*layout_child, children@, out.1@),
{
    let mut hidden: Vec<(NodeId, Layout)> = Vec::new();
    let ghost mut hiddens: Seq<LayoutOutput> = Seq::empty();
    let mut i: usize = 0;
    proof {
        assert(children@.take(0) =~= Seq::empty());
    }
    while i < children.len()
        invariant
            i <= children@.len(),
            children@.len() <= u32::MAX,
            forall|node: NodeId, request: LayoutInput|
                call_requires(*layout_child, (node, request)),
            hidden@ == hidden_of(children@.take(i as int)),
            hiddens.len() == i,
            hiddens_answered(*layout_child, children@, hiddens),
        decreases children@.len() - i,
    {
        proof {
            assert(children@.take(i + 1).drop_last() =~= children@.take(i as int));
            assert(children@.take(i + 1).last() == children@[i as int]);
        }
        if matches!(children[i].style.display, crate::style::Display::Hidden) {
            let answer = layout_child(children[i].node_id, hidden_layout_input());
            hidden.push((children[i].node_id, Layout::with_order(i as u32)));
            proof {
                hiddens = hiddens.push(answer);
            }
        } else {
            proof {
                hiddens = hiddens.push(LayoutOutput::hidden_value());
            }
        }
        i += 1;
    }
    proof {
        assert(children@.take(children@.len() as int) =~= children@);
    }
    (hidden, Ghost(hiddens))
}

/// Lays out a block container. `layout_child` lays out a child, given
/// what the child is laid out with; it is asked for the in-flow children
/// in turn where the container's width follows from its content, for
/// them again to place them one below the other, then for the
/// absolutely placed children, and last, in a full layout, for a hidden
/// run of every child that makes no box. The result is what the
/// container reports with the layouts of its children: it is what
/// follows from the style, the styles of the children and the answers of
/// `layout_child`. A child that makes no box takes no part in the size of
/// the container; its layout is an empty box with its place among all the
/// children for its order.
pub fn compute<F: Fn(NodeId, LayoutInput) -> LayoutOutput>(
    style: &Style,
    inputs: LayoutInput,
    children: &Vec<BlockChild>,
    layout_child: F,
) -> (out: (LayoutOutput, Vec<(NodeId, Layout)>))
    requires
        children@.len() <= u32::MAX,
        forall|node: NodeId, request: LayoutInput| call_requires(layout_child, (node, request)),
    ensures
        exists|
            widths: Seq<LayoutOutput>,
            flows: Seq<LayoutOutput>,
            absolutes: Seq<LayoutOutput>,
            hiddens: Seq<LayoutOutput>,
        |
            answered(
                layout_child,
                *style,
                inner_inputs_of(*style, inputs),
                shown_of(children@),
                widths,
                flows,
                absolutes,
            ) && (!only_size_asked(inputs) ==> hiddens.len() == children@.len()
                && #[trigger] hiddens_answered(layout_child, children@, hiddens)) && (out.0, out.1@)
                == #[trigger] block_layout_of(
                *style,
                inputs,
                children@,
                widths,
                flows,
                absolutes,
            ),
{
    let shown = compute_shown(style, inputs, children, &layout_child);
    let ghost (widths, flows, absolutes) = choose|
        widths: Seq<LayoutOutput>,
        flows: Seq<LayoutOutput>,
        absolutes: Seq<LayoutOutput>,
    |
        answered(
            layout_child,
            *style,
            inner_inputs_of(*style, inputs),
            shown_of(children@),
            widths,
            flows,
            absolutes,
        ) && (shown.0, shown.1@) == #[trigger] shown_layout_of(
            *style,
            inputs,
            children@,
            widths,
            flows,
            absolutes,
        );
    if matches!(inputs.run_mode, RunMode::ComputeSize) {
        proof {
            let hiddens = Seq::<LayoutOutput>::empty();
            assert(hiddens_answered(layout_child, children@, Seq::<LayoutOutput>::empty()));
            assert((shown.0, shown.1@) == block_layout_of(
                *style,
                inputs,
                children@,
                widths,
                flows,
                absolutes,
            ));
        }
        shown
    } else {
        let ghost placed = shown.1@;
        let mut layouts = shown.1;
        let swept = perform_hidden_layout_on_hidden_children(children, &layout_child);
        let mut hidden = swept.0;
        layouts.append(&mut hidden);
        proof {
            assert(hiddens_answered(layout_child, children@, swept.1@));
            assert(layouts@ =~= placed + hidden_of(children@));
            assert((shown.0, layouts@) == block_layout_of(
                *style,
                inputs,
                children@,
                widths,
                flows,
                absolutes,
            ));
        }
        (shown.0, layouts)
    }
}

/// The children that make no box, each with the layout that it gets:
/// an empty box that keeps the child's place among all the children.
pub open spec fn hidden_of(children: Seq<BlockChild>) -> Seq<(NodeId, Layout)>
    decreases children.len(),
{
    if children.len() == 0 {
        Seq::empty()
    } else if children.last().style.display == crate::style::Display::Hidden {
        hidden_of(children.drop_last()).push(
            (children.last().node_id, Layout::zeroed((children.len() - 1) as u32)),
        )
    } else {
        hidden_of(children.drop_last())
    }
}

/// What a block container is laid out with in a run of the given kind.
pub open spec fn block_inputs(
    run_mode: RunMode,
    known_dimensions: Size<Option<Scalar>>,
    parent_size: Size<Option<Scalar>>,
    available_space: Size<AvailableSpace>,
    sizing_mode: SizingMode,
    vertical_margins_are_collapsible: Line<bool>,
) -> LayoutInput {
    LayoutInput {
        run_mode,
        sizing_mode,
        known_dimensions,
        parent_size,
        available_space,
        vertical_margins_are_collapsible,
    }
}

/// Block layout as one of the algorithms that a driver chooses between.
pub struct BlockAlgorithm;

impl BlockAlgorithm {
    /// Lays out a block container and its children: what `compute` gives
    /// for a full layout, hidden runs of the children without a box
    /// included.
    pub fn perform_layout<F: Fn(NodeId, LayoutInput) -> LayoutOutput>(
        style: &Style,
        known_dimensions: Size<Option<Scalar>>,
        parent_size: Size<Option<Scalar>>,
        available_space: Size<AvailableSpace>,
        sizing_mode: SizingMode,
        vertical_margins_are_collapsible: Line<bool>,
        children: &Vec<BlockChild>,
        layout_child: F,
    ) -> (out: (LayoutOutput, Vec<(NodeId, Layout)>))
        requires
            children@.len() <= u32::MAX,
            forall|node: NodeId, request: LayoutInput| call_requires(layout_child, (node, request)),
        ensures
            ({
                let inputs = block_inputs(
                    RunMode::PerformLayout,
                    known_dimensions,
                    parent_size,
                    available_space,
                    sizing_mode,
                    vertical_margins_are_collapsible,
                );
                exists|
                    widths: Seq<LayoutOutput>,
                    flows: Seq<LayoutOutput>,
                    absolutes: Seq<LayoutOutput>,
                    hiddens: Seq<LayoutOutput>,
                |
                    answered(
                        layout_child,
                        *style,
                        inner_inputs_of(*style, inputs),
                        shown_of(children@),
                        widths,
                        flows,
                        absolutes,
                    ) && hiddens.len() == children@.len() && #[trigger] hiddens_answered(
                        layout_child,
                        children@,
                        hiddens,
                    ) && (out.0, out.1@) == #[trigger] block_layout_of(
                        *style,
                        inputs,
                        children@,
                        widths,
                        flows,
                        absolutes,
                    )
            }),
    {
        compute(
            style,
            LayoutInput {
                run_mode: RunMode::PerformLayout,
                sizing_mode,
                known_dimensions,
                parent_size,
                available_space,
                vertical_margins_are_collapsible,
            },
            children,
            layout_child,
        )
    }

    /// The size of a block container, with the layouts of the children
    /// that were placed to find it: what `compute` gives where only the
    /// size is asked for.
    pub fn measure_size<F: Fn(NodeId, LayoutInput) -> LayoutOutput>(
        style: &Style,
        known_dimensions: Size<Option<Scalar>>,
        parent_size: Size<Option<Scalar>>,
        available_space: Size<AvailableSpace>,
        sizing_mode: SizingMode,
        vertical_margins_are_collapsible: Line<bool>,
        children: &Vec<BlockChild>,
        layout_child: F,
    ) -> (out: (Size<Scalar>, Vec<(NodeId, Layout)>))
        requires
            children@.len() <= u32::MAX,
            forall|node: NodeId, request: LayoutInput| call_requires(layout_child, (node, request)),
        ensures
            ({
                let inputs = block_inputs(
                    RunMode::ComputeSize,
                    known_dimensions,
                    parent_size,
                    available_space,
                    sizing_mode,
                    vertical_margins_are_collapsible,
                );
                exists|widths: Seq<LayoutOutput>, flows: Seq<LayoutOutput>, absolutes: Seq<LayoutOutput>|
                    answered(
                        layout_child,
                        *style,
                        inner_inputs_of(*style, inputs),
                        shown_of(children@),
                        widths,
                        flows,
                        absolutes,
                    ) && out.0 == (#[trigger] block_layout_of(
                        *style,
                        inputs,
                        children@,
                        widths,
                        flows,
                        absolutes,
                    )).0.size && out.1@ == block_layout_of(
                        *style,
                        inputs,
                        children@,
                        widths,
                        flows,
                        absolutes,
                    ).1
            }),
    {
        let laid_out = compute(
            style,
            LayoutInput {
                run_mode: RunMode::ComputeSize,
                sizing_mode,
                known_dimensions,
                parent_size,
                available_space,
                vertical_margins_are_collapsible,
            },
            children,
            layout_child,
        );
        (laid_out.0.size, laid_out.1)
    }
}

/// A child that makes no box changes nothing for the others: with such a
/// child put in anywhere among its children, a container reports the same
/// and lays out its children that make a box the same.
pub proof fn lemma_hidden_child_changes_nothing(
    style: Style,
    inputs: LayoutInput,
    children: Seq<BlockChild>,
    at: int,
    hidden: BlockChild,
    widths: Seq<LayoutOutput>,
    flows: Seq<LayoutOutput>,
    absolutes: Seq<LayoutOutput>,
)
    requires
        0 <= at <= children.len(),
        hidden.style.display == crate::style::Display::Hidden,
    ensures
        shown_layout_of(style, inputs, children.insert(at, hidden), widths, flows, absolutes)
            == shown_layout_of(style, inputs, children, widths, flows, absolutes),
        block_layout_of(style, inputs, children.insert(at, hidden), widths, flows, absolutes).0
            == block_layout_of(style, inputs, children, widths, flows, absolutes).0,
{
    crate::compute::block::lemma_hidden_child_is_not_shown(children, at, hidden);
}

/// The size of a block container is never negative along either axis,
/// and never less than its padding and border take, whatever its style,
/// whatever it is laid out with, and whatever its children answer.
pub proof fn lemma_block_size_is_not_negative(
    style: Style,
    inputs: LayoutInput,
    children: Seq<BlockChild>,
    widths: Seq<LayoutOutput>,
    flows: Seq<LayoutOutput>,
    absolutes: Seq<LayoutOutput>,
)
    ensures
        ({
            let size = block_layout_of(style, inputs, children, widths, flows, absolutes).0.size;
            let padding_border = style.padding.resolved_or_zero(inputs.parent_size.width).added(
                style.border.resolved_or_zero(inputs.parent_size.width),
            ).axis_sums();
            &&& Scalar::zero_value().less_eq(padding_border.width)
            &&& Scalar::zero_value().less_eq(padding_border.height)
            &&& padding_border.width.less_eq(size.width)
            &&& padding_border.height.less_eq(size.height)
            &&& Scalar::zero_value().less_eq(size.width)
            &&& Scalar::zero_value().less_eq(size.height)
        }),
{
    reveal(block_known_dimensions_of);
    reveal(block_box_of);
    let padding = style.padding.resolved_or_zero(inputs.parent_size.width);
    let border = style.border.resolved_or_zero(inputs.parent_size.width);
    crate::scalar::exact::lemma_sum_is_not_negative(padding.left, border.left);
    crate::scalar::exact::lemma_sum_is_not_negative(padding.right, border.right);
    crate::scalar::exact::lemma_sum_is_not_negative(padding.top, border.top);
    crate::scalar::exact::lemma_sum_is_not_negative(padding.bottom, border.bottom);
    let both = padding.added(border);
    crate::scalar::exact::lemma_sum_is_not_negative(both.left, both.right);
    crate::scalar::exact::lemma_sum_is_not_negative(both.top, both.bottom);
    let inner = inner_inputs_of(style, inputs);
    let container = block_box_of(style, inner);
    assert(container.padding == padding);
    assert(container.border == border);
}

/// Where minimum and maximum conflict along the width, a block
/// container that the parent has not settled is as wide as the minimum,
/// whatever the style's size, the space on offer and its children, as
/// long as padding and border take less.
pub proof fn lemma_block_layout_min_overrides_max(
    style: Style,
    inputs: LayoutInput,
    children: Seq<BlockChild>,
    widths: Seq<LayoutOutput>,
    flows: Seq<LayoutOutput>,
    absolutes: Seq<LayoutOutput>,
    a: Scalar,
    b: Scalar,
)
    requires
        inputs.known_dimensions.width is None,
        crate::compute::leaf::resolved_size_of(style.min_size, inputs.parent_size, style.aspect_ratio).width
            == Some(a),
        crate::compute::leaf::resolved_size_of(style.max_size, inputs.parent_size, style.aspect_ratio).width
            == Some(b),
        b.less(a),
        style.padding.resolved_or_zero(inputs.parent_size.width).added(
            style.border.resolved_or_zero(inputs.parent_size.width),
        ).horizontal_sum().less(a),
    ensures
        block_layout_of(style, inputs, children, widths, flows, absolutes).0.size.width == a,
{
    crate::compute::block::lemma_block_min_overrides_max(style, inputs, a, b);
}

} // verus!
