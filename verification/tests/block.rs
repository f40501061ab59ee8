use taffy::compute::block::algorithm::{compute, BlockAlgorithm};
use taffy::compute::block::{
    absolute_auto_margin_divisor, absolute_box, absolute_final_size, absolute_min_size, absolute_request,
    all_in_flow_children_can_be_collapsed_through, block_box, container_margin_set, content_height,
    generate_item_list, has_styles_preventing_being_collapsed_through, in_flow_auto_margin_divisor,
    in_flow_known_dimensions, inset_offset_along, intrinsic_outer_height, item_margin_set, min_max_definite_size,
    non_auto_margin, own_margins_collapse_with_children, place_absolute_item, resolved_margin_at,
    styled_based_known_dimensions, BlockChild, BlockItem, FlowMargins,
};
use taffy::compute::leaf::compute_leaf_layout;
use taffy::compute::taffy_tree::root_layout_input;
use taffy::geometry::{Line, Point, Rect, Size};
use taffy::scalar::Scalar;
use taffy::style::dimension::{AvailableSpace, Dimension, LengthPercentage, LengthPercentageAuto};
use taffy::style::{Display, Overflow, Position, Style};
use taffy::tree::{CollapsibleMarginSet, Layout, LayoutInput, LayoutOutput, NodeId, RunMode, SizingMode};

fn s(x: f32) -> Scalar {
    Scalar::from_bits(x.to_bits())
}

fn f(x: Scalar) -> f32 {
    f32::from_bits(x.to_bits())
}

fn o(x: f32) -> Option<Scalar> {
    Some(s(x))
}

fn resolve(set: CollapsibleMarginSet) -> f32 {
    f(set.positive) + f(set.negative)
}

fn none() -> Size<Option<Scalar>> {
    Size { width: None, height: None }
}

fn zero_rect() -> Rect<Scalar> {
    Rect { left: s(0.0), right: s(0.0), top: s(0.0), bottom: s(0.0) }
}

#[test]
fn margin_sets_gather_margins() {
    let zero = CollapsibleMarginSet::zero();
    assert_eq!(resolve(zero), 0.0);
    assert_eq!(CollapsibleMarginSet::from_margin(s(10.0)), CollapsibleMarginSet { positive: s(10.0), negative: s(0.0) });
    assert_eq!(CollapsibleMarginSet::from_margin(s(-4.0)), CollapsibleMarginSet { positive: s(0.0), negative: s(-4.0) });
    let set = zero.collapse_with_margin(s(10.0)).collapse_with_margin(s(-4.0)).collapse_with_margin(s(6.0));
    assert_eq!(set, CollapsibleMarginSet { positive: s(10.0), negative: s(-4.0) });
    assert_eq!(resolve(set), 6.0);
    let other = CollapsibleMarginSet { positive: s(12.0), negative: s(-1.0) };
    assert_eq!(set.collapse_with_set(other), CollapsibleMarginSet { positive: s(12.0), negative: s(-4.0) });
    assert_eq!(set.collapse_with_set(other), other.collapse_with_set(set));
    assert_eq!(item_margin_set(set, None), set);
    assert_eq!(item_margin_set(set, o(20.0)).positive, s(20.0));
}

#[test]
fn what_minimum_and_maximum_settle() {
    let min = Size { width: o(100.0), height: o(10.0) };
    let max = Size { width: o(50.0), height: o(20.0) };
    assert_eq!(min_max_definite_size(min, max), Size { width: o(100.0), height: None });
    let max = Size { width: o(100.0), height: None };
    assert_eq!(min_max_definite_size(min, max), Size { width: o(100.0), height: None });
}

#[test]
fn the_known_dimensions_of_a_block_container() {
    // the parent's word comes first
    let known = Size { width: o(7.0), height: None };
    let out = styled_based_known_dimensions(known, none(), none(), Size { width: o(50.0), height: o(60.0) }, o(90.0));
    assert_eq!(out, Size { width: o(7.0), height: o(60.0) });
    // then what minimum and maximum settle
    let min = Size { width: o(100.0), height: None };
    let max = Size { width: o(50.0), height: None };
    let out = styled_based_known_dimensions(none(), min, max, Size { width: o(70.0), height: None }, o(90.0));
    assert_eq!(out, Size { width: o(100.0), height: None });
    // then the bounded style size
    let max = Size { width: o(150.0), height: None };
    let out = styled_based_known_dimensions(none(), min, max, Size { width: o(70.0), height: None }, o(90.0));
    assert_eq!(out, Size { width: o(100.0), height: None });
    // then the available width
    let out = styled_based_known_dimensions(none(), none(), none(), none(), o(90.0));
    assert_eq!(out, Size { width: o(90.0), height: None });
    assert_eq!(styled_based_known_dimensions(none(), none(), none(), none(), None), none());
}

#[test]
fn a_size_query_with_both_dimensions_known_needs_no_layout() {
    let style = Style {
        display: Display::Block,
        size: Size { width: Dimension::Length(s(30.0)), height: Dimension::Length(s(20.0)) },
        ..Style::default()
    };
    let child = BlockChild { node_id: NodeId::new(1), style: Style::default() };
    let asked = LayoutInput { run_mode: RunMode::ComputeSize, ..root_layout_input(Size::<AvailableSpace>::max_content()) };
    let (output, layouts) = compute(&style, asked, &vec![child], |_, _| panic!("no child is looked at"));
    assert_eq!(output, LayoutOutput::from_outer_size(Size { width: s(30.0), height: s(20.0) }));
    assert!(layouts.is_empty());
    // the width stretches to the space on offer; the height takes the children
    let open = Style { display: Display::Block, ..Style::default() };
    let space = Size { width: AvailableSpace::Definite(s(80.0)), height: AvailableSpace::MaxContent };
    let asked = LayoutInput { run_mode: RunMode::ComputeSize, ..root_layout_input(space) };
    let child = BlockChild { node_id: NodeId::new(1), style: Style::default() };
    let answer = LayoutOutput::from_outer_size(Size { width: s(80.0), height: s(12.0) });
    let (output, layouts) = compute(&open, asked, &vec![child], |_, _| answer);
    assert_eq!(output, LayoutOutput::from_outer_size(Size { width: s(80.0), height: s(12.0) }));
    assert_eq!(layouts.len(), 1);
}

#[test]
fn the_height_of_a_container() {
    let boxed = |min: Dimension, max: Dimension, padding: f32| {
        let style = Style {
            display: Display::Block,
            min_size: Size { width: Dimension::Auto, height: min },
            max_size: Size { width: Dimension::Auto, height: max },
            padding: Rect {
                left: LengthPercentage::Length(s(0.0)),
                right: LengthPercentage::Length(s(0.0)),
                top: LengthPercentage::Length(s(padding)),
                bottom: LengthPercentage::Length(s(0.0)),
            },
            ..Style::default()
        };
        block_box(&style, root_layout_input(Size::<AvailableSpace>::max_content()))
    };
    let length = |x: f32| Dimension::Length(s(x));
    assert_eq!(intrinsic_outer_height(&boxed(Dimension::Auto, Dimension::Auto, 0.0), s(41.0)), s(41.0));
    assert_eq!(intrinsic_outer_height(&boxed(length(50.0), Dimension::Auto, 0.0), s(41.0)), s(50.0));
    assert_eq!(intrinsic_outer_height(&boxed(Dimension::Auto, length(20.0), 0.0), s(41.0)), s(20.0));
    assert_eq!(intrinsic_outer_height(&boxed(length(50.0), length(20.0), 0.0), s(41.0)), s(50.0));
    assert_eq!(intrinsic_outer_height(&boxed(Dimension::Auto, length(20.0), 30.0), s(41.0)), s(30.0));
    assert_eq!(content_height(s(-5.0)), s(0.0));
    assert_eq!(content_height(s(5.0)), s(5.0));
}

#[test]
fn when_own_margins_collapse_with_those_of_children() {
    let style = Style { display: Display::Block, ..Style::default() };
    let both = Line { start: true, end: true };
    assert_eq!(own_margins_collapse_with_children(&style, both, zero_rect(), zero_rect(), none()), both);
    let not_allowed = Line { start: false, end: true };
    assert_eq!(own_margins_collapse_with_children(&style, not_allowed, zero_rect(), zero_rect(), none()), not_allowed);
    let padded = Rect { top: s(1.0), ..zero_rect() };
    assert_eq!(
        own_margins_collapse_with_children(&style, both, padded, zero_rect(), none()),
        Line { start: false, end: true }
    );
    let bordered = Rect { bottom: s(1.0), ..zero_rect() };
    assert_eq!(
        own_margins_collapse_with_children(&style, both, zero_rect(), bordered, none()),
        Line { start: true, end: false }
    );
    let fixed_height = Size { width: None, height: o(10.0) };
    assert_eq!(
        own_margins_collapse_with_children(&style, both, zero_rect(), zero_rect(), fixed_height),
        Line { start: true, end: false }
    );
    let scrolling = Style { overflow: Point { x: Overflow::Visible, y: Overflow::Scroll }, ..style.clone() };
    assert_eq!(
        own_margins_collapse_with_children(&scrolling, both, zero_rect(), zero_rect(), none()),
        Line { start: false, end: false }
    );
    let absolute = Style { position: Position::Absolute, ..style.clone() };
    assert_eq!(
        own_margins_collapse_with_children(&absolute, both, zero_rect(), zero_rect(), none()),
        Line { start: false, end: false }
    );
    let negative_zero = Rect { top: s(-0.0), ..zero_rect() };
    assert_eq!(own_margins_collapse_with_children(&style, both, negative_zero, zero_rect(), none()), both);
}

#[test]
fn what_keeps_margins_from_collapsing_through() {
    let block = Style { display: Display::Block, ..Style::default() };
    assert!(!has_styles_preventing_being_collapsed_through(&block, zero_rect(), zero_rect()));
    assert!(has_styles_preventing_being_collapsed_through(&Style::default(), zero_rect(), zero_rect()));
    assert!(has_styles_preventing_being_collapsed_through(&block, Rect { bottom: s(1.0), ..zero_rect() }, zero_rect()));
    assert!(has_styles_preventing_being_collapsed_through(&block, zero_rect(), Rect { top: s(1.0), ..zero_rect() }));
    let hidden_overflow = Style { overflow: Point { x: Overflow::Visible, y: Overflow::Hidden }, ..block.clone() };
    assert!(has_styles_preventing_being_collapsed_through(&hidden_overflow, zero_rect(), zero_rect()));
    let absolute = Style { position: Position::Absolute, ..block.clone() };
    assert!(has_styles_preventing_being_collapsed_through(&absolute, zero_rect(), zero_rect()));
    assert!(Overflow::Scroll.is_scroll_container());
    assert!(Overflow::Hidden.is_scroll_container());
    assert!(!Overflow::Visible.is_scroll_container());
}

#[test]
fn items_are_made_for_the_children_that_make_a_box() {
    let child = |id: u64, display, position| BlockChild {
        node_id: NodeId::new(id),
        style: Style { display, position, ..Style::default() },
    };
    let list = |ids: &[(u64, Display, Position)]| -> Vec<BlockChild> {
        ids.iter().map(|&(id, display, position)| child(id, display, position)).collect()
    };
    let a = (1, Display::Flex, Position::Relative);
    let h = (2, Display::Hidden, Position::Relative);
    let b = (3, Display::Block, Position::Absolute);
    let c = (4, Display::Contents, Position::Relative);
    let (items, places) = generate_item_list(&list(&[a, h, b, h, c]), none());
    assert_eq!(
        items.iter().map(|i| (i.node_id, i.order)).collect::<Vec<_>>(),
        vec![(NodeId::new(1), 0), (NodeId::new(3), 1), (NodeId::new(4), 2)]
    );
    assert_eq!(places, vec![0, 2, 4]);
    assert_eq!(items[1].position, Position::Absolute);
    assert_eq!(items[0].position, Position::Relative);
    assert_eq!(items[0].size, none());
    assert_eq!(items[0].baseline, None);
    assert!(!items[0].can_be_collapsed_through);
    // a hidden child more or less leaves the items what they are
    assert_eq!(generate_item_list(&list(&[a, b, c]), none()).0, items);
    let (same, places) = generate_item_list(&list(&[h, a, b, c, h, h]), none());
    assert_eq!(same, items);
    assert_eq!(places, vec![1, 2, 3]);
    assert!(generate_item_list(&list(&[h]), none()).0.is_empty());
}

#[test]
fn the_flow_carries_margins_from_child_to_child() {
    let top = CollapsibleMarginSet::from_margin(s(10.0));
    let bottom = CollapsibleMarginSet::from_margin(s(20.0));
    let start = FlowMargins::new();
    assert!(start.is_collapsing_with_first_margin_set);
    assert_eq!(start.offset_set(true, s(10.0)), None);
    assert_eq!(start.offset_set(false, s(10.0)), Some(top));

    // a child that margins collapse through passes both its sets on and takes no room
    let (through, commits) = start.advance(top, bottom, true);
    assert!(!commits);
    assert!(through.is_collapsing_with_first_margin_set);
    assert_eq!(through.active_collapsible_margin_set.positive, s(20.0));
    assert_eq!(through.first_child_top_margin_set.positive, s(20.0));

    // any other child takes room and leaves its bottom set
    let (after, commits) = through.advance(top, CollapsibleMarginSet::from_margin(s(-5.0)), false);
    assert!(commits);
    assert!(!after.is_collapsing_with_first_margin_set);
    assert_eq!(after.active_collapsible_margin_set, CollapsibleMarginSet::from_margin(s(-5.0)));
    assert_eq!(after.first_child_top_margin_set.positive, s(20.0));
    assert_eq!(after.offset_set(true, s(3.0)).map(resolve), Some(-2.0));

    // once a child has taken room, the first set stays
    let (later, _) = after.advance(CollapsibleMarginSet::from_margin(s(99.0)), bottom, true);
    assert_eq!(later.first_child_top_margin_set, after.first_child_top_margin_set);
    assert_eq!(later.trailing_set(true), None);
    assert_eq!(later.trailing_set(false), Some(later.active_collapsible_margin_set));
}

/// Block vertical margin collapse, blocked by a minimum height: a container
/// of width 50 with three block children, (height 10, margin-bottom 10),
/// (min-height 1, margins 10 and 10), (height 10, margin-top 10).
#[test]
fn margins_between_siblings_collapse() {
    let children = [(10.0f32, 0.0f32, 10.0f32), (1.0, 10.0, 10.0), (10.0, 10.0, 0.0)];
    let own_margins_collapse = Line { start: false, end: false };
    let mut committed_y_offset = 0.0f32;
    let mut state = FlowMargins::new();
    let mut ys = vec![];
    for (height, margin_top, margin_bottom) in children {
        let top = item_margin_set(CollapsibleMarginSet::zero(), o(margin_top));
        let bottom = item_margin_set(CollapsibleMarginSet::zero(), o(margin_bottom));
        let y_margin_offset = state.offset_set(own_margins_collapse.start, s(resolve(top))).map(resolve).unwrap_or(0.0);
        ys.push(committed_y_offset + y_margin_offset);
        let (next, commits) = state.advance(top, bottom, false);
        if commits {
            committed_y_offset += height + y_margin_offset;
        }
        state = next;
    }
    committed_y_offset += state.trailing_set(own_margins_collapse.end).map(resolve).unwrap_or(0.0);
    assert_eq!(ys, vec![0.0, 20.0, 31.0]);
    assert_eq!(f(content_height(s(committed_y_offset))), 41.0);
}

#[test]
fn the_dimensions_of_an_in_flow_child() {
    let item = BlockItem {
        node_id: NodeId::new(1),
        order: 0,
        size: Size { width: None, height: o(5.0) },
        min_size: Size { width: None, height: o(10.0) },
        max_size: none(),
        position: Position::Relative,
        padding_border_sum: Size { width: s(0.0), height: s(0.0) },
        computed_size: Size { width: s(0.0), height: s(0.0) },
        static_position: Point { x: s(0.0), y: s(0.0) },
        can_be_collapsed_through: false,
        baseline: None,
    };
    assert_eq!(in_flow_known_dimensions(&item, s(40.0)), Size { width: o(40.0), height: o(10.0) });
    let fixed = BlockItem { size: Size { width: o(30.0), height: None }, ..item };
    assert_eq!(in_flow_known_dimensions(&fixed, s(40.0)), Size { width: o(30.0), height: None });
}

#[test]
fn auto_margins_share_the_free_space() {
    assert_eq!(in_flow_auto_margin_divisor(None, None, o(10.0)), 2);
    assert_eq!(in_flow_auto_margin_divisor(None, None, None), 0);
    assert_eq!(in_flow_auto_margin_divisor(None, o(1.0), None), 1);
    assert_eq!(in_flow_auto_margin_divisor(o(1.0), None, o(10.0)), 1);
    assert_eq!(in_flow_auto_margin_divisor(o(1.0), o(1.0), o(10.0)), 0);
    assert_eq!(absolute_auto_margin_divisor(None, None, o(10.0), s(20.0)), 2);
    assert_eq!(absolute_auto_margin_divisor(None, None, o(30.0), s(20.0)), 0);
    assert_eq!(absolute_auto_margin_divisor(None, None, o(20.0), s(20.0)), 0);
    assert_eq!(absolute_auto_margin_divisor(None, None, None, s(20.0)), 0);
    assert_eq!(absolute_auto_margin_divisor(None, o(0.0), None, s(20.0)), 1);
    assert_eq!(absolute_auto_margin_divisor(o(0.0), o(0.0), o(10.0), s(20.0)), 0);
    assert_eq!(resolved_margin_at(None, s(5.0)), s(5.0));
    assert_eq!(resolved_margin_at(o(1.0), s(5.0)), s(1.0));
}

#[test]
fn insets_move_a_box() {
    assert_eq!(inset_offset_along(o(3.0), o(4.0)), s(3.0));
    assert_eq!(inset_offset_along(None, o(4.0)), s(-4.0));
    assert_eq!(inset_offset_along(None, None), s(0.0));
}

#[test]
fn the_size_of_an_absolutely_placed_box() {
    let sum = Size { width: s(6.0), height: s(4.0) };
    assert_eq!(absolute_min_size(none(), sum), Size { width: o(6.0), height: o(4.0) });
    assert_eq!(
        absolute_min_size(Size { width: o(10.0), height: o(1.0) }, sum),
        Size { width: o(10.0), height: o(4.0) }
    );
    let measured = Size { width: s(20.0), height: s(30.0) };
    let known = Size { width: o(50.0), height: None };
    let min = Size { width: None, height: o(40.0) };
    let max = Size { width: o(45.0), height: None };
    assert_eq!(absolute_final_size(known, measured, min, max), Size { width: s(45.0), height: s(40.0) });
}

#[test]
fn each_margin_goes_by_its_own_edge() {
    let inset = Rect { left: o(0.0), right: None, top: None, bottom: o(0.0) };
    let margin = Rect { left: o(4.0), right: o(2.0), top: o(1.0), bottom: o(3.0) };
    assert_eq!(non_auto_margin(inset, margin), Rect { left: s(4.0), right: s(0.0), top: s(0.0), bottom: s(3.0) });
    let auto = Rect { left: None, right: None, top: None, bottom: None };
    let all = Rect { left: o(0.0), right: o(0.0), top: o(0.0), bottom: o(0.0) };
    assert_eq!(non_auto_margin(all, auto), zero_rect());
    assert_eq!(non_auto_margin(all, margin), Rect { left: s(4.0), right: s(2.0), top: s(1.0), bottom: s(3.0) });
}

#[test]
fn what_a_container_reports() {
    let item = BlockItem {
        node_id: NodeId::new(1),
        order: 0,
        size: none(),
        min_size: none(),
        max_size: none(),
        position: Position::Absolute,
        padding_border_sum: Size { width: s(0.0), height: s(0.0) },
        computed_size: Size { width: s(5.0), height: s(6.0) },
        static_position: Point { x: s(1.0), y: s(2.0) },
        can_be_collapsed_through: false,
        baseline: None,
    };
    let in_flow = BlockItem { position: Position::Relative, can_be_collapsed_through: true, ..item };
    assert!(all_in_flow_children_can_be_collapsed_through(&vec![item, in_flow]));
    assert!(all_in_flow_children_can_be_collapsed_through(&vec![]));
    let solid = BlockItem { can_be_collapsed_through: false, ..in_flow };
    assert!(!all_in_flow_children_can_be_collapsed_through(&vec![in_flow, solid]));

    let children = CollapsibleMarginSet::from_margin(s(7.0));
    assert_eq!(container_margin_set(true, children, s(3.0)), children);
    assert_eq!(container_margin_set(false, children, s(3.0)), CollapsibleMarginSet::from_margin(s(3.0)));
}

fn block(height: Dimension, margin_top: f32, margin_bottom: f32) -> Style {
    Style {
        display: Display::Block,
        size: Size { width: Dimension::Auto, height },
        margin: Rect {
            left: LengthPercentageAuto::Length(s(0.0)),
            right: LengthPercentageAuto::Length(s(0.0)),
            top: LengthPercentageAuto::Length(s(margin_top)),
            bottom: LengthPercentageAuto::Length(s(margin_bottom)),
        },
        ..Style::default()
    }
}

fn leaf_answer(style: &Style, request: LayoutInput) -> LayoutOutput {
    let none: Option<fn(Size<Option<Scalar>>, Size<AvailableSpace>) -> Size<Scalar>> = None;
    compute_leaf_layout(request, style, none)
}

fn children_of(styles: &[Style]) -> Vec<BlockChild> {
    styles.iter().enumerate().map(|(i, style)| BlockChild { node_id: NodeId::new(i as u64 + 1), style: style.clone() }).collect()
}

#[test]
fn a_container_asks_its_children_in_turn() {
    let container = Style {
        display: Display::Block,
        padding: Rect {
            left: LengthPercentage::Length(s(2.0)),
            right: LengthPercentage::Length(s(3.0)),
            top: LengthPercentage::Length(s(1.0)),
            bottom: LengthPercentage::Length(s(4.0)),
        },
        ..Style::default()
    };
    let wide = Style { size: Size { width: Dimension::Length(s(30.0)), height: Dimension::Length(s(10.0)) }, ..block(Dimension::Auto, 0.0, 0.0) };
    let open = block(Dimension::Length(s(5.0)), 2.0, 0.0);
    let hidden = Style { display: Display::Hidden, ..wide.clone() };
    let absolute = Style {
        position: Position::Absolute,
        size: Size { width: Dimension::Length(s(4.0)), height: Dimension::Length(s(4.0)) },
        inset: Rect {
            left: LengthPercentageAuto::Auto,
            right: LengthPercentageAuto::Length(s(1.0)),
            top: LengthPercentageAuto::Auto,
            bottom: LengthPercentageAuto::Length(s(2.0)),
        },
        ..Style::default()
    };
    let children = children_of(&[wide, hidden, open, absolute]);
    let asked = std::cell::RefCell::new(Vec::new());
    let inputs = root_layout_input(Size::<AvailableSpace>::max_content());
    let (output, layouts) = compute(&container, inputs, &children, |node, request| {
        asked.borrow_mut().push((node.0, request.sizing_mode, request.known_dimensions, request.parent_size));
        leaf_answer(&children[node.0 as usize - 1].style, request)
    });
    // the width of the content: the widest child, 30; the open child is asked for its width,
    // then both are placed, then the absolute child; the hidden one is laid out as hidden last
    let asked = asked.into_inner();
    assert_eq!(asked.iter().map(|a| a.0).collect::<Vec<_>>(), vec![3, 1, 3, 4, 2]);
    assert_eq!(asked[0].2, Size { width: None, height: o(5.0) });
    assert_eq!(asked[0].3, none());
    assert_eq!(asked[1].2, Size { width: o(30.0), height: o(10.0) });
    assert_eq!(asked[1].3, Size { width: o(35.0), height: None });
    assert_eq!(asked[2].2, Size { width: o(30.0), height: o(5.0) });
    assert_eq!(asked[3].1, SizingMode::ContentSize);
    assert_eq!(asked[3].2, Size { width: o(4.0), height: o(4.0) });
    assert_eq!(asked[3].3, Size { width: o(35.0), height: o(22.0) });

    assert_eq!(output.size, Size { width: s(35.0), height: s(22.0) });
    // the baseline of the first child in the flow: its top and the bottom of its content
    assert_eq!(output.first_baselines, Point { x: None, y: o(11.0) });
    assert!(!output.margins_can_collapse_through);
    let expect = |order, width: f32, height: f32, x: f32, y: f32| Layout {
        order,
        size: Size { width: s(width), height: s(height) },
        location: Point { x: s(x), y: s(y) },
    };
    assert_eq!(
        layouts,
        vec![
            (NodeId::new(1), expect(0, 30.0, 10.0, 2.0, 1.0)),
            (NodeId::new(3), expect(1, 30.0, 5.0, 2.0, 13.0)),
            (NodeId::new(4), expect(2, 4.0, 4.0, 35.0 - 4.0 - 1.0, 22.0 - 4.0 - 2.0)),
            // the child without a box gets an empty box that keeps its place among all four
            (NodeId::new(2), Layout::with_order(1)),
        ]
    );
}

#[test]
fn auto_margins_centre_a_child() {
    let container = Style {
        display: Display::Block,
        size: Size { width: Dimension::Length(s(100.0)), height: Dimension::Auto },
        ..Style::default()
    };
    let auto_margins = |left, right| Style {
        size: Size { width: Dimension::Length(s(40.0)), height: Dimension::Length(s(10.0)) },
        margin: Rect { left, right, top: LengthPercentageAuto::Auto, bottom: LengthPercentageAuto::Auto },
        ..block(Dimension::Auto, 0.0, 0.0)
    };
    let auto = LengthPercentageAuto::Auto;
    let ten = LengthPercentageAuto::Length(s(10.0));
    let relative = Style {
        inset: Rect {
            left: LengthPercentageAuto::Auto,
            right: LengthPercentageAuto::Percent(s(0.1)),
            top: LengthPercentageAuto::Length(s(3.0)),
            bottom: LengthPercentageAuto::Length(s(99.0)),
        },
        ..auto_margins(ten.clone(), ten.clone())
    };
    let children = children_of(&[
        auto_margins(auto.clone(), auto.clone()),
        auto_margins(auto.clone(), ten.clone()),
        auto_margins(ten.clone(), auto.clone()),
        relative,
    ]);
    let inputs = root_layout_input(Size::<AvailableSpace>::max_content());
    let (output, layouts) =
        compute(&container, inputs, &children, |node, request| leaf_answer(&children[node.0 as usize - 1].style, request));
    let places: Vec<(f32, f32)> = layouts.iter().map(|(_, l)| (f(l.location.x), f(l.location.y))).collect();
    // an inset moves the box and nothing else: the height counts the box where it would have stood
    assert_eq!(places, vec![(30.0, 0.0), (50.0, 10.0), (10.0, 20.0), (10.0 - 10.0, 30.0 + 3.0)]);
    assert_eq!(output.size, Size { width: s(100.0), height: s(40.0) });
}

#[test]
fn absolute_children_are_placed_by_their_insets() {
    let area = Size { width: s(100.0), height: s(50.0) };
    let offset = Point { x: s(5.0), y: s(7.0) };
    let item = BlockItem {
        node_id: NodeId::new(1),
        order: 3,
        size: none(),
        min_size: none(),
        max_size: none(),
        position: Position::Absolute,
        padding_border_sum: Size { width: s(0.0), height: s(0.0) },
        computed_size: Size { width: s(0.0), height: s(0.0) },
        static_position: Point { x: s(0.0), y: s(17.0) },
        can_be_collapsed_through: false,
        baseline: None,
    };
    let length = |x: f32| LengthPercentageAuto::Length(s(x));
    let auto = || LengthPercentageAuto::Auto;
    let style = |inset: Rect<LengthPercentageAuto>, margin: Rect<LengthPercentageAuto>, size: Size<Dimension>| Style {
        position: Position::Absolute,
        inset,
        margin,
        size,
        ..Style::default()
    };
    let fixed = Size { width: Dimension::Length(s(20.0)), height: Dimension::Length(s(10.0)) };
    let open = Size { width: Dimension::Auto, height: Dimension::Auto };
    let measured = Size { width: s(8.0), height: s(6.0) };
    let place = |style: &Style| {
        let placing = absolute_box(style, area);
        let request = absolute_request(&placing, area);
        assert_eq!(request.parent_size, Size { width: o(100.0), height: o(50.0) });
        assert_eq!(request.known_dimensions, placing.known_dimensions);
        let layout = place_absolute_item(&placing, &item, measured, area, offset);
        assert_eq!(layout.order, 3);
        (f(layout.size.width), f(layout.size.height), f(layout.location.x), f(layout.location.y))
    };
    let margins = Rect { left: length(1.0), right: length(2.0), top: length(3.0), bottom: length(4.0) };
    // from the start edges
    let insets = Rect { left: length(10.0), right: auto(), top: length(20.0), bottom: auto() };
    assert_eq!(place(&style(insets, margins.clone(), fixed.clone())), (20.0, 10.0, 5.0 + 10.0 + 1.0, 7.0 + 20.0 + 3.0));
    // from the end edges
    let insets = Rect { left: auto(), right: length(10.0), top: auto(), bottom: length(20.0) };
    assert_eq!(
        place(&style(insets, margins.clone(), fixed.clone())),
        (20.0, 10.0, 5.0 + (100.0 - 20.0 - 10.0 - 2.0), 7.0 + (50.0 - 10.0 - 20.0 - 4.0))
    );
    // without insets: at the left edge, and where the flow stood
    let insets = Rect { left: auto(), right: auto(), top: auto(), bottom: auto() };
    assert_eq!(place(&style(insets, margins.clone(), fixed.clone())), (20.0, 10.0, 5.0 + 1.0, 7.0 + 17.0 + 3.0));
    // the size follows from insets at both ends
    let insets = Rect { left: length(10.0), right: length(30.0), top: length(5.0), bottom: length(5.0) };
    assert_eq!(
        place(&style(insets, margins.clone(), open.clone())),
        (100.0 - 1.0 - 2.0 - 10.0 - 30.0, 50.0 - 3.0 - 4.0 - 5.0 - 5.0, 5.0 + 10.0 + 1.0, 7.0 + 5.0 + 3.0)
    );
    // else it is measured
    let insets = Rect { left: length(10.0), right: auto(), top: auto(), bottom: auto() };
    assert_eq!(place(&style(insets, margins.clone(), open.clone())), (8.0, 6.0, 5.0 + 10.0 + 1.0, 7.0 + 17.0 + 3.0));
    // auto margins share what the insets leave
    let insets = Rect { left: length(10.0), right: length(30.0), top: length(5.0), bottom: length(5.0) };
    let centred = Rect { left: auto(), right: auto(), top: auto(), bottom: length(0.0) };
    assert_eq!(
        place(&style(insets, centred, fixed.clone())),
        (20.0, 10.0, 5.0 + 10.0 + (100.0 - 30.0 - 10.0 - 20.0) / 2.0, 7.0 + 5.0 + (50.0 - 5.0 - 5.0 - 10.0))
    );
}

#[test]
fn the_algorithm_by_its_two_entry_points() {
    let container = Style { display: Display::Block, ..Style::default() };
    let children = children_of(&[block(Dimension::Length(s(5.0)), 1.0, 2.0), block(Dimension::Length(s(7.0)), 3.0, 4.0)]);
    let space = Size { width: AvailableSpace::Definite(s(60.0)), height: AvailableSpace::MaxContent };
    let answer = |node: NodeId, request: LayoutInput| leaf_answer(&children[node.0 as usize - 1].style, request);
    let collapsible = Line { start: false, end: false };
    let inputs = root_layout_input(space);
    let full = BlockAlgorithm::perform_layout(
        &container,
        inputs.known_dimensions,
        inputs.parent_size,
        space,
        SizingMode::InherentSize,
        collapsible,
        &children,
        answer,
    );
    assert_eq!(full, compute(&container, inputs, &children, answer));
    assert_eq!(full.0.size, Size { width: s(60.0), height: s(1.0 + 5.0 + 3.0 + 7.0 + 4.0) });
    assert_eq!(full.1.len(), 2);
    let (size, layouts) = BlockAlgorithm::measure_size(
        &container,
        inputs.known_dimensions,
        inputs.parent_size,
        space,
        SizingMode::InherentSize,
        collapsible,
        &children,
        answer,
    );
    assert_eq!(size, full.0.size);
    assert_eq!(layouts, full.1);
    // where the parent lets the margins through, the first and the last margin are not the container's
    let through = Line { start: true, end: true };
    let (size, _) = BlockAlgorithm::measure_size(
        &container,
        inputs.known_dimensions,
        inputs.parent_size,
        space,
        SizingMode::InherentSize,
        through,
        &children,
        answer,
    );
    assert_eq!(size, Size { width: s(60.0), height: s(5.0 + 3.0 + 7.0) });
}
