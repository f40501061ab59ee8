use std::cell::Cell;
use taffy::compute::leaf::{
    compute_leaf_layout, leaf_box, leaf_node_size, maybe_apply_aspect_ratio, measure_request, measured_leaf,
    resolved_size, unmeasured_leaf,
};
use taffy::geometry::{Line, Point, Rect, Size};
use taffy::scalar::Scalar;
use taffy::style::dimension::{AvailableSpace, Dimension, LengthPercentage, LengthPercentageAuto};
use taffy::style::{Overflow, Style};
use taffy::tree::{LayoutInput, RunMode, SizingMode};

fn s(x: f32) -> Scalar {
    Scalar::from_bits(x.to_bits())
}

fn f(x: Scalar) -> f32 {
    f32::from_bits(x.to_bits())
}

fn o(x: f32) -> Option<Scalar> {
    Some(s(x))
}

fn none() -> Size<Option<Scalar>> {
    Size { width: None, height: None }
}

fn length(x: f32) -> Dimension {
    Dimension::Length(s(x))
}

fn sizes(width: Dimension, height: Dimension) -> Size<Dimension> {
    Size { width, height }
}

fn inputs(available: Size<AvailableSpace>) -> LayoutInput {
    LayoutInput {
        run_mode: RunMode::PerformLayout,
        sizing_mode: SizingMode::InherentSize,
        known_dimensions: none(),
        parent_size: available.into_options(),
        available_space: available,
        vertical_margins_are_collapsible: Line { start: false, end: false },
    }
}

fn definite(width: f32, height: f32) -> Size<AvailableSpace> {
    Size { width: AvailableSpace::Definite(s(width)), height: AvailableSpace::Definite(s(height)) }
}

type Measure = fn(Size<Option<Scalar>>, Size<AvailableSpace>) -> Size<Scalar>;

fn layout(style: &Style, inputs: LayoutInput) -> Size<f32> {
    let size = compute_leaf_layout(inputs, style, None::<Measure>).size;
    Size { width: f(size.width), height: f(size.height) }
}

#[test]
fn the_minimum_overrides_the_size_of_a_leaf() {
    let style = Style {
        size: sizes(length(50.0), length(50.0)),
        min_size: sizes(length(100.0), length(100.0)),
        ..Style::default()
    };
    assert_eq!(layout(&style, inputs(definite(100.0, 100.0))), Size { width: 100.0, height: 100.0 });
}

#[test]
fn the_minimum_overrides_the_maximum_of_a_leaf() {
    for width in [Dimension::Auto, length(10.0), length(75.0), length(200.0)] {
        let style = Style {
            size: sizes(width, Dimension::Auto),
            min_size: sizes(length(100.0), Dimension::Auto),
            max_size: sizes(length(50.0), Dimension::Auto),
            ..Style::default()
        };
        assert_eq!(layout(&style, inputs(definite(30.0, 30.0))).width, 100.0);
    }
}

#[test]
fn the_maximum_overrides_the_size_of_a_leaf() {
    let style = Style {
        size: sizes(length(50.0), length(50.0)),
        max_size: sizes(length(10.0), Dimension::Auto),
        ..Style::default()
    };
    assert_eq!(layout(&style, inputs(definite(100.0, 100.0))), Size { width: 10.0, height: 50.0 });
}

#[test]
fn a_leaf_with_a_fixed_size_has_that_size_whatever_space_is_on_offer() {
    let style = Style { size: sizes(length(10.0), length(20.5)), ..Style::default() };
    let spaces = [
        definite(100.0, 100.0),
        definite(1.0, 1.0),
        definite(0.0, 1e30),
        Size { width: AvailableSpace::MinContent, height: AvailableSpace::MaxContent },
        Size { width: AvailableSpace::MaxContent, height: AvailableSpace::MinContent },
    ];
    for space in spaces {
        assert_eq!(layout(&style, inputs(space)), Size { width: 10.0, height: 20.5 });
    }
}

#[test]
fn an_invalid_length_counts_as_zero() {
    let style = Style { size: sizes(length(-10.0), length(f32::NAN)), ..Style::default() };
    assert_eq!(layout(&style, inputs(definite(100.0, 100.0))), Size { width: 0.0, height: 0.0 });
}

#[test]
fn a_leaf_is_never_smaller_than_its_padding_and_border() {
    let style = Style {
        size: sizes(length(10.0), Dimension::Auto),
        padding: Rect {
            left: LengthPercentage::Length(s(4.0)),
            right: LengthPercentage::Length(s(4.0)),
            top: LengthPercentage::Length(s(1.0)),
            bottom: LengthPercentage::Length(s(2.0)),
        },
        border: Rect {
            left: LengthPercentage::Length(s(2.0)),
            right: LengthPercentage::Length(s(2.0)),
            top: LengthPercentage::Length(s(2.0)),
            bottom: LengthPercentage::Length(s(3.0)),
        },
        ..Style::default()
    };
    let output = compute_leaf_layout(inputs(definite(100.0, 100.0)), &style, None::<Measure>);
    assert_eq!(output.size, Size { width: s(12.0), height: s(8.0) });
    // the baseline is the bottom of the content box
    assert_eq!(output.first_baselines, Point { x: None, y: o(8.0 - (2.0 + 3.0)) });
    assert!(!output.margins_can_collapse_through);
}

#[test]
fn percentages_of_padding_refer_to_the_width_of_the_parent() {
    let style = Style {
        padding: Rect {
            left: LengthPercentage::Percent(s(0.1)),
            right: LengthPercentage::Length(s(0.0)),
            top: LengthPercentage::Percent(s(0.5)),
            bottom: LengthPercentage::Length(s(0.0)),
        },
        ..Style::default()
    };
    assert_eq!(layout(&style, inputs(definite(200.0, 10.0))), Size { width: 0.1f32 * 200.0, height: 100.0 });
}

#[test]
fn what_the_parent_settled_overrides_the_style_of_a_leaf() {
    let style_size = Size { width: o(50.0), height: o(50.0) };
    let known = Size { width: o(70.0), height: None };
    assert_eq!(leaf_node_size(SizingMode::InherentSize, known, style_size), Size { width: o(70.0), height: o(50.0) });
    assert_eq!(leaf_node_size(SizingMode::ContentSize, known, style_size), known);

    let style = Style { size: sizes(length(50.0), length(50.0)), ..Style::default() };
    let given = LayoutInput { known_dimensions: known, ..inputs(definite(100.0, 100.0)) };
    assert_eq!(layout(&style, given), Size { width: 70.0, height: 50.0 });
    let content_only = LayoutInput { sizing_mode: SizingMode::ContentSize, ..given };
    assert_eq!(layout(&style, content_only), Size { width: 70.0, height: 0.0 });
}

#[test]
fn an_aspect_ratio_fills_the_missing_axis() {
    let width_only = Size { width: o(30.0), height: None };
    let height_only = Size { width: None, height: o(10.0) };
    assert_eq!(maybe_apply_aspect_ratio(width_only, o(3.0)), Size { width: o(30.0), height: o(10.0) });
    assert_eq!(maybe_apply_aspect_ratio(height_only, o(3.0)), Size { width: o(30.0), height: o(10.0) });
    assert_eq!(maybe_apply_aspect_ratio(width_only, o(7.0)), Size { width: o(30.0), height: o(30.0f32 / 7.0) });
    assert_eq!(maybe_apply_aspect_ratio(width_only, None), width_only);
    assert_eq!(maybe_apply_aspect_ratio(none(), o(3.0)), none());
    let both = Size { width: o(1.0), height: o(1.0) };
    assert_eq!(maybe_apply_aspect_ratio(both, o(3.0)), both);
    assert_eq!(
        resolved_size(&sizes(Dimension::Percent(s(0.5)), Dimension::Auto), Size { width: o(80.0), height: None }, o(4.0)),
        Size { width: o(40.0), height: o(10.0) }
    );
}

#[test]
fn with_an_aspect_ratio_the_height_is_the_width_divided_by_it() {
    for (w, r) in [(30.0f32, 3.0f32), (100.0, 7.0), (1.0, 3.0), (12.5, 0.3)] {
        let style = Style { size: sizes(length(w), Dimension::Auto), aspect_ratio: o(r), ..Style::default() };
        assert_eq!(layout(&style, inputs(definite(10.0, 10.0))), Size { width: w, height: w / r });
    }
    // the ratio holds for the maximum too, which then bounds both axes
    let style = Style {
        size: sizes(length(30.0), Dimension::Auto),
        max_size: sizes(Dimension::Auto, length(4.0)),
        aspect_ratio: o(3.0),
        ..Style::default()
    };
    assert_eq!(layout(&style, inputs(definite(10.0, 10.0))), Size { width: 12.0, height: 4.0 });
}

#[test]
fn a_measure_function_sizes_what_the_style_leaves_open() {
    let style = Style {
        size: sizes(Dimension::Auto, length(40.0)),
        max_size: sizes(length(60.0), Dimension::Auto),
        margin: Rect {
            left: LengthPercentageAuto::Length(s(5.0)),
            right: LengthPercentageAuto::Length(s(5.0)),
            top: LengthPercentageAuto::Auto,
            bottom: LengthPercentageAuto::Auto,
        },
        padding: Rect {
            left: LengthPercentage::Length(s(3.0)),
            right: LengthPercentage::Length(s(3.0)),
            top: LengthPercentage::Length(s(1.0)),
            bottom: LengthPercentage::Length(s(1.0)),
        },
        ..Style::default()
    };
    let asked = Cell::new(None);
    let given = inputs(definite(100.0, 100.0));
    let output = compute_leaf_layout(
        given,
        &style,
        Some(|known: Size<Option<Scalar>>, space: Size<AvailableSpace>| {
            asked.set(Some((known, space)));
            Size { width: s(20.0), height: s(500.0) }
        }),
    );
    let (known, space) = asked.get().unwrap();
    // the content box of the known height; the maximum bounds the space on offer
    assert_eq!(known, Size { width: None, height: o(38.0) });
    assert_eq!(space, Size { width: AvailableSpace::Definite(s(54.0)), height: AvailableSpace::Definite(s(38.0)) });
    assert_eq!(output.size, Size { width: s(26.0), height: s(40.0) });
    assert_eq!(output.content_size, Size { width: s(26.0), height: s(502.0) });

    let leaf = leaf_box(given, &style);
    assert_eq!(measure_request(given, &leaf), (known, space));
    assert_eq!(measured_leaf(&leaf, Size { width: s(20.0), height: s(500.0) }), output);
    // the measured width is bounded too
    assert_eq!(measured_leaf(&leaf, Size { width: s(200.0), height: s(0.0) }).size.width, s(60.0));
    // without a measure function the leaf is as wide as its padding
    assert_eq!(unmeasured_leaf(&leaf).size, Size { width: s(6.0), height: s(40.0) });
    assert_eq!(compute_leaf_layout(given, &style, None::<Measure>), unmeasured_leaf(&leaf));
}

#[test]
fn margins_collapse_through_an_empty_leaf_only() {
    let empty = Style::default();
    let block = Style { display: taffy::style::Display::Block, ..Style::default() };
    let given = inputs(definite(100.0, 100.0));
    // only a block lets margins through
    assert!(!compute_leaf_layout(given, &empty, None::<Measure>).margins_can_collapse_through);
    assert!(compute_leaf_layout(given, &block, None::<Measure>).margins_can_collapse_through);
    let high = Style { size: sizes(Dimension::Auto, length(1.0)), ..block.clone() };
    assert!(!compute_leaf_layout(given, &high, None::<Measure>).margins_can_collapse_through);
    let scrolling = Style { overflow: Point { x: Overflow::Scroll, y: Overflow::Visible }, ..block.clone() };
    assert!(!compute_leaf_layout(given, &scrolling, None::<Measure>).margins_can_collapse_through);
    let measured = compute_leaf_layout(given, &block, Some(|_, _| Size { width: s(3.0), height: s(0.0) }));
    assert!(measured.margins_can_collapse_through);
    let measured = compute_leaf_layout(given, &block, Some(|_, _| Size { width: s(3.0), height: s(2.0) }));
    assert!(!measured.margins_can_collapse_through);
    assert_eq!(measured.size, Size { width: s(3.0), height: s(2.0) });
}

#[test]
fn a_scrollbar_takes_room_across_the_axis_that_scrolls() {
    let style = Style {
        overflow: Point { x: Overflow::Visible, y: Overflow::Scroll },
        scrollbar_width: s(15.0),
        ..Style::default()
    };
    let given = inputs(definite(100.0, 100.0));
    let leaf = leaf_box(given, &style);
    assert_eq!(leaf.content_box_inset, Rect { left: s(0.0), right: s(15.0), top: s(0.0), bottom: s(0.0) });
    // an open axis takes what the insets take
    assert_eq!(compute_leaf_layout(given, &style, None::<Measure>).size, Size { width: s(15.0), height: s(0.0) });
}

#[test]
fn an_aspect_ratio_leaves_a_fixed_size_alone() {
    for r in [0.5f32, 1.0, 3.0, 100.0] {
        let style = Style { size: sizes(length(10.0), length(20.0)), aspect_ratio: o(r), ..Style::default() };
        assert_eq!(layout(&style, inputs(definite(100.0, 100.0))), Size { width: 10.0, height: 20.0 });
        let bounded = Style {
            size: sizes(length(10.0), Dimension::Auto),
            min_size: sizes(length(7.0), length(7.0)),
            max_size: sizes(length(3.0), length(3.0)),
            aspect_ratio: o(r),
            ..Style::default()
        };
        assert_eq!(layout(&bounded, inputs(definite(100.0, 100.0))), Size { width: 7.0, height: 7.0 });
    }
    // what the parent settled on one axis settles the other through the ratio
    let style = Style { aspect_ratio: o(4.0), ..Style::default() };
    let given = LayoutInput { known_dimensions: Size { width: o(70.0), height: None }, ..inputs(definite(100.0, 100.0)) };
    assert_eq!(layout(&style, given), Size { width: 70.0, height: 17.5 });
}
