use taffy::compute::rounding::{round_layout, round_node};
use taffy::geometry::{Point, Size};
use taffy::scalar::Scalar;
use taffy::style::{Display, Style};
use taffy::tree::taffy_tree::Taffy;
use taffy::tree::{Layout, NodeId};

fn s(x: f32) -> Scalar {
    Scalar::from_bits(x.to_bits())
}

fn f(x: Scalar) -> f32 {
    f32::from_bits(x.to_bits())
}

fn layout(x: f32, y: f32, width: f32, height: f32) -> Layout {
    Layout { order: 0, size: Size { width: s(width), height: s(height) }, location: Point { x: s(x), y: s(y) } }
}

fn reference(unrounded: &Layout, abs_x: f32, abs_y: f32) -> (Layout, f32, f32) {
    let abs_x = abs_x + f(unrounded.location.x);
    let abs_y = abs_y + f(unrounded.location.y);
    let rounded = Layout {
        order: unrounded.order,
        location: Point { x: s(f(unrounded.location.x).round()), y: s(f(unrounded.location.y).round()) },
        size: Size {
            width: s((abs_x + f(unrounded.size.width)).round() - abs_x.round()),
            height: s((abs_y + f(unrounded.size.height)).round() - abs_y.round()),
        },
    };
    (rounded, abs_x, abs_y)
}

#[test]
fn a_layout_is_rounded_by_its_edges() {
    let (rounded, x, y) = round_node(&layout(0.4, 0.6, 10.2, 10.2), s(10.3), s(20.5));
    assert_eq!((f(x), f(y)), (10.3f32 + 0.4, 20.5f32 + 0.6));
    assert_eq!(rounded.location, Point { x: s(0.0), y: s(1.0) });
    // from 10.7 to 20.9: 11 to 21; from 21.1 to 31.3: 21 to 31
    assert_eq!(rounded.size, Size { width: s(10.0), height: s(10.0) });
    // halves go away from zero
    let (rounded, _, _) = round_node(&layout(0.5, -0.5, 1.0, 2.5), s(0.0), s(0.0));
    assert_eq!(rounded.location, Point { x: s(1.0), y: s(-1.0) });
    assert_eq!(rounded.size, Size { width: s(1.0), height: s(3.0) });
    assert_eq!(round_node(&Layout { order: 7, ..layout(0.0, 0.0, 0.0, 0.0) }, s(0.0), s(0.0)).0.order, 7);
}

#[test]
fn rounding_is_what_the_hardware_gives() {
    let values = [0.0f32, 0.3, 0.5, 1.5, 2.49999, 100.3, 963.3333, 431.51666, -0.5, -3.7, 1e7, 16777216.0, 0.1];
    for &x in &values {
        for &w in &values {
            for &abs in &values {
                let unrounded = layout(x, w, w, x);
                let (got, gx, gy) = round_node(&unrounded, s(abs), s(x));
                let (want, wx, wy) = reference(&unrounded, abs, x);
                assert_eq!(got, want, "{:?} at {}", unrounded, abs);
                assert_eq!((f(gx), f(gy)), (wx, wy));
            }
        }
    }
}

#[test]
fn rounded_boxes_of_a_centred_row_leave_no_gap() {
    // two boxes of width 100.3 side by side, centred in a row 963.3333 wide
    let left = (963.3333f32 - 100.3 - 100.3) / 2.0;
    let a = layout(left, 0.0, 100.3, 100.3);
    let b = layout(left + 100.3, 0.0, 100.3, 100.3);
    let (layout_a, _, _) = round_node(&a, s(0.0), s(0.0));
    let (layout_b, _, _) = round_node(&b, s(0.0), s(0.0));
    assert_eq!(f(layout_a.location.x) + f(layout_a.size.width), f(layout_b.location.x));
}

#[test]
fn edges_that_met_still_meet() {
    let mut x = 0.0f32;
    let widths = [0.3f32, 0.4, 10.5, 0.5, 99.99, 1.0, 0.49, 7.25, 1000.6];
    let mut previous_right = 0.0f32;
    for (i, &w) in widths.iter().enumerate() {
        let (rounded, _, _) = round_node(&layout(x, 0.0, w, 1.0), s(0.0), s(0.0));
        if i > 0 {
            assert_eq!(f(rounded.location.x), previous_right);
        }
        previous_right = f(rounded.location.x) + f(rounded.size.width);
        x += w;
    }
}

#[test]
fn rounding_a_rounded_layout_changes_nothing() {
    let values = [0.0f32, 0.3, 0.5, 1.5, 100.3, 963.3333, -3.7, 12345.678];
    for &x in &values {
        for &w in &values {
            for &abs in &values {
                let (once, _, _) = round_node(&layout(x, x, w, w), s(abs), s(abs));
                let (twice, _, _) = round_node(&once, s(abs.round()), s(abs.round()));
                assert_eq!(once, twice);
            }
        }
    }
}

fn set_layout(taffy: &mut Taffy<()>, node: NodeId, unrounded: Layout) {
    taffy.node_data_mut(node).unrounded_layout = unrounded;
}

#[test]
fn a_tree_is_rounded_from_the_root_down() {
    let mut taffy: Taffy<()> = Taffy::new();
    let leaf_a = taffy.new_leaf(Style::default()).unwrap();
    let leaf_b = taffy.new_leaf(Style::default()).unwrap();
    let spliced = taffy.new_with_children(Style { display: Display::Contents, ..Style::default() }, &[leaf_b]).unwrap();
    let inner = taffy.new_with_children(Style::default(), &[leaf_a, spliced]).unwrap();
    let root = taffy.new_with_children(Style::default(), &[inner]).unwrap();
    let apart = taffy.new_leaf(Style::default()).unwrap();

    set_layout(&mut taffy, root, layout(0.0, 0.0, 100.6, 50.0));
    set_layout(&mut taffy, inner, layout(10.3, 0.4, 80.4, 20.0));
    set_layout(&mut taffy, leaf_a, layout(0.4, 0.2, 40.2, 10.0));
    set_layout(&mut taffy, leaf_b, layout(40.6, 0.2, 39.8, 10.0));
    set_layout(&mut taffy, spliced, layout(5.5, 5.5, 5.5, 5.5));
    set_layout(&mut taffy, apart, layout(1.5, 1.5, 1.5, 1.5));
    let untouched = *taffy.layout(apart).unwrap();

    round_layout(&mut taffy, root, s(0.0), s(0.0));

    let expect = |node: NodeId, unrounded: Layout, abs_x: f32, abs_y: f32| {
        assert_eq!(*taffy.layout(node).unwrap(), reference(&unrounded, abs_x, abs_y).0);
    };
    expect(root, layout(0.0, 0.0, 100.6, 50.0), 0.0, 0.0);
    expect(inner, layout(10.3, 0.4, 80.4, 20.0), 0.0, 0.0);
    expect(leaf_a, layout(0.4, 0.2, 40.2, 10.0), 10.3, 0.4);
    // the child of a node without a box is rounded as a child of the node above
    expect(leaf_b, layout(40.6, 0.2, 39.8, 10.0), 10.3, 0.4);
    assert_eq!(f(taffy.layout(leaf_a).unwrap().size.width), 40.0);
    assert_eq!(f(taffy.layout(leaf_b).unwrap().location.x), 41.0);
    // the computed layouts stay, and so does what is not below the root
    assert_eq!(*taffy.unrounded_layout(inner), layout(10.3, 0.4, 80.4, 20.0));
    assert_eq!(*taffy.layout(apart).unwrap(), untouched);
    assert_eq!(*taffy.layout(spliced).unwrap(), untouched);

    // a second pass changes nothing
    let before: Vec<Layout> = [root, inner, leaf_a, leaf_b].iter().map(|&n| *taffy.layout(n).unwrap()).collect();
    round_layout(&mut taffy, root, s(0.0), s(0.0));
    let after: Vec<Layout> = [root, inner, leaf_a, leaf_b].iter().map(|&n| *taffy.layout(n).unwrap()).collect();
    assert_eq!(before, after);
}

#[test]
fn edges_meet_in_a_parent_at_a_whole_place() {
    // places in quarters add without rounding
    let widths = [0.25f32, 10.5, 0.5, 99.75, 1.0, 7.25, 1000.5, 0.75];
    for origin in [0.0f32, 1.0, 7.0, 1024.0, 65536.0] {
        let mut x = 0.0f32;
        let mut previous_right = 0.0f32;
        for (i, &w) in widths.iter().enumerate() {
            let (rounded, _, _) = round_node(&layout(x, x, w, w), s(origin), s(origin));
            if i > 0 {
                assert_eq!(f(rounded.location.x), previous_right);
                assert_eq!(f(rounded.location.y), previous_right);
            }
            assert_eq!(f(rounded.size.width), f(rounded.size.height));
            previous_right = f(rounded.location.x) + f(rounded.size.width);
            x += w;
        }
    }
}

#[test]
fn where_the_parent_stands_elsewhere_the_edges_meet_in_the_coordinates_of_the_root() {
    // with the parent at 1024 the sum 1024 + 0.49999997 is rounded to 1024.5
    let a = layout(0.49999997, 0.0, 10.0, 1.0);
    let b = layout(0.49999997 + 10.0, 0.0, 10.0, 1.0);
    let (rounded_a, left_a, _) = round_node(&a, s(1024.0), s(0.0));
    let (rounded_b, left_b, _) = round_node(&b, s(1024.0), s(0.0));
    assert_eq!(f(left_a).round() + f(rounded_a.size.width), f(left_b).round());
    // in the coordinates of the parent they do not
    assert_eq!(f(rounded_a.location.x) + f(rounded_a.size.width), 10.0);
    assert_eq!(f(rounded_b.location.x), 11.0);
}
