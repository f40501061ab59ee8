use taffy::compute::taffy_tree::{
    compute_contents_layout, compute_hidden_layout, hidden_layout_input,
    root_layout, root_layout_input, select_algorithm, LayoutAlgorithm,
};
use taffy::geometry::{Line, Point, Size};
use taffy::scalar::Scalar;
use taffy::style::dimension::AvailableSpace;
use taffy::style::{Display, Style};
use taffy::tree::cache::{compute_cache_slot, entry_answers, Cache};
use taffy::tree::taffy_tree::Taffy;
use taffy::tree::{Layout, LayoutOutput, NodeId, RunMode, SizingMode};

fn s(x: f32) -> Scalar {
    Scalar::from_bits(x.to_bits())
}

fn o(x: f32) -> Option<Scalar> {
    Some(s(x))
}

fn none() -> Size<Option<Scalar>> {
    Size { width: None, height: None }
}

fn max_content() -> Size<AvailableSpace> {
    Size { width: AvailableSpace::MaxContent, height: AvailableSpace::MaxContent }
}

fn fill(taffy: &mut Taffy<()>, node: NodeId) {
    let layout = Layout { order: 3, size: Size { width: s(5.0), height: s(6.0) }, location: Point { x: s(1.0), y: s(2.0) } };
    let data = taffy.node_data_mut(node);
    data.unrounded_layout = layout;
    data.final_layout = layout;
    data.cache.store(none(), max_content(), RunMode::PerformLayout, LayoutOutput::from_outer_size(layout.size));
}

#[test]
fn the_display_selects_the_algorithm() {
    for has_children in [false, true] {
        assert_eq!(select_algorithm(Display::Hidden, has_children), LayoutAlgorithm::Hidden);
        assert_eq!(select_algorithm(Display::Contents, has_children), LayoutAlgorithm::Contents);
    }
    assert_eq!(select_algorithm(Display::Block, true), LayoutAlgorithm::Block);
    assert_eq!(select_algorithm(Display::Flex, true), LayoutAlgorithm::Flexbox);
    assert_eq!(select_algorithm(Display::Grid, true), LayoutAlgorithm::Grid);
    assert_eq!(select_algorithm(Display::Block, false), LayoutAlgorithm::Leaf);
    assert_eq!(select_algorithm(Display::Flex, false), LayoutAlgorithm::Leaf);
    assert_eq!(select_algorithm(Display::Grid, false), LayoutAlgorithm::Leaf);
}

#[test]
fn what_the_root_is_laid_out_with() {
    let space = Size { width: AvailableSpace::Definite(s(100.0)), height: AvailableSpace::MinContent };
    let input = root_layout_input(space);
    assert_eq!(input.run_mode, RunMode::PerformLayout);
    assert_eq!(input.sizing_mode, SizingMode::InherentSize);
    assert_eq!(input.known_dimensions, none());
    assert_eq!(input.parent_size, Size { width: o(100.0), height: None });
    assert_eq!(input.available_space, space);
    assert_eq!(input.vertical_margins_are_collapsible, Line { start: false, end: false });
    let size = Size { width: s(10.0), height: s(20.0) };
    assert_eq!(root_layout(size), Layout { order: 0, size, location: Point { x: s(0.0), y: s(0.0) } });
    let hidden = hidden_layout_input();
    assert_eq!(hidden.run_mode, RunMode::PerformHiddenLayout);
    assert_eq!(hidden.available_space, max_content());
    assert_eq!(hidden.known_dimensions, none());
    assert_eq!(hidden.parent_size, none());
}

#[test]
fn a_hidden_subtree_is_zeroed_and_nothing_else() {
    let mut taffy: Taffy<()> = Taffy::new();
    let contents = Style { display: Display::Contents, ..Style::default() };
    let leaf = taffy.new_leaf(Style::default()).unwrap();
    let deep = taffy.new_leaf(Style::default()).unwrap();
    let through = taffy.new_with_children(contents, &[deep]).unwrap();
    let hidden = taffy.new_with_children(Style { display: Display::Hidden, ..Style::default() }, &[leaf, through]).unwrap();
    let sibling = taffy.new_leaf(Style::default()).unwrap();
    let root = taffy.new_with_children(Style::default(), &[hidden, sibling]).unwrap();
    for n in [leaf, deep, through, hidden, sibling, root] {
        fill(&mut taffy, n);
    }
    let filled = *taffy.unrounded_layout(root);

    assert_eq!(compute_hidden_layout(&mut taffy, hidden), LayoutOutput::hidden());
    for n in [leaf, deep, hidden] {
        assert_eq!(*taffy.unrounded_layout(n), Layout::with_order(0));
        assert_eq!(taffy.dirty(n), Ok(true));
        assert_eq!(*taffy.layout(n).unwrap(), filled);
    }
    // a node that makes no box of its own is passed over; its children are not
    for n in [through, sibling, root] {
        assert_eq!(*taffy.unrounded_layout(n), filled);
        assert_eq!(taffy.dirty(n), Ok(false));
    }
    assert_eq!(taffy.children(hidden).unwrap(), vec![leaf, through]);
}

#[test]
fn a_contents_node_is_zeroed_alone() {
    let mut taffy: Taffy<()> = Taffy::new();
    let child = taffy.new_leaf(Style::default()).unwrap();
    let node = taffy.new_with_children(Style { display: Display::Contents, ..Style::default() }, &[child]).unwrap();
    fill(&mut taffy, child);
    fill(&mut taffy, node);
    assert_eq!(compute_contents_layout(&mut taffy, node), LayoutOutput::hidden());
    assert_eq!(taffy.dirty(node), Ok(true));
    assert_eq!(*taffy.unrounded_layout(node), Layout::with_order(0));
    assert_eq!(taffy.dirty(child), Ok(false));
}

#[test]
fn the_hidden_output_is_empty() {
    let hidden = LayoutOutput::hidden();
    assert_eq!(hidden.size, Size { width: s(0.0), height: s(0.0) });
    assert_eq!(hidden.content_size, Size { width: s(0.0), height: s(0.0) });
    assert_eq!(hidden.first_baselines, Point { x: None, y: None });
    assert!(!hidden.margins_can_collapse_through);
    let size = Size { width: s(3.0), height: s(4.0) };
    assert_eq!(LayoutOutput::from_outer_size(size).size, size);
    assert_eq!(LayoutOutput::from_sizes(size, size).content_size, size);
}

#[test]
fn every_kind_of_query_has_its_place() {
    let definite = AvailableSpace::Definite(s(1.0));
    let min = AvailableSpace::MinContent;
    let max = AvailableSpace::MaxContent;
    let both = Size { width: o(1.0), height: o(1.0) };
    let width = Size { width: o(1.0), height: None };
    let height = Size { width: None, height: o(1.0) };
    assert_eq!(compute_cache_slot(both, Size { width: min, height: min }), 0);
    assert_eq!(compute_cache_slot(width, Size { width: min, height: max }), 1);
    assert_eq!(compute_cache_slot(width, Size { width: min, height: definite }), 1);
    assert_eq!(compute_cache_slot(width, Size { width: max, height: min }), 2);
    assert_eq!(compute_cache_slot(height, Size { width: max, height: min }), 3);
    assert_eq!(compute_cache_slot(height, Size { width: min, height: min }), 4);
    assert_eq!(compute_cache_slot(none(), Size { width: max, height: definite }), 5);
    assert_eq!(compute_cache_slot(none(), Size { width: definite, height: min }), 6);
    assert_eq!(compute_cache_slot(none(), Size { width: min, height: max }), 7);
    assert_eq!(compute_cache_slot(none(), Size { width: min, height: min }), 8);
}

#[test]
fn what_is_stored_is_found_again() {
    let mut cache = Cache::new();
    assert!(cache.is_empty());
    let size = Size { width: s(30.0), height: s(40.0) };
    let output = LayoutOutput::from_sizes(size, Size { width: s(1.0), height: s(2.0) });
    let known = Size { width: o(30.0), height: None };
    let space = Size { width: AvailableSpace::MinContent, height: AvailableSpace::Definite(s(100.0)) };
    let other_space = Size { width: AvailableSpace::Definite(s(7.0)), height: AvailableSpace::Definite(s(101.0)) };
    let near_space = Size { width: AvailableSpace::MinContent, height: AvailableSpace::Definite(s(100.0 + 1e-9)) };

    cache.store(known, space, RunMode::PerformHiddenLayout, output);
    assert!(cache.is_empty());
    assert_eq!(cache.get(known, space, RunMode::PerformHiddenLayout), None);

    cache.store(known, space, RunMode::PerformLayout, output);
    assert!(!cache.is_empty());
    assert_eq!(cache.get(known, space, RunMode::PerformLayout), Some(output));
    assert_eq!(cache.get(known, near_space, RunMode::PerformLayout), Some(output));
    assert_eq!(cache.get(known, space, RunMode::PerformHiddenLayout), None);
    assert_eq!(cache.get(known, space, RunMode::ComputeSize), None);
    // the size that was computed answers for the dimension that was open, whatever the space
    assert_eq!(cache.get(Size { width: o(30.0), height: o(40.0) }, other_space, RunMode::PerformLayout), Some(output));
    assert_eq!(cache.get(Size { width: o(31.0), height: None }, space, RunMode::PerformLayout), None);
    // where a dimension is open, the space on offer has to be what it was
    assert_eq!(cache.get(known, other_space, RunMode::PerformLayout), None);
    let width_differs = Size { width: AvailableSpace::MaxContent, height: space.height };
    assert_eq!(cache.get(known, width_differs, RunMode::PerformLayout), Some(output));

    cache.clear();
    cache.store(known, space, RunMode::ComputeSize, output);
    assert_eq!(cache.get(known, space, RunMode::ComputeSize), Some(output));
    assert_eq!(cache.get(known, space, RunMode::PerformLayout), None);
    assert_eq!(cache.measure_entries[compute_cache_slot(known, space)].map(|e| e.content), Some(output));
    assert_eq!(cache.get(known, other_space, RunMode::ComputeSize), None);
    assert_eq!(cache.get(Size { width: o(30.0), height: o(40.0) }, other_space, RunMode::ComputeSize), Some(output));
    // what a run for a size produced comes back whole, baseline and margins with it
    let with_baseline = LayoutOutput { first_baselines: Point { x: None, y: o(12.0) }, margins_can_collapse_through: true, ..output };
    cache.store(known, space, RunMode::ComputeSize, with_baseline);
    assert_eq!(cache.get(known, space, RunMode::ComputeSize), Some(with_baseline));

    cache.clear();
    assert!(cache.is_empty());
    assert_eq!(cache.get(known, space, RunMode::ComputeSize), None);
}

#[test]
fn an_entry_answers_by_numbers_not_by_bits() {
    let cached = Size { width: s(0.0), height: s(5.0) };
    let space = Size { width: AvailableSpace::MaxContent, height: AvailableSpace::MaxContent };
    let query = Size { width: o(-0.0), height: None };
    assert!(entry_answers(Size { width: o(0.0), height: None }, space, cached, query, space));
    let nan = Some(s(f32::NAN));
    assert!(!entry_answers(Size { width: nan, height: None }, space, cached, Size { width: nan, height: None }, space));
}

#[test]
fn spaces_are_roughly_equal_as_the_hardware_says() {
    let mut samples: Vec<f32> = vec![
        0.0,
        -0.0,
        1.0,
        -1.0,
        2.0,
        100.3,
        963.3333,
        1.0e-7,
        -1.0e-7,
        5.0e-8,
        1.2e-7,
        f32::EPSILON,
        f32::EPSILON / 2.0,
        f32::MIN_POSITIVE,
        f32::from_bits(1),
        f32::MAX,
        f32::MIN,
        f32::INFINITY,
        f32::NEG_INFINITY,
        f32::NAN,
    ];
    // values next to the powers of two around which the answer changes
    for exponent in [-26i32, -25, -24, -23, -22, -21, -2, -1, 0, 1, 2, 3] {
        let p = 2.0f32.powi(exponent);
        for steps in -3i32..=3 {
            let bits = (p.to_bits() as i64 + steps as i64) as u32;
            samples.push(f32::from_bits(bits));
            samples.push(-f32::from_bits(bits));
            samples.push(p + steps as f32 * f32::EPSILON);
            samples.push(p + steps as f32 * f32::EPSILON / 2.0);
        }
    }
    // and some scattered ones
    let mut seed: u32 = 0x1234_5678;
    for _ in 0..400 {
        seed ^= seed << 13;
        seed ^= seed >> 17;
        seed ^= seed << 5;
        samples.push(f32::from_bits(seed));
        samples.push(f32::from_bits((seed % 0x0100_0000) + 0x3300_0000));
    }
    for &a in &samples {
        for &b in &samples {
            let expected = (a - b).abs() < f32::EPSILON;
            assert_eq!(s(a).is_roughly(s(b)), expected, "{a:e} ({:#x}) and {b:e} ({:#x})", a.to_bits(), b.to_bits());
            assert_eq!(
                AvailableSpace::Definite(s(a)).is_roughly_equal(AvailableSpace::Definite(s(b))),
                expected
            );
        }
    }
    assert!(AvailableSpace::MinContent.is_roughly_equal(AvailableSpace::MinContent));
    assert!(AvailableSpace::MaxContent.is_roughly_equal(AvailableSpace::MaxContent));
    assert!(!AvailableSpace::MinContent.is_roughly_equal(AvailableSpace::MaxContent));
    assert!(!AvailableSpace::Definite(s(0.0)).is_roughly_equal(AvailableSpace::MaxContent));
}
