use taffy::scalar::Scalar;
use taffy::style::{Display, FlexDirection, Style};
use taffy::tree::taffy_tree::{find_children_recursive, ChildrenCache, Taffy};
use taffy::tree::{Layout, NodeId, RunMode, TaffyError};
use taffy::tree::LayoutOutput;
use taffy::geometry::Size;
use taffy::style::dimension::AvailableSpace;

fn s(x: f32) -> Scalar {
    Scalar::from_bits(x.to_bits())
}

fn remember_something(taffy: &mut Taffy<()>, node: NodeId) {
    let size = Size { width: s(1.0), height: s(1.0) };
    taffy.node_data_mut(node).cache.store(
        Size { width: None, height: None },
        Size { width: AvailableSpace::MaxContent, height: AvailableSpace::MaxContent },
        RunMode::PerformLayout,
        LayoutOutput::from_outer_size(size),
    );
}

#[test]
fn test_new_leaf() {
    let mut taffy: Taffy<()> = Taffy::new();

    let res = taffy.new_leaf(Style::default());
    assert!(res.is_ok());
    let node = res.unwrap();

    // node should be in the taffy tree and have no children
    assert!(taffy.child_count(node).unwrap() == 0);
}

#[test]
fn new_leaf_with_context() {
    let mut taffy: Taffy<Size<f32>> = Taffy::new();

    let res = taffy.new_leaf_with_context(Style::default(), Size { width: 0.0, height: 0.0 });
    assert!(res.is_ok());
    let node = res.unwrap();

    // node should be in the taffy tree and have no children
    assert!(taffy.child_count(node).unwrap() == 0);
}

/// Test that new_with_children works as expected
#[test]
fn test_new_with_children() {
    let mut taffy: Taffy<()> = Taffy::new();
    let child0 = taffy.new_leaf(Style::default()).unwrap();
    let child1 = taffy.new_leaf(Style::default()).unwrap();
    let node = taffy.new_with_children(Style::default(), &[child0, child1]).unwrap();

    // node should have two children
    assert_eq!(taffy.child_count(node).unwrap(), 2);
    assert_eq!(taffy.children(node).unwrap()[0], child0);
    assert_eq!(taffy.children(node).unwrap()[1], child1);
}

#[test]
fn remove_node_should_remove() {
    let mut taffy: Taffy<()> = Taffy::new();

    let node = taffy.new_leaf(Style::default()).unwrap();

    let _ = taffy.remove(node).unwrap();
}

#[test]
fn remove_node_should_detach_herarchy() {
    let mut taffy: Taffy<()> = Taffy::new();

    // Build a linear tree layout: <0> <- <1> <- <2>
    let node2 = taffy.new_leaf(Style::default()).unwrap();
    let node1 = taffy.new_with_children(Style::default(), &[node2]).unwrap();
    let node0 = taffy.new_with_children(Style::default(), &[node1]).unwrap();

    // Both node0 and node1 should have 1 child nodes
    assert_eq!(taffy.children(node0).unwrap().as_slice(), &[node1]);
    assert_eq!(taffy.children(node1).unwrap().as_slice(), &[node2]);

    // Disconnect the tree: <0> <2>
    let _ = taffy.remove(node1).unwrap();

    // Both remaining nodes should have no child nodes
    assert!(taffy.children(node0).unwrap().is_empty());
    assert!(taffy.children(node2).unwrap().is_empty());
}

#[test]
fn remove_last_node() {
    let mut taffy: Taffy<()> = Taffy::new();

    let parent = taffy.new_leaf(Style::default()).unwrap();
    let child = taffy.new_leaf(Style::default()).unwrap();
    taffy.add_child(parent, child).unwrap();

    taffy.remove(child).unwrap();
    taffy.remove(parent).unwrap();
}

/// Test that adding `add_child()` works
#[test]
fn add_child() {
    let mut taffy: Taffy<()> = Taffy::new();
    let node = taffy.new_leaf(Style::default()).unwrap();
    assert_eq!(taffy.child_count(node).unwrap(), 0);

    let child0 = taffy.new_leaf(Style::default()).unwrap();
    taffy.add_child(node, child0).unwrap();
    assert_eq!(taffy.child_count(node).unwrap(), 1);

    let child1 = taffy.new_leaf(Style::default()).unwrap();
    taffy.add_child(node, child1).unwrap();
    assert_eq!(taffy.child_count(node).unwrap(), 2);
}

#[test]
fn insert_child_at_index() {
    let mut taffy: Taffy<()> = Taffy::new();

    let child0 = taffy.new_leaf(Style::default()).unwrap();
    let child1 = taffy.new_leaf(Style::default()).unwrap();
    let child2 = taffy.new_leaf(Style::default()).unwrap();

    let node = taffy.new_leaf(Style::default()).unwrap();
    assert_eq!(taffy.child_count(node).unwrap(), 0);

    taffy.insert_child_at_index(node, 0, child0).unwrap();
    assert_eq!(taffy.child_count(node).unwrap(), 1);
    assert_eq!(taffy.children(node).unwrap()[0], child0);

    taffy.insert_child_at_index(node, 0, child1).unwrap();
    assert_eq!(taffy.child_count(node).unwrap(), 2);
    assert_eq!(taffy.children(node).unwrap()[0], child1);
    assert_eq!(taffy.children(node).unwrap()[1], child0);

    taffy.insert_child_at_index(node, 1, child2).unwrap();
    assert_eq!(taffy.child_count(node).unwrap(), 3);
    assert_eq!(taffy.children(node).unwrap()[0], child1);
    assert_eq!(taffy.children(node).unwrap()[1], child2);
    assert_eq!(taffy.children(node).unwrap()[2], child0);
}

#[test]
fn set_children() {
    let mut taffy: Taffy<()> = Taffy::new();

    let child0 = taffy.new_leaf(Style::default()).unwrap();
    let child1 = taffy.new_leaf(Style::default()).unwrap();
    let node = taffy.new_with_children(Style::default(), &[child0, child1]).unwrap();

    assert_eq!(taffy.child_count(node).unwrap(), 2);
    assert_eq!(taffy.children(node).unwrap()[0], child0);
    assert_eq!(taffy.children(node).unwrap()[1], child1);

    let child2 = taffy.new_leaf(Style::default()).unwrap();
    let child3 = taffy.new_leaf(Style::default()).unwrap();
    taffy.set_children(node, &[child2, child3]).unwrap();

    assert_eq!(taffy.child_count(node).unwrap(), 2);
    assert_eq!(taffy.children(node).unwrap()[0], child2);
    assert_eq!(taffy.children(node).unwrap()[1], child3);
}

/// Test that removing a child works
#[test]
fn remove_child() {
    let mut taffy: Taffy<()> = Taffy::new();
    let child0 = taffy.new_leaf(Style::default()).unwrap();
    let child1 = taffy.new_leaf(Style::default()).unwrap();
    let node = taffy.new_with_children(Style::default(), &[child0, child1]).unwrap();

    assert_eq!(taffy.child_count(node).unwrap(), 2);

    taffy.remove_child(node, child0).unwrap();
    assert_eq!(taffy.child_count(node).unwrap(), 1);
    assert_eq!(taffy.children(node).unwrap()[0], child1);

    taffy.remove_child(node, child1).unwrap();
    assert_eq!(taffy.child_count(node).unwrap(), 0);
}

#[test]
fn remove_child_at_index() {
    let mut taffy: Taffy<()> = Taffy::new();
    let child0 = taffy.new_leaf(Style::default()).unwrap();
    let child1 = taffy.new_leaf(Style::default()).unwrap();
    let node = taffy.new_with_children(Style::default(), &[child0, child1]).unwrap();

    assert_eq!(taffy.child_count(node).unwrap(), 2);

    taffy.remove_child_at_index(node, 0).unwrap();
    assert_eq!(taffy.child_count(node).unwrap(), 1);
    assert_eq!(taffy.children(node).unwrap()[0], child1);

    taffy.remove_child_at_index(node, 0).unwrap();
    assert_eq!(taffy.child_count(node).unwrap(), 0);
}

#[test]
fn remove_child_updates_parents() {
    let mut taffy: Taffy<()> = Taffy::new();

    let parent = taffy.new_leaf(Style::default()).unwrap();
    let child = taffy.new_leaf(Style::default()).unwrap();

    taffy.add_child(parent, child).unwrap();

    taffy.remove(parent).unwrap();

    // Once the parent is removed this shouldn't panic.
    assert!(taffy.set_children(child, &[]).is_ok());
}

#[test]
fn replace_child_at_index() {
    let mut taffy: Taffy<()> = Taffy::new();

    let child0 = taffy.new_leaf(Style::default()).unwrap();
    let child1 = taffy.new_leaf(Style::default()).unwrap();

    let node = taffy.new_with_children(Style::default(), &[child0]).unwrap();
    assert_eq!(taffy.child_count(node).unwrap(), 1);
    assert_eq!(taffy.children(node).unwrap()[0], child0);

    taffy.replace_child_at_index(node, 0, child1).unwrap();
    assert_eq!(taffy.child_count(node).unwrap(), 1);
    assert_eq!(taffy.children(node).unwrap()[0], child1);
}

#[test]
fn test_child_at_index() {
    let mut taffy: Taffy<()> = Taffy::new();
    let child0 = taffy.new_leaf(Style::default()).unwrap();
    let child1 = taffy.new_leaf(Style::default()).unwrap();
    let child2 = taffy.new_leaf(Style::default()).unwrap();
    let node = taffy.new_with_children(Style::default(), &[child0, child1, child2]).unwrap();

    assert!(if let Ok(result) = taffy.child_at_index(node, 0) { result == child0 } else { false });
    assert!(if let Ok(result) = taffy.child_at_index(node, 1) { result == child1 } else { false });
    assert!(if let Ok(result) = taffy.child_at_index(node, 2) { result == child2 } else { false });
}

#[test]
fn test_child_count() {
    let mut taffy: Taffy<()> = Taffy::new();
    let child0 = taffy.new_leaf(Style::default()).unwrap();
    let child1 = taffy.new_leaf(Style::default()).unwrap();
    let node = taffy.new_with_children(Style::default(), &[child0, child1]).unwrap();

    assert!(if let Ok(count) = taffy.child_count(node) { count == 2 } else { false });
    assert!(if let Ok(count) = taffy.child_count(child0) { count == 0 } else { false });
    assert!(if let Ok(count) = taffy.child_count(child1) { count == 0 } else { false });
}

#[test]
fn test_children() {
    let mut taffy: Taffy<()> = Taffy::new();
    let child0 = taffy.new_leaf(Style::default()).unwrap();
    let child1 = taffy.new_leaf(Style::default()).unwrap();
    let node = taffy.new_with_children(Style::default(), &[child0, child1]).unwrap();

    let mut children = Vec::new();
    children.push(child0);
    children.push(child1);

    let children_result = taffy.children(node).unwrap();
    assert_eq!(children_result, children);

    assert!(taffy.children(child0).unwrap().is_empty());
}

#[test]
fn test_set_style() {
    let mut taffy: Taffy<()> = Taffy::new();

    let node = taffy.new_leaf(Style::default()).unwrap();
    assert_eq!(taffy.style(node).unwrap().display, Display::Flex);

    taffy.set_style(node, Style { display: Display::Hidden, ..Style::default() }).unwrap();
    assert_eq!(taffy.style(node).unwrap().display, Display::Hidden);
}

#[test]
fn test_style() {
    let mut taffy: Taffy<()> = Taffy::new();

    let style = Style { display: Display::Hidden, flex_direction: FlexDirection::RowReverse, ..Default::default() };

    let node = taffy.new_leaf(style.clone()).unwrap();

    let res = taffy.style(node);
    assert!(res.is_ok());
    assert!(res.unwrap() == &style);
}

#[test]
fn test_layout() {
    let mut taffy: Taffy<()> = Taffy::new();
    let node = taffy.new_leaf(Style::default()).unwrap();

    let res = taffy.layout(node);
    assert!(res.is_ok());
}

#[test]
fn a_new_node_has_a_zeroed_layout_and_remembers_nothing() {
    let mut taffy: Taffy<()> = Taffy::new();
    let node = taffy.new_leaf(Style::default()).unwrap();
    assert_eq!(*taffy.layout(node).unwrap(), Layout::new());
    assert_eq!(*taffy.unrounded_layout(node), Layout::with_order(0));
    assert_eq!(taffy.dirty(node).unwrap(), true);
    assert_eq!(taffy.parent(node), None);
    assert!(!taffy.needs_measure(node));
    assert!(taffy.cache(node).is_empty());
    assert!(taffy.contains(node));
    assert_eq!(taffy.total_node_count(), 1);
}

#[test]
fn keys_are_not_handed_out_twice() {
    let mut taffy: Taffy<()> = Taffy::new();
    let a = taffy.new_leaf(Style::default()).unwrap();
    let b = taffy.new_leaf(Style::default()).unwrap();
    assert_ne!(a, b);
    taffy.remove(a).unwrap();
    assert!(!taffy.contains(a));
    let c = taffy.new_leaf(Style::default()).unwrap();
    assert_ne!(c, a);
    assert_ne!(c, b);
    assert!(!taffy.contains(a));
    assert_eq!(taffy.total_node_count(), 2);
}

#[test]
fn a_key_is_read_with_an_odd_version() {
    let mut taffy: Taffy<()> = Taffy::new();
    let a = taffy.new_leaf(Style::default()).unwrap();
    assert_eq!(taffy::tree::taffy_tree::normalized(a), a.value());
    let even = NodeId::new(a.value() & !(1u64 << 32));
    assert_eq!(taffy::tree::taffy_tree::normalized(even), a.value());
    assert!(taffy.contains(even));
}

#[test]
fn marking_dirty_reaches_the_ancestors_and_nothing_else() {
    let mut taffy: Taffy<()> = Taffy::new();
    let child0 = taffy.new_leaf(Style::default()).unwrap();
    let child1 = taffy.new_leaf(Style::default()).unwrap();
    let node = taffy.new_with_children(Style::default(), &[child0, child1]).unwrap();
    let root = taffy.new_with_children(Style::default(), &[node]).unwrap();
    for n in [child0, child1, node, root] {
        remember_something(&mut taffy, n);
        assert_eq!(taffy.dirty(n).unwrap(), false);
    }

    taffy.mark_dirty(node).unwrap();
    assert_eq!(taffy.dirty(child0).unwrap(), false);
    assert_eq!(taffy.dirty(child1).unwrap(), false);
    assert_eq!(taffy.dirty(node).unwrap(), true);
    assert_eq!(taffy.dirty(root).unwrap(), true);

    for n in [node, root] {
        remember_something(&mut taffy, n);
    }
    taffy.mark_dirty(child0).unwrap();
    assert_eq!(taffy.dirty(child0).unwrap(), true);
    assert_eq!(taffy.dirty(child1).unwrap(), false);
    assert_eq!(taffy.dirty(node).unwrap(), true);
    assert_eq!(taffy.dirty(root).unwrap(), true);
}

#[test]
fn changing_the_tree_marks_the_parent_dirty() {
    let mut taffy: Taffy<()> = Taffy::new();
    let child = taffy.new_leaf(Style::default()).unwrap();
    let other = taffy.new_leaf(Style::default()).unwrap();
    let node = taffy.new_leaf(Style::default()).unwrap();

    remember_something(&mut taffy, node);
    remember_something(&mut taffy, child);
    taffy.add_child(node, child).unwrap();
    assert!(taffy.dirty(node).unwrap());
    assert!(!taffy.dirty(child).unwrap());
    assert_eq!(taffy.parent(child), Some(node));

    remember_something(&mut taffy, node);
    taffy.replace_child_at_index(node, 0, other).unwrap();
    assert!(taffy.dirty(node).unwrap());
    assert_eq!(taffy.parent(child), None);
    assert_eq!(taffy.parent(other), Some(node));

    remember_something(&mut taffy, node);
    assert_eq!(taffy.remove_child_at_index(node, 0), Ok(other));
    assert!(taffy.dirty(node).unwrap());
    assert_eq!(taffy.parent(other), None);

    remember_something(&mut taffy, node);
    taffy.set_style(node, Style::default()).unwrap();
    assert!(taffy.dirty(node).unwrap());
}

#[test]
fn indexes_out_of_bounds_are_reported() {
    let mut taffy: Taffy<()> = Taffy::new();
    let child = taffy.new_leaf(Style::default()).unwrap();
    let node = taffy.new_with_children(Style::default(), &[child]).unwrap();
    let error = TaffyError::ChildIndexOutOfBounds { parent: node, child_index: 1, child_count: 1 };
    assert_eq!(taffy.child_at_index(node, 1), Err(error));
    assert_eq!(taffy.remove_child_at_index(node, 1), Err(error));
    assert_eq!(taffy.replace_child_at_index(node, 1, child), Err(error));
    let error = TaffyError::ChildIndexOutOfBounds { parent: node, child_index: 2, child_count: 1 };
    assert_eq!(taffy.insert_child_at_index(node, 2, child), Err(error));
    assert_eq!(taffy.children(node).unwrap(), vec![child]);
    assert!(taffy.insert_child_at_index(node, 1, child).is_ok());
    assert_eq!(taffy.children(node).unwrap(), vec![child, child]);
}

#[test]
fn removing_a_child_takes_its_first_occurrence() {
    let mut taffy: Taffy<()> = Taffy::new();
    let a = taffy.new_leaf(Style::default()).unwrap();
    let b = taffy.new_leaf(Style::default()).unwrap();
    let node = taffy.new_with_children(Style::default(), &[a, b, a]).unwrap();
    assert_eq!(taffy.remove_child(node, a), Ok(a));
    assert_eq!(taffy.children(node).unwrap(), vec![b, a]);
}

#[test]
fn removing_a_node_unlists_every_occurrence() {
    let mut taffy: Taffy<()> = Taffy::new();
    let a = taffy.new_leaf(Style::default()).unwrap();
    let b = taffy.new_leaf(Style::default()).unwrap();
    let node = taffy.new_with_children(Style::default(), &[a, b, a]).unwrap();
    assert_eq!(taffy.remove(a), Ok(a));
    assert_eq!(taffy.children(node).unwrap(), vec![b]);
    assert_eq!(taffy.total_node_count(), 2);
}

#[test]
fn clear_removes_every_node() {
    let mut taffy: Taffy<()> = Taffy::new();
    let a = taffy.new_leaf(Style::default()).unwrap();
    taffy.clear();
    assert_eq!(taffy.total_node_count(), 0);
    assert!(!taffy.contains(a));
}

#[test]
fn rounding_is_on_until_disabled() {
    let mut taffy: Taffy<()> = Taffy::with_capacity(4);
    assert!(taffy.uses_rounding());
    taffy.disable_rounding();
    assert!(!taffy.uses_rounding());
    taffy.enable_rounding();
    assert!(taffy.uses_rounding());
}

#[test]
fn contexts_are_stored_and_dropped() {
    let mut taffy: Taffy<u32> = Taffy::new();
    let node = taffy.new_leaf_with_context(Style::default(), 7).unwrap();
    assert!(taffy.needs_measure(node));
    assert_eq!(taffy.get_node_context_mut(node), Some(&mut 7));
    *taffy.get_node_context_mut(node).unwrap() = 8;
    assert_eq!(taffy.get_node_context_mut(node), Some(&mut 8));

    remember_something_u32(&mut taffy, node);
    taffy.set_node_context(node, None).unwrap();
    assert!(!taffy.needs_measure(node));
    assert_eq!(taffy.get_node_context_mut(node), None);
    assert!(taffy.dirty(node).unwrap());

    let plain = taffy.new_leaf(Style::default()).unwrap();
    assert!(!taffy.needs_measure(plain));
    taffy.set_node_context(plain, Some(3)).unwrap();
    assert!(taffy.needs_measure(plain));
    assert_eq!(taffy.get_node_context_mut(plain), Some(&mut 3));
}

fn remember_something_u32(taffy: &mut Taffy<u32>, node: NodeId) {
    let size = Size { width: s(1.0), height: s(1.0) };
    taffy.node_data_mut(node).cache.store(
        Size { width: None, height: None },
        Size { width: AvailableSpace::MaxContent, height: AvailableSpace::MaxContent },
        RunMode::ComputeSize,
        LayoutOutput::from_outer_size(size),
    );
}

#[test]
fn contents_nodes_give_way_to_their_children() {
    let mut taffy: Taffy<()> = Taffy::new();
    let contents = Style { display: Display::Contents, ..Style::default() };
    let a = taffy.new_leaf(Style::default()).unwrap();
    let b = taffy.new_leaf(Style::default()).unwrap();
    let c = taffy.new_leaf(Style::default()).unwrap();
    let d = taffy.new_leaf(Style::default()).unwrap();
    let inner = taffy.new_with_children(contents.clone(), &[c]).unwrap();
    let outer = taffy.new_with_children(contents.clone(), &[b, inner]).unwrap();
    let empty = taffy.new_with_children(contents, &[]).unwrap();
    let root = taffy.new_with_children(Style::default(), &[a, outer, empty, d]).unwrap();

    let mut out = vec![root];
    find_children_recursive(&taffy, root, &mut out);
    assert_eq!(out, vec![root, a, b, c, d]);

    let mut cache = ChildrenCache::new();
    assert_eq!(cache.node_id, NodeId::new(0));
    assert_eq!(cache.child_count(&taffy, root), 4);
    assert_eq!(cache.get_child_id(&taffy, root, 2), c);
    assert_eq!(cache.child_count(&taffy, outer), 2);
    assert_eq!(cache.node_id, outer);
    cache.resolve_children(&taffy, a);
    assert!(cache.children.is_empty());
}

#[test]
fn a_tree_without_a_circle_is_sound() {
    let mut taffy: Taffy<()> = Taffy::new();
    let leaf = taffy.new_leaf(Style::default()).unwrap();
    let mid = taffy.new_with_children(Style::default(), &[leaf]).unwrap();
    let root = taffy.new_with_children(Style::default(), &[mid]).unwrap();
    for n in [leaf, mid, root] {
        assert!(taffy.ancestors_are_sound(n));
        assert!(taffy::compute::taffy_tree::subtree_is_sound(&taffy, n, taffy.total_node_count()));
    }
    assert!(taffy::compute::taffy_tree::subtree_is_sound(&taffy, root, 2));
    assert!(!taffy::compute::taffy_tree::subtree_is_sound(&taffy, root, 1));
    assert!(taffy::compute::taffy_tree::subtree_is_sound(&taffy, leaf, 0));
    taffy.remove(mid).unwrap();
    assert!(!taffy.ancestors_are_sound(mid));
    assert!(!taffy::compute::taffy_tree::subtree_is_sound(&taffy, mid, 3));
    assert!(taffy.ancestors_are_sound(leaf));
}

#[test]
fn linking_is_tested_before_it_is_done() {
    let mut taffy: Taffy<()> = Taffy::new();
    let leaf = taffy.new_leaf(Style::default()).unwrap();
    let middle = taffy.new_with_children(Style::default(), &[leaf]).unwrap();
    let root = taffy.new_with_children(Style::default(), &[middle]).unwrap();
    let other = taffy.new_leaf(Style::default()).unwrap();

    // a node from elsewhere can be linked anywhere
    assert!(taffy.linking_is_sound(leaf, other));
    assert!(taffy.linking_is_sound(root, other));
    // a node cannot become a child of itself or of a node below it
    assert!(!taffy.linking_is_sound(root, root));
    assert!(!taffy.linking_is_sound(middle, root));
    assert!(!taffy.linking_is_sound(leaf, root));
    assert!(!taffy.linking_is_sound(leaf, middle));
    // but of a node above it or beside it
    assert!(taffy.linking_is_sound(root, leaf));
    assert!(taffy.linking_is_sound(other, root));

    assert_eq!(taffy.add_child_if_sound(leaf, root), None);
    assert_eq!(taffy.children(leaf).unwrap(), vec![]);
    assert_eq!(taffy.parent(root), None);
    assert_eq!(taffy.add_child_if_sound(leaf, other), Some(Ok(())));
    assert_eq!(taffy.children(leaf).unwrap(), vec![other]);
    assert_eq!(taffy.parent(other), Some(leaf));

    let more = taffy.new_leaf(Style::default()).unwrap();
    assert_eq!(taffy.insert_child_at_index_if_sound(more, 0, root), Some(Ok(())));
    assert_eq!(taffy.insert_child_at_index_if_sound(other, 0, more), None);
    let late = taffy.new_leaf(Style::default()).unwrap();
    assert!(matches!(
        taffy.insert_child_at_index_if_sound(root, 5, late),
        Some(Err(TaffyError::ChildIndexOutOfBounds { child_index: 5, child_count: 1, .. }))
    ));
    let gone = taffy.new_leaf(Style::default()).unwrap();
    taffy.remove(gone).unwrap();
    assert_eq!(taffy.add_child_if_sound(root, gone), None);
    assert_eq!(taffy.add_child_if_sound(gone, leaf), None);
}

#[test]
fn a_tree_is_made_for_any_capacity() {
    for capacity in [0usize, 8, 16, 65535, 65536, usize::MAX] {
        let mut taffy: Taffy<()> = Taffy::with_capacity(capacity);
        assert_eq!(taffy.total_node_count(), 0);
        let node = taffy.new_leaf(Style::default()).unwrap();
        assert_eq!(taffy.total_node_count(), 1);
        assert!(taffy.contains(node));
    }
}

#[test]
fn relinking_is_tested_before_it_is_done() {
    let mut taffy: Taffy<()> = Taffy::new();
    let a = taffy.new_leaf(Style::default()).unwrap();
    let b = taffy.new_leaf(Style::default()).unwrap();
    let middle = taffy.new_with_children(Style::default(), &[a, b]).unwrap();
    let root = taffy.new_with_children(Style::default(), &[middle]).unwrap();
    let other = taffy.new_leaf(Style::default()).unwrap();

    assert!(taffy.way_up_is_clear(middle, &vec![a, b, other]));
    assert!(!taffy.way_up_is_clear(middle, &vec![a, root]));
    assert!(!taffy.way_up_is_clear(middle, &vec![middle]));
    assert!(taffy.way_up_is_clear(root, &vec![]));

    // the root cannot take the place of a child of a node below it
    assert_eq!(taffy.replace_child_at_index_if_sound(middle, 0, root), None);
    assert_eq!(taffy.children(middle).unwrap(), vec![a, b]);
    assert_eq!(taffy.replace_child_at_index_if_sound(middle, 0, other), Some(Ok(a)));
    assert_eq!(taffy.children(middle).unwrap(), vec![other, b]);
    assert_eq!(taffy.parent(a), None);
    assert_eq!(taffy.parent(other), Some(middle));
    assert!(matches!(taffy.replace_child_at_index_if_sound(middle, 2, a), Some(Err(_))));

    assert_eq!(taffy.set_children_if_sound(middle, &[a, root]), None);
    assert_eq!(taffy.children(middle).unwrap(), vec![other, b]);
    assert_eq!(taffy.set_children_if_sound(middle, &[a, b]), Some(Ok(())));
    assert_eq!(taffy.children(middle).unwrap(), vec![a, b]);
    assert_eq!(taffy.parent(other), None);

    assert_eq!(taffy.remove_child_at_index_if_sound(middle, 1), Some(Ok(b)));
    assert_eq!(taffy.children(middle).unwrap(), vec![a]);
    assert!(matches!(taffy.remove_child_at_index_if_sound(middle, 1), Some(Err(_))));
    assert_eq!(taffy.remove_child_if_sound(middle, b), None);
    assert_eq!(taffy.remove_child_if_sound(middle, a), Some(Ok(a)));
    assert_eq!(taffy.children(middle).unwrap(), vec![]);
    assert_eq!(taffy.parent(a), None);

    let gone = taffy.new_leaf(Style::default()).unwrap();
    taffy.remove(gone).unwrap();
    assert_eq!(taffy.remove_child_at_index_if_sound(gone, 0), None);
    assert_eq!(taffy.set_children_if_sound(root, &[gone]), None);
    assert_eq!(taffy.replace_child_at_index_if_sound(root, 0, gone), None);
    assert_eq!(taffy.children(root).unwrap(), vec![middle]);
}
