use taffy::node::{Error, Node, Stretch};
use taffy::style::{Display, Style};
use taffy::tree::Layout;

#[test]
fn a_new_node_is_found_again() {
    let mut stretch = Stretch::new();
    let node = stretch.new_node(Style::default(), &[]).unwrap();
    assert_eq!(stretch.find_node(node), Ok(0));
    assert_eq!(stretch.child_count(node), Ok(0));
    assert_eq!(stretch.children(node), Ok(vec![]));
    assert_eq!(stretch.dirty(node), Ok(true));
    assert_eq!(stretch.layout(node), Ok(&Layout::new()));
    assert_eq!(stretch.style(node).unwrap().display, Display::Flex);
}

#[test]
fn handles_count_up_and_carry_the_instance() {
    let mut stretch = Stretch::with_instance(7, 4);
    let a = stretch.new_node(Style::default(), &[]).unwrap();
    let b = stretch.new_node(Style::default(), &[]).unwrap();
    assert_eq!(a, Node { instance: 7, local: 0 });
    assert_eq!(b, Node { instance: 7, local: 1 });
    assert_eq!(Stretch::with_capacity(4).new_node(Style::default(), &[]).unwrap().instance, 0);
}

#[test]
fn handles_of_another_tree_name_nothing() {
    let mut one = Stretch::with_instance(1, 4);
    let mut two = Stretch::with_instance(2, 4);
    let a = one.new_node(Style::default(), &[]).unwrap();
    let b = two.new_node(Style::default(), &[]).unwrap();
    assert_eq!(one.find_node(b), Err(Error::InvalidNode(b)));
    assert_eq!(two.child_count(a), Err(Error::InvalidNode(a)));
    assert_eq!(one.add_child(a, b), Err(Error::InvalidNode(b)));
    assert_eq!(one.add_child(b, a), Err(Error::InvalidNode(b)));
    assert_eq!(one.set_children(a, &[a, b]), Err(Error::InvalidNode(b)));
    assert_eq!(one.new_node(Style::default(), &[b, a]), Err(Error::InvalidNode(b)));
    assert_eq!(one.mark_dirty(b), Err(Error::InvalidNode(b)));
    assert_eq!(one.dirty(b), Err(Error::InvalidNode(b)));
    assert_eq!(one.set_style(b, Style::default()), Err(Error::InvalidNode(b)));
    assert_eq!(one.style(b), Err(Error::InvalidNode(b)));
    assert_eq!(one.layout(b), Err(Error::InvalidNode(b)));
    assert_eq!(one.children(b), Err(Error::InvalidNode(b)));
    assert_eq!(one.child_at_index(b, 0), Err(Error::InvalidNode(b)));
    assert_eq!(one.remove_child(a, b), Err(Error::InvalidNode(b)));
    assert_eq!(one.remove_child_at_index(b, 0), Err(Error::InvalidNode(b)));
    assert_eq!(one.replace_child_at_index(a, 0, b), Err(Error::InvalidNode(b)));
    one.remove(b);
    assert_eq!(one.find_node(a), Ok(0));
}

#[test]
fn a_failed_new_node_uses_up_a_number() {
    let mut stretch = Stretch::new();
    let stranger = Node { instance: 0, local: 99 };
    assert_eq!(stretch.new_node(Style::default(), &[stranger]), Err(Error::InvalidNode(stranger)));
    let a = stretch.new_node(Style::default(), &[]).unwrap();
    assert_eq!(a.local, 1);
}

#[test]
fn children_are_kept_in_order() {
    let mut stretch = Stretch::new();
    let a = stretch.new_node(Style::default(), &[]).unwrap();
    let b = stretch.new_node(Style::default(), &[]).unwrap();
    let c = stretch.new_node(Style::default(), &[]).unwrap();
    let node = stretch.new_node(Style::default(), &[a, b]).unwrap();
    assert_eq!(stretch.children(node), Ok(vec![a, b]));
    stretch.add_child(node, c).unwrap();
    assert_eq!(stretch.children(node), Ok(vec![a, b, c]));
    assert_eq!(stretch.child_at_index(node, 1), Ok(b));
    assert_eq!(stretch.child_count(node), Ok(3));
    assert_eq!(stretch.remove_child(node, b), Ok(b));
    assert_eq!(stretch.children(node), Ok(vec![a, c]));
    assert_eq!(stretch.remove_child_at_index(node, 0), Ok(a));
    assert_eq!(stretch.children(node), Ok(vec![c]));
    assert_eq!(stretch.replace_child_at_index(node, 0, b), Ok(c));
    assert_eq!(stretch.children(node), Ok(vec![b]));
    stretch.set_children(node, &[c, a, c]).unwrap();
    assert_eq!(stretch.children(node), Ok(vec![c, a, c]));
}

#[test]
fn removing_a_node_keeps_the_other_handles() {
    let mut stretch = Stretch::new();
    let a = stretch.new_node(Style::default(), &[]).unwrap();
    let b = stretch.new_node(Style { display: Display::Block, ..Style::default() }, &[]).unwrap();
    let c = stretch.new_node(Style { display: Display::Grid, ..Style::default() }, &[]).unwrap();
    let node = stretch.new_node(Style::default(), &[a, b, c, a]).unwrap();
    assert_eq!(stretch.find_node(node), Ok(3));

    stretch.remove(a);
    assert_eq!(stretch.find_node(a), Err(Error::InvalidNode(a)));
    // the node with the highest number took the number of the removed one
    assert_eq!(stretch.find_node(node), Ok(0));
    assert_eq!(stretch.find_node(b), Ok(1));
    assert_eq!(stretch.find_node(c), Ok(2));
    assert_eq!(stretch.children(node), Ok(vec![b, c]));
    assert_eq!(stretch.style(b).unwrap().display, Display::Block);
    assert_eq!(stretch.style(c).unwrap().display, Display::Grid);

    stretch.remove(c);
    assert_eq!(stretch.children(node), Ok(vec![b]));
    stretch.remove(node);
    assert_eq!(stretch.find_node(b), Ok(0));
    stretch.remove(b);
    assert_eq!(stretch.find_node(b), Err(Error::InvalidNode(b)));
    stretch.remove(b);
}

#[test]
fn dirt_rises_to_the_ancestors() {
    let mut stretch = Stretch::new();
    let leaf = stretch.new_node(Style::default(), &[]).unwrap();
    let other = stretch.new_node(Style::default(), &[]).unwrap();
    let mid = stretch.new_node(Style::default(), &[leaf]).unwrap();
    let root = stretch.new_node(Style::default(), &[mid, other]).unwrap();
    // every node starts out of date, and nothing cleans them here
    for n in [leaf, other, mid, root] {
        assert_eq!(stretch.dirty(n), Ok(true));
    }
    assert_eq!(stretch.mark_dirty(leaf), Ok(()));
    assert_eq!(stretch.set_style(mid, Style { display: Display::Block, ..Style::default() }), Ok(()));
    assert_eq!(stretch.style(mid).unwrap().display, Display::Block);
    assert_eq!(stretch.dirty(root), Ok(true));
}

#[test]
fn clear_forgets_every_handle() {
    let mut stretch = Stretch::new();
    let a = stretch.new_node(Style::default(), &[]).unwrap();
    stretch.clear();
    assert_eq!(stretch.find_node(a), Err(Error::InvalidNode(a)));
    let b = stretch.new_node(Style::default(), &[]).unwrap();
    assert_ne!(a, b);
    assert_eq!(stretch.find_node(b), Ok(0));
}

#[test]
fn a_forest_without_a_circle_is_sound() {
    let mut stretch = Stretch::new();
    let leaf = stretch.new_node(Style::default(), &[]).unwrap();
    let mid = stretch.new_node(Style::default(), &[leaf]).unwrap();
    let root = stretch.new_node(Style::default(), &[mid, leaf]).unwrap();
    for n in [leaf, mid, root] {
        assert!(stretch.ancestors_are_sound(n));
    }
    assert!(!stretch.ancestors_are_sound(Node { instance: 5, local: 0 }));
}

#[test]
fn a_removed_handle_names_nothing_and_the_others_name_what_they_named() {
    let mut stretch = Stretch::new();
    let a = stretch.new_node(Style::default(), &[]).unwrap();
    let b = stretch.new_node(Style { flex_grow: taffy::scalar::Scalar::from_bits(2.0f32.to_bits()), ..Style::default() }, &[]).unwrap();
    let c = stretch.new_node(Style::default(), &[a, b]).unwrap();
    let d = stretch.new_node(Style::default(), &[]).unwrap();
    let grow = stretch.style(b).unwrap().flex_grow;

    // every child that is handed out names a node
    for child in stretch.children(c).unwrap() {
        assert!(stretch.style(child).is_ok());
    }
    stretch.remove(a);
    assert_eq!(stretch.style(a).err(), Some(Error::InvalidNode(a)));
    assert_eq!(stretch.children(a).err(), Some(Error::InvalidNode(a)));
    // the node that took the number of the removed one is still found by its handle
    assert!(stretch.style(d).is_ok());
    assert_eq!(stretch.style(b).unwrap().flex_grow, grow);
    assert_eq!(stretch.children(c).unwrap(), vec![b]);
    assert_eq!(stretch.children(d).unwrap(), vec![]);
    // removing what is gone changes nothing
    stretch.remove(a);
    assert_eq!(stretch.children(c).unwrap(), vec![b]);
}

#[test]
fn linking_by_handle_is_tested_before_it_is_done() {
    let mut stretch = Stretch::new();
    let a = stretch.new_node(Style::default(), &[]).unwrap();
    let b = stretch.new_node(Style::default(), &[]).unwrap();
    let middle = stretch.new_node(Style::default(), &[a, b]).unwrap();
    let root = stretch.new_node(Style::default(), &[middle]).unwrap();
    let other = stretch.new_node(Style::default(), &[]).unwrap();

    // a node cannot become a child of a node below it, nor of itself
    assert_eq!(stretch.add_child_if_sound(a, root), None);
    assert_eq!(stretch.add_child_if_sound(middle, middle), None);
    assert_eq!(stretch.children(a), Ok(vec![]));
    assert_eq!(stretch.add_child_if_sound(a, other), Some(Ok(())));
    assert_eq!(stretch.children(a), Ok(vec![other]));

    assert_eq!(stretch.replace_child_at_index_if_sound(middle, 0, root), None);
    assert_eq!(stretch.replace_child_at_index_if_sound(middle, 7, other), None);
    assert_eq!(stretch.replace_child_at_index_if_sound(middle, 1, other), Some(Ok(b)));
    assert_eq!(stretch.children(middle), Ok(vec![a, other]));

    assert_eq!(stretch.set_children_if_sound(middle, &[root]), None);
    assert_eq!(stretch.children(middle), Ok(vec![a, other]));
    assert_eq!(stretch.set_children_if_sound(middle, &[b, a]), Some(Ok(())));
    assert_eq!(stretch.children(middle), Ok(vec![b, a]));

    assert_eq!(stretch.remove_child_at_index_if_sound(middle, 2), None);
    assert_eq!(stretch.remove_child_at_index_if_sound(middle, 0), Some(Ok(b)));
    assert_eq!(stretch.remove_child_if_sound(middle, b), None);
    assert_eq!(stretch.remove_child_if_sound(middle, a), Some(Ok(a)));
    assert_eq!(stretch.children(middle), Ok(vec![]));

    // a handle that names nothing is reported as the plain functions report it
    let strange = Node { instance: 99, local: 0 };
    assert_eq!(stretch.add_child_if_sound(strange, a), Some(Err(Error::InvalidNode(strange))));
    assert_eq!(stretch.add_child_if_sound(a, strange), Some(Err(Error::InvalidNode(strange))));
    assert_eq!(stretch.set_children_if_sound(middle, &[strange]), Some(Err(Error::InvalidNode(strange))));
    assert_eq!(stretch.remove_child_at_index_if_sound(strange, 0), Some(Err(Error::InvalidNode(strange))));
}
