//! A tree of nodes in an arena, with their styles, layouts and caches.

use crate::style::{Display, Style};
use crate::tree::slots::{
    key_of, slot_contents, slots_clear, slots_get, slots_get_mut, slots_insert, slots_len,
    slots_remove, slots_with_capacity, NodeData, NodeSlot, NodeSlots, NodeView, MAX_CAPACITY,
    MAX_NODES,
};
use crate::tree::cache::Cache;
use crate::tree::{Layout, NodeId, TaffyError};
use std::collections::HashMap;
use vstd::prelude::*;

verus! {

/// Settings of a tree.
pub struct TaffyConfig {
    /// Whether layouts are rounded to whole units after a run.
    pub use_rounding: bool,
}

/// A tree of nodes. Each node has a style, a list of children and at most
/// one parent; a node is named by the key that the arena gave it. What a
/// caller stores for a node is kept under the node's key, and found by
/// that key and no other for as long as it is not replaced or taken out.
pub struct Taffy<NodeContext = ()> {
    slots: NodeSlots,
    node_context_data: HashMap<u64, NodeContext>,
    config: TaffyConfig,
}

/// The nodes of a tree, by their keys.
pub type Nodes = Map<u64, NodeView>;

/// Whether `node` names a node of `nodes`.
pub open spec fn holds(nodes: Nodes, node: NodeId) -> bool {
    nodes.dom().contains(key_of(node.0))
}

/// The record of `node`.
pub open spec fn record(nodes: Nodes, node: NodeId) -> NodeView {
    nodes[key_of(node.0)]
}

/// Whether every node in `ids` is in the tree.
pub open spec fn holds_all(nodes: Nodes, ids: Seq<NodeId>) -> bool {
    forall|i: int| 0 <= i < ids.len() ==> holds(nodes, #[trigger] ids[i])
}

/// The node `n` steps up from `node`: `node` itself, its parent, the
/// parent's parent, and so on; nothing beyond a root or a node that is not
/// in the tree.
pub open spec fn nth_ancestor(nodes: Nodes, node: NodeId, n: nat) -> Option<NodeId>
    decreases n,
{
    if n == 0 {
        Some(node)
    } else {
        match nth_ancestor(nodes, node, (n - 1) as nat) {
            Some(below) => if holds(nodes, below) {
                record(nodes, below).parent
            } else {
                None
            },
            None => None,
        }
    }
}

/// Whether the way up from `node` ends after `n` nodes, all of them in the
/// tree: the last of them has no parent.
pub open spec fn chain_ends_at(nodes: Nodes, node: NodeId, n: nat) -> bool {
    &&& nth_ancestor(nodes, node, n) is None
    &&& forall|j: nat|
        j < n ==> (#[trigger] nth_ancestor(nodes, node, j)) is Some && holds(
            nodes,
            nth_ancestor(nodes, node, j).unwrap(),
        )
}

/// Whether the way up from `node` ends: it leads through nodes of the tree
/// to one without a parent, and so does not run in a circle.
pub open spec fn chain_ends(nodes: Nodes, node: NodeId) -> bool {
    exists|n: nat| chain_ends_at(nodes, node, n)
}

/// The key of the node `n` steps up from `node`.
pub open spec fn nth_ancestor_key(nodes: Nodes, node: NodeId, n: nat) -> Option<u64> {
    match nth_ancestor(nodes, node, n) {
        Some(ancestor) => Some(key_of(ancestor.0)),
        None => None,
    }
}

/// Whether the node with key `key` is `node` or one of its ancestors.
pub open spec fn on_chain(nodes: Nodes, node: NodeId, key: u64) -> bool {
    exists|j: nat| #[trigger] nth_ancestor_key(nodes, node, j) == Some(key)
}

/// Whether `after` is `before` with `node` and all its ancestors made to
/// forget what they remember, and nothing else changed.
pub open spec fn dirtied(before: Nodes, after: Nodes, node: NodeId) -> bool {
    &&& after.dom() == before.dom()
    &&& forall|k: u64| #[trigger]
        before.dom().contains(k) ==> {
            &&& after[k].children == before[k].children
            &&& after[k].parent == before[k].parent
            &&& if on_chain(before, node, k) {
                before[k].data.forgetful(after[k].data)
            } else {
                after[k].data == before[k].data
            }
        }
}

/// Whether `child` can be made a child of `parent` without the way up
/// from `parent` running in a circle: that way ends within as many steps
/// as the tree has nodes, and `child` is not on it.
pub open spec fn can_link(nodes: Nodes, parent: NodeId, child: NodeId) -> bool {
    exists|n: nat|
        n <= nodes.dom().len() + 1 && #[trigger] chain_ends_at(nodes, parent, n) && forall|j: nat|
            j < n ==> #[trigger] nth_ancestor_key(nodes, parent, j) != Some(key_of(child.0))
}

/// The way up from `parent` stays what it is when a node that is not on
/// it gets `parent` for its parent: it ends as it ended.
pub proof fn lemma_linking_keeps_the_way_up(nodes: Nodes, parent: NodeId, child: NodeId, n: nat)
    requires
        chain_ends_at(nodes, parent, n),
        forall|j: nat| j < n ==> #[trigger] nth_ancestor_key(nodes, parent, j) != Some(key_of(child.0)),
    ensures
        chain_ends_at(with_parent(nodes, child, Some(parent)), parent, n),
        chain_ends(with_parent(nodes, child, Some(parent)), parent),
{
    let linked = with_parent(nodes, child, Some(parent));
    assert forall|j: nat| j <= n implies #[trigger] nth_ancestor(linked, parent, j) == nth_ancestor(
        nodes,
        parent,
        j,
    ) by {
        lemma_same_way_up(nodes, parent, child, n, j);
    }
    assert forall|j: nat| j < n implies (#[trigger] nth_ancestor(linked, parent, j)) is Some && holds(
        linked,
        nth_ancestor(linked, parent, j).unwrap(),
    ) by {
        assert(nth_ancestor(nodes, parent, j) is Some);
        assert(holds(nodes, nth_ancestor(nodes, parent, j).unwrap()));
    }
}

proof fn lemma_same_way_up(nodes: Nodes, parent: NodeId, child: NodeId, n: nat, j: nat)
    requires
        chain_ends_at(nodes, parent, n),
        forall|k: nat| k < n ==> #[trigger] nth_ancestor_key(nodes, parent, k) != Some(key_of(child.0)),
        j <= n,
    ensures
        nth_ancestor(with_parent(nodes, child, Some(parent)), parent, j) == nth_ancestor(
            nodes,
            parent,
            j,
        ),
    decreases j,
{
    if j > 0 {
        let k = (j - 1) as nat;
        lemma_same_way_up(nodes, parent, child, n, k);
        assert(nth_ancestor(nodes, parent, k) is Some);
        let below = nth_ancestor(nodes, parent, k).unwrap();
        assert(holds(nodes, below));
        assert(nth_ancestor_key(nodes, parent, k) != Some(key_of(child.0)));
        assert(key_of(below.0) != key_of(child.0));
    }
}

/// Whether `key` is the key of one of the nodes of `list`.
pub open spec fn key_among(list: Seq<NodeId>, key: u64) -> bool {
    exists|i: int| 0 <= i < list.len() && key_of((#[trigger] list[i]).0) == key
}

/// Whether the way up from `node` ends within as many steps as the tree
/// has nodes without leading through one of the nodes of `avoided`.
pub open spec fn way_up_avoids(nodes: Nodes, node: NodeId, avoided: Seq<NodeId>) -> bool {
    exists|n: nat|
        n <= nodes.dom().len() + 1 && #[trigger] chain_ends_at(nodes, node, n) && forall|j: nat|
            j < n ==> !key_among(avoided, (#[trigger] nth_ancestor_key(nodes, node, j)).unwrap())
}

proof fn lemma_same_steps_up(a: Nodes, b: Nodes, node: NodeId, n: nat, j: nat)
    requires
        chain_ends_at(a, node, n),
        forall|k: nat|
            k < n ==> holds(b, (#[trigger] nth_ancestor(a, node, k)).unwrap()) && record(
                b,
                nth_ancestor(a, node, k).unwrap(),
            ).parent == record(a, nth_ancestor(a, node, k).unwrap()).parent,
        j <= n,
    ensures
        nth_ancestor(b, node, j) == nth_ancestor(a, node, j),
    decreases j,
{
    if j > 0 {
        let k = (j - 1) as nat;
        lemma_same_steps_up(a, b, node, n, k);
        assert(nth_ancestor(a, node, k) is Some);
        assert(holds(a, nth_ancestor(a, node, k).unwrap()));
    }
}

/// The way up from a node ends in a changed tree as it ended before,
/// where every node on it is still in the tree and has the parent that
/// it had.
pub proof fn lemma_way_up_is_kept(a: Nodes, b: Nodes, node: NodeId, n: nat)
    requires
        chain_ends_at(a, node, n),
        forall|k: nat|
            k < n ==> holds(b, (#[trigger] nth_ancestor(a, node, k)).unwrap()) && record(
                b,
                nth_ancestor(a, node, k).unwrap(),
            ).parent == record(a, nth_ancestor(a, node, k).unwrap()).parent,
    ensures
        chain_ends_at(b, node, n),
        chain_ends(b, node),
{
    assert forall|j: nat| j <= n implies #[trigger] nth_ancestor(b, node, j) == nth_ancestor(
        a,
        node,
        j,
    ) by {
        lemma_same_steps_up(a, b, node, n, j);
    }
    assert forall|j: nat| j < n implies (#[trigger] nth_ancestor(b, node, j)) is Some && holds(
        b,
        nth_ancestor(b, node, j).unwrap(),
    ) by {
        assert(nth_ancestor(a, node, j) is Some);
    }
}

/// `nodes` with the record of `node` replaced.
pub open spec fn with_record(nodes: Nodes, node: NodeId, view: NodeView) -> Nodes {
    nodes.insert(key_of(node.0), view)
}

/// `nodes` with the parent of `node` set.
pub open spec fn with_parent(nodes: Nodes, node: NodeId, parent: Option<NodeId>) -> Nodes {
    with_record(nodes, node, NodeView { parent, ..record(nodes, node) })
}

/// `nodes` with the children of `node` set.
pub open spec fn with_children(nodes: Nodes, node: NodeId, children: Seq<NodeId>) -> Nodes {
    with_record(nodes, node, NodeView { children, ..record(nodes, node) })
}

/// `nodes` with the data of `node` set.
pub open spec fn with_data(nodes: Nodes, node: NodeId, data: NodeData) -> Nodes {
    with_record(nodes, node, NodeView { data, ..record(nodes, node) })
}

/// The way up from a node depends on the parents alone.
pub proof fn lemma_ancestors_follow_parents(a: Nodes, b: Nodes, node: NodeId, n: nat)
    requires
        a.dom() == b.dom(),
        forall|k: u64| a.dom().contains(k) ==> a[k].parent == b[k].parent,
    ensures
        nth_ancestor(a, node, n) == nth_ancestor(b, node, n),
    decreases n,
{
    if n > 0 {
        lemma_ancestors_follow_parents(a, b, node, (n - 1) as nat);
    }
}

/// Beyond the end of the way up there is nothing.
pub proof fn lemma_nothing_above_the_end(nodes: Nodes, node: NodeId, n: nat, m: nat)
    requires
        nth_ancestor(nodes, node, n) is None,
        n <= m,
    ensures
        nth_ancestor(nodes, node, m) is None,
    decreases m,
{
    if m > n {
        lemma_nothing_above_the_end(nodes, node, n, (m - 1) as nat);
    }
}

/// A node whose way up ends is in the tree.
pub proof fn lemma_chain_start_holds(nodes: Nodes, node: NodeId)
    requires
        chain_ends(nodes, node),
    ensures
        holds(nodes, node),
{
    let n = choose|n: nat| chain_ends_at(nodes, node, n);
    assert(nth_ancestor(nodes, node, 0) == Some(node));
    assert(n > 0);
}

/// The way up from a node ends in `b` if it ends in `a` and both have the
/// same nodes with the same parents.
pub proof fn lemma_chain_survives(a: Nodes, b: Nodes, node: NodeId)
    requires
        chain_ends(a, node),
        a.dom() == b.dom(),
        forall|k: u64| a.dom().contains(k) ==> a[k].parent == b[k].parent,
    ensures
        chain_ends(b, node),
{
    let n = choose|n: nat| chain_ends_at(a, node, n);
    lemma_ancestors_follow_parents(a, b, node, n);
    assert forall|j: nat| j < n implies (#[trigger] nth_ancestor(b, node, j)) is Some && holds(
        b,
        nth_ancestor(b, node, j).unwrap(),
    ) by {
        lemma_ancestors_follow_parents(a, b, node, j);
    }
    assert(chain_ends_at(b, node, n));
}

/// Whether `after` is `before` with the first `j` nodes on the way up from
/// `node` made to forget what they remember, and nothing else changed.
pub open spec fn dirtied_below(before: Nodes, after: Nodes, node: NodeId, j: nat) -> bool {
    &&& after.dom() == before.dom()
    &&& forall|k: u64| #[trigger]
        before.dom().contains(k) ==> {
            &&& after[k].children == before[k].children
            &&& after[k].parent == before[k].parent
            &&& if exists|i: nat| i < j && #[trigger] nth_ancestor_key(before, node, i) == Some(k) {
                before[k].data.forgetful(after[k].data)
            } else {
                after[k].data == before[k].data
            }
        }
}

proof fn lemma_dirtied_one_more(
    before: Nodes,
    prev: Nodes,
    next: Nodes,
    node: NodeId,
    j: nat,
    cur: NodeId,
)
    requires
        dirtied_below(before, prev, node, j),
        nth_ancestor(before, node, j) == Some(cur),
        holds(before, cur),
        next.dom() == prev.dom().insert(key_of(cur.0)),
        forall|k: u64| prev.dom().contains(k) && k != key_of(cur.0) ==> next[k] == prev[k],
        record(next, cur).children == record(prev, cur).children,
        record(next, cur).parent == record(prev, cur).parent,
        record(prev, cur).data.forgetful(record(next, cur).data),
    ensures
        dirtied_below(before, next, node, j + 1),
{
    assert(next.dom() =~= before.dom());
    assert forall|k: u64| #[trigger] before.dom().contains(k) implies {
        &&& next[k].children == before[k].children
        &&& next[k].parent == before[k].parent
        &&& if exists|i: nat| i < j + 1 && #[trigger] nth_ancestor_key(before, node, i) == Some(k) {
            before[k].data.forgetful(next[k].data)
        } else {
            next[k].data == before[k].data
        }
    } by {
        if k == key_of(cur.0) {
            assert(j < j + 1 && nth_ancestor_key(before, node, j) == Some(k));
        } else {
            assert(next[k] == prev[k]);
            if exists|i: nat| i < j + 1 && #[trigger] nth_ancestor_key(before, node, i) == Some(k) {
                let i = choose|i: nat|
                    i < j + 1 && #[trigger] nth_ancestor_key(before, node, i) == Some(k);
                assert(i < j);
            }
        }
    }
}

proof fn lemma_dirtied_to_the_end(before: Nodes, after: Nodes, node: NodeId, j: nat)
    requires
        dirtied_below(before, after, node, j),
        nth_ancestor(before, node, j) is None,
    ensures
        dirtied(before, after, node),
{
    assert forall|k: u64| #[trigger] before.dom().contains(k) implies (on_chain(before, node, k)
        <==> exists|i: nat| i < j && #[trigger] nth_ancestor_key(before, node, i) == Some(k)) by {
        if on_chain(before, node, k) {
            let i = choose|i: nat| #[trigger] nth_ancestor_key(before, node, i) == Some(k);
            if i >= j {
                lemma_nothing_above_the_end(before, node, j, i);
            }
            assert(i < j);
        }
    }
}

/// `nodes` with the parent of every node in `ids` set to `parent`.
pub open spec fn with_parents(nodes: Nodes, ids: Seq<NodeId>, parent: Option<NodeId>) -> Nodes {
    Map::new(
        |k: u64| nodes.dom().contains(k),
        |k: u64|
            if exists|i: int| 0 <= i < ids.len() && key_of((#[trigger] ids[i]).0) == k {
                NodeView { parent, ..nodes[k] }
            } else {
                nodes[k]
            },
    )
}

/// `nodes` after `child` was made the last child of `parent`.
pub open spec fn child_added(nodes: Nodes, parent: NodeId, child: NodeId) -> Nodes {
    let linked = with_parent(nodes, child, Some(parent));
    with_children(linked, parent, record(linked, parent).children.push(child))
}

/// `nodes` after `child` was made the child of `parent` at `index`.
pub open spec fn child_inserted(nodes: Nodes, parent: NodeId, index: int, child: NodeId) -> Nodes {
    let linked = with_parent(nodes, child, Some(parent));
    with_children(linked, parent, record(linked, parent).children.insert(index, child))
}

/// `nodes` after the child of `parent` at `index` was taken out of the list
/// and left without a parent.
pub open spec fn child_removed(nodes: Nodes, parent: NodeId, index: int) -> Nodes {
    let child = record(nodes, parent).children[index];
    let shortened = with_children(nodes, parent, record(nodes, parent).children.remove(index));
    with_parent(shortened, child, None)
}

/// `nodes` after `new_child` took the place of the child of `parent` at
/// `index`, which was left without a parent.
pub open spec fn child_replaced(nodes: Nodes, parent: NodeId, index: int, new_child: NodeId) -> Nodes {
    let linked = with_parent(nodes, new_child, Some(parent));
    let old_child = record(linked, parent).children[index];
    let swapped = with_children(
        linked,
        parent,
        record(linked, parent).children.update(index, new_child),
    );
    with_parent(swapped, old_child, None)
}

/// `nodes` after the children of `parent` were replaced by `children`: the
/// former children are left without a parent, the new ones get `parent`.
pub open spec fn children_set(nodes: Nodes, parent: NodeId, children: Seq<NodeId>) -> Nodes {
    let detached = with_parents(nodes, record(nodes, parent).children, None);
    let attached = with_parents(detached, children, Some(parent));
    with_children(attached, parent, children)
}

/// The first place of `child` in `children`.
pub open spec fn first_index_of(children: Seq<NodeId>, child: NodeId) -> int {
    choose|i: int|
        0 <= i < children.len() && children[i] == child && forall|j: int|
            0 <= j < i ==> children[j] != child
}

/// `children` without every occurrence of `node`, the others in their order.
pub open spec fn without(children: Seq<NodeId>, node: NodeId) -> Seq<NodeId>
    decreases children.len(),
{
    if children.len() == 0 {
        Seq::empty()
    } else if children.last() == node {
        without(children.drop_last(), node)
    } else {
        without(children.drop_last(), node).push(children.last())
    }
}

/// `nodes` after `node` was removed: its parent, where that is in the
/// tree, no longer lists it; its children are left without a parent; and
/// the node is gone.
pub open spec fn node_removed(nodes: Nodes, node: NodeId) -> Nodes {
    let unlisted = match record(nodes, node).parent {
        Some(parent) => if holds(nodes, parent) {
            with_children(nodes, parent, without(record(nodes, parent).children, node))
        } else {
            nodes
        },
        None => nodes,
    };
    let orphaned = with_parents(unlisted, record(unlisted, node).children, None);
    orphaned.remove(key_of(node.0))
}

proof fn lemma_with_parents_step(nodes: Nodes, ids: Seq<NodeId>, parent: Option<NodeId>, i: int)
    requires
        0 <= i < ids.len(),
        holds(nodes, ids[i]),
    ensures
        with_parent(with_parents(nodes, ids.take(i), parent), ids[i], parent) == with_parents(
            nodes,
            ids.take(i + 1),
            parent,
        ),
{
    let a = with_parent(with_parents(nodes, ids.take(i), parent), ids[i], parent);
    let b = with_parents(nodes, ids.take(i + 1), parent);
    assert(ids.take(i + 1)[i] == ids[i]);
    assert forall|k: u64| a.dom().contains(k) implies #[trigger] a[k] == b[k] by {
        if k == key_of(ids[i].0) {
            assert(key_of(ids.take(i + 1)[i].0) == k);
        } else if exists|x: int| 0 <= x < i && key_of((#[trigger] ids.take(i)[x]).0) == k {
            let x = choose|x: int| 0 <= x < i && key_of((#[trigger] ids.take(i)[x]).0) == k;
            assert(ids.take(i + 1)[x] == ids.take(i)[x]);
        } else {
            if exists|x: int| 0 <= x < i + 1 && key_of((#[trigger] ids.take(i + 1)[x]).0) == k {
                let x = choose|x: int|
                    0 <= x < i + 1 && key_of((#[trigger] ids.take(i + 1)[x]).0) == k;
                assert(x < i);
                assert(ids.take(i)[x] == ids.take(i + 1)[x]);
            }
        }
    }
    assert(a =~= b);
}

proof fn lemma_with_no_parents(nodes: Nodes, parent: Option<NodeId>)
    ensures
        with_parents(nodes, Seq::empty(), parent) == nodes,
{
    assert(with_parents(nodes, Seq::empty(), parent) =~= nodes);
}

/// Whether the boxes that stand for the nodes of `list` can be listed by
/// going at most `depth` levels down: every node of the list is in the
/// tree, and where one is `Contents`, its children can be listed by going
/// one level less.
pub open spec fn flattens_within(nodes: Nodes, list: Seq<NodeId>, depth: nat) -> bool
    decreases depth, list.len(),
{
    list.len() == 0 || {
        let last = list.last();
        &&& flattens_within(nodes, list.drop_last(), depth)
        &&& holds(nodes, last)
        &&& record(nodes, last).data.style.display == Display::Contents ==> depth > 0
            && flattens_within(nodes, record(nodes, last).children, (depth - 1) as nat)
    }
}

/// The nodes whose boxes stand for the nodes of `list`, in order: each node
/// itself, but for a `Contents` node the boxes of its children in its place.
pub open spec fn flattened(nodes: Nodes, list: Seq<NodeId>, depth: nat) -> Seq<NodeId>
    decreases depth, list.len(),
{
    if list.len() == 0 {
        Seq::empty()
    } else {
        let last = list.last();
        let before = flattened(nodes, list.drop_last(), depth);
        if record(nodes, last).data.style.display == Display::Contents {
            if depth == 0 {
                before
            } else {
                before + flattened(nodes, record(nodes, last).children, (depth - 1) as nat)
            }
        } else {
            before.push(last)
        }
    }
}

/// Whether the children of `node` can be resolved: `node` is in the tree,
/// and so is everything that stands below it through `Contents` nodes,
/// which do not run in a circle.
pub open spec fn resolvable(nodes: Nodes, node: NodeId) -> bool {
    holds(nodes, node) && exists|d: nat| flattens_within(nodes, record(nodes, node).children, d)
}

/// The children of `node` as the layout algorithms see them: its children
/// in order, with the resolved children of a `Contents` child in its place.
pub open spec fn resolved_children(nodes: Nodes, node: NodeId) -> Seq<NodeId> {
    flattened(
        nodes,
        record(nodes, node).children,
        choose|d: nat| flattens_within(nodes, record(nodes, node).children, d),
    )
}

/// The listing does not depend on how many levels it was allowed to go
/// down, as long as those were enough.
pub proof fn lemma_flattened_is_stable(nodes: Nodes, list: Seq<NodeId>, d1: nat, d2: nat)
    requires
        flattens_within(nodes, list, d1),
        flattens_within(nodes, list, d2),
    ensures
        flattened(nodes, list, d1) == flattened(nodes, list, d2),
    decreases d1, list.len(),
{
    if list.len() > 0 {
        let last = list.last();
        lemma_flattened_is_stable(nodes, list.drop_last(), d1, d2);
        if record(nodes, last).data.style.display == Display::Contents {
            lemma_flattened_is_stable(
                nodes,
                record(nodes, last).children,
                (d1 - 1) as nat,
                (d2 - 1) as nat,
            );
        }
    }
}

/// The resolved children are the listing at any depth that is enough.
pub proof fn lemma_resolved_children_at(nodes: Nodes, node: NodeId, depth: nat)
    requires
        flattens_within(nodes, record(nodes, node).children, depth),
    ensures
        resolved_children(nodes, node) == flattened(nodes, record(nodes, node).children, depth),
{
    let d = choose|d: nat| flattens_within(nodes, record(nodes, node).children, d);
    lemma_flattened_is_stable(nodes, record(nodes, node).children, d, depth);
}

/// A list that can be listed has prefixes that can be listed.
pub proof fn lemma_prefix_flattens(nodes: Nodes, list: Seq<NodeId>, depth: nat, i: int)
    requires
        flattens_within(nodes, list, depth),
        0 <= i <= list.len(),
    ensures
        flattens_within(nodes, list.take(i), depth),
    decreases list.len(),
{
    if i < list.len() {
        lemma_prefix_flattens(nodes, list.drop_last(), depth, i);
        assert(list.drop_last().take(i) =~= list.take(i));
    } else {
        assert(list.take(i) =~= list);
    }
}

/// Without `Contents` nodes among them, the resolved children of a node
/// are its children.
pub proof fn lemma_plain_children_resolve_to_themselves(nodes: Nodes, list: Seq<NodeId>, depth: nat)
    requires
        forall|i: int|
            0 <= i < list.len() ==> record(nodes, #[trigger] list[i]).data.style.display
                != Display::Contents,
    ensures
        flattened(nodes, list, depth) == list,
    decreases list.len(),
{
    if list.len() > 0 {
        assert forall|i: int| 0 <= i < list.drop_last().len() implies record(
            nodes,
            #[trigger] list.drop_last()[i],
        ).data.style.display != Display::Contents by {
            assert(list.drop_last()[i] == list[i]);
        }
        lemma_plain_children_resolve_to_themselves(nodes, list.drop_last(), depth);
        assert(list.last() == list[list.len() - 1]);
        assert(list.drop_last().push(list.last()) =~= list);
    } else {
        assert(list =~= Seq::empty());
    }
}

/// The context stored under `key`, to be changed in place, if there is one.
///
/// Calls `HashMap::get_mut`, which returns a mutable reference to the value
/// of the key if the map has the key, and touches no other entry.
#[verifier::external_body]
fn context_get_mut<C>(contexts: &mut HashMap<u64, C>, key: u64) -> (context: Option<&mut C>)
    ensures
        match context {
            Some(value) => old(contexts)@.contains_key(key) && *value == old(contexts)@[key]
                && final(contexts)@ == old(contexts)@.insert(key, *final(value)),
            None => !old(contexts)@.contains_key(key) && final(contexts)@ == old(contexts)@,
        },
{
    contexts.get_mut(&key)
}

/// The key that `node` stands for.
pub fn normalized(node: NodeId) -> (key: u64)
    ensures
        key == key_of(node.0),
{
    node.0 | 0x1_0000_0000u64
}

/// What is left of a list without a node is part of the list and does not
/// hold the node; the other nodes stay.
pub proof fn lemma_without_is_part(children: Seq<NodeId>, node: NodeId)
    ensures
        forall|c: NodeId| #[trigger] without(children, node).contains(c) <==> children.contains(c)
            && c != node,
        without(children, node).len() <= children.len(),
    decreases children.len(),
{
    if children.len() > 0 {
        let rest = children.drop_last();
        let last = children.last();
        let w = without(children, node);
        let r = without(rest, node);
        lemma_without_is_part(rest, node);
        assert forall|c: NodeId| #[trigger] w.contains(c) <==> children.contains(c) && c != node by {
            if children.contains(c) && c != node {
                let i = choose|i: int| 0 <= i < children.len() && children[i] == c;
                if i < children.len() - 1 {
                    assert(rest[i] == c);
                    assert(rest.contains(c));
                    assert(r.contains(c));
                    let j = choose|j: int| 0 <= j < r.len() && r[j] == c;
                    assert(w[j] == c);
                } else {
                    assert(last == c);
                    assert(w == r.push(last));
                    assert(w[w.len() - 1] == c);
                }
                assert(w.contains(c));
            }
            if w.contains(c) {
                let j = choose|j: int| 0 <= j < w.len() && w[j] == c;
                if j < r.len() {
                    assert(r[j] == c);
                    assert(r.contains(c));
                    assert(rest.contains(c) && c != node);
                    let i = choose|i: int| 0 <= i < rest.len() && rest[i] == c;
                    assert(children[i] == c);
                } else {
                    assert(last != node);
                    assert(w == r.push(last));
                    assert(c == last);
                    assert(children[children.len() - 1] == c);
                }
                assert(children.contains(c) && c != node);
            }
        }
    }
}

impl<NodeContext> View for Taffy<NodeContext> {
    type V = Nodes;

    closed spec fn view(&self) -> Nodes {
        Map::new(
            |k: u64| slot_contents(self.slots).dom().contains(k),
            |k: u64| slot_contents(self.slots)[k]@,
        )
    }
}

impl<NodeContext> Taffy<NodeContext> {
    /// Whether layouts are rounded after a run.
    pub closed spec fn rounds(&self) -> bool {
        self.config.use_rounding
    }

    /// What the nodes carry for their measure function, by their keys.
    pub closed spec fn contexts(&self) -> Map<u64, NodeContext> {
        self.node_context_data@
    }

    proof fn lemma_view_dom(&self)
        ensures
            self@.dom() == slot_contents(self.slots).dom(),
    {
        assert(self@.dom() =~= slot_contents(self.slots).dom());
    }

    /// An empty tree with room for 16 nodes, which rounds its layouts.
    pub fn new() -> (tree: Taffy<NodeContext>)
        ensures
            tree@.dom().finite(),
            tree@.dom().len() == 0,
            tree.contexts().dom().finite(),
            tree.contexts().dom().len() == 0,
            tree.rounds(),
    {
        Taffy::with_capacity(16)
    }

    /// An empty tree, which rounds its layouts, for any `capacity`. Room
    /// is made in advance for `capacity` nodes, or for as many as the
    /// arena is ever asked to make room for where `capacity` is more; the
    /// tree grows beyond that as nodes are added.
    pub fn with_capacity(capacity: usize) -> (tree: Taffy<NodeContext>)
        ensures
            tree@.dom().finite(),
            tree@.dom().len() == 0,
            tree.contexts().dom().finite(),
            tree.contexts().dom().len() == 0,
            tree.rounds(),
    {
        let room = if capacity > MAX_CAPACITY {
            MAX_CAPACITY
        } else {
            capacity
        };
        let tree = Taffy {
            slots: slots_with_capacity(room),
            node_context_data: HashMap::with_capacity(room),
            config: TaffyConfig { use_rounding: true },
        };
        assert(tree@.dom() =~= slot_contents(tree.slots).dom());
        tree
    }

    /// Has layouts rounded after a run.
    pub fn enable_rounding(&mut self)
        ensures
            final(self)@ == old(self)@,
            final(self).contexts() == old(self).contexts(),
            final(self).rounds(),
    {
        self.config.use_rounding = true;
    }

    /// Leaves layouts as computed.
    pub fn disable_rounding(&mut self)
        ensures
            final(self)@ == old(self)@,
            final(self).contexts() == old(self).contexts(),
            !final(self).rounds(),
    {
        self.config.use_rounding = false;
    }

    /// Whether layouts are rounded after a run.
    pub fn uses_rounding(&self) -> (rounds: bool)
        ensures
            rounds == self.rounds(),
    {
        self.config.use_rounding
    }

    /// Adds a node without children or parent and returns its key.
    pub fn new_leaf(&mut self, layout: Style) -> (result: Result<NodeId, TaffyError>)
        requires
            old(self)@.dom().len() < MAX_NODES,
        ensures
            result is Ok,
            ({
                let id = result->Ok_0;
                &&& key_of(id.0) == id.0
                &&& !holds(old(self)@, id)
                &&& final(self)@.dom() == old(self)@.dom().insert(id.0)
                &&& forall|k: u64| old(self)@.dom().contains(k) ==> final(self)@[k] == old(self)@[k]
                &&& record(final(self)@, id).data.is_new(layout, false)
                &&& record(final(self)@, id).children.len() == 0
                &&& record(final(self)@, id).parent is None
            }),
            final(self).rounds() == old(self).rounds(),
            final(self).contexts() == old(self).contexts(),
    {
        let slot = NodeSlot { data: NodeData::new(layout), children: Vec::new(), parent: None };
        proof {
            self.lemma_view_dom();
        }
        let id = slots_insert(&mut self.slots, slot);
        assert(self@.dom() =~= old(self)@.dom().insert(id));
        Ok(NodeId(id))
    }

    /// The number of nodes in the tree.
    pub fn total_node_count(&self) -> (n: usize)
        ensures
            n == self@.dom().len(),
    {
        assert(self@.dom() =~= slot_contents(self.slots).dom());
        slots_len(&self.slots)
    }

    /// Whether `node` is in the tree.
    pub fn contains(&self, node: NodeId) -> (found: bool)
        ensures
            found == holds(self@, node),
    {
        slots_get(&self.slots, node.0).is_some()
    }

    fn slot(&self, node: NodeId) -> (slot: &NodeSlot)
        requires
            holds(self@, node),
        ensures
            slot@ == record(self@, node),
    {
        match slots_get(&self.slots, node.0) {
            Some(slot) => slot,
            None => vstd::pervasive::unreached(),
        }
    }

    /// The number of children of `parent`.
    pub fn child_count(&self, parent: NodeId) -> (result: Result<usize, TaffyError>)
        requires
            holds(self@, parent),
        ensures
            result == Ok::<usize, TaffyError>(record(self@, parent).children.len() as usize),
    {
        Ok(self.slot(parent).children.len())
    }

    /// The child of `parent` at `child_index`.
    pub fn child_at_index(&self, parent: NodeId, child_index: usize) -> (result: Result<
        NodeId,
        TaffyError,
    >)
        requires
            holds(self@, parent),
        ensures
            result == (if child_index < record(self@, parent).children.len() {
                Ok::<NodeId, TaffyError>(record(self@, parent).children[child_index as int])
            } else {
                Err::<NodeId, TaffyError>(
                    TaffyError::ChildIndexOutOfBounds {
                        parent,
                        child_index,
                        child_count: record(self@, parent).children.len() as usize,
                    },
                )
            }),
    {
        let slot = self.slot(parent);
        let child_count = slot.children.len();
        if child_index >= child_count {
            return Err(TaffyError::ChildIndexOutOfBounds { parent, child_index, child_count });
        }
        Ok(slot.children[child_index])
    }

    /// The children of `parent`, in order.
    pub fn children(&self, parent: NodeId) -> (result: Result<Vec<NodeId>, TaffyError>)
        requires
            holds(self@, parent),
        ensures
            result is Ok,
            result->Ok_0@ == record(self@, parent).children,
    {
        let slot = self.slot(parent);
        let mut out: Vec<NodeId> = Vec::new();
        let mut i: usize = 0;
        while i < slot.children.len()
            invariant
                i <= slot.children.len(),
                out@ == slot.children@.subrange(0, i as int),
            decreases slot.children.len() - i,
        {
            out.push(slot.children[i]);
            assert(out@ =~= slot.children@.subrange(0, i + 1));
            i += 1;
        }
        assert(out@ =~= slot.children@);
        Ok(out)
    }

    /// The style of `node`.
    pub fn style(&self, node: NodeId) -> (result: Result<&Style, TaffyError>)
        requires
            holds(self@, node),
        ensures
            result is Ok,
            *result->Ok_0 == record(self@, node).data.style,
    {
        Ok(&self.slot(node).data.style)
    }

    /// The layout of `node` as the last run left it, rounded if the tree rounds.
    pub fn layout(&self, node: NodeId) -> (result: Result<&Layout, TaffyError>)
        requires
            holds(self@, node),
        ensures
            result is Ok,
            *result->Ok_0 == record(self@, node).data.final_layout,
    {
        Ok(&self.slot(node).data.final_layout)
    }

    /// The layout of `node` as the last run computed it.
    pub fn unrounded_layout(&self, node: NodeId) -> (layout: &Layout)
        requires
            holds(self@, node),
        ensures
            *layout == record(self@, node).data.unrounded_layout,
    {
        &self.slot(node).data.unrounded_layout
    }

    /// Whether `node` remembers nothing of earlier runs, so that the next
    /// run has to compute it anew.
    pub fn dirty(&self, node: NodeId) -> (result: Result<bool, TaffyError>)
        requires
            holds(self@, node),
        ensures
            result == Ok::<bool, TaffyError>(record(self@, node).data.cache.empty()),
    {
        Ok(self.slot(node).data.cache.is_empty())
    }

    fn slot_mut(&mut self, node: NodeId) -> (slot: &mut NodeSlot)
        requires
            holds(old(self)@, node),
        ensures
            slot@ == record(old(self)@, node),
            final(self)@ == with_record(old(self)@, node, final(slot)@),
            final(self).rounds() == old(self).rounds(),
            final(self).contexts() == old(self).contexts(),
    {
        proof {
            self.lemma_view_dom();
        }
        match slots_get_mut(&mut self.slots, node.0) {
            Some(slot) => slot,
            None => vstd::pervasive::unreached(),
        }
    }

    fn set_parent(&mut self, node: NodeId, parent: Option<NodeId>)
        requires
            holds(old(self)@, node),
        ensures
            final(self)@ == with_parent(old(self)@, node, parent),
            final(self).rounds() == old(self).rounds(),
            final(self).contexts() == old(self).contexts(),
    {
        let slot = self.slot_mut(node);
        slot.parent = parent;
    }

    /// Makes `node` and all its ancestors forget what they remember of
    /// earlier runs.
    pub fn mark_dirty(&mut self, node: NodeId) -> (result: Result<(), TaffyError>)
        requires
            chain_ends(old(self)@, node),
        ensures
            result is Ok,
            dirtied(old(self)@, final(self)@, node),
            final(self).rounds() == old(self).rounds(),
            final(self).contexts() == old(self).contexts(),
    {
        let ghost before = self@;
        let ghost n: nat = choose|n: nat| chain_ends_at(before, node, n);
        let ghost mut j: nat = 0;
        let mut cur = node;
        assert(nth_ancestor(before, node, 0) == Some(node));
        assert(n > 0);
        loop
            invariant_except_break
                j < n,
                nth_ancestor(before, node, j) == Some(cur),
                dirtied_below(before, self@, node, j),
            invariant
                chain_ends_at(before, node, n),
                self.rounds() == old(self).rounds(),
                self.contexts() == old(self).contexts(),
            ensures
                dirtied(before, self@, node),
            decreases n - j,
        {
            let ghost prev = self@;
            assert(holds(before, cur));
            let slot = self.slot_mut(cur);
            slot.data.mark_dirty();
            let parent = slot.parent;
            proof {
                lemma_dirtied_one_more(before, prev, self@, node, j, cur);
                j = j + 1;
                assert(nth_ancestor(before, node, j) == parent);
            }
            match parent {
                Some(p) => {
                    proof {
                        if j >= n {
                            lemma_nothing_above_the_end(before, node, n, j);
                        }
                    }
                    cur = p;
                },
                None => {
                    proof {
                        lemma_dirtied_to_the_end(before, self@, node, j);
                    }
                    break ;
                },
            }
        }
        Ok(())
    }

    /// Sets the style of `node`; the node and its ancestors forget what
    /// they remember.
    pub fn set_style(&mut self, node: NodeId, style: Style) -> (result: Result<(), TaffyError>)
        requires
            chain_ends(old(self)@, node),
        ensures
            result is Ok,
            dirtied(
                with_data(
                    old(self)@,
                    node,
                    NodeData { style, ..record(old(self)@, node).data },
                ),
                final(self)@,
                node,
            ),
            final(self).rounds() == old(self).rounds(),
            final(self).contexts() == old(self).contexts(),
    {
        proof {
            lemma_chain_start_holds(self@, node);
        }
        let ghost before = self@;
        let slot = self.slot_mut(node);
        slot.data.style = style;
        proof {
            assert(self@.dom() =~= before.dom());
            lemma_chain_survives(before, self@, node);
        }
        self.mark_dirty(node)
    }

    fn set_parents(&mut self, ids: &[NodeId], parent: Option<NodeId>)
        requires
            holds_all(old(self)@, ids@),
        ensures
            final(self)@ == with_parents(old(self)@, ids@, parent),
            final(self).rounds() == old(self).rounds(),
            final(self).contexts() == old(self).contexts(),
    {
        let ghost before = self@;
        proof {
            lemma_with_no_parents(before, parent);
            assert(ids@.take(0) =~= Seq::empty());
        }
        let mut i: usize = 0;
        while i < ids.len()
            invariant
                i <= ids.len(),
                holds_all(before, ids@),
                self@ == with_parents(before, ids@.take(i as int), parent),
                self.rounds() == old(self).rounds(),
                self.contexts() == old(self).contexts(),
            decreases ids.len() - i,
        {
            assert(holds(before, ids@[i as int]));
            self.set_parent(ids[i], parent);
            proof {
                lemma_with_parents_step(before, ids@, parent, i as int);
            }
            i += 1;
        }
        assert(ids@.take(ids@.len() as int) =~= ids@);
    }

    /// Adds a node with the given children and returns its key. The
    /// children get the new node for their parent.
    pub fn new_with_children(&mut self, layout: Style, children: &[NodeId]) -> (result: Result<
        NodeId,
        TaffyError,
    >)
        requires
            old(self)@.dom().len() < MAX_NODES,
            holds_all(old(self)@, children@),
        ensures
            result is Ok,
            ({
                let id = result->Ok_0;
                let linked = with_parents(old(self)@, children@, Some(id));
                &&& key_of(id.0) == id.0
                &&& !holds(old(self)@, id)
                &&& final(self)@.dom() == old(self)@.dom().insert(id.0)
                &&& forall|k: u64| old(self)@.dom().contains(k) ==> final(self)@[k] == linked[k]
                &&& record(final(self)@, id).data.is_new(layout, false)
                &&& record(final(self)@, id).children == children@
                &&& record(final(self)@, id).parent is None
            }),
            final(self).rounds() == old(self).rounds(),
            final(self).contexts() == old(self).contexts(),
    {
        let ghost before = self@;
        let mut list: Vec<NodeId> = Vec::new();
        let mut i: usize = 0;
        while i < children.len()
            invariant
                i <= children.len(),
                list@ == children@.take(i as int),
            decreases children.len() - i,
        {
            list.push(children[i]);
            assert(list@ =~= children@.take(i + 1));
            i += 1;
        }
        assert(list@ =~= children@);
        let slot = NodeSlot { data: NodeData::new(layout), children: list, parent: None };
        proof {
            self.lemma_view_dom();
        }
        let raw = slots_insert(&mut self.slots, slot);
        let id = NodeId(raw);
        let ghost inserted = self@;
        assert(inserted.dom() =~= before.dom().insert(raw));
        assert(holds_all(inserted, children@)) by {
            assert forall|x: int| 0 <= x < children@.len() implies holds(
                inserted,
                #[trigger] children@[x],
            ) by {
                assert(holds(before, children@[x]));
            }
        }
        self.set_parents(children, Some(id));
        proof {
            let linked = with_parents(before, children@, Some(id));
            assert forall|k: u64| before.dom().contains(k) implies self@[k] == linked[k] by {
                assert(inserted[k] == before[k]);
            }
            assert(!(exists|x: int|
                0 <= x < children@.len() && key_of((#[trigger] children@[x]).0) == raw)) by {
                if exists|x: int|
                    0 <= x < children@.len() && key_of((#[trigger] children@[x]).0) == raw {
                    let x = choose|x: int|
                        0 <= x < children@.len() && key_of((#[trigger] children@[x]).0) == raw;
                    assert(holds(before, children@[x]));
                }
            }
            assert(self@.dom() =~= before.dom().insert(raw));
        }
        Ok(id)
    }

    /// Makes `child` the last child of `parent`; `parent` and its ancestors
    /// forget what they remember.
    pub fn add_child(&mut self, parent: NodeId, child: NodeId) -> (result: Result<(), TaffyError>)
        requires
            holds(old(self)@, child),
            chain_ends(with_parent(old(self)@, child, Some(parent)), parent),
        ensures
            result is Ok,
            dirtied(child_added(old(self)@, parent, child), final(self)@, parent),
            final(self).rounds() == old(self).rounds(),
            final(self).contexts() == old(self).contexts(),
    {
        self.set_parent(child, Some(parent));
        let ghost linked = self@;
        proof {
            lemma_chain_start_holds(linked, parent);
        }
        let slot = self.slot_mut(parent);
        slot.children.push(child);
        proof {
            assert(self@.dom() =~= linked.dom());
            lemma_chain_survives(linked, self@, parent);
        }
        self.mark_dirty(parent)
    }

    /// Makes `child` the child of `parent` at `child_index`, before the
    /// children that stood at and after that index; `parent` and its
    /// ancestors forget what they remember. Fails, and changes nothing, if
    /// `parent` has fewer than `child_index` children.
    pub fn insert_child_at_index(&mut self, parent: NodeId, child_index: usize, child: NodeId) -> (result:
        Result<(), TaffyError>)
        requires
            holds(old(self)@, parent),
            holds(old(self)@, child),
            child_index <= record(old(self)@, parent).children.len() ==> chain_ends(
                with_parent(old(self)@, child, Some(parent)),
                parent,
            ),
        ensures
            final(self).rounds() == old(self).rounds(),
            final(self).contexts() == old(self).contexts(),
            child_index > record(old(self)@, parent).children.len() ==> final(self)@ == old(self)@
                && result == Err::<(), TaffyError>(
                TaffyError::ChildIndexOutOfBounds {
                    parent,
                    child_index,
                    child_count: record(old(self)@, parent).children.len() as usize,
                },
            ),
            child_index <= record(old(self)@, parent).children.len() ==> result is Ok && dirtied(
                child_inserted(old(self)@, parent, child_index as int, child),
                final(self)@,
                parent,
            ),
    {
        let child_count = self.slot(parent).children.len();
        if child_index > child_count {
            return Err(TaffyError::ChildIndexOutOfBounds { parent, child_index, child_count });
        }
        self.set_parent(child, Some(parent));
        let ghost linked = self@;
        proof {
            lemma_chain_start_holds(linked, parent);
        }
        let slot = self.slot_mut(parent);
        slot.children.insert(child_index, child);
        proof {
            assert(self@.dom() =~= linked.dom());
            lemma_chain_survives(linked, self@, parent);
        }
        self.mark_dirty(parent)
    }

    /// Replaces the children of `parent` by `children`; `parent` and its
    /// ancestors forget what they remember.
    pub fn set_children(&mut self, parent: NodeId, children: &[NodeId]) -> (result: Result<
        (),
        TaffyError,
    >)
        requires
            holds(old(self)@, parent),
            holds_all(old(self)@, record(old(self)@, parent).children),
            holds_all(old(self)@, children@),
            chain_ends(children_set(old(self)@, parent, children@), parent),
        ensures
            result is Ok,
            dirtied(children_set(old(self)@, parent, children@), final(self)@, parent),
            final(self).rounds() == old(self).rounds(),
            final(self).contexts() == old(self).contexts(),
    {
        let ghost before = self@;
        let former = match self.children(parent) {
            Ok(list) => list,
            Err(_) => vstd::pervasive::unreached(),
        };
        self.set_parents(former.as_slice(), None);
        let ghost detached = self@;
        assert(holds_all(detached, children@)) by {
            assert forall|x: int| 0 <= x < children@.len() implies holds(
                detached,
                #[trigger] children@[x],
            ) by {
                assert(holds(before, children@[x]));
            }
        }
        self.set_parents(children, Some(parent));
        let ghost attached = self@;
        let mut list: Vec<NodeId> = Vec::new();
        let mut i: usize = 0;
        while i < children.len()
            invariant
                i <= children.len(),
                list@ == children@.take(i as int),
            decreases children.len() - i,
        {
            list.push(children[i]);
            assert(list@ =~= children@.take(i + 1));
            i += 1;
        }
        assert(list@ =~= children@);
        assert(holds(attached, parent));
        let slot = self.slot_mut(parent);
        slot.children = list;
        assert(self@ == children_set(before, parent, children@));
        self.mark_dirty(parent)
    }

    /// Takes the child of `parent` at `child_index` out of the list of
    /// children and leaves it without a parent; `parent` and its ancestors
    /// forget what they remember. Fails, and changes nothing, if `parent`
    /// has no child at that index.
    pub fn remove_child_at_index(&mut self, parent: NodeId, child_index: usize) -> (result: Result<
        NodeId,
        TaffyError,
    >)
        requires
            holds(old(self)@, parent),
            child_index < record(old(self)@, parent).children.len() ==> holds(
                old(self)@,
                record(old(self)@, parent).children[child_index as int],
            ) && chain_ends(child_removed(old(self)@, parent, child_index as int), parent),
        ensures
            final(self).rounds() == old(self).rounds(),
            final(self).contexts() == old(self).contexts(),
            child_index >= record(old(self)@, parent).children.len() ==> final(self)@ == old(self)@
                && result == Err::<NodeId, TaffyError>(
                TaffyError::ChildIndexOutOfBounds {
                    parent,
                    child_index,
                    child_count: record(old(self)@, parent).children.len() as usize,
                },
            ),
            child_index < record(old(self)@, parent).children.len() ==> result == Ok::<
                NodeId,
                TaffyError,
            >(record(old(self)@, parent).children[child_index as int]) && dirtied(
                child_removed(old(self)@, parent, child_index as int),
                final(self)@,
                parent,
            ),
    {
        let ghost before = self@;
        let child_count = self.slot(parent).children.len();
        if child_index >= child_count {
            return Err(TaffyError::ChildIndexOutOfBounds { parent, child_index, child_count });
        }
        let slot = self.slot_mut(parent);
        let child = slot.children.remove(child_index);
        assert(self@.dom() =~= before.dom());
        self.set_parent(child, None);
        assert(self@ == child_removed(before, parent, child_index as int));
        match self.mark_dirty(parent) {
            Ok(_) => Ok(child),
            Err(e) => Err(e),
        }
    }

    /// Takes `child` out of the children of `parent`, at the first place
    /// where it stands, and leaves it without a parent; `parent` and its
    /// ancestors forget what they remember.
    pub fn remove_child(&mut self, parent: NodeId, child: NodeId) -> (result: Result<
        NodeId,
        TaffyError,
    >)
        requires
            holds(old(self)@, parent),
            holds(old(self)@, child),
            record(old(self)@, parent).children.contains(child),
            chain_ends(
                child_removed(
                    old(self)@,
                    parent,
                    first_index_of(record(old(self)@, parent).children, child),
                ),
                parent,
            ),
        ensures
            result == Ok::<NodeId, TaffyError>(child),
            dirtied(
                child_removed(
                    old(self)@,
                    parent,
                    first_index_of(record(old(self)@, parent).children, child),
                ),
                final(self)@,
                parent,
            ),
            final(self).rounds() == old(self).rounds(),
            final(self).contexts() == old(self).contexts(),
    {
        let slot = self.slot(parent);
        let ghost children = slot.children@;
        let mut index: usize = 0;
        while index < slot.children.len() && slot.children[index] != child
            invariant
                index <= slot.children.len(),
                children == slot.children@,
                children.contains(child),
                forall|j: int| 0 <= j < index ==> children[j] != child,
            decreases slot.children.len() - index,
        {
            index += 1;
        }
        proof {
            let w = choose|w: int| 0 <= w < children.len() && children[w] == child;
            assert(index <= w);
            let f = first_index_of(children, child);
            assert(0 <= index < children.len() && children[index as int] == child && forall|j: int|
                0 <= j < index ==> children[j] != child);
            assert(f == index) by {
                if f < index {
                    assert(children[f] != child);
                }
                if index < f {
                    assert(children[index as int] != child);
                }
            }
        }
        self.remove_child_at_index(parent, index)
    }

    /// Puts `new_child` in the place of the child of `parent` at
    /// `child_index` and leaves the former child without a parent; `parent`
    /// and its ancestors forget what they remember. Fails, and changes
    /// nothing, if `parent` has no child at that index.
    pub fn replace_child_at_index(
        &mut self,
        parent: NodeId,
        child_index: usize,
        new_child: NodeId,
    ) -> (result: Result<NodeId, TaffyError>)
        requires
            holds(old(self)@, parent),
            holds(old(self)@, new_child),
            child_index < record(old(self)@, parent).children.len() ==> holds(
                old(self)@,
                record(old(self)@, parent).children[child_index as int],
            ) && chain_ends(
                child_replaced(old(self)@, parent, child_index as int, new_child),
                parent,
            ),
        ensures
            final(self).rounds() == old(self).rounds(),
            final(self).contexts() == old(self).contexts(),
            child_index >= record(old(self)@, parent).children.len() ==> final(self)@ == old(self)@
                && result == Err::<NodeId, TaffyError>(
                TaffyError::ChildIndexOutOfBounds {
                    parent,
                    child_index,
                    child_count: record(old(self)@, parent).children.len() as usize,
                },
            ),
            child_index < record(old(self)@, parent).children.len() ==> result == Ok::<
                NodeId,
                TaffyError,
            >(record(old(self)@, parent).children[child_index as int]) && dirtied(
                child_replaced(old(self)@, parent, child_index as int, new_child),
                final(self)@,
                parent,
            ),
    {
        let ghost before = self@;
        let child_count = self.slot(parent).children.len();
        if child_index >= child_count {
            return Err(TaffyError::ChildIndexOutOfBounds { parent, child_index, child_count });
        }
        self.set_parent(new_child, Some(parent));
        let ghost linked = self@;
        assert(linked.dom() =~= before.dom());
        let slot = self.slot_mut(parent);
        let old_child = slot.children[child_index];
        slot.children[child_index] = new_child;
        assert(self@.dom() =~= before.dom());
        self.set_parent(old_child, None);
        assert(self@ == child_replaced(before, parent, child_index as int, new_child));
        match self.mark_dirty(parent) {
            Ok(_) => Ok(old_child),
            Err(e) => Err(e),
        }
    }

    /// Adds a node without children or parent that a measure function
    /// sizes, stores `context` for it, and returns its key.
    pub fn new_leaf_with_context(&mut self, layout: Style, context: NodeContext) -> (result: Result<
        NodeId,
        TaffyError,
    >)
        requires
            old(self)@.dom().len() < MAX_NODES,
        ensures
            result is Ok,
            ({
                let id = result->Ok_0;
                &&& key_of(id.0) == id.0
                &&& !holds(old(self)@, id)
                &&& final(self)@.dom() == old(self)@.dom().insert(id.0)
                &&& forall|k: u64| old(self)@.dom().contains(k) ==> final(self)@[k] == old(self)@[k]
                &&& record(final(self)@, id).data.is_new(layout, true)
                &&& record(final(self)@, id).children.len() == 0
                &&& record(final(self)@, id).parent is None
                &&& final(self).contexts() == old(self).contexts().insert(id.0, context)
            }),
            final(self).rounds() == old(self).rounds(),
    {
        let mut data = NodeData::new(layout);
        data.needs_measure = true;
        let slot = NodeSlot { data, children: Vec::new(), parent: None };
        proof {
            self.lemma_view_dom();
        }
        let id = slots_insert(&mut self.slots, slot);
        assert(self@.dom() =~= old(self)@.dom().insert(id));
        self.node_context_data.insert(id, context);
        Ok(NodeId(id))
    }

    /// Removes `node` from the tree: its parent no longer lists it, and its
    /// children are left without a parent.
    pub fn remove(&mut self, node: NodeId) -> (result: Result<NodeId, TaffyError>)
        requires
            holds(old(self)@, node),
            holds_all(old(self)@, record(old(self)@, node).children),
        ensures
            result == Ok::<NodeId, TaffyError>(node),
            final(self)@ == node_removed(old(self)@, node),
            final(self).rounds() == old(self).rounds(),
            final(self).contexts() == old(self).contexts(),
    {
        let ghost before = self@;
        let parent = self.slot(node).parent;
        match parent {
            Some(parent) => {
                if self.contains(parent) {
                    let slot = self.slot_mut(parent);
                    let mut kept: Vec<NodeId> = Vec::new();
                    let mut i: usize = 0;
                    while i < slot.children.len()
                        invariant
                            i <= slot.children.len(),
                            kept@ == without(slot.children@.take(i as int), node),
                        decreases slot.children.len() - i,
                    {
                        assert(slot.children@.take(i + 1).drop_last() =~= slot.children@.take(
                            i as int,
                        ));
                        if slot.children[i] != node {
                            kept.push(slot.children[i]);
                        }
                        i += 1;
                    }
                    assert(slot.children@.take(slot.children@.len() as int) =~= slot.children@);
                    slot.children = kept;
                }
            },
            None => {},
        }
        let ghost unlisted = self@;
        assert(unlisted.dom() =~= before.dom());
        proof {
            lemma_without_is_part(record(before, node).children, node);
            if parent is Some && holds(before, parent.unwrap()) {
                lemma_without_is_part(record(before, parent.unwrap()).children, node);
            }
        }
        let children = match self.children(node) {
            Ok(list) => list,
            Err(_) => vstd::pervasive::unreached(),
        };
        assert(holds_all(unlisted, children@)) by {
            assert forall|x: int| 0 <= x < children@.len() implies holds(
                unlisted,
                #[trigger] children@[x],
            ) by {
                let c = children@[x];
                assert(record(unlisted, node).children[x] == c);
                assert(record(unlisted, node).children.contains(c));
                assert(record(before, node).children.contains(c));
                let i = choose|i: int|
                    0 <= i < record(before, node).children.len() && record(
                        before,
                        node,
                    ).children[i] == c;
                assert(holds(before, record(before, node).children[i]));
            }
        }
        self.set_parents(children.as_slice(), None);
        proof {
            self.lemma_view_dom();
        }
        let _ = slots_remove(&mut self.slots, node.0);
        assert(self@ =~= node_removed(before, node));
        Ok(node)
    }

    /// Stores `measure` for `node` and has a measure function size the
    /// node, or, given nothing, drops what is stored and has the node sized
    /// without one; `node` and its ancestors forget what they remember.
    pub fn set_node_context(&mut self, node: NodeId, measure: Option<NodeContext>) -> (result:
        Result<(), TaffyError>)
        requires
            chain_ends(old(self)@, node),
        ensures
            result is Ok,
            dirtied(
                with_data(
                    old(self)@,
                    node,
                    NodeData { needs_measure: measure is Some, ..record(old(self)@, node).data },
                ),
                final(self)@,
                node,
            ),
            final(self).contexts() == (match measure {
                Some(context) => old(self).contexts().insert(key_of(node.0), context),
                None => old(self).contexts().remove(key_of(node.0)),
            }),
            final(self).rounds() == old(self).rounds(),
    {
        broadcast use vstd::std_specs::hash::group_hash_axioms;

        proof {
            lemma_chain_start_holds(self@, node);
        }
        let ghost before = self@;
        let key = normalized(node);
        let slot = self.slot_mut(node);
        match measure {
            Some(context) => {
                slot.data.needs_measure = true;
                self.node_context_data.insert(key, context);
            },
            None => {
                slot.data.needs_measure = false;
                self.node_context_data.remove(&key);
            },
        }
        let ghost contexts = self.contexts();
        proof {
            assert(self@.dom() =~= before.dom());
            lemma_chain_survives(before, self@, node);
        }
        self.mark_dirty(node)
    }

    /// What is stored for `node`, to be changed in place.
    pub fn get_node_context_mut(&mut self, node: NodeId) -> (context: Option<&mut NodeContext>)
        ensures
            final(self)@ == old(self)@,
            final(self).rounds() == old(self).rounds(),
            match context {
                Some(value) => {
                    &&& old(self).contexts().contains_key(key_of(node.0))
                    &&& *value == old(self).contexts()[key_of(node.0)]
                    &&& final(self).contexts() == old(self).contexts().insert(
                        key_of(node.0),
                        *final(value),
                    )
                },
                None => {
                    &&& !old(self).contexts().contains_key(key_of(node.0))
                    &&& final(self).contexts() == old(self).contexts()
                },
            },
    {
        let key = normalized(node);
        context_get_mut(&mut self.node_context_data, key)
    }

    /// Whether a measure function sizes `node`.
    pub fn needs_measure(&self, node: NodeId) -> (needed: bool)
        requires
            holds(self@, node),
        ensures
            needed == record(self@, node).data.needs_measure,
    {
        self.slot(node).data.needs_measure
    }

    /// The parent of `node`, if it has one.
    pub fn parent(&self, node: NodeId) -> (parent: Option<NodeId>)
        requires
            holds(self@, node),
        ensures
            parent == record(self@, node).parent,
    {
        self.slot(node).parent
    }

    /// What `node` remembers of earlier runs.
    pub fn cache(&self, node: NodeId) -> (cache: &Cache)
        requires
            holds(self@, node),
        ensures
            *cache == record(self@, node).data.cache,
    {
        &self.slot(node).data.cache
    }

    /// What the tree keeps for `node`, to be changed in place: the layout
    /// algorithms write layouts and cache entries here.
    pub fn node_data_mut(&mut self, node: NodeId) -> (data: &mut NodeData)
        requires
            holds(old(self)@, node),
        ensures
            *data == record(old(self)@, node).data,
            final(self)@ == with_data(old(self)@, node, *final(data)),
            final(self).rounds() == old(self).rounds(),
            final(self).contexts() == old(self).contexts(),
    {
        let slot = self.slot_mut(node);
        &mut slot.data
    }

    /// Whether the way up from `node` ends within as many steps as the
    /// tree has nodes, which it does in every tree that does not run in a
    /// circle: a test for what `mark_dirty` and the functions that change
    /// the tree ask of their callers.
    pub fn ancestors_are_sound(&self, node: NodeId) -> (sound: bool)
        ensures
            sound == (exists|n: nat| n <= self@.dom().len() + 1 && chain_ends_at(self@, node, n)),
            sound ==> chain_ends(self@, node),
    {
        let limit = self.total_node_count();
        let mut cur = node;
        let mut steps: usize = 0;
        loop
            invariant
                steps <= limit,
                limit == self@.dom().len(),
                nth_ancestor(self@, node, steps as nat) == Some(cur),
                forall|j: nat|
                    j < steps ==> (#[trigger] nth_ancestor(self@, node, j)) is Some && holds(
                        self@,
                        nth_ancestor(self@, node, j).unwrap(),
                    ),
            decreases limit - steps,
        {
            if !self.contains(cur) {
                proof {
                    assert forall|n: nat| n <= limit + 1 implies !chain_ends_at(self@, node, n) by {
                        if n <= steps {
                            if n < steps {
                                assert(nth_ancestor(self@, node, n) is Some);
                            }
                        } else {
                            let j = steps as nat;
                            assert(j < n && !holds(self@, nth_ancestor(self@, node, j).unwrap()));
                        }
                    }
                }
                return false;
            }
            match self.parent(cur) {
                None => {
                    proof {
                        let n = (steps + 1) as nat;
                        assert(nth_ancestor(self@, node, n) is None);
                        assert forall|j: nat| j < n implies (#[trigger] nth_ancestor(
                            self@,
                            node,
                            j,
                        )) is Some && holds(self@, nth_ancestor(self@, node, j).unwrap()) by {
                            if j == steps {
                            }
                        }
                        assert(chain_ends_at(self@, node, n));
                    }
                    return true;
                },
                Some(parent) => {
                    proof {
                        assert(nth_ancestor(self@, node, (steps + 1) as nat) == Some(parent));
                    }
                    if steps >= limit {
                        proof {
                            assert forall|n: nat| n <= limit + 1 implies !chain_ends_at(
                                self@,
                                node,
                                n,
                            ) by {
                                if n < steps {
                                    assert(nth_ancestor(self@, node, n) is Some);
                                }
                            }
                        }
                        return false;
                    }
                    steps += 1;
                    cur = parent;
                },
            }
        }
    }

    /// Whether `child` can be made a child of `parent` without the way
    /// up from `parent` running in a circle: a test for what the
    /// functions that link two nodes ask of their callers.
    pub fn linking_is_sound(&self, parent: NodeId, child: NodeId) -> (sound: bool)
        ensures
            sound == can_link(self@, parent, child),
            sound ==> chain_ends(with_parent(self@, child, Some(parent)), parent),
    {
        let limit = self.total_node_count();
        let key = normalized(child);
        let mut cur = parent;
        let mut steps: usize = 0;
        loop
            invariant
                steps <= limit,
                limit == self@.dom().len(),
                key == key_of(child.0),
                nth_ancestor(self@, parent, steps as nat) == Some(cur),
                forall|j: nat|
                    j < steps ==> (#[trigger] nth_ancestor(self@, parent, j)) is Some && holds(
                        self@,
                        nth_ancestor(self@, parent, j).unwrap(),
                    ),
                forall|j: nat|
                    j < steps ==> #[trigger] nth_ancestor_key(self@, parent, j) != Some(key),
            decreases limit - steps,
        {
            if !self.contains(cur) {
                proof {
                    assert forall|n: nat| n <= limit + 1 implies !chain_ends_at(self@, parent, n) by {
                        if n <= steps {
                            if n < steps {
                                assert(nth_ancestor(self@, parent, n) is Some);
                            }
                        } else {
                            let j = steps as nat;
                            assert(j < n && !holds(self@, nth_ancestor(self@, parent, j).unwrap()));
                        }
                    }
                }
                return false;
            }
            if normalized(cur) == key {
                proof {
                    assert forall|n: nat|
                        n <= limit + 1 && #[trigger] chain_ends_at(self@, parent, n) implies !(forall|
                        j: nat,
                    |
                        j < n ==> #[trigger] nth_ancestor_key(self@, parent, j) != Some(key)) by {
                        if n <= steps {
                            if n < steps {
                                assert(nth_ancestor(self@, parent, n) is Some);
                            }
                        } else {
                            let j = steps as nat;
                            assert(j < n && nth_ancestor_key(self@, parent, j) == Some(key));
                        }
                    }
                }
                return false;
            }
            match self.parent(cur) {
                None => {
                    proof {
                        let n = (steps + 1) as nat;
                        assert(nth_ancestor(self@, parent, n) is None);
                        assert forall|j: nat| j < n implies (#[trigger] nth_ancestor(
                            self@,
                            parent,
                            j,
                        )) is Some && holds(self@, nth_ancestor(self@, parent, j).unwrap()) by {
                            if j == steps {
                            }
                        }
                        assert(chain_ends_at(self@, parent, n));
                        assert forall|j: nat| j < n implies #[trigger] nth_ancestor_key(
                            self@,
                            parent,
                            j,
                        ) != Some(key) by {
                            if j == steps {
                            }
                        }
                        lemma_linking_keeps_the_way_up(self@, parent, child, n);
                    }
                    return true;
                },
                Some(above) => {
                    proof {
                        assert(nth_ancestor(self@, parent, (steps + 1) as nat) == Some(above));
                    }
                    if steps >= limit {
                        proof {
                            assert forall|n: nat| n <= limit + 1 implies !chain_ends_at(
                                self@,
                                parent,
                                n,
                            ) by {
                                if n < steps {
                                    assert(nth_ancestor(self@, parent, n) is Some);
                                }
                            }
                        }
                        return false;
                    }
                    steps += 1;
                    cur = above;
                },
            }
        }
    }

    /// Whether the way up from `node` ends without leading through one
    /// of the nodes of `avoided`: a test for what the functions that
    /// change which node is whose parent ask of their callers.
    pub fn way_up_is_clear(&self, node: NodeId, avoided: &Vec<NodeId>) -> (clear: bool)
        ensures
            clear == way_up_avoids(self@, node, avoided@),
    {
        let limit = self.total_node_count();
        let mut cur = node;
        let mut steps: usize = 0;
        loop
            invariant
                steps <= limit,
                limit == self@.dom().len(),
                nth_ancestor(self@, node, steps as nat) == Some(cur),
                forall|j: nat|
                    j < steps ==> (#[trigger] nth_ancestor(self@, node, j)) is Some && holds(
                        self@,
                        nth_ancestor(self@, node, j).unwrap(),
                    ),
                forall|j: nat|
                    j < steps ==> !key_among(
                        avoided@,
                        (#[trigger] nth_ancestor_key(self@, node, j)).unwrap(),
                    ),
            decreases limit - steps,
        {
            if !self.contains(cur) {
                proof {
                    assert forall|n: nat| n <= limit + 1 implies !chain_ends_at(self@, node, n) by {
                        if n <= steps {
                            if n < steps {
                                assert(nth_ancestor(self@, node, n) is Some);
                            }
                        } else {
                            let j = steps as nat;
                            assert(j < n && !holds(self@, nth_ancestor(self@, node, j).unwrap()));
                        }
                    }
                }
                return false;
            }
            if Self::is_among(avoided, normalized(cur)) {
                proof {
                    assert forall|n: nat|
                        n <= limit + 1 && #[trigger] chain_ends_at(self@, node, n) implies !(forall|
                        j: nat,
                    |
                        j < n ==> !key_among(
                            avoided@,
                            (#[trigger] nth_ancestor_key(self@, node, j)).unwrap(),
                        )) by {
                        if n <= steps {
                            if n < steps {
                                assert(nth_ancestor(self@, node, n) is Some);
                            }
                        } else {
                            let j = steps as nat;
                            assert(j < n && key_among(
                                avoided@,
                                nth_ancestor_key(self@, node, j).unwrap(),
                            ));
                        }
                    }
                }
                return false;
            }
            match self.parent(cur) {
                None => {
                    proof {
                        let n = (steps + 1) as nat;
                        assert(nth_ancestor(self@, node, n) is None);
                        assert forall|j: nat| j < n implies (#[trigger] nth_ancestor(
                            self@,
                            node,
                            j,
                        )) is Some && holds(self@, nth_ancestor(self@, node, j).unwrap()) by {
                            if j == steps {
                            }
                        }
                        assert(chain_ends_at(self@, node, n));
                        assert forall|j: nat| j < n implies !key_among(
                            avoided@,
                            (#[trigger] nth_ancestor_key(self@, node, j)).unwrap(),
                        ) by {
                            if j == steps {
                            }
                        }
                    }
                    return true;
                },
                Some(above) => {
                    proof {
                        assert(nth_ancestor(self@, node, (steps + 1) as nat) == Some(above));
                    }
                    if steps >= limit {
                        proof {
                            assert forall|n: nat| n <= limit + 1 implies !chain_ends_at(
                                self@,
                                node,
                                n,
                            ) by {
                                if n < steps {
                                    assert(nth_ancestor(self@, node, n) is Some);
                                }
                            }
                        }
                        return false;
                    }
                    steps += 1;
                    cur = above;
                },
            }
        }
    }

    fn is_among(list: &Vec<NodeId>, key: u64) -> (found: bool)
        ensures
            found == key_among(list@, key),
    {
        let mut i: usize = 0;
        while i < list.len()
            invariant
                i <= list@.len(),
                forall|k: int| 0 <= k < i ==> key_of((#[trigger] list@[k]).0) != key,
            decreases list@.len() - i,
        {
            if normalized(list[i]) == key {
                return true;
            }
            i += 1;
        }
        false
    }

    fn all_in_tree(&self, list: &Vec<NodeId>) -> (all: bool)
        ensures
            all == holds_all(self@, list@),
    {
        let mut i: usize = 0;
        while i < list.len()
            invariant
                i <= list@.len(),
                forall|k: int| 0 <= k < i ==> holds(self@, #[trigger] list@[k]),
            decreases list@.len() - i,
        {
            if !self.contains(list[i]) {
                return false;
            }
            i += 1;
        }
        true
    }

    /// Takes the child of `parent` at `child_index` out of the list where
    /// `parent` and that child are in the tree and the way up from
    /// `parent` does not lead through the child; else changes nothing
    /// and says so by returning nothing. Fails as `remove_child_at_index`
    /// does if `parent` has no child at that index.
    pub fn remove_child_at_index_if_sound(&mut self, parent: NodeId, child_index: usize) -> (result:
        Option<Result<NodeId, TaffyError>>)
        ensures
            final(self).rounds() == old(self).rounds(),
            final(self).contexts() == old(self).contexts(),
            result is None ==> final(self)@ == old(self)@,
            result is Some <==> holds(old(self)@, parent) && (child_index < record(
                old(self)@,
                parent,
            ).children.len() ==> holds(
                old(self)@,
                record(old(self)@, parent).children[child_index as int],
            ) && way_up_avoids(
                old(self)@,
                parent,
                seq![record(old(self)@, parent).children[child_index as int]],
            )),
            result is Some && child_index >= record(old(self)@, parent).children.len()
                ==> result.unwrap() is Err && final(self)@ == old(self)@,
            result is Some && child_index < record(old(self)@, parent).children.len()
                ==> result.unwrap() == Ok::<NodeId, TaffyError>(
                record(old(self)@, parent).children[child_index as int],
            ) && dirtied(
                child_removed(old(self)@, parent, child_index as int),
                final(self)@,
                parent,
            ),
    {
        if !self.contains(parent) {
            return None;
        }
        let children = match self.children(parent) {
            Ok(children) => children,
            Err(_) => vstd::pervasive::unreached(),
        };
        if child_index < children.len() {
            let child = children[child_index];
            let mut avoided: Vec<NodeId> = Vec::new();
            avoided.push(child);
            assert(avoided@ =~= seq![child]);
            if !self.contains(child) || !self.way_up_is_clear(parent, &avoided) {
                return None;
            }
            proof {
                let nodes = self@;
                let n = choose|n: nat|
                    n <= nodes.dom().len() + 1 && #[trigger] chain_ends_at(nodes, parent, n)
                        && forall|j: nat|
                        j < n ==> !key_among(
                            avoided@,
                            (#[trigger] nth_ancestor_key(nodes, parent, j)).unwrap(),
                        );
                let after = child_removed(nodes, parent, child_index as int);
                assert forall|k: nat| k < n implies holds(
                    after,
                    (#[trigger] nth_ancestor(nodes, parent, k)).unwrap(),
                ) && record(after, nth_ancestor(nodes, parent, k).unwrap()).parent == record(
                    nodes,
                    nth_ancestor(nodes, parent, k).unwrap(),
                ).parent by {
                    let x = nth_ancestor(nodes, parent, k).unwrap();
                    assert(holds(nodes, x));
                    assert(!key_among(avoided@, nth_ancestor_key(nodes, parent, k).unwrap()));
                    assert(avoided@[0] == child);
                    assert(key_of(x.0) != key_of(child.0));
                }
                lemma_way_up_is_kept(nodes, after, parent, n);
            }
        }
        Some(self.remove_child_at_index(parent, child_index))
    }

    /// Takes `child` out of the children of `parent`, at the first place
    /// where it stands, where both are in the tree, `child` is a child of
    /// `parent`, and the way up from `parent` does not lead through it;
    /// else changes nothing and says so by returning nothing.
    pub fn remove_child_if_sound(&mut self, parent: NodeId, child: NodeId) -> (result: Option<
        Result<NodeId, TaffyError>,
    >)
        ensures
            final(self).rounds() == old(self).rounds(),
            final(self).contexts() == old(self).contexts(),
            result is Some <==> holds(old(self)@, parent) && holds(old(self)@, child) && record(
                old(self)@,
                parent,
            ).children.contains(child) && way_up_avoids(old(self)@, parent, seq![child]),
            match result {
                Some(removed) => removed == Ok::<NodeId, TaffyError>(child) && dirtied(
                    child_removed(
                        old(self)@,
                        parent,
                        first_index_of(record(old(self)@, parent).children, child),
                    ),
                    final(self)@,
                    parent,
                ),
                None => final(self)@ == old(self)@,
            },
    {
        if !self.contains(parent) || !self.contains(child) {
            return None;
        }
        let children = match self.children(parent) {
            Ok(children) => children,
            Err(_) => vstd::pervasive::unreached(),
        };
        let mut index: usize = 0;
        while index < children.len() && children[index] != child
            invariant
                index <= children@.len(),
                forall|j: int| 0 <= j < index ==> children@[j] != child,
            decreases children@.len() - index,
        {
            index += 1;
        }
        if index >= children.len() {
            assert(!children@.contains(child));
            return None;
        }
        proof {
            assert(children@.contains(child));
            assert(first_index_of(children@, child) == index);
        }
        self.remove_child_at_index_if_sound(parent, index)
    }

    /// Puts `new_child` in the place of the child of `parent` at
    /// `child_index` where the three are in the tree and the way up from
    /// `parent` leads through neither child; else changes nothing and
    /// says so by returning nothing. Fails as `replace_child_at_index`
    /// does if `parent` has no child at that index.
    pub fn replace_child_at_index_if_sound(
        &mut self,
        parent: NodeId,
        child_index: usize,
        new_child: NodeId,
    ) -> (result: Option<Result<NodeId, TaffyError>>)
        ensures
            final(self).rounds() == old(self).rounds(),
            final(self).contexts() == old(self).contexts(),
            result is None ==> final(self)@ == old(self)@,
            result is Some <==> holds(old(self)@, parent) && holds(old(self)@, new_child) && (
            child_index < record(old(self)@, parent).children.len() ==> holds(
                old(self)@,
                record(old(self)@, parent).children[child_index as int],
            ) && way_up_avoids(
                old(self)@,
                parent,
                seq![record(old(self)@, parent).children[child_index as int], new_child],
            )),
            result is Some && child_index >= record(old(self)@, parent).children.len()
                ==> result.unwrap() is Err && final(self)@ == old(self)@,
            result is Some && child_index < record(old(self)@, parent).children.len()
                ==> result.unwrap() == Ok::<NodeId, TaffyError>(
                record(old(self)@, parent).children[child_index as int],
            ) && dirtied(
                child_replaced(old(self)@, parent, child_index as int, new_child),
                final(self)@,
                parent,
            ),
    {
        if !self.contains(parent) || !self.contains(new_child) {
            return None;
        }
        let children = match self.children(parent) {
            Ok(children) => children,
            Err(_) => vstd::pervasive::unreached(),
        };
        if child_index < children.len() {
            let child = children[child_index];
            let mut avoided: Vec<NodeId> = Vec::new();
            avoided.push(child);
            avoided.push(new_child);
            assert(avoided@ =~= seq![child, new_child]);
            if !self.contains(child) || !self.way_up_is_clear(parent, &avoided) {
                return None;
            }
            proof {
                let nodes = self@;
                let n = choose|n: nat|
                    n <= nodes.dom().len() + 1 && #[trigger] chain_ends_at(nodes, parent, n)
                        && forall|j: nat|
                        j < n ==> !key_among(
                            avoided@,
                            (#[trigger] nth_ancestor_key(nodes, parent, j)).unwrap(),
                        );
                let after = child_replaced(nodes, parent, child_index as int, new_child);
                assert forall|k: nat| k < n implies holds(
                    after,
                    (#[trigger] nth_ancestor(nodes, parent, k)).unwrap(),
                ) && record(after, nth_ancestor(nodes, parent, k).unwrap()).parent == record(
                    nodes,
                    nth_ancestor(nodes, parent, k).unwrap(),
                ).parent by {
                    let x = nth_ancestor(nodes, parent, k).unwrap();
                    assert(holds(nodes, x));
                    assert(!key_among(avoided@, nth_ancestor_key(nodes, parent, k).unwrap()));
                    assert(avoided@[0] == child);
                    assert(avoided@[1] == new_child);
                    assert(key_of(x.0) != key_of(child.0));
                    assert(key_of(x.0) != key_of(new_child.0));
                }
                lemma_way_up_is_kept(nodes, after, parent, n);
            }
        }
        Some(self.replace_child_at_index(parent, child_index, new_child))
    }

    /// Makes `children` the children of `parent` where `parent`, its
    /// former children and the new ones are in the tree and the way up
    /// from `parent` leads through none of them; else changes nothing and
    /// says so by returning nothing.
    pub fn set_children_if_sound(&mut self, parent: NodeId, children: &[NodeId]) -> (result: Option<
        Result<(), TaffyError>,
    >)
        ensures
            final(self).rounds() == old(self).rounds(),
            final(self).contexts() == old(self).contexts(),
            result is Some <==> holds(old(self)@, parent) && holds_all(
                old(self)@,
                record(old(self)@, parent).children,
            ) && holds_all(old(self)@, children@) && way_up_avoids(
                old(self)@,
                parent,
                record(old(self)@, parent).children + children@,
            ),
            match result {
                Some(set) => set is Ok && dirtied(
                    children_set(old(self)@, parent, children@),
                    final(self)@,
                    parent,
                ),
                None => final(self)@ == old(self)@,
            },
    {
        if !self.contains(parent) {
            return None;
        }
        let former = match self.children(parent) {
            Ok(former) => former,
            Err(_) => vstd::pervasive::unreached(),
        };
        let mut avoided: Vec<NodeId> = Vec::new();
        let mut i: usize = 0;
        while i < former.len()
            invariant
                i <= former@.len(),
                avoided@ == former@.take(i as int),
            decreases former@.len() - i,
        {
            avoided.push(former[i]);
            assert(former@.take(i + 1) =~= former@.take(i as int).push(former@[i as int]));
            i += 1;
        }
        assert(former@.take(former@.len() as int) =~= former@);
        let mut new: Vec<NodeId> = Vec::new();
        let mut i: usize = 0;
        while i < children.len()
            invariant
                i <= children@.len(),
                new@ == children@.take(i as int),
                avoided@ == former@ + children@.take(i as int),
            decreases children@.len() - i,
        {
            new.push(children[i]);
            avoided.push(children[i]);
            assert(children@.take(i + 1) =~= children@.take(i as int).push(children@[i as int]));
            assert(avoided@ =~= former@ + children@.take(i + 1));
            i += 1;
        }
        assert(children@.take(children@.len() as int) =~= children@);
        if !self.all_in_tree(&former) || !self.all_in_tree(&new) || !self.way_up_is_clear(
            parent,
            &avoided,
        ) {
            return None;
        }
        proof {
            let nodes = self@;
            let n = choose|n: nat|
                n <= nodes.dom().len() + 1 && #[trigger] chain_ends_at(nodes, parent, n) && forall|
                    j: nat,
                |
                    j < n ==> !key_among(
                        avoided@,
                        (#[trigger] nth_ancestor_key(nodes, parent, j)).unwrap(),
                    );
            let after = children_set(nodes, parent, children@);
            assert forall|k: nat| k < n implies holds(
                after,
                (#[trigger] nth_ancestor(nodes, parent, k)).unwrap(),
            ) && record(after, nth_ancestor(nodes, parent, k).unwrap()).parent == record(
                nodes,
                nth_ancestor(nodes, parent, k).unwrap(),
            ).parent by {
                let x = nth_ancestor(nodes, parent, k).unwrap();
                assert(holds(nodes, x));
                assert(!key_among(avoided@, nth_ancestor_key(nodes, parent, k).unwrap()));
                assert forall|i: int| 0 <= i < former@.len() implies key_of(
                    (#[trigger] former@[i]).0,
                ) != key_of(x.0) by {
                    assert(avoided@[i] == former@[i]);
                }
                assert forall|i: int| 0 <= i < children@.len() implies key_of(
                    (#[trigger] children@[i]).0,
                ) != key_of(x.0) by {
                    assert(avoided@[former@.len() + i] == children@[i]);
                }
            }
            lemma_way_up_is_kept(nodes, after, parent, n);
        }
        Some(self.set_children(parent, children))
    }

    /// Makes `child` the last child of `parent` where both are in the
    /// tree and the way up from `parent` does not lead through `child`;
    /// else changes nothing and says so by returning nothing.
    pub fn add_child_if_sound(&mut self, parent: NodeId, child: NodeId) -> (result: Option<
        Result<(), TaffyError>,
    >)
        ensures
            result is Some <==> holds(old(self)@, child) && can_link(old(self)@, parent, child),
            final(self).rounds() == old(self).rounds(),
            final(self).contexts() == old(self).contexts(),
            match result {
                Some(added) => added is Ok && dirtied(
                    child_added(old(self)@, parent, child),
                    final(self)@,
                    parent,
                ),
                None => final(self)@ == old(self)@,
            },
    {
        if self.contains(child) && self.linking_is_sound(parent, child) {
            Some(self.add_child(parent, child))
        } else {
            None
        }
    }

    /// Makes `child` the child of `parent` at `child_index` where both
    /// are in the tree and the way up from `parent` does not lead through
    /// `child`; else changes nothing and says so by returning nothing.
    /// Fails as `insert_child_at_index` does if `parent` has fewer than
    /// `child_index` children.
    pub fn insert_child_at_index_if_sound(
        &mut self,
        parent: NodeId,
        child_index: usize,
        child: NodeId,
    ) -> (result: Option<Result<(), TaffyError>>)
        ensures
            result is Some <==> holds(old(self)@, parent) && holds(old(self)@, child) && can_link(
                old(self)@,
                parent,
                child,
            ),
            final(self).rounds() == old(self).rounds(),
            final(self).contexts() == old(self).contexts(),
            result is None ==> final(self)@ == old(self)@,
            result is Some && child_index > record(old(self)@, parent).children.len()
                ==> result.unwrap() is Err && final(self)@ == old(self)@,
            result is Some && child_index <= record(old(self)@, parent).children.len()
                ==> result.unwrap() is Ok && dirtied(
                child_inserted(old(self)@, parent, child_index as int, child),
                final(self)@,
                parent,
            ),
    {
        if self.contains(parent) && self.contains(child) && self.linking_is_sound(parent, child) {
            Some(self.insert_child_at_index(parent, child_index, child))
        } else {
            None
        }
    }

    /// Removes every node.
    pub fn clear(&mut self)
        ensures
            final(self)@.dom().finite(),
            final(self)@.dom().len() == 0,
            final(self).rounds() == old(self).rounds(),
            final(self).contexts() == old(self).contexts(),
    {
        slots_clear(&mut self.slots);
        assert(self@.dom() =~= slot_contents(self.slots).dom());
    }
}

fn find_children_within<NodeContext>(
    tree: &Taffy<NodeContext>,
    node: NodeId,
    out: &mut Vec<NodeId>,
    Ghost(depth): Ghost<nat>,
)
    requires
        holds(tree@, node),
        flattens_within(tree@, record(tree@, node).children, depth),
    ensures
        final(out)@ == old(out)@ + flattened(tree@, record(tree@, node).children, depth),
    decreases depth,
{
    let slot = tree.slot(node);
    let ghost list = slot.children@;
    let mut i: usize = 0;
    assert(out@ =~= old(out)@ + flattened(tree@, list.take(0), depth));
    while i < slot.children.len()
        invariant
            i <= slot.children.len(),
            list == slot.children@,
            list == record(tree@, node).children,
            flattens_within(tree@, list, depth),
            out@ == old(out)@ + flattened(tree@, list.take(i as int), depth),
        decreases slot.children.len() - i,
    {
        let child = slot.children[i];
        proof {
            lemma_prefix_flattens(tree@, list, depth, i + 1);
            assert(list.take(i + 1).drop_last() =~= list.take(i as int));
            assert(list.take(i + 1).last() == child);
        }
        let ghost sofar = out@;
        match tree.slot(child).data.style.display {
            Display::Contents => {
                find_children_within(tree, child, out, Ghost((depth - 1) as nat));
                assert(out@ =~= old(out)@ + flattened(tree@, list.take(i + 1), depth));
            },
            _ => {
                out.push(child);
                assert(out@ =~= old(out)@ + flattened(tree@, list.take(i + 1), depth));
            },
        }
        i += 1;
    }
    assert(list.take(list.len() as int) =~= list);
}

/// Appends the resolved children of `node` to `out`: its children in
/// order, with the resolved children of a `Contents` child in its place.
pub fn find_children_recursive<NodeContext>(
    tree: &Taffy<NodeContext>,
    node: NodeId,
    out: &mut Vec<NodeId>,
)
    requires
        resolvable(tree@, node),
    ensures
        final(out)@ == old(out)@ + resolved_children(tree@, node),
{
    let ghost depth = choose|d: nat| flattens_within(tree@, record(tree@, node).children, d);
    find_children_within(tree, node, out, Ghost(depth));
}

/// The resolved children of the node that was asked for last, kept so that
/// asking again for the same node costs nothing.
pub struct ChildrenCache {
    /// The node whose children are kept.
    pub node_id: NodeId,
    /// Its resolved children.
    pub children: Vec<NodeId>,
}

impl ChildrenCache {
    /// A cache that holds no children, under a key that names no node.
    pub fn new() -> (cache: ChildrenCache)
        ensures
            cache.node_id == NodeId(0),
            cache.children@.len() == 0,
    {
        ChildrenCache { node_id: NodeId::new(0), children: Vec::new() }
    }

    /// Whether what is kept is what `nodes` gives for the node it is kept for.
    pub open spec fn agrees_with(self, nodes: Nodes) -> bool {
        self.children@ == resolved_children(nodes, self.node_id)
    }

    /// Makes the cache hold the resolved children of `node`: what it holds
    /// already if it holds them for `node`, else resolved anew.
    pub fn resolve_children<NodeContext>(&mut self, tree: &Taffy<NodeContext>, node: NodeId)
        requires
            old(self).node_id != node ==> resolvable(tree@, node),
        ensures
            final(self).node_id == node,
            final(self).children@ == (if old(self).node_id == node {
                old(self).children@
            } else {
                resolved_children(tree@, node)
            }),
            old(self).agrees_with(tree@) ==> final(self).agrees_with(tree@),
    {
        if self.node_id != node {
            self.node_id = node;
            self.children.clear();
            find_children_recursive(tree, node, &mut self.children);
            assert(self.children@ =~= resolved_children(tree@, node));
        }
    }

    /// The number of resolved children of `node`.
    pub fn child_count<NodeContext>(&mut self, tree: &Taffy<NodeContext>, node: NodeId) -> (n: usize)
        requires
            old(self).node_id != node ==> resolvable(tree@, node),
        ensures
            final(self).node_id == node,
            final(self).children@ == (if old(self).node_id == node {
                old(self).children@
            } else {
                resolved_children(tree@, node)
            }),
            n == final(self).children@.len(),
            old(self).agrees_with(tree@) ==> final(self).agrees_with(tree@) && n
                == resolved_children(tree@, node).len(),
    {
        self.resolve_children(tree, node);
        self.children.len()
    }

    /// The resolved child of `node` at `index`.
    pub fn get_child_id<NodeContext>(
        &mut self,
        tree: &Taffy<NodeContext>,
        node: NodeId,
        index: usize,
    ) -> (child: NodeId)
        requires
            old(self).node_id != node ==> resolvable(tree@, node),
            index < (if old(self).node_id == node {
                old(self).children@
            } else {
                resolved_children(tree@, node)
            }).len(),
        ensures
            final(self).node_id == node,
            final(self).children@ == (if old(self).node_id == node {
                old(self).children@
            } else {
                resolved_children(tree@, node)
            }),
            child == final(self).children@[index as int],
            old(self).agrees_with(tree@) ==> final(self).agrees_with(tree@) && child
                == resolved_children(tree@, node)[index as int],
    {
        self.resolve_children(tree, node);
        self.children[index]
    }
}

} // verus!
