//! Nodes in dense numbering: the store behind the handle-based tree.
//!
//! The nodes are numbered from 0 without gaps. Each has a list of children
//! and a list of parents, both of numbers; a node may stand in several
//! lists, and several times in one.

use crate::style::Style;
use crate::tree::Layout;
use vstd::prelude::*;

verus! {

/// What the forest keeps for a node.
pub struct ForestNode {
    /// What the node's style declares.
    pub style: Style,
    /// The layout that the last run computed.
    pub layout: Layout,
    /// Whether the layout is out of date.
    pub is_dirty: bool,
}

/// The nodes with their children and parents.
pub struct Forest {
    /// Style, layout and state, by number.
    pub nodes: Vec<ForestNode>,
    /// The children of each node, in order.
    pub children: Vec<Vec<usize>>,
    /// The parents of each node.
    pub parents: Vec<Vec<usize>>,
}

/// The lists of a forest as sequences of sequences.
pub open spec fn lists_of(lists: Vec<Vec<usize>>) -> Seq<Seq<usize>> {
    Seq::new(lists@.len(), |i: int| lists@[i]@)
}

/// Whether every number in every list is below `n`.
pub open spec fn lists_below(lists: Seq<Seq<usize>>, n: nat) -> bool {
    forall|i: int, j: int|
        0 <= i < lists.len() && 0 <= j < lists[i].len() ==> (#[trigger] lists[i][j]) < n
}

/// The nodes that can be reached from the nodes of `list` by going up at
/// most `height` times, the nodes of the list included.
pub open spec fn up_set_of_list(parents: Seq<Seq<usize>>, list: Seq<usize>, height: nat) -> Set<int>
    decreases height, list.len(), 0nat,
{
    if list.len() == 0 {
        Set::empty()
    } else {
        up_set_of_list(parents, list.drop_last(), height).union(
            up_set(parents, list.last() as int, height),
        )
    }
}

/// The nodes that can be reached from `node` by going up at most `height`
/// times, `node` included.
pub open spec fn up_set(parents: Seq<Seq<usize>>, node: int, height: nat) -> Set<int>
    decreases height, 0nat, 0nat,
{
    if height == 0 || !(0 <= node < parents.len()) {
        set![node]
    } else {
        up_set_of_list(parents, parents[node], (height - 1) as nat).insert(node)
    }
}

/// Whether going up from the nodes of `list` ends within `height` steps.
pub open spec fn rises_within_list(parents: Seq<Seq<usize>>, list: Seq<usize>, height: nat) -> bool
    decreases height, list.len(), 0nat,
{
    list.len() == 0 || (rises_within_list(parents, list.drop_last(), height) && rises_within(
        parents,
        list.last() as int,
        height,
    ))
}

/// Whether going up from `node` ends within `height` steps: every way up
/// reaches a node without parents.
pub open spec fn rises_within(parents: Seq<Seq<usize>>, node: int, height: nat) -> bool
    decreases height, 0nat, 0nat,
{
    &&& 0 <= node < parents.len()
    &&& parents[node].len() > 0 ==> height > 0 && rises_within_list(
        parents,
        parents[node],
        (height - 1) as nat,
    )
}

/// Whether going up from the nodes of `list` ends within `height` steps
/// without meeting a node of `avoided`.
pub open spec fn clear_within_list(
    parents: Seq<Seq<usize>>,
    list: Seq<usize>,
    height: nat,
    avoided: Seq<usize>,
) -> bool
    decreases height, list.len(), 0nat,
{
    list.len() == 0 || (clear_within_list(parents, list.drop_last(), height, avoided)
        && clear_within(parents, list.last() as int, height, avoided))
}

/// Whether going up from `node` ends within `height` steps without
/// meeting a node of `avoided`: `node` is none of them, and neither is
/// any node above it.
pub open spec fn clear_within(parents: Seq<Seq<usize>>, node: int, height: nat, avoided: Seq<usize>) -> bool
    decreases height, 0nat, 0nat,
{
    &&& 0 <= node < parents.len()
    &&& !avoided.contains(node as usize)
    &&& parents[node].len() > 0 ==> height > 0 && clear_within_list(
        parents,
        parents[node],
        (height - 1) as nat,
        avoided,
    )
}

/// Whether `changed` is `parents` but for the lists of the nodes of `avoided`.
pub open spec fn same_but_at(parents: Seq<Seq<usize>>, changed: Seq<Seq<usize>>, avoided: Seq<usize>) -> bool {
    &&& changed.len() == parents.len()
    &&& forall|i: int|
        0 <= i < parents.len() && !avoided.contains(i as usize) ==> #[trigger] changed[i]
            == parents[i]
}

proof fn lemma_clear_list_still_rises(
    parents: Seq<Seq<usize>>,
    changed: Seq<Seq<usize>>,
    list: Seq<usize>,
    height: nat,
    avoided: Seq<usize>,
)
    requires
        clear_within_list(parents, list, height, avoided),
        same_but_at(parents, changed, avoided),
    ensures
        rises_within_list(changed, list, height),
    decreases height, list.len(), 0nat,
{
    if list.len() > 0 {
        lemma_clear_list_still_rises(parents, changed, list.drop_last(), height, avoided);
        lemma_clear_still_rises(parents, changed, list.last() as int, height, avoided);
    }
}

/// Where going up from a node ends without meeting one of some nodes,
/// it ends the same whatever the parents of those nodes become.
pub proof fn lemma_clear_still_rises(
    parents: Seq<Seq<usize>>,
    changed: Seq<Seq<usize>>,
    node: int,
    height: nat,
    avoided: Seq<usize>,
)
    requires
        clear_within(parents, node, height, avoided),
        same_but_at(parents, changed, avoided),
    ensures
        rises_within(changed, node, height),
        rises(changed, node),
    decreases height, 0nat, 1nat,
{
    assert(changed[node] == parents[node]);
    if parents[node].len() > 0 {
        lemma_clear_list_still_rises(
            parents,
            changed,
            parents[node],
            (height - 1) as nat,
            avoided,
        );
    }
    assert(rises_within(changed, node, height));
}

proof fn lemma_prefix_clear(
    parents: Seq<Seq<usize>>,
    list: Seq<usize>,
    height: nat,
    avoided: Seq<usize>,
    i: int,
)
    requires
        clear_within_list(parents, list, height, avoided),
        0 <= i <= list.len(),
    ensures
        clear_within_list(parents, list.take(i), height, avoided),
    decreases list.len(),
{
    if i < list.len() {
        lemma_prefix_clear(parents, list.drop_last(), height, avoided, i);
        assert(list.drop_last().take(i) =~= list.take(i));
    } else {
        assert(list.take(i) =~= list);
    }
}

/// Adding a parent to the nodes of a list changes the parents of those
/// nodes only.
pub proof fn lemma_parent_added_elsewhere(folks: Seq<Seq<usize>>, children: Seq<usize>, id: usize)
    requires
        forall|i: int| 0 <= i < children.len() ==> (#[trigger] children[i]) < folks.len(),
    ensures
        same_but_at(folks, with_parent_added(folks, children, id), children),
    decreases children.len(),
{
    if children.len() > 0 {
        let shorter = children.drop_last();
        lemma_parent_added_elsewhere(folks, shorter, id);
        let before = with_parent_added(folks, shorter, id);
        assert forall|i: int|
            0 <= i < folks.len() && !children.contains(i as usize) implies #[trigger] with_parent_added(
            folks,
            children,
            id,
        )[i] == folks[i] by {
            assert(children.last() != i as usize);
            if shorter.contains(i as usize) {
                let k = choose|k: int| 0 <= k < shorter.len() && shorter[k] == i as usize;
                assert(children[k] == i as usize);
            }
        }
    }
}

/// Taking a parent from the nodes of a list changes the parents of those
/// nodes only.
pub proof fn lemma_parent_dropped_elsewhere(folks: Seq<Seq<usize>>, children: Seq<usize>, node: usize)
    requires
        forall|i: int| 0 <= i < children.len() ==> (#[trigger] children[i]) < folks.len(),
    ensures
        same_but_at(folks, with_parent_dropped(folks, children, node), children),
    decreases children.len(),
{
    if children.len() > 0 {
        let shorter = children.drop_last();
        lemma_parent_dropped_elsewhere(folks, shorter, node);
        assert forall|i: int|
            0 <= i < folks.len() && !children.contains(i as usize) implies #[trigger] with_parent_dropped(
            folks,
            children,
            node,
        )[i] == folks[i] by {
            assert(children.last() != i as usize);
            if shorter.contains(i as usize) {
                let k = choose|k: int| 0 <= k < shorter.len() && shorter[k] == i as usize;
                assert(children[k] == i as usize);
            }
        }
    }
}

/// Whether going up from `node` ends: no way up runs in a circle.
pub open spec fn rises(parents: Seq<Seq<usize>>, node: int) -> bool {
    exists|height: nat| rises_within(parents, node, height)
}

/// The nodes above `node`, and `node` itself.
pub open spec fn above(parents: Seq<Seq<usize>>, node: int) -> Set<int> {
    up_set(parents, node, choose|height: nat| rises_within(parents, node, height))
}

/// `list` without every occurrence of `node` and with `last` renamed to
/// `node`: what a list of numbers becomes when node `node` leaves the
/// forest and node `last` takes its number.
pub open spec fn renumbered(list: Seq<usize>, node: usize, last: usize) -> Seq<usize>
    decreases list.len(),
{
    if list.len() == 0 {
        Seq::empty()
    } else if list.last() == node {
        renumbered(list.drop_last(), node, last)
    } else if list.last() == last {
        renumbered(list.drop_last(), node, last).push(node)
    } else {
        renumbered(list.drop_last(), node, last).push(list.last())
    }
}

/// `list` without every occurrence of `node`, the rest in order.
pub open spec fn without(list: Seq<usize>, node: usize) -> Seq<usize>
    decreases list.len(),
{
    if list.len() == 0 {
        Seq::empty()
    } else if list.last() == node {
        without(list.drop_last(), node)
    } else {
        without(list.drop_last(), node).push(list.last())
    }
}

/// `folks` after `id` was added to the parents of every node of
/// `children`, once for each time that the node stands in the list.
pub open spec fn with_parent_added(folks: Seq<Seq<usize>>, children: Seq<usize>, id: usize) -> Seq<
    Seq<usize>,
>
    decreases children.len(),
{
    if children.len() == 0 {
        folks
    } else {
        let before = with_parent_added(folks, children.drop_last(), id);
        let child = children.last() as int;
        before.update(child, before[child].push(id))
    }
}

/// `folks` after `node` was taken out of the parents of every node of `children`.
pub open spec fn with_parent_dropped(folks: Seq<Seq<usize>>, children: Seq<usize>, node: usize) -> Seq<
    Seq<usize>,
>
    decreases children.len(),
{
    if children.len() == 0 {
        folks
    } else {
        let before = with_parent_dropped(folks, children.drop_last(), node);
        let child = children.last() as int;
        before.update(child, without(before[child], node))
    }
}

/// `folks` after `node` joined the parents of `child` and then left those
/// of `former`.
pub open spec fn with_parent_swapped(
    folks: Seq<Seq<usize>>,
    child: usize,
    former: usize,
    node: usize,
) -> Seq<Seq<usize>> {
    let joined = folks.update(child as int, folks[child as int].push(node));
    joined.update(former as int, without(joined[former as int], node))
}

/// Whether `after` holds the styles and layouts of `before`, and is out of
/// date where `before` is or where `set` says so.
pub open spec fn dirtied_in(before: Seq<ForestNode>, after: Seq<ForestNode>, set: Set<int>) -> bool {
    &&& after.len() == before.len()
    &&& forall|i: int|
        0 <= i < before.len() ==> {
            &&& (#[trigger] after[i]).style == before[i].style
            &&& after[i].layout == before[i].layout
            &&& after[i].is_dirty == (before[i].is_dirty || set.contains(i))
        }
}

/// Whether `after` holds what `before` holds, node by node.
pub open spec fn same_states(before: Seq<ForestNode>, after: Seq<ForestNode>) -> bool {
    dirtied_in(before, after, Set::empty())
}

/// What is left of a list without a node, or renumbered, is below the
/// bound that the list is below.
pub proof fn lemma_renumbered_below(list: Seq<usize>, node: usize, last: usize, n: nat)
    requires
        forall|j: int| 0 <= j < list.len() ==> (#[trigger] list[j]) < n,
        node < n,
        last == n - 1,
    ensures
        forall|j: int|
            0 <= j < renumbered(list, node, last).len() ==> (#[trigger] renumbered(
                list,
                node,
                last,
            )[j]) < last,
    decreases list.len(),
{
    if list.len() > 0 {
        let rest = list.drop_last();
        let x = list.last();
        assert forall|j: int| 0 <= j < rest.len() implies (#[trigger] rest[j]) < n by {
            assert(rest[j] == list[j]);
        }
        lemma_renumbered_below(rest, node, last, n);
        assert(x == list[list.len() - 1]);
        assert(x < n);
        let r = renumbered(list, node, last);
        let rr = renumbered(rest, node, last);
        assert forall|j: int| 0 <= j < r.len() implies (#[trigger] r[j]) < last by {
            if j < rr.len() {
                assert(r[j] == rr[j]);
            }
        }
    }
}

/// What is left of a list without a node is below the bound that the list
/// is below, and does not hold the node.
pub proof fn lemma_without_below(list: Seq<usize>, node: usize, n: nat)
    requires
        forall|j: int| 0 <= j < list.len() ==> (#[trigger] list[j]) < n,
    ensures
        forall|j: int|
            0 <= j < without(list, node).len() ==> (#[trigger] without(list, node)[j]) < n,
        forall|j: int|
            0 <= j < without(list, node).len() ==> (#[trigger] without(list, node)[j]) != node,
    decreases list.len(),
{
    if list.len() > 0 {
        let rest = list.drop_last();
        let x = list.last();
        assert forall|j: int| 0 <= j < rest.len() implies (#[trigger] rest[j]) < n by {
            assert(rest[j] == list[j]);
        }
        lemma_without_below(rest, node, n);
        assert(x == list[list.len() - 1]);
        let w = without(list, node);
        let wr = without(rest, node);
        assert forall|j: int| 0 <= j < w.len() implies (#[trigger] w[j]) < n && w[j] != node by {
            if j < wr.len() {
                assert(w[j] == wr[j]);
            }
        }
    }
}

/// Lists that hold numbers below a bound still do after one of them got a
/// number below the bound appended.
pub proof fn lemma_push_keeps_below(lists: Seq<Seq<usize>>, at: int, value: usize, n: nat)
    requires
        lists_below(lists, n),
        0 <= at < lists.len(),
        value < n,
    ensures
        lists_below(lists.update(at, lists[at].push(value)), n),
{
    let after = lists.update(at, lists[at].push(value));
    assert forall|a: int, b: int| 0 <= a < after.len() && 0 <= b < after[a].len() implies (
    #[trigger] after[a][b]) < n by {
        if a == at && b == lists[a].len() {
        } else {
            assert(after[a][b] == lists[a][b]);
        }
    }
}

/// Lists that hold numbers below a bound still do after a number was
/// taken out of one of them.
pub proof fn lemma_drop_keeps_below(lists: Seq<Seq<usize>>, at: int, node: usize, n: nat)
    requires
        lists_below(lists, n),
        0 <= at < lists.len(),
    ensures
        lists_below(lists.update(at, without(lists[at], node)), n),
{
    let after = lists.update(at, without(lists[at], node));
    assert forall|j: int| 0 <= j < lists[at].len() implies (#[trigger] lists[at][j]) < n by {}
    lemma_without_below(lists[at], node, n);
    assert forall|a: int, b: int| 0 <= a < after.len() && 0 <= b < after[a].len() implies (
    #[trigger] after[a][b]) < n by {
        if a == at {
            assert(after[a][b] == without(lists[at], node)[b]);
        } else {
            assert(after[a][b] == lists[a][b]);
        }
    }
}

impl Forest {
    /// The number of nodes.
    pub open spec fn count(&self) -> nat {
        self.nodes@.len()
    }

    /// The children of every node.
    pub open spec fn kids(&self) -> Seq<Seq<usize>> {
        lists_of(self.children)
    }

    /// The parents of every node.
    pub open spec fn folks(&self) -> Seq<Seq<usize>> {
        lists_of(self.parents)
    }

    /// Whether the three vectors have one length and hold no number that
    /// names no node.
    pub open spec fn wf(&self) -> bool {
        &&& self.children@.len() == self.nodes@.len()
        &&& self.parents@.len() == self.nodes@.len()
        &&& lists_below(self.kids(), self.count())
        &&& lists_below(self.folks(), self.count())
    }

    /// An empty forest with room for `capacity` nodes.
    pub fn with_capacity(capacity: usize) -> (forest: Forest)
        ensures
            forest.count() == 0,
            forest.wf(),
    {
        Forest {
            nodes: Vec::with_capacity(capacity),
            children: Vec::with_capacity(capacity),
            parents: Vec::with_capacity(capacity),
        }
    }

    /// Removes every node.
    pub fn clear(&mut self)
        ensures
            final(self).count() == 0,
            final(self).wf(),
    {
        self.nodes.clear();
        self.children.clear();
        self.parents.clear();
    }

    /// Adds a node with the given children, which get it for a parent, and
    /// returns its number. The node is out of date.
    pub fn new_node(&mut self, style: Style, children: Vec<usize>) -> (id: usize)
        requires
            old(self).wf(),
            forall|j: int| 0 <= j < children@.len() ==> (#[trigger] children@[j]) < old(self).count(),
        ensures
            final(self).wf(),
            id == old(self).count(),
            final(self).count() == old(self).count() + 1,
            final(self).nodes@[id as int].style == style,
            final(self).nodes@[id as int].layout == Layout::zeroed(0),
            final(self).nodes@[id as int].is_dirty,
            same_states(old(self).nodes@, final(self).nodes@.drop_last()),
            final(self).kids() == old(self).kids().push(children@),
            final(self).folks() == with_parent_added(old(self).folks(), children@, id).push(
                Seq::empty(),
            ),
    {
        let id = self.nodes.len();
        let ghost folks = self.folks();
        let ghost kids = self.kids();
        let mut i: usize = 0;
        proof {
            assert(children@.take(0) =~= Seq::empty());
        }
        while i < children.len()
            invariant
                i <= children.len(),
                id == self.count(),
                self.nodes == old(self).nodes,
                self.children == old(self).children,
                self.parents@.len() == self.nodes@.len(),
                self.children@.len() == self.nodes@.len(),
                forall|j: int| 0 <= j < children@.len() ==> (#[trigger] children@[j]) < id,
                self.folks() == with_parent_added(folks, children@.take(i as int), id),
                lists_below(self.folks(), (id + 1) as nat),
                folks == old(self).folks(),
            decreases children.len() - i,
        {
            let child = children[i];
            let ghost prev = self.folks();
            self.parents[child].push(id);
            proof {
                assert(children@.take(i + 1).drop_last() =~= children@.take(i as int));
                assert(children@.take(i + 1).last() == child);
                assert(self.folks() =~= prev.update(child as int, prev[child as int].push(id)));
                assert(lists_below(self.folks(), (id + 1) as nat)) by {
                    assert forall|a: int, b: int|
                        0 <= a < self.folks().len() && 0 <= b < self.folks()[a].len() implies (
                    #[trigger] self.folks()[a][b]) < id + 1 by {
                        if a == child && b == prev[a].len() {
                        } else {
                            assert(self.folks()[a][b] == prev[a][b]);
                        }
                    }
                }
            }
            i += 1;
        }
        proof {
            assert(children@.take(children@.len() as int) =~= children@);
        }
        let ghost linked = self.folks();
        self.nodes.push(ForestNode { style, layout: Layout::new(), is_dirty: true });
        self.children.push(children);
        self.parents.push(Vec::with_capacity(1));
        proof {
            assert(self.kids() =~= kids.push(children@));
            assert(self.folks() =~= linked.push(Seq::empty()));
            assert(lists_below(self.kids(), self.count())) by {
                assert forall|a: int, b: int|
                    0 <= a < self.kids().len() && 0 <= b < self.kids()[a].len() implies (
                #[trigger] self.kids()[a][b]) < self.count() by {
                    if a < id {
                        assert(self.kids()[a][b] == kids[a][b]);
                    } else {
                        assert(self.kids()[a][b] == children@[b]);
                    }
                }
            }
            assert(lists_below(self.folks(), self.count())) by {
                assert forall|a: int, b: int|
                    0 <= a < self.folks().len() && 0 <= b < self.folks()[a].len() implies (
                #[trigger] self.folks()[a][b]) < self.count() by {
                    if a < id {
                        assert(self.folks()[a][b] == linked[a][b]);
                    }
                }
            }
            assert(self.nodes@.drop_last() =~= old(self).nodes@);
        }
        id
    }

    /// Makes `child` the last child of `node`, and `node` a parent of
    /// `child`; `node` and the nodes above it are out of date.
    pub fn add_child(&mut self, node: usize, child: usize)
        requires
            old(self).wf(),
            node < old(self).count(),
            child < old(self).count(),
            rises(
                old(self).folks().update(child as int, old(self).folks()[child as int].push(node)),
                node as int,
            ),
        ensures
            final(self).wf(),
            final(self).count() == old(self).count(),
            final(self).folks() == old(self).folks().update(
                child as int,
                old(self).folks()[child as int].push(node),
            ),
            final(self).kids() == old(self).kids().update(
                node as int,
                old(self).kids()[node as int].push(child),
            ),
            dirtied_in(old(self).nodes@, final(self).nodes@, final(self).above(node as int)),
    {
        let ghost folks = self.folks();
        let ghost kids = self.kids();
        self.parents[child].push(node);
        self.children[node].push(child);
        proof {
            assert(self.folks() =~= folks.update(child as int, folks[child as int].push(node)));
            assert(self.kids() =~= kids.update(node as int, kids[node as int].push(child)));
            assert(lists_below(self.kids(), self.count())) by {
                assert forall|a: int, b: int|
                    0 <= a < self.kids().len() && 0 <= b < self.kids()[a].len() implies (
                #[trigger] self.kids()[a][b]) < self.count() by {
                    if a == node && b == kids[a].len() {
                    } else {
                        assert(self.kids()[a][b] == kids[a][b]);
                    }
                }
            }
            assert(lists_below(self.folks(), self.count())) by {
                assert forall|a: int, b: int|
                    0 <= a < self.folks().len() && 0 <= b < self.folks()[a].len() implies (
                #[trigger] self.folks()[a][b]) < self.count() by {
                    if a == child && b == folks[a].len() {
                    } else {
                        assert(self.folks()[a][b] == folks[a][b]);
                    }
                }
            }
        }
        self.mark_dirty(node);
    }

    /// Takes every occurrence of `node` out of `list`.
    fn drop_from(list: &mut Vec<usize>, node: usize)
        ensures
            final(list)@ == without(old(list)@, node),
    {
        let mut kept: Vec<usize> = Vec::new();
        let mut i: usize = 0;
        while i < list.len()
            invariant
                i <= list.len(),
                list@ == old(list)@,
                kept@ == without(list@.take(i as int), node),
            decreases list.len() - i,
        {
            assert(list@.take(i + 1).drop_last() =~= list@.take(i as int));
            if list[i] != node {
                kept.push(list[i]);
            }
            i += 1;
        }
        assert(list@.take(list@.len() as int) =~= list@);
        *list = kept;
    }

    /// Takes every occurrence of `node` out of `list` and renames `last` to `node`.
    fn renumber(list: &mut Vec<usize>, node: usize, last: usize)
        ensures
            final(list)@ == renumbered(old(list)@, node, last),
    {
        let mut kept: Vec<usize> = Vec::new();
        let mut i: usize = 0;
        while i < list.len()
            invariant
                i <= list.len(),
                list@ == old(list)@,
                kept@ == renumbered(list@.take(i as int), node, last),
            decreases list.len() - i,
        {
            assert(list@.take(i + 1).drop_last() =~= list@.take(i as int));
            if list[i] == node {
            } else if list[i] == last {
                kept.push(node);
            } else {
                kept.push(list[i]);
            }
            i += 1;
        }
        assert(list@.take(list@.len() as int) =~= list@);
        *list = kept;
    }

    /// Takes the child of `node` at `index` out of its children, and `node`
    /// out of the parents of that child; `node` and the nodes above it are
    /// out of date. Returns the child.
    pub fn remove_child_at_index(&mut self, node: usize, index: usize) -> (child: usize)
        requires
            old(self).wf(),
            node < old(self).count(),
            index < old(self).kids()[node as int].len(),
            rises(
                old(self).folks().update(
                    old(self).kids()[node as int][index as int] as int,
                    without(
                        old(self).folks()[old(self).kids()[node as int][index as int] as int],
                        node,
                    ),
                ),
                node as int,
            ),
        ensures
            final(self).wf(),
            final(self).count() == old(self).count(),
            child == old(self).kids()[node as int][index as int],
            final(self).kids() == old(self).kids().update(
                node as int,
                old(self).kids()[node as int].remove(index as int),
            ),
            final(self).folks() == old(self).folks().update(
                child as int,
                without(old(self).folks()[child as int], node),
            ),
            dirtied_in(old(self).nodes@, final(self).nodes@, final(self).above(node as int)),
    {
        let ghost folks = self.folks();
        let ghost kids = self.kids();
        let child = self.children[node].remove(index);
        assert(child == kids[node as int][index as int]);
        assert(child < self.count());
        Forest::drop_from(&mut self.parents[child], node);
        proof {
            assert(self.folks() =~= folks.update(child as int, without(folks[child as int], node)));
            assert(self.kids() =~= kids.update(node as int, kids[node as int].remove(index as int)));
            assert(lists_below(self.kids(), self.count())) by {
                assert forall|a: int, b: int|
                    0 <= a < self.kids().len() && 0 <= b < self.kids()[a].len() implies (
                #[trigger] self.kids()[a][b]) < self.count() by {
                    if a == node {
                        if b < index {
                            assert(self.kids()[a][b] == kids[a][b]);
                        } else {
                            assert(self.kids()[a][b] == kids[a][b + 1]);
                        }
                    } else {
                        assert(self.kids()[a][b] == kids[a][b]);
                    }
                }
            }
            assert(lists_below(self.folks(), self.count())) by {
                lemma_without_below(folks[child as int], node, self.count());
                assert forall|a: int, b: int|
                    0 <= a < self.folks().len() && 0 <= b < self.folks()[a].len() implies (
                #[trigger] self.folks()[a][b]) < self.count() by {
                    if a == child {
                        assert(self.folks()[a][b] == without(folks[child as int], node)[b]);
                    } else {
                        assert(self.folks()[a][b] == folks[a][b]);
                    }
                }
            }
        }
        self.mark_dirty(node);
        child
    }

    /// Takes `child` out of the children of `node`, at the first place
    /// where it stands, and `node` out of the parents of `child`; `node`
    /// and the nodes above it are out of date. Returns `child`.
    pub fn remove_child(&mut self, node: usize, child: usize) -> (removed: usize)
        requires
            old(self).wf(),
            node < old(self).count(),
            old(self).kids()[node as int].contains(child),
            rises(
                old(self).folks().update(
                    child as int,
                    without(old(self).folks()[child as int], node),
                ),
                node as int,
            ),
        ensures
            final(self).wf(),
            final(self).count() == old(self).count(),
            removed == child,
            final(self).kids() == old(self).kids().update(
                node as int,
                old(self).kids()[node as int].remove(
                    old(self).kids()[node as int].index_of_first(child).unwrap(),
                ),
            ),
            final(self).folks() == old(self).folks().update(
                child as int,
                without(old(self).folks()[child as int], node),
            ),
            dirtied_in(old(self).nodes@, final(self).nodes@, final(self).above(node as int)),
    {
        let ghost list = self.kids()[node as int];
        let mut index: usize = 0;
        while index < self.children[node].len() && self.children[node][index] != child
            invariant
                node < self.count(),
                self.children@.len() == self.nodes@.len(),
                index <= self.children@[node as int]@.len(),
                list == self.children@[node as int]@,
                list.contains(child),
                forall|j: int| 0 <= j < index ==> list[j] != child,
                *self == *old(self),
            decreases self.children@[node as int]@.len() - index,
        {
            index += 1;
        }
        proof {
            let w = choose|w: int| 0 <= w < list.len() && list[w] == child;
            assert(index <= w);
            list.index_of_first_ensures(child);
            let first = list.index_of_first(child).unwrap();
            if first < index {
                assert(list[first] != child);
            }
            if index < first {
                assert(list[index as int] == child);
            }
            assert(first == index);
        }
        self.remove_child_at_index(node, index)
    }

    /// Takes `node` out of the forest. No list holds it afterwards, and the
    /// node with the highest number, if that is another one, takes its
    /// number, in the lists too; that node's former number is returned.
    pub fn swap_remove(&mut self, node: usize) -> (moved: Option<usize>)
        requires
            old(self).wf(),
            node < old(self).count(),
        ensures
            final(self).wf(),
            final(self).count() == old(self).count() - 1,
            moved == (if node == old(self).count() - 1 {
                None
            } else {
                Some((old(self).count() - 1) as usize)
            }),
            forall|i: int|
                0 <= i < final(self).count() ==> {
                    let from = if i == node {
                        old(self).count() - 1
                    } else {
                        i
                    };
                    &&& (#[trigger] final(self).nodes@[i]).style == old(self).nodes@[from].style
                    &&& final(self).nodes@[i].layout == old(self).nodes@[from].layout
                    &&& final(self).nodes@[i].is_dirty == old(self).nodes@[from].is_dirty
                    &&& final(self).kids()[i] == renumbered(
                        old(self).kids()[from],
                        node,
                        (old(self).count() - 1) as usize,
                    )
                    &&& final(self).folks()[i] == renumbered(
                        old(self).folks()[from],
                        node,
                        (old(self).count() - 1) as usize,
                    )
                },
    {
        let ghost folks = self.folks();
        let ghost kids = self.kids();
        let n = self.nodes.len();
        let last = n - 1;
        let mut i: usize = 0;
        while i < n
            invariant
                i <= n,
                n == self.count(),
                last == n - 1,
                node < n,
                self.nodes == old(self).nodes,
                self.children@.len() == n,
                self.parents@.len() == n,
                kids == old(self).kids(),
                folks == old(self).folks(),
                lists_below(kids, n as nat),
                lists_below(folks, n as nat),
                self.kids().len() == n,
                self.folks().len() == n,
                kids.len() == n,
                folks.len() == n,
                forall|k: int|
                    0 <= k < i ==> (#[trigger] self.kids()[k]) == renumbered(kids[k], node, last),
                forall|k: int|
                    0 <= k < i ==> (#[trigger] self.folks()[k]) == renumbered(folks[k], node, last),
                forall|k: int| i <= k < n ==> (#[trigger] self.kids()[k]) == kids[k],
                forall|k: int| i <= k < n ==> (#[trigger] self.folks()[k]) == folks[k],
            decreases n - i,
        {
            let ghost prev_kids = self.kids();
            let ghost prev_folks = self.folks();
            Forest::renumber(&mut self.children[i], node, last);
            Forest::renumber(&mut self.parents[i], node, last);
            proof {
                assert(prev_kids[i as int] == kids[i as int]);
                assert(prev_folks[i as int] == folks[i as int]);
                assert(self.kids() =~= prev_kids.update(
                    i as int,
                    renumbered(kids[i as int], node, last),
                ));
                assert(self.folks() =~= prev_folks.update(
                    i as int,
                    renumbered(folks[i as int], node, last),
                ));
                assert forall|k: int| 0 <= k < i + 1 implies (#[trigger] self.kids()[k])
                    == renumbered(kids[k], node, last) by {
                    if k < i {
                        assert(self.kids()[k] == prev_kids[k]);
                    }
                }
                assert forall|k: int| 0 <= k < i + 1 implies (#[trigger] self.folks()[k])
                    == renumbered(folks[k], node, last) by {
                    if k < i {
                        assert(self.folks()[k] == prev_folks[k]);
                    }
                }
                assert forall|k: int| i + 1 <= k < n implies (#[trigger] self.kids()[k])
                    == kids[k] by {
                    assert(self.kids()[k] == prev_kids[k]);
                }
                assert forall|k: int| i + 1 <= k < n implies (#[trigger] self.folks()[k])
                    == folks[k] by {
                    assert(self.folks()[k] == prev_folks[k]);
                }
            }
            i += 1;
        }
        let ghost cleaned_kids = self.kids();
        let ghost cleaned_folks = self.folks();
        let _ = self.nodes.swap_remove(node);
        let _ = self.children.swap_remove(node);
        let _ = self.parents.swap_remove(node);
        proof {
            assert forall|k: int| 0 <= k < n - 1 implies {
                let from = if k == node {
                    n - 1
                } else {
                    k
                };
                &&& (#[trigger] self.nodes@[k]).style == old(self).nodes@[from].style
                &&& self.nodes@[k].layout == old(self).nodes@[from].layout
                &&& self.nodes@[k].is_dirty == old(self).nodes@[from].is_dirty
                &&& self.kids()[k] == renumbered(kids[from], node, last)
                &&& self.folks()[k] == renumbered(folks[from], node, last)
            } by {
                let from = if k == node {
                    n - 1
                } else {
                    k
                };
                assert(self.kids()[k] == cleaned_kids[from]);
                assert(self.folks()[k] == cleaned_folks[from]);
                assert(cleaned_kids[from] == renumbered(kids[from], node, last));
                assert(cleaned_folks[from] == renumbered(folks[from], node, last));
            }
            assert(lists_below(self.kids(), self.count())) by {
                assert forall|a: int, b: int|
                    0 <= a < self.kids().len() && 0 <= b < self.kids()[a].len() implies (
                #[trigger] self.kids()[a][b]) < self.count() by {
                    let from = if a == node {
                        n - 1
                    } else {
                        a
                    };
                    assert(self.nodes@[a].is_dirty == old(self).nodes@[from].is_dirty);
                    assert(self.kids()[a] == renumbered(kids[from], node, last));
                    assert forall|j: int| 0 <= j < kids[from].len() implies (#[trigger] kids[from][j])
                        < n by {}
                    lemma_renumbered_below(kids[from], node, last, n as nat);
                }
            }
            assert(lists_below(self.folks(), self.count())) by {
                assert forall|a: int, b: int|
                    0 <= a < self.folks().len() && 0 <= b < self.folks()[a].len() implies (
                #[trigger] self.folks()[a][b]) < self.count() by {
                    let from = if a == node {
                        n - 1
                    } else {
                        a
                    };
                    assert(self.nodes@[a].is_dirty == old(self).nodes@[from].is_dirty);
                    assert(self.folks()[a] == renumbered(folks[from], node, last));
                    assert forall|j: int|
                        0 <= j < folks[from].len() implies (#[trigger] folks[from][j]) < n by {}
                    lemma_renumbered_below(folks[from], node, last, n as nat);
                }
            }
        }
        if last != node {
            Some(last)
        } else {
            None
        }
    }

    /// Replaces the children of `node` by `children`: `node` leaves the
    /// parents of its former children and joins those of the new ones, once
    /// for each time that a node stands in the list; `node` and the nodes
    /// above it are out of date.
    pub fn set_children(&mut self, node: usize, children: Vec<usize>)
        requires
            old(self).wf(),
            node < old(self).count(),
            forall|j: int| 0 <= j < children@.len() ==> (#[trigger] children@[j]) < old(self).count(),
            rises(
                with_parent_added(
                    with_parent_dropped(old(self).folks(), old(self).kids()[node as int], node),
                    children@,
                    node,
                ),
                node as int,
            ),
        ensures
            final(self).wf(),
            final(self).count() == old(self).count(),
            final(self).kids() == old(self).kids().update(node as int, children@),
            final(self).folks() == with_parent_added(
                with_parent_dropped(old(self).folks(), old(self).kids()[node as int], node),
                children@,
                node,
            ),
            dirtied_in(old(self).nodes@, final(self).nodes@, final(self).above(node as int)),
    {
        let ghost folks = self.folks();
        let ghost kids = self.kids();
        let ghost former = kids[node as int];
        let n = self.children[node].len();
        let mut i: usize = 0;
        proof {
            assert(former.take(0) =~= Seq::empty());
        }
        while i < n
            invariant
                i <= n,
                n == former.len(),
                node < self.count(),
                self.nodes == old(self).nodes,
                self.children == old(self).children,
                self.parents@.len() == self.nodes@.len(),
                self.children@.len() == self.nodes@.len(),
                former == self.children@[node as int]@,
                forall|j: int| 0 <= j < former.len() ==> (#[trigger] former[j]) < self.count(),
                self.folks() == with_parent_dropped(folks, former.take(i as int), node),
                lists_below(self.folks(), self.count()),
            decreases n - i,
        {
            let child = self.children[node][i];
            let ghost prev = self.folks();
            assert(child == former[i as int]);
            Forest::drop_from(&mut self.parents[child], node);
            proof {
                assert(former.take(i + 1).drop_last() =~= former.take(i as int));
                assert(former.take(i + 1).last() == child);
                assert(self.folks() =~= prev.update(child as int, without(prev[child as int], node)));
                lemma_drop_keeps_below(prev, child as int, node, self.count());
            }
            i += 1;
        }
        proof {
            assert(former.take(former.len() as int) =~= former);
            assert(children@.take(0) =~= Seq::empty());
        }
        let ghost dropped = self.folks();
        let mut i: usize = 0;
        while i < children.len()
            invariant
                i <= children.len(),
                node < self.count(),
                self.nodes == old(self).nodes,
                self.children == old(self).children,
                self.parents@.len() == self.nodes@.len(),
                self.children@.len() == self.nodes@.len(),
                forall|j: int| 0 <= j < children@.len() ==> (#[trigger] children@[j]) < self.count(),
                self.folks() == with_parent_added(dropped, children@.take(i as int), node),
                lists_below(self.folks(), self.count()),
            decreases children.len() - i,
        {
            let child = children[i];
            let ghost prev = self.folks();
            self.parents[child].push(node);
            proof {
                assert(children@.take(i + 1).drop_last() =~= children@.take(i as int));
                assert(children@.take(i + 1).last() == child);
                assert(self.folks() =~= prev.update(child as int, prev[child as int].push(node)));
                lemma_push_keeps_below(prev, child as int, node, self.count());
            }
            i += 1;
        }
        proof {
            assert(children@.take(children@.len() as int) =~= children@);
        }
        let ghost list = children@;
        self.children[node] = children;
        proof {
            assert(self.kids() =~= kids.update(node as int, list));
            assert(lists_below(self.kids(), self.count())) by {
                assert forall|a: int, b: int|
                    0 <= a < self.kids().len() && 0 <= b < self.kids()[a].len() implies (
                #[trigger] self.kids()[a][b]) < self.count() by {
                    if a == node {
                        assert(self.kids()[a][b] == list[b]);
                    } else {
                        assert(self.kids()[a][b] == kids[a][b]);
                    }
                }
            }
        }
        self.mark_dirty(node);
    }

    /// Puts `child` in the place of the child of `node` at `index`: `node`
    /// joins the parents of `child` and then leaves those of the former
    /// child; `node` and the nodes above it are out of date. Returns the
    /// former child.
    pub fn replace_child_at_index(&mut self, node: usize, index: usize, child: usize) -> (former:
        usize)
        requires
            old(self).wf(),
            node < old(self).count(),
            child < old(self).count(),
            index < old(self).kids()[node as int].len(),
            rises(
                with_parent_swapped(
                    old(self).folks(),
                    child,
                    old(self).kids()[node as int][index as int],
                    node,
                ),
                node as int,
            ),
        ensures
            final(self).wf(),
            final(self).count() == old(self).count(),
            former == old(self).kids()[node as int][index as int],
            final(self).kids() == old(self).kids().update(
                node as int,
                old(self).kids()[node as int].update(index as int, child),
            ),
            final(self).folks() == with_parent_swapped(old(self).folks(), child, former, node),
            dirtied_in(old(self).nodes@, final(self).nodes@, final(self).above(node as int)),
    {
        let ghost folks = self.folks();
        let ghost kids = self.kids();
        self.parents[child].push(node);
        let ghost pushed = self.folks();
        let former = self.children[node][index];
        self.children[node][index] = child;
        assert(former == kids[node as int][index as int]);
        assert(former < self.count());
        Forest::drop_from(&mut self.parents[former], node);
        proof {
            assert(pushed =~= folks.update(child as int, folks[child as int].push(node)));
            lemma_push_keeps_below(folks, child as int, node, self.count());
            assert(self.folks() =~= pushed.update(
                former as int,
                without(pushed[former as int], node),
            ));
            lemma_drop_keeps_below(pushed, former as int, node, self.count());
            assert(self.kids() =~= kids.update(
                node as int,
                kids[node as int].update(index as int, child),
            ));
            assert(lists_below(self.kids(), self.count())) by {
                assert forall|a: int, b: int|
                    0 <= a < self.kids().len() && 0 <= b < self.kids()[a].len() implies (
                #[trigger] self.kids()[a][b]) < self.count() by {
                    if a == node && b == index {
                    } else {
                        assert(self.kids()[a][b] == kids[a][b]);
                    }
                }
            }
        }
        self.mark_dirty(node);
        former
    }

    /// Sets the style of `node`; `node` and the nodes above it are out of date.
    pub fn set_style(&mut self, node: usize, style: Style)
        requires
            old(self).wf(),
            old(self).rises(node as int),
        ensures
            final(self).wf(),
            final(self).children == old(self).children,
            final(self).parents == old(self).parents,
            final(self).count() == old(self).count(),
            final(self).nodes@[node as int].style == style,
            forall|i: int|
                0 <= i < old(self).count() ==> {
                    &&& i != node ==> (#[trigger] final(self).nodes@[i]).style == old(self).nodes@[i].style
                    &&& final(self).nodes@[i].layout == old(self).nodes@[i].layout
                    &&& final(self).nodes@[i].is_dirty == (old(self).nodes@[i].is_dirty || old(self).above(node as int).contains(i))
                },
    {
        proof {
            let height = choose|height: nat| rises_within(self.folks(), node as int, height);
            assert(rises_within(self.folks(), node as int, height));
        }
        self.nodes[node].style = style;
        self.mark_dirty(node);
    }

    /// Whether going up from `node` ends within `height` steps: a test for
    /// what marking and the functions that change the forest ask of their
    /// callers. A forest that does not run in a circle passes with its
    /// number of nodes for a height.
    pub fn rises_within_height(&self, node: usize, height: usize) -> (rises: bool)
        requires
            self.wf(),
        ensures
            rises == rises_within(self.folks(), node as int, height as nat),
            rises ==> self.rises(node as int),
        decreases height,
    {
        if node >= self.parents.len() {
            return false;
        }
        let n = self.parents[node].len();
        let ghost folks = self.folks();
        let ghost list = folks[node as int];
        if n == 0 {
            proof {
                assert(list.len() == 0);
                assert(rises_within(folks, node as int, height as nat));
            }
            return true;
        }
        if height == 0 {
            return false;
        }
        let mut i: usize = 0;
        while i < n
            invariant
                i <= n,
                self.wf(),
                node < self.count(),
                folks == self.folks(),
                list == folks[node as int],
                n == list.len(),
                height > 0,
                rises_within_list(folks, list.take(i as int), (height - 1) as nat),
            decreases n - i,
        {
            let parent = self.parents[node][i];
            proof {
                assert(list[i as int] == parent);
                assert(list.take(i + 1).drop_last() =~= list.take(i as int));
                assert(list.take(i + 1).last() == parent);
            }
            if !self.rises_within_height(parent, height - 1) {
                proof {
                    if rises_within_list(folks, list, (height - 1) as nat) {
                        lemma_prefix_rises(folks, list, (height - 1) as nat, i + 1);
                    }
                }
                return false;
            }
            i += 1;
        }
        proof {
            assert(list.take(n as int) =~= list);
            assert(rises_within(folks, node as int, height as nat));
        }
        true
    }

    /// Whether going up from `node` ends within `height` steps without
    /// meeting a node of `avoided`: a test for what the functions that
    /// change which node is whose parent ask of their callers.
    pub fn rises_clear_of(&self, node: usize, height: usize, avoided: &Vec<usize>) -> (clear: bool)
        requires
            self.wf(),
        ensures
            clear == clear_within(self.folks(), node as int, height as nat, avoided@),
        decreases height,
    {
        if node >= self.parents.len() {
            return false;
        }
        let mut k: usize = 0;
        while k < avoided.len()
            invariant
                k <= avoided@.len(),
                forall|j: int| 0 <= j < k ==> avoided@[j] != node,
            decreases avoided@.len() - k,
        {
            if avoided[k] == node {
                assert(avoided@.contains(node));
                return false;
            }
            k += 1;
        }
        assert(!avoided@.contains(node));
        let n = self.parents[node].len();
        let ghost folks = self.folks();
        let ghost list = folks[node as int];
        if n == 0 {
            proof {
                assert(list.len() == 0);
            }
            return true;
        }
        if height == 0 {
            return false;
        }
        let mut i: usize = 0;
        while i < n
            invariant
                i <= n,
                self.wf(),
                node < self.count(),
                folks == self.folks(),
                list == folks[node as int],
                n == list.len(),
                height > 0,
                !avoided@.contains(node),
                clear_within_list(folks, list.take(i as int), (height - 1) as nat, avoided@),
            decreases n - i,
        {
            let parent = self.parents[node][i];
            proof {
                assert(list[i as int] == parent);
                assert(list.take(i + 1).drop_last() =~= list.take(i as int));
                assert(list.take(i + 1).last() == parent);
            }
            if !self.rises_clear_of(parent, height - 1, avoided) {
                proof {
                    if clear_within_list(folks, list, (height - 1) as nat, avoided@) {
                        lemma_prefix_clear(folks, list, (height - 1) as nat, avoided@, i + 1);
                    }
                }
                return false;
            }
            i += 1;
        }
        proof {
            assert(list.take(n as int) =~= list);
        }
        true
    }

    fn mark_dirty_within(&mut self, node: usize, Ghost(height): Ghost<nat>)
        requires
            old(self).wf(),
            rises_within(old(self).folks(), node as int, height),
        ensures
            final(self).wf(),
            final(self).children == old(self).children,
            final(self).parents == old(self).parents,
            final(self).count() == old(self).count(),
            forall|i: int|
                0 <= i < old(self).count() ==> {
                    &&& (#[trigger] final(self).nodes@[i]).style == old(self).nodes@[i].style
                    &&& final(self).nodes@[i].layout == old(self).nodes@[i].layout
                    &&& final(self).nodes@[i].is_dirty == (old(self).nodes@[i].is_dirty || up_set(
                        old(self).folks(),
                        node as int,
                        height,
                    ).contains(i))
                },
        decreases height,
    {
        let ghost folks = self.folks();
        self.nodes[node].is_dirty = true;
        let ghost marked = self.nodes@;
        let n = self.parents[node].len();
        let mut i: usize = 0;
        proof {
            assert(folks[node as int].take(0) =~= Seq::empty());
        }
        while i < n
            invariant
                i <= n,
                node < self.count(),
                n == folks[node as int].len(),
                self.wf(),
                self.children == old(self).children,
                self.parents == old(self).parents,
                folks == old(self).folks(),
                self.count() == old(self).count(),
                rises_within(folks, node as int, height),
                forall|k: int|
                    0 <= k < old(self).count() ==> {
                        &&& (#[trigger] self.nodes@[k]).style == old(self).nodes@[k].style
                        &&& self.nodes@[k].layout == old(self).nodes@[k].layout
                        &&& self.nodes@[k].is_dirty == (old(self).nodes@[k].is_dirty || k == node
                            || (height > 0 && up_set_of_list(
                            folks,
                            folks[node as int].take(i as int),
                            (height - 1) as nat,
                        ).contains(k)))
                    },
            decreases n - i,
        {
            let parent = self.parents[node][i];
            proof {
                assert(folks[node as int][i as int] == parent);
                lemma_prefix_rises(folks, folks[node as int], (height - 1) as nat, i + 1);
                assert(folks[node as int].take(i + 1).drop_last() =~= folks[node as int].take(
                    i as int,
                ));
                assert(folks[node as int].take(i + 1).last() == parent);
            }
            self.mark_dirty_within(parent, Ghost((height - 1) as nat));
            i += 1;
        }
        proof {
            assert(folks[node as int].take(n as int) =~= folks[node as int]);
        }
    }

    /// Whether going up from `node` ends: no way up runs in a circle.
    pub open spec fn rises(&self, node: int) -> bool {
        rises(self.folks(), node)
    }

    /// The nodes above `node`, and `node` itself.
    pub open spec fn above(&self, node: int) -> Set<int> {
        above(self.folks(), node)
    }

    /// Marks `node` and every node above it as out of date.
    pub fn mark_dirty(&mut self, node: usize)
        requires
            old(self).wf(),
            old(self).rises(node as int),
        ensures
            final(self).wf(),
            final(self).children == old(self).children,
            final(self).parents == old(self).parents,
            final(self).count() == old(self).count(),
            dirtied_in(old(self).nodes@, final(self).nodes@, old(self).above(node as int)),
    {
        let ghost height = choose|height: nat| rises_within(self.folks(), node as int, height);
        self.mark_dirty_within(node, Ghost(height));
    }
}

/// Where going up from a list ends, going up from its prefixes ends.
pub proof fn lemma_prefix_rises(parents: Seq<Seq<usize>>, list: Seq<usize>, height: nat, i: int)
    requires
        rises_within_list(parents, list, height),
        0 <= i <= list.len(),
    ensures
        rises_within_list(parents, list.take(i), height),
    decreases list.len(),
{
    if i < list.len() {
        lemma_prefix_rises(parents, list.drop_last(), height, i);
        assert(list.drop_last().take(i) =~= list.take(i));
    } else {
        assert(list.take(i) =~= list);
    }
}

} // verus!
