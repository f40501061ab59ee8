//! A tree behind handles: callers hold `Node` values, the nodes themselves
//! live in a forest under dense numbers that change when a node is removed.

use crate::forest::{
    above, clear_within, dirtied_in, lemma_clear_still_rises, lemma_parent_added_elsewhere,
    lemma_parent_dropped_elsewhere, renumbered, rises, same_but_at, same_states, with_parent_added,
    with_parent_dropped, with_parent_swapped, without, Forest, ForestNode,
};
use crate::style::Style;
use crate::tree::Layout;
use std::collections::HashMap;
use vstd::prelude::*;

verus! {

broadcast use vstd::std_specs::hash::group_hash_axioms;

/// A handle to a node of one tree.
#[derive(Copy, Clone, Debug, PartialEq, Eq, Hash, Structural)]
pub struct Node {
    /// The tree that issued the handle.
    pub instance: u64,
    /// The number of the handle among those that the tree has issued.
    pub local: u64,
}

/// What the tree reports instead of a result.
#[derive(Copy, Clone, Debug, PartialEq, Eq, Structural)]
pub enum Error {
    /// The handle names no node of this tree.
    InvalidNode(Node),
}

/// Hands out numbers, each of them once.
pub struct Allocator {
    /// The next number to hand out.
    pub next: u64,
}

impl Allocator {
    /// An allocator that starts at 0.
    pub fn new() -> (allocator: Allocator)
        ensures
            allocator.next == 0,
    {
        Allocator { next: 0 }
    }

    /// The next number.
    pub fn allocate(&mut self) -> (id: u64)
        requires
            old(self).next < u64::MAX,
        ensures
            id == old(self).next,
            final(self).next == old(self).next + 1,
    {
        let id = self.next;
        self.next = self.next + 1;
        id
    }

    /// Takes numbers back. They are not handed out again, so nothing changes.
    pub fn free(&mut self, ids: &[u64])
        ensures
            final(self).next == old(self).next,
    {
    }
}

/// A tree of styled nodes behind handles.
pub struct Stretch {
    id: u64,
    nodes: Allocator,
    nodes_to_ids: HashMap<u64, usize>,
    ids_to_nodes: HashMap<usize, Node>,
    forest: Forest,
}

impl Stretch {
    /// The number that this tree puts into its handles.
    pub closed spec fn instance(&self) -> u64 {
        self.id
    }

    /// The number in the forest of each live handle, by the handle's local number.
    pub closed spec fn ids(&self) -> Map<u64, usize> {
        self.nodes_to_ids@
    }

    /// The handle of each node, by its number in the forest.
    pub closed spec fn handles(&self) -> Map<usize, Node> {
        self.ids_to_nodes@
    }

    /// The number of nodes.
    pub closed spec fn count(&self) -> nat {
        self.forest.count()
    }

    /// Style, layout and state of each node, by its number in the forest.
    pub closed spec fn states(&self) -> Seq<ForestNode> {
        self.forest.nodes@
    }

    /// The children of each node, by numbers in the forest.
    pub closed spec fn kids(&self) -> Seq<Seq<usize>> {
        self.forest.kids()
    }

    /// The parents of each node, by numbers in the forest.
    pub closed spec fn folks(&self) -> Seq<Seq<usize>> {
        self.forest.folks()
    }

    /// The local number of the next handle.
    pub closed spec fn next_local(&self) -> u64 {
        self.nodes.next
    }

    /// Whether handles and numbers correspond one to one, every list holds
    /// numbers of nodes only, and no live handle has a local number that is
    /// still to be issued.
    pub closed spec fn wf(&self) -> bool {
        &&& self.forest.wf()
        &&& forall|local: u64| #[trigger]
            self.nodes_to_ids@.contains_key(local) ==> {
                let id = self.nodes_to_ids@[local];
                &&& id < self.forest.count()
                &&& self.ids_to_nodes@.contains_key(id)
                &&& self.ids_to_nodes@[id] == Node { instance: self.id, local }
                &&& local < self.nodes.next
            }
        &&& forall|id: usize| #[trigger]
            self.ids_to_nodes@.contains_key(id) <==> id < self.forest.count()
        &&& forall|id: usize|
            id < self.forest.count() ==> {
                let node = #[trigger] self.ids_to_nodes@[id];
                &&& node.instance == self.id
                &&& self.nodes_to_ids@.contains_key(node.local)
                &&& self.nodes_to_ids@[node.local] == id
            }
    }

    /// The number in the forest of the node that `node` names, if it names one.
    pub open spec fn number_of(&self, node: Node) -> Option<usize> {
        if node.instance == self.instance() && self.ids().contains_key(node.local) {
            Some(self.ids()[node.local])
        } else {
            None
        }
    }

    /// Whether every handle of `nodes` names a node.
    pub open spec fn all_valid(&self, nodes: Seq<Node>) -> bool {
        forall|i: int| 0 <= i < nodes.len() ==> self.number_of(#[trigger] nodes[i]) is Some
    }

    /// The numbers in the forest of the nodes that `nodes` name.
    pub open spec fn numbers_of(&self, nodes: Seq<Node>) -> Seq<usize> {
        Seq::new(nodes.len(), |i: int| self.ids()[nodes[i].local])
    }

    /// The handles of the nodes with the numbers `numbers`.
    pub open spec fn handles_of(&self, numbers: Seq<usize>) -> Seq<Node> {
        Seq::new(numbers.len(), |i: int| self.handles()[numbers[i]])
    }

    /// Whether `i` is the first place in `nodes` of a handle that names no node.
    pub open spec fn first_invalid(&self, nodes: Seq<Node>, i: int) -> bool {
        &&& 0 <= i < nodes.len()
        &&& self.number_of(nodes[i]) is None
        &&& forall|j: int| 0 <= j < i ==> self.number_of(#[trigger] nodes[j]) is Some
    }

    /// Whether the forest is what it was in `before`.
    pub open spec fn same_forest(&self, before: &Stretch) -> bool {
        &&& self.count() == before.count()
        &&& self.kids() == before.kids()
        &&& self.folks() == before.folks()
        &&& same_states(before.states(), self.states())
    }

    /// Whether handles stand for the numbers that they stood for in `before`.
    pub open spec fn same_handles(&self, before: &Stretch) -> bool {
        &&& self.instance() == before.instance()
        &&& self.ids() == before.ids()
        &&& self.handles() == before.handles()
    }

    /// What a well-formed tree guarantees of its handles: a live handle has
    /// a number below the count, and the node with that number has that handle.
    pub proof fn lemma_handles_correspond(&self, node: Node)
        requires
            self.wf(),
            self.number_of(node) is Some,
        ensures
            self.number_of(node).unwrap() < self.count(),
            self.handles().contains_key(self.number_of(node).unwrap()),
            self.handles()[self.number_of(node).unwrap()] == node,
            node.local < self.next_local(),
            self.count() == self.kids().len(),
            self.count() == self.folks().len(),
            self.count() == self.states().len(),
    {
        assert(self.nodes_to_ids@.contains_key(node.local));
    }

    /// What a well-formed tree guarantees of its numbers: every number
    /// below the count has a handle, that handle is live and names the
    /// node with that number, and the lists of the node hold numbers below
    /// the count only. The count itself fits a machine word.
    pub proof fn lemma_numbers_correspond(&self, id: usize)
        requires
            self.wf(),
            id < self.count(),
        ensures
            self.handles().contains_key(id),
            self.number_of(self.handles()[id]) == Some(id),
            self.count() <= usize::MAX,
            self.count() == self.kids().len(),
            self.count() == self.folks().len(),
            self.count() == self.states().len(),
            forall|j: int|
                0 <= j < self.kids()[id as int].len() ==> (#[trigger] self.kids()[id as int][j])
                    < self.count(),
            forall|j: int|
                0 <= j < self.folks()[id as int].len() ==> (#[trigger] self.folks()[id as int][j])
                    < self.count(),
    {
        assert(self.ids_to_nodes@.contains_key(id));
        let node = self.ids_to_nodes@[id];
        assert(self.nodes_to_ids@.contains_key(node.local));
        assert(self.forest.nodes@.len() == self.forest.nodes.len());
    }

    /// The count of nodes fits a machine word.
    pub proof fn lemma_count_is_bounded(&self)
        ensures
            self.count() <= usize::MAX,
    {
        assert(self.forest.nodes@.len() == self.forest.nodes.len());
    }

    /// An empty tree with room for 16 nodes, whose handles carry instance 0.
    pub fn new() -> (tree: Stretch)
        ensures
            tree.wf(),
            tree.instance() == 0,
            tree.count() == 0,
            tree.ids() == Map::<u64, usize>::empty(),
            tree.handles() == Map::<usize, Node>::empty(),
            tree.states() == Seq::<ForestNode>::empty(),
            tree.kids() == Seq::<Seq<usize>>::empty(),
            tree.folks() == Seq::<Seq<usize>>::empty(),
            tree.next_local() == 0,
    {
        Stretch::with_capacity(16)
    }

    /// An empty tree with room for `capacity` nodes, whose handles carry
    /// instance 0: it holds no node, no handle and no list.
    pub fn with_capacity(capacity: usize) -> (tree: Stretch)
        ensures
            tree.wf(),
            tree.instance() == 0,
            tree.count() == 0,
            tree.ids() == Map::<u64, usize>::empty(),
            tree.handles() == Map::<usize, Node>::empty(),
            tree.states() == Seq::<ForestNode>::empty(),
            tree.kids() == Seq::<Seq<usize>>::empty(),
            tree.folks() == Seq::<Seq<usize>>::empty(),
            tree.next_local() == 0,
    {
        Stretch::with_instance(0, capacity)
    }

    /// An empty tree with room for `capacity` nodes, whose handles carry
    /// `instance`. Handles of trees with different instances never name
    /// each other's nodes.
    pub fn with_instance(instance: u64, capacity: usize) -> (tree: Stretch)
        ensures
            tree.wf(),
            tree.instance() == instance,
            tree.count() == 0,
            tree.ids() == Map::<u64, usize>::empty(),
            tree.handles() == Map::<usize, Node>::empty(),
            tree.states() == Seq::<ForestNode>::empty(),
            tree.kids() == Seq::<Seq<usize>>::empty(),
            tree.folks() == Seq::<Seq<usize>>::empty(),
            tree.next_local() == 0,
    {
        let tree = Stretch {
            id: instance,
            nodes: Allocator::new(),
            nodes_to_ids: HashMap::with_capacity(capacity),
            ids_to_nodes: HashMap::with_capacity(capacity),
            forest: Forest::with_capacity(capacity),
        };
        proof {
            assert(tree.forest.nodes@ =~= Seq::empty());
            assert(tree.forest.kids() =~= Seq::empty());
            assert(tree.forest.folks() =~= Seq::empty());
        }
        tree
    }

    fn allocate_node(&mut self) -> (node: Node)
        requires
            old(self).wf(),
            old(self).next_local() < u64::MAX,
        ensures
            final(self).wf(),
            node == (Node { instance: old(self).instance(), local: old(self).next_local() }),
            final(self).next_local() == old(self).next_local() + 1,
            final(self).same_handles(old(self)),
            final(self).same_forest(old(self)),
            final(self).forest == old(self).forest,
            final(self).nodes_to_ids == old(self).nodes_to_ids,
            final(self).ids_to_nodes == old(self).ids_to_nodes,
            !old(self).ids().contains_key(node.local),
    {
        let local = self.nodes.allocate();
        proof {
            if self.nodes_to_ids@.contains_key(local) {
                assert(local < old(self).nodes.next);
            }
        }
        Node { instance: self.id, local }
    }

    fn add_node(&mut self, node: Node, id: usize)
        ensures
            final(self).nodes_to_ids@ == old(self).nodes_to_ids@.insert(node.local, id),
            final(self).ids_to_nodes@ == old(self).ids_to_nodes@.insert(id, node),
            final(self).forest == old(self).forest,
            final(self).id == old(self).id,
            final(self).nodes == old(self).nodes,
    {
        let _ = self.nodes_to_ids.insert(node.local, id);
        let _ = self.ids_to_nodes.insert(id, node);
    }

    /// The number in the forest of the node that `node` names.
    pub fn find_node(&self, node: Node) -> (result: Result<usize, Error>)
        ensures
            result == (match self.number_of(node) {
                Some(id) => Ok::<usize, Error>(id),
                None => Err::<usize, Error>(Error::InvalidNode(node)),
            }),
    {
        if node.instance != self.id {
            return Err(Error::InvalidNode(node));
        }
        match self.nodes_to_ids.get(&node.local) {
            Some(id) => Ok(*id),
            None => Err(Error::InvalidNode(node)),
        }
    }

    fn find_all(&self, nodes: &[Node]) -> (result: Result<Vec<usize>, Error>)
        ensures
            match result {
                Ok(numbers) => self.all_valid(nodes@) && numbers@ == self.numbers_of(nodes@),
                Err(error) => exists|i: int|
                    self.first_invalid(nodes@, i) && error == Error::InvalidNode(
                        #[trigger] nodes@[i],
                    ),
            },
    {
        let mut numbers: Vec<usize> = Vec::new();
        let mut i: usize = 0;
        while i < nodes.len()
            invariant
                i <= nodes.len(),
                numbers@.len() == i,
                forall|j: int| 0 <= j < i ==> self.number_of(#[trigger] nodes@[j]) is Some,
                forall|j: int| 0 <= j < i ==> numbers@[j] == self.ids()[(#[trigger] nodes@[j]).local],
            decreases nodes.len() - i,
        {
            match self.find_node(nodes[i]) {
                Ok(id) => {
                    numbers.push(id);
                },
                Err(error) => {
                    assert(self.first_invalid(nodes@, i as int));
                    return Err(error);
                },
            }
            i += 1;
        }
        assert(numbers@ =~= self.numbers_of(nodes@));
        Ok(numbers)
    }
    /// Adds a node with the given style and children and returns its
    /// handle. Fails, adding nothing, if one of the children names no node;
    /// the error names the first such child. Either way a local number is
    /// used up.
    pub fn new_node(&mut self, style: Style, children: &[Node]) -> (result: Result<Node, Error>)
        requires
            old(self).wf(),
            old(self).next_local() < u64::MAX,
        ensures
            final(self).wf(),
            final(self).instance() == old(self).instance(),
            final(self).next_local() == old(self).next_local() + 1,
            match result {
                Ok(node) => {
                    let id = old(self).count() as usize;
                    let numbers = old(self).numbers_of(children@);
                    &&& old(self).all_valid(children@)
                    &&& node == (Node {
                        instance: old(self).instance(),
                        local: old(self).next_local(),
                    })
                    &&& !old(self).ids().contains_key(node.local)
                    &&& final(self).ids() == old(self).ids().insert(node.local, id)
                    &&& final(self).handles() == old(self).handles().insert(id, node)
                    &&& final(self).count() == old(self).count() + 1
                    &&& final(self).kids() == old(self).kids().push(numbers)
                    &&& final(self).folks() == with_parent_added(old(self).folks(), numbers, id).push(
                        Seq::empty(),
                    )
                    &&& same_states(old(self).states(), final(self).states().drop_last())
                    &&& final(self).states().last().style == style
                    &&& final(self).states().last().layout == Layout::zeroed(0)
                    &&& final(self).states().last().is_dirty
                },
                Err(error) => {
                    &&& exists|i: int|
                        old(self).first_invalid(children@, i) && error == Error::InvalidNode(
                            #[trigger] children@[i],
                        )
                    &&& final(self).same_handles(old(self))
                    &&& final(self).same_forest(old(self))
                },
            },
    {
        let node = self.allocate_node();
        let numbers = match self.find_all(children) {
            Ok(numbers) => numbers,
            Err(error) => {
                return Err(error);
            },
        };
        proof {
            assert forall|j: int| 0 <= j < numbers@.len() implies (#[trigger] numbers@[j])
                < self.forest.count() by {
                assert(self.number_of(children@[j]) is Some);
                assert(self.nodes_to_ids@.contains_key(children@[j].local));
            }
        }
        let id = self.forest.new_node(style, numbers);
        self.add_node(node, id);
        proof {
            assert forall|local: u64| #[trigger] self.nodes_to_ids@.contains_key(local) implies {
                let n = self.nodes_to_ids@[local];
                &&& n < self.forest.count()
                &&& self.ids_to_nodes@.contains_key(n)
                &&& self.ids_to_nodes@[n] == Node { instance: self.id, local }
                &&& local < self.nodes.next
            } by {
                if local != node.local {
                    assert(old(self).nodes_to_ids@.contains_key(local));
                }
            }
            assert forall|n: usize| #[trigger]
                self.ids_to_nodes@.contains_key(n) <==> n < self.forest.count() by {
                if n != id {
                    assert(old(self).ids_to_nodes@.contains_key(n) <==> n < old(self).forest.count());
                }
            }
            assert forall|n: usize| n < self.forest.count() implies {
                let h = #[trigger] self.ids_to_nodes@[n];
                &&& h.instance == self.id
                &&& self.nodes_to_ids@.contains_key(h.local)
                &&& self.nodes_to_ids@[h.local] == n
            } by {
                if n != id {
                    let h = old(self).ids_to_nodes@[n];
                    assert(old(self).nodes_to_ids@.contains_key(h.local));
                }
            }
        }
        Ok(node)
    }

    /// Removes every node. Handles that were issued before name nothing afterwards.
    pub fn clear(&mut self)
        requires
            old(self).wf(),
        ensures
            final(self).wf(),
            final(self).instance() == old(self).instance(),
            final(self).next_local() == old(self).next_local(),
            final(self).count() == 0,
            final(self).ids() == Map::<u64, usize>::empty(),
            final(self).handles() == Map::<usize, Node>::empty(),
    {
        self.nodes_to_ids.clear();
        self.ids_to_nodes.clear();
        self.forest.clear();
    }

    /// Removes the node that `node` names, if it names one: its handle
    /// names no node afterwards, and no list holds it. Its number in the
    /// forest goes to the node that had the highest number, whose handle
    /// stays what it was; every other handle names what it named.
    pub fn remove(&mut self, node: Node)
        requires
            old(self).wf(),
        ensures
            final(self).wf(),
            final(self).instance() == old(self).instance(),
            final(self).next_local() == old(self).next_local(),
            match old(self).number_of(node) {
                None => final(self).same_handles(old(self)) && final(self).same_forest(old(self)),
                Some(id) => {
                    let last = (old(self).count() - 1) as usize;
                    let moved = old(self).handles()[last];
                    &&& final(self).count() == old(self).count() - 1
                    &&& final(self).number_of(node) is None
                    &&& forall|other: Node|
                        other != node && (#[trigger] old(self).number_of(other)) is Some
                            ==> final(self).number_of(other) == Some(
                            if old(self).number_of(other).unwrap() == last {
                                id
                            } else {
                                old(self).number_of(other).unwrap()
                            },
                        )
                    &&& final(self).ids() == (if id == last {
                        old(self).ids().remove(node.local)
                    } else {
                        old(self).ids().remove(node.local).insert(moved.local, id)
                    })
                    &&& final(self).handles() == (if id == last {
                        old(self).handles().remove(id)
                    } else {
                        old(self).handles().remove(last).insert(id, moved)
                    })
                    &&& forall|i: int|
                        0 <= i < final(self).count() ==> {
                            let from = if i == id {
                                last as int
                            } else {
                                i
                            };
                            &&& (#[trigger] final(self).states()[i]).style == old(self).states()[from].style
                            &&& final(self).states()[i].layout == old(self).states()[from].layout
                            &&& final(self).states()[i].is_dirty == old(self).states()[from].is_dirty
                            &&& final(self).kids()[i] == renumbered(old(self).kids()[from], id, last)
                            &&& final(self).folks()[i] == renumbered(
                                old(self).folks()[from],
                                id,
                                last,
                            )
                        }
                },
            },
    {
        let id = match self.find_node(node) {
            Ok(id) => id,
            Err(_) => {
                return ;
            },
        };
        proof {
            self.lemma_handles_correspond(node);
        }
        let count = self.forest.nodes.len();
        let ghost last: usize = (count - 1) as usize;
        let ghost moved_handle = self.ids_to_nodes@[last];
        proof {
            assert(self.ids_to_nodes@.contains_key(last));
            assert(self.nodes_to_ids@.contains_key(moved_handle.local));
        }
        self.nodes_to_ids.remove(&node.local);
        self.ids_to_nodes.remove(&id);
        assert(self.nodes_to_ids@ == old(self).nodes_to_ids@.remove(node.local));
        assert(self.ids_to_nodes@ == old(self).ids_to_nodes@.remove(id));
        match self.forest.swap_remove(id) {
            Some(new_id) => {
                assert(new_id == last);
                assert(self.ids_to_nodes@.contains_key(new_id));
                let new = match self.ids_to_nodes.remove(&new_id) {
                    Some(new) => new,
                    None => vstd::pervasive::unreached(),
                };
                assert(new == moved_handle);
                let _ = self.nodes_to_ids.insert(new.local, id);
                let _ = self.ids_to_nodes.insert(id, new);
                proof {
                    assert(self.ids_to_nodes@ =~= old(self).ids_to_nodes@.remove(last).insert(
                        id,
                        new,
                    ));
                }
            },
            None => {},
        }
        proof {
            assert forall|local: u64| #[trigger] self.nodes_to_ids@.contains_key(local) implies {
                let n = self.nodes_to_ids@[local];
                &&& n < self.forest.count()
                &&& self.ids_to_nodes@.contains_key(n)
                &&& self.ids_to_nodes@[n] == Node { instance: self.id, local }
                &&& local < self.nodes.next
            } by {
                assert(old(self).nodes_to_ids@.contains_key(local));
                let n0 = old(self).nodes_to_ids@[local];
                assert(old(self).ids_to_nodes@[n0] == Node { instance: self.id, local });
                if n0 == id {
                    assert(old(self).ids_to_nodes@[id] == node);
                }
            }
            assert forall|n: usize| #[trigger]
                self.ids_to_nodes@.contains_key(n) <==> n < self.forest.count() by {
                assert(old(self).ids_to_nodes@.contains_key(n) <==> n < old(self).forest.count());
            }
            assert forall|n: usize| n < self.forest.count() implies {
                let h = #[trigger] self.ids_to_nodes@[n];
                &&& h.instance == self.id
                &&& self.nodes_to_ids@.contains_key(h.local)
                &&& self.nodes_to_ids@[h.local] == n
            } by {
                let from = if n == id {
                    last
                } else {
                    n
                };
                let h = old(self).ids_to_nodes@[from];
                assert(old(self).nodes_to_ids@.contains_key(h.local));
                assert(old(self).nodes_to_ids@[h.local] == from);
                assert(old(self).nodes_to_ids@[node.local] == id);
            }
            assert(old(self).nodes_to_ids@.contains_key(moved_handle.local));
            assert(old(self).nodes_to_ids@[moved_handle.local] == last);
            assert(old(self).nodes_to_ids@[node.local] == id);
            if id != last {
                assert(moved_handle.local != node.local);
            }
            assert(!self.nodes_to_ids@.contains_key(node.local));
            assert forall|other: Node|
                other != node && (#[trigger] old(self).number_of(other)) is Some implies self.number_of(
                other,
            ) == Some(
                if old(self).number_of(other).unwrap() == last {
                    id
                } else {
                    old(self).number_of(other).unwrap()
                },
            ) by {
                assert(other.instance == node.instance);
                assert(other.local != node.local);
                let n0 = old(self).nodes_to_ids@[other.local];
                assert(old(self).ids_to_nodes@[n0] == other);
                if n0 == last {
                    assert(other == moved_handle);
                } else if id != last {
                    assert(other.local != moved_handle.local);
                }
            }
        }
    }

    /// Makes `child` the last child of `node`; `node` and the nodes above
    /// it are out of date. Fails, changing nothing, if `node` names no
    /// node, or else if `child` names none.
    pub fn add_child(&mut self, node: Node, child: Node) -> (result: Result<(), Error>)
        requires
            old(self).wf(),
            old(self).number_of(node) is Some && old(self).number_of(child) is Some ==> rises(
                old(self).folks().update(
                    old(self).number_of(child).unwrap() as int,
                    old(self).folks()[old(self).number_of(child).unwrap() as int].push(
                        old(self).number_of(node).unwrap(),
                    ),
                ),
                old(self).number_of(node).unwrap() as int,
            ),
        ensures
            final(self).wf(),
            final(self).same_handles(old(self)),
            final(self).next_local() == old(self).next_local(),
            match (old(self).number_of(node), old(self).number_of(child)) {
                (Some(node_id), Some(child_id)) => {
                    &&& result is Ok
                    &&& final(self).count() == old(self).count()
                    &&& final(self).folks() == old(self).folks().update(
                        child_id as int,
                        old(self).folks()[child_id as int].push(node_id),
                    )
                    &&& final(self).kids() == old(self).kids().update(
                        node_id as int,
                        old(self).kids()[node_id as int].push(child_id),
                    )
                    &&& dirtied_in(
                        old(self).states(),
                        final(self).states(),
                        above(final(self).folks(), node_id as int),
                    )
                },
                (None, _) => result == Err::<(), Error>(Error::InvalidNode(node)) && final(self).same_forest(old(self)),
                (Some(_), None) => result == Err::<(), Error>(Error::InvalidNode(child)) && final(self).same_forest(old(self)),
            },
    {
        let node_id = match self.find_node(node) {
            Ok(id) => id,
            Err(error) => {
                return Err(error);
            },
        };
        let child_id = match self.find_node(child) {
            Ok(id) => id,
            Err(error) => {
                return Err(error);
            },
        };
        proof {
            self.lemma_handles_correspond(node);
            self.lemma_handles_correspond(child);
        }
        self.forest.add_child(node_id, child_id);
        Ok(())
    }

    /// Replaces the children of `node` by `children`; `node` and the nodes
    /// above it are out of date. Fails, changing nothing, if `node` names
    /// no node, or else if one of `children` names none; the error names
    /// the first such handle.
    pub fn set_children(&mut self, node: Node, children: &[Node]) -> (result: Result<(), Error>)
        requires
            old(self).wf(),
            old(self).number_of(node) is Some && old(self).all_valid(children@) ==> rises(
                with_parent_added(
                    with_parent_dropped(
                        old(self).folks(),
                        old(self).kids()[old(self).number_of(node).unwrap() as int],
                        old(self).number_of(node).unwrap(),
                    ),
                    old(self).numbers_of(children@),
                    old(self).number_of(node).unwrap(),
                ),
                old(self).number_of(node).unwrap() as int,
            ),
        ensures
            final(self).wf(),
            final(self).same_handles(old(self)),
            final(self).next_local() == old(self).next_local(),
            match result {
                Ok(_) => {
                    let id = old(self).number_of(node).unwrap();
                    let numbers = old(self).numbers_of(children@);
                    &&& old(self).number_of(node) is Some
                    &&& old(self).all_valid(children@)
                    &&& final(self).count() == old(self).count()
                    &&& final(self).kids() == old(self).kids().update(id as int, numbers)
                    &&& final(self).folks() == with_parent_added(
                        with_parent_dropped(old(self).folks(), old(self).kids()[id as int], id),
                        numbers,
                        id,
                    )
                    &&& dirtied_in(
                        old(self).states(),
                        final(self).states(),
                        above(final(self).folks(), id as int),
                    )
                },
                Err(error) => {
                    &&& final(self).same_forest(old(self))
                    &&& if old(self).number_of(node) is None {
                        error == Error::InvalidNode(node)
                    } else {
                        exists|i: int|
                            old(self).first_invalid(children@, i) && error == Error::InvalidNode(
                                #[trigger] children@[i],
                            )
                    }
                },
            },
    {
        let node_id = match self.find_node(node) {
            Ok(id) => id,
            Err(error) => {
                return Err(error);
            },
        };
        let numbers = match self.find_all(children) {
            Ok(numbers) => numbers,
            Err(error) => {
                return Err(error);
            },
        };
        proof {
            self.lemma_handles_correspond(node);
            assert forall|j: int| 0 <= j < numbers@.len() implies (#[trigger] numbers@[j])
                < self.forest.count() by {
                assert(self.number_of(children@[j]) is Some);
                assert(self.nodes_to_ids@.contains_key(children@[j].local));
            }
        }
        self.forest.set_children(node_id, numbers);
        Ok(())
    }

    /// Takes `child` out of the children of `node`, at the first place
    /// where it stands; `node` and the nodes above it are out of date.
    /// Returns the handle of the child. Fails, changing nothing, if `node`
    /// names no node, or else if `child` names none.
    pub fn remove_child(&mut self, node: Node, child: Node) -> (result: Result<Node, Error>)
        requires
            old(self).wf(),
            old(self).number_of(node) is Some && old(self).number_of(child) is Some ==> {
                let node_id = old(self).number_of(node).unwrap();
                let child_id = old(self).number_of(child).unwrap();
                &&& old(self).kids()[node_id as int].contains(child_id)
                &&& rises(
                    old(self).folks().update(
                        child_id as int,
                        without(old(self).folks()[child_id as int], node_id),
                    ),
                    node_id as int,
                )
            },
        ensures
            final(self).wf(),
            final(self).same_handles(old(self)),
            final(self).next_local() == old(self).next_local(),
            match (old(self).number_of(node), old(self).number_of(child)) {
                (Some(node_id), Some(child_id)) => {
                    &&& result == Ok::<Node, Error>(child)
                    &&& final(self).count() == old(self).count()
                    &&& final(self).kids() == old(self).kids().update(
                        node_id as int,
                        old(self).kids()[node_id as int].remove(
                            old(self).kids()[node_id as int].index_of_first(child_id).unwrap(),
                        ),
                    )
                    &&& final(self).folks() == old(self).folks().update(
                        child_id as int,
                        without(old(self).folks()[child_id as int], node_id),
                    )
                    &&& dirtied_in(
                        old(self).states(),
                        final(self).states(),
                        above(final(self).folks(), node_id as int),
                    )
                },
                (None, _) => result == Err::<Node, Error>(Error::InvalidNode(node)) && final(self).same_forest(old(self)),
                (Some(_), None) => result == Err::<Node, Error>(Error::InvalidNode(child))
                    && final(self).same_forest(old(self)),
            },
    {
        let node_id = match self.find_node(node) {
            Ok(id) => id,
            Err(error) => {
                return Err(error);
            },
        };
        let child_id = match self.find_node(child) {
            Ok(id) => id,
            Err(error) => {
                return Err(error);
            },
        };
        proof {
            self.lemma_handles_correspond(node);
            self.lemma_handles_correspond(child);
        }
        let prev_id = self.forest.remove_child(node_id, child_id);
        Ok(self.handle_at(prev_id))
    }

    /// Takes the child of `node` at `index` out of its children; `node` and
    /// the nodes above it are out of date. Returns the handle of the child.
    /// Fails, changing nothing, if `node` names no node.
    pub fn remove_child_at_index(&mut self, node: Node, index: usize) -> (result: Result<
        Node,
        Error,
    >)
        requires
            old(self).wf(),
            old(self).number_of(node) is Some ==> {
                let node_id = old(self).number_of(node).unwrap();
                let child_id = old(self).kids()[node_id as int][index as int];
                &&& index < old(self).kids()[node_id as int].len()
                &&& rises(
                    old(self).folks().update(
                        child_id as int,
                        without(old(self).folks()[child_id as int], node_id),
                    ),
                    node_id as int,
                )
            },
        ensures
            final(self).wf(),
            final(self).same_handles(old(self)),
            final(self).next_local() == old(self).next_local(),
            match old(self).number_of(node) {
                Some(node_id) => {
                    let child_id = old(self).kids()[node_id as int][index as int];
                    &&& result == Ok::<Node, Error>(old(self).handles()[child_id])
                    &&& final(self).count() == old(self).count()
                    &&& final(self).kids() == old(self).kids().update(
                        node_id as int,
                        old(self).kids()[node_id as int].remove(index as int),
                    )
                    &&& final(self).folks() == old(self).folks().update(
                        child_id as int,
                        without(old(self).folks()[child_id as int], node_id),
                    )
                    &&& dirtied_in(
                        old(self).states(),
                        final(self).states(),
                        above(final(self).folks(), node_id as int),
                    )
                },
                None => result == Err::<Node, Error>(Error::InvalidNode(node)) && final(self).same_forest(old(self)),
            },
    {
        let node_id = match self.find_node(node) {
            Ok(id) => id,
            Err(error) => {
                return Err(error);
            },
        };
        proof {
            self.lemma_handles_correspond(node);
        }
        let prev_id = self.forest.remove_child_at_index(node_id, index);
        Ok(self.handle_at(prev_id))
    }

    /// Puts `child` in the place of the child of `node` at `index`; `node`
    /// and the nodes above it are out of date. Returns the handle of the
    /// former child. Fails, changing nothing, if `node` names no node, or
    /// else if `child` names none.
    pub fn replace_child_at_index(&mut self, node: Node, index: usize, child: Node) -> (result:
        Result<Node, Error>)
        requires
            old(self).wf(),
            old(self).number_of(node) is Some && old(self).number_of(child) is Some ==> {
                let node_id = old(self).number_of(node).unwrap();
                let child_id = old(self).number_of(child).unwrap();
                &&& index < old(self).kids()[node_id as int].len()
                &&& rises(
                    with_parent_swapped(
                        old(self).folks(),
                        child_id,
                        old(self).kids()[node_id as int][index as int],
                        node_id,
                    ),
                    node_id as int,
                )
            },
        ensures
            final(self).wf(),
            final(self).same_handles(old(self)),
            final(self).next_local() == old(self).next_local(),
            match (old(self).number_of(node), old(self).number_of(child)) {
                (Some(node_id), Some(child_id)) => {
                    let former = old(self).kids()[node_id as int][index as int];
                    &&& result == Ok::<Node, Error>(old(self).handles()[former])
                    &&& final(self).count() == old(self).count()
                    &&& final(self).kids() == old(self).kids().update(
                        node_id as int,
                        old(self).kids()[node_id as int].update(index as int, child_id),
                    )
                    &&& final(self).folks() == with_parent_swapped(
                        old(self).folks(),
                        child_id,
                        former,
                        node_id,
                    )
                    &&& dirtied_in(
                        old(self).states(),
                        final(self).states(),
                        above(final(self).folks(), node_id as int),
                    )
                },
                (None, _) => result == Err::<Node, Error>(Error::InvalidNode(node)) && final(self).same_forest(old(self)),
                (Some(_), None) => result == Err::<Node, Error>(Error::InvalidNode(child))
                    && final(self).same_forest(old(self)),
            },
    {
        let node_id = match self.find_node(node) {
            Ok(id) => id,
            Err(error) => {
                return Err(error);
            },
        };
        let child_id = match self.find_node(child) {
            Ok(id) => id,
            Err(error) => {
                return Err(error);
            },
        };
        proof {
            self.lemma_handles_correspond(node);
            self.lemma_handles_correspond(child);
        }
        let old_child = self.forest.replace_child_at_index(node_id, index, child_id);
        Ok(self.handle_at(old_child))
    }

    /// Makes `child` the last child of `node` as `add_child` does, where
    /// going up from `node` ends without meeting `child`; else changes
    /// nothing and says so by returning nothing.
    pub fn add_child_if_sound(&mut self, node: Node, child: Node) -> (result: Option<
        Result<(), Error>,
    >)
        requires
            old(self).wf(),
        ensures
            result is Some <==> (old(self).number_of(node) is Some && old(self).number_of(child) is Some
                ==> clear_within(
                old(self).folks(),
                old(self).number_of(node).unwrap() as int,
                old(self).count(),
                seq![old(self).number_of(child).unwrap()],
            )),
            result is None ==> final(self).wf() && final(self).same_handles(old(self))
                && final(self).same_forest(old(self)) && final(self).next_local() == old(
                self,
            ).next_local(),
            result is Some ==> ({
                let result = result.unwrap();
                &&& (final(self).wf())
                &&& (final(self).same_handles(old(self)))
                &&& (final(self).next_local() == old(self).next_local())
                &&& (match (old(self).number_of(node), old(self).number_of(child)) {
                (Some(node_id), Some(child_id)) => {
                    &&& result is Ok
                    &&& final(self).count() == old(self).count()
                    &&& final(self).folks() == old(self).folks().update(
                        child_id as int,
                        old(self).folks()[child_id as int].push(node_id),
                    )
                    &&& final(self).kids() == old(self).kids().update(
                        node_id as int,
                        old(self).kids()[node_id as int].push(child_id),
                    )
                    &&& dirtied_in(
                        old(self).states(),
                        final(self).states(),
                        above(final(self).folks(), node_id as int),
                    )
                },
                (None, _) => result == Err::<(), Error>(Error::InvalidNode(node)) && final(self).same_forest(old(self)),
                (Some(_), None) => result == Err::<(), Error>(Error::InvalidNode(child)) && final(self).same_forest(old(self)),
            })
            }),
    {
        match (self.find_node(node), self.find_node(child)) {
            (Ok(node_id), Ok(child_id)) => {
                let mut avoided: Vec<usize> = Vec::new();
                avoided.push(child_id);
                assert(avoided@ =~= seq![child_id]);
                if !self.forest.rises_clear_of(node_id, self.forest.nodes.len(), &avoided) {
                    return None;
                }
                proof {
                    self.lemma_handles_correspond(node);
                    self.lemma_handles_correspond(child);
                    let folks = self.folks();
                    let changed = folks.update(child_id as int, folks[child_id as int].push(node_id));
                    assert(same_but_at(folks, changed, avoided@)) by {
                        assert(avoided@[0] == child_id);
                    }
                    lemma_clear_still_rises(
                        folks,
                        changed,
                        node_id as int,
                        self.count(),
                        avoided@,
                    );
                }
            },
            _ => {},
        }
        Some(self.add_child(node, child))
    }

    /// Takes the child of `node` at `index` out of its children as
    /// `remove_child_at_index` does, where `node` has a child at `index`
    /// and going up from `node` ends without meeting it; else changes
    /// nothing and says so by returning nothing.
    pub fn remove_child_at_index_if_sound(&mut self, node: Node, index: usize) -> (result: Option<
        Result<Node, Error>,
    >)
        requires
            old(self).wf(),
        ensures
            result is Some <==> (old(self).number_of(node) is Some ==> index < old(self).kids()[old(
                self,
            ).number_of(node).unwrap() as int].len() && clear_within(
                old(self).folks(),
                old(self).number_of(node).unwrap() as int,
                old(self).count(),
                seq![old(self).kids()[old(self).number_of(node).unwrap() as int][index as int]],
            )),
            result is None ==> final(self).wf() && final(self).same_handles(old(self))
                && final(self).same_forest(old(self)) && final(self).next_local() == old(
                self,
            ).next_local(),
            result is Some ==> ({
                let result = result.unwrap();
                &&& (final(self).wf())
                &&& (final(self).same_handles(old(self)))
                &&& (final(self).next_local() == old(self).next_local())
                &&& (match old(self).number_of(node) {
                Some(node_id) => {
                    let child_id = old(self).kids()[node_id as int][index as int];
                    &&& result == Ok::<Node, Error>(old(self).handles()[child_id])
                    &&& final(self).count() == old(self).count()
                    &&& final(self).kids() == old(self).kids().update(
                        node_id as int,
                        old(self).kids()[node_id as int].remove(index as int),
                    )
                    &&& final(self).folks() == old(self).folks().update(
                        child_id as int,
                        without(old(self).folks()[child_id as int], node_id),
                    )
                    &&& dirtied_in(
                        old(self).states(),
                        final(self).states(),
                        above(final(self).folks(), node_id as int),
                    )
                },
                None => result == Err::<Node, Error>(Error::InvalidNode(node)) && final(self).same_forest(old(self)),
            })
            }),
    {
        match self.find_node(node) {
            Ok(node_id) => {
                proof {
                    self.lemma_handles_correspond(node);
                    self.lemma_numbers_correspond(node_id);
                }
                if index >= self.forest.children[node_id].len() {
                    return None;
                }
                let child_id = self.forest.children[node_id][index];
                assert(self.kids()[node_id as int][index as int] == child_id);
                let mut avoided: Vec<usize> = Vec::new();
                avoided.push(child_id);
                assert(avoided@ =~= seq![child_id]);
                if !self.forest.rises_clear_of(node_id, self.forest.nodes.len(), &avoided) {
                    return None;
                }
                proof {
                    let folks = self.folks();
                    let changed = folks.update(
                        child_id as int,
                        without(folks[child_id as int], node_id),
                    );
                    assert(same_but_at(folks, changed, avoided@)) by {
                        assert(avoided@[0] == child_id);
                    }
                    lemma_clear_still_rises(
                        folks,
                        changed,
                        node_id as int,
                        self.count(),
                        avoided@,
                    );
                }
            },
            Err(_) => {},
        }
        Some(self.remove_child_at_index(node, index))
    }

    /// Takes `child` out of the children of `node` as `remove_child`
    /// does, where `child` is a child of `node` and going up from `node`
    /// ends without meeting it; else changes nothing and says so by
    /// returning nothing.
    pub fn remove_child_if_sound(&mut self, node: Node, child: Node) -> (result: Option<
        Result<Node, Error>,
    >)
        requires
            old(self).wf(),
        ensures
            result is Some <==> (old(self).number_of(node) is Some && old(self).number_of(child) is Some
                ==> old(self).kids()[old(self).number_of(node).unwrap() as int].contains(
                old(self).number_of(child).unwrap(),
            ) && clear_within(
                old(self).folks(),
                old(self).number_of(node).unwrap() as int,
                old(self).count(),
                seq![old(self).number_of(child).unwrap()],
            )),
            result is None ==> final(self).wf() && final(self).same_handles(old(self))
                && final(self).same_forest(old(self)) && final(self).next_local() == old(
                self,
            ).next_local(),
            result is Some ==> ({
                let result = result.unwrap();
                &&& (final(self).wf())
                &&& (final(self).same_handles(old(self)))
                &&& (final(self).next_local() == old(self).next_local())
                &&& (match (old(self).number_of(node), old(self).number_of(child)) {
                (Some(node_id), Some(child_id)) => {
                    &&& result == Ok::<Node, Error>(child)
                    &&& final(self).count() == old(self).count()
                    &&& final(self).kids() == old(self).kids().update(
                        node_id as int,
                        old(self).kids()[node_id as int].remove(
                            old(self).kids()[node_id as int].index_of_first(child_id).unwrap(),
                        ),
                    )
                    &&& final(self).folks() == old(self).folks().update(
                        child_id as int,
                        without(old(self).folks()[child_id as int], node_id),
                    )
                    &&& dirtied_in(
                        old(self).states(),
                        final(self).states(),
                        above(final(self).folks(), node_id as int),
                    )
                },
                (None, _) => result == Err::<Node, Error>(Error::InvalidNode(node)) && final(self).same_forest(old(self)),
                (Some(_), None) => result == Err::<Node, Error>(Error::InvalidNode(child))
                    && final(self).same_forest(old(self)),
            })
            }),
    {
        match (self.find_node(node), self.find_node(child)) {
            (Ok(node_id), Ok(child_id)) => {
                proof {
                    self.lemma_handles_correspond(node);
                    self.lemma_handles_correspond(child);
                    self.lemma_numbers_correspond(node_id);
                }
                let ghost list = self.kids()[node_id as int];
                let mut k: usize = 0;
                let mut found = false;
                while k < self.forest.children[node_id].len()
                    invariant
                        self.wf(),
                        node_id < self.forest.count(),
                        list == self.forest.children@[node_id as int]@,
                        k <= list.len(),
                        found == exists|j: int| 0 <= j < k && list[j] == child_id,
                    decreases list.len() - k,
                {
                    if self.forest.children[node_id][k] == child_id {
                        found = true;
                    }
                    k += 1;
                }
                if !found {
                    assert(!list.contains(child_id));
                    return None;
                }
                assert(list.contains(child_id));
                let mut avoided: Vec<usize> = Vec::new();
                avoided.push(child_id);
                assert(avoided@ =~= seq![child_id]);
                if !self.forest.rises_clear_of(node_id, self.forest.nodes.len(), &avoided) {
                    return None;
                }
                proof {
                    let folks = self.folks();
                    let changed = folks.update(
                        child_id as int,
                        without(folks[child_id as int], node_id),
                    );
                    assert(same_but_at(folks, changed, avoided@)) by {
                        assert(avoided@[0] == child_id);
                    }
                    lemma_clear_still_rises(
                        folks,
                        changed,
                        node_id as int,
                        self.count(),
                        avoided@,
                    );
                }
            },
            _ => {},
        }
        Some(self.remove_child(node, child))
    }

    /// Puts `child` in the place of the child of `node` at `index` as
    /// `replace_child_at_index` does, where `node` has a child at `index`
    /// and going up from `node` ends without meeting either child; else
    /// changes nothing and says so by returning nothing.
    pub fn replace_child_at_index_if_sound(&mut self, node: Node, index: usize, child: Node) -> (result:
        Option<Result<Node, Error>>)
        requires
            old(self).wf(),
        ensures
            result is Some <==> (old(self).number_of(node) is Some && old(self).number_of(child) is Some
                ==> index < old(self).kids()[old(self).number_of(node).unwrap() as int].len()
                && clear_within(
                old(self).folks(),
                old(self).number_of(node).unwrap() as int,
                old(self).count(),
                seq![
                    old(self).number_of(child).unwrap(),
                    old(self).kids()[old(self).number_of(node).unwrap() as int][index as int],
                ],
            )),
            result is None ==> final(self).wf() && final(self).same_handles(old(self))
                && final(self).same_forest(old(self)) && final(self).next_local() == old(
                self,
            ).next_local(),
            result is Some ==> ({
                let result = result.unwrap();
                &&& (final(self).wf())
                &&& (final(self).same_handles(old(self)))
                &&& (final(self).next_local() == old(self).next_local())
                &&& (match (old(self).number_of(node), old(self).number_of(child)) {
                (Some(node_id), Some(child_id)) => {
                    let former = old(self).kids()[node_id as int][index as int];
                    &&& result == Ok::<Node, Error>(old(self).handles()[former])
                    &&& final(self).count() == old(self).count()
                    &&& final(self).kids() == old(self).kids().update(
                        node_id as int,
                        old(self).kids()[node_id as int].update(index as int, child_id),
                    )
                    &&& final(self).folks() == with_parent_swapped(
                        old(self).folks(),
                        child_id,
                        former,
                        node_id,
                    )
                    &&& dirtied_in(
                        old(self).states(),
                        final(self).states(),
                        above(final(self).folks(), node_id as int),
                    )
                },
                (None, _) => result == Err::<Node, Error>(Error::InvalidNode(node)) && final(self).same_forest(old(self)),
                (Some(_), None) => result == Err::<Node, Error>(Error::InvalidNode(child))
                    && final(self).same_forest(old(self)),
            })
            }),
    {
        match (self.find_node(node), self.find_node(child)) {
            (Ok(node_id), Ok(child_id)) => {
                proof {
                    self.lemma_handles_correspond(node);
                    self.lemma_handles_correspond(child);
                    self.lemma_numbers_correspond(node_id);
                }
                if index >= self.forest.children[node_id].len() {
                    return None;
                }
                let former = self.forest.children[node_id][index];
                assert(self.kids()[node_id as int][index as int] == former);
                let mut avoided: Vec<usize> = Vec::new();
                avoided.push(child_id);
                avoided.push(former);
                assert(avoided@ =~= seq![child_id, former]);
                if !self.forest.rises_clear_of(node_id, self.forest.nodes.len(), &avoided) {
                    return None;
                }
                proof {
                    let folks = self.folks();
                    let changed = with_parent_swapped(folks, child_id, former, node_id);
                    assert(same_but_at(folks, changed, avoided@)) by {
                        assert(avoided@[0] == child_id);
                        assert(avoided@[1] == former);
                    }
                    lemma_clear_still_rises(
                        folks,
                        changed,
                        node_id as int,
                        self.count(),
                        avoided@,
                    );
                }
            },
            _ => {},
        }
        Some(self.replace_child_at_index(node, index, child))
    }

    /// Replaces the children of `node` by `children` as `set_children`
    /// does, where going up from `node` ends without meeting one of its
    /// children or one of `children`; else changes nothing and says so by
    /// returning nothing.
    pub fn set_children_if_sound(&mut self, node: Node, children: &[Node]) -> (result: Option<
        Result<(), Error>,
    >)
        requires
            old(self).wf(),
        ensures
            result is Some <==> (old(self).number_of(node) is Some && old(self).all_valid(children@)
                ==> clear_within(
                old(self).folks(),
                old(self).number_of(node).unwrap() as int,
                old(self).count(),
                old(self).kids()[old(self).number_of(node).unwrap() as int] + old(self).numbers_of(
                    children@,
                ),
            )),
            result is None ==> final(self).wf() && final(self).same_handles(old(self))
                && final(self).same_forest(old(self)) && final(self).next_local() == old(
                self,
            ).next_local(),
            result is Some ==> ({
                let result = result.unwrap();
                &&& (final(self).wf())
                &&& (final(self).same_handles(old(self)))
                &&& (final(self).next_local() == old(self).next_local())
                &&& (match result {
                Ok(_) => {
                    let id = old(self).number_of(node).unwrap();
                    let numbers = old(self).numbers_of(children@);
                    &&& old(self).number_of(node) is Some
                    &&& old(self).all_valid(children@)
                    &&& final(self).count() == old(self).count()
                    &&& final(self).kids() == old(self).kids().update(id as int, numbers)
                    &&& final(self).folks() == with_parent_added(
                        with_parent_dropped(old(self).folks(), old(self).kids()[id as int], id),
                        numbers,
                        id,
                    )
                    &&& dirtied_in(
                        old(self).states(),
                        final(self).states(),
                        above(final(self).folks(), id as int),
                    )
                },
                Err(error) => {
                    &&& final(self).same_forest(old(self))
                    &&& if old(self).number_of(node) is None {
                        error == Error::InvalidNode(node)
                    } else {
                        exists|i: int|
                            old(self).first_invalid(children@, i) && error == Error::InvalidNode(
                                #[trigger] children@[i],
                            )
                    }
                },
            })
            }),
    {
        match (self.find_node(node), self.find_all(children)) {
            (Ok(node_id), Ok(numbers)) => {
                proof {
                    self.lemma_handles_correspond(node);
                    self.lemma_numbers_correspond(node_id);
                }
                let ghost former = self.kids()[node_id as int];
                let mut avoided: Vec<usize> = Vec::new();
                let mut k: usize = 0;
                while k < self.forest.children[node_id].len()
                    invariant
                        self.wf(),
                        node_id < self.forest.count(),
                        former == self.forest.children@[node_id as int]@,
                        k <= former.len(),
                        avoided@ == former.take(k as int),
                    decreases former.len() - k,
                {
                    avoided.push(self.forest.children[node_id][k]);
                    assert(former.take(k + 1) =~= former.take(k as int).push(former[k as int]));
                    k += 1;
                }
                assert(former.take(former.len() as int) =~= former);
                let mut k: usize = 0;
                while k < numbers.len()
                    invariant
                        k <= numbers@.len(),
                        avoided@ == former + numbers@.take(k as int),
                    decreases numbers@.len() - k,
                {
                    avoided.push(numbers[k]);
                    assert(numbers@.take(k + 1) =~= numbers@.take(k as int).push(numbers@[k as int]));
                    assert(avoided@ =~= former + numbers@.take(k + 1));
                    k += 1;
                }
                assert(numbers@.take(numbers@.len() as int) =~= numbers@);
                if !self.forest.rises_clear_of(node_id, self.forest.nodes.len(), &avoided) {
                    return None;
                }
                proof {
                    let folks = self.folks();
                    assert forall|i: int| 0 <= i < numbers@.len() implies (#[trigger] numbers@[i])
                        < folks.len() by {
                        assert(self.number_of(children@[i]) is Some);
                        self.lemma_handles_correspond(children@[i]);
                    }
                    lemma_parent_dropped_elsewhere(folks, former, node_id);
                    let dropped = with_parent_dropped(folks, former, node_id);
                    lemma_parent_added_elsewhere(dropped, numbers@, node_id);
                    let changed = with_parent_added(dropped, numbers@, node_id);
                    assert(same_but_at(folks, changed, avoided@)) by {
                        assert forall|i: int|
                            0 <= i < folks.len() && !avoided@.contains(
                                i as usize,
                            ) implies #[trigger] changed[i] == folks[i] by {
                            if former.contains(i as usize) {
                                let j = choose|j: int| 0 <= j < former.len() && former[j] == i as usize;
                                assert(avoided@[j] == i as usize);
                            }
                            if numbers@.contains(i as usize) {
                                let j = choose|j: int|
                                    0 <= j < numbers@.len() && numbers@[j] == i as usize;
                                assert(avoided@[former.len() + j] == i as usize);
                            }
                        }
                    }
                    lemma_clear_still_rises(
                        folks,
                        changed,
                        node_id as int,
                        self.count(),
                        avoided@,
                    );
                }
            },
            _ => {},
        }
        Some(self.set_children(node, children))
    }


    fn handle_at(&self, id: usize) -> (node: Node)
        requires
            self.wf(),
            id < self.count(),
        ensures
            node == self.handles()[id],
            self.number_of(node) == Some(id),
    {
        assert(self.ids_to_nodes@.contains_key(id));
        let ghost h = self.ids_to_nodes@[id];
        assert(self.nodes_to_ids@.contains_key(h.local));
        match self.ids_to_nodes.get(&id) {
            Some(node) => *node,
            None => vstd::pervasive::unreached(),
        }
    }

    /// The handles of the children of `node`, in order; each of them
    /// names a node, the child at its place.
    pub fn children(&self, node: Node) -> (result: Result<Vec<Node>, Error>)
        requires
            self.wf(),
        ensures
            match self.number_of(node) {
                Some(id) => result is Ok && result.unwrap()@ == self.handles_of(
                    self.kids()[id as int],
                ) && self.all_valid(result.unwrap()@) && self.numbers_of(result.unwrap()@)
                    == self.kids()[id as int],
                None => result == Err::<Vec<Node>, Error>(Error::InvalidNode(node)),
            },
    {
        let id = match self.find_node(node) {
            Ok(id) => id,
            Err(error) => {
                return Err(error);
            },
        };
        proof {
            self.lemma_handles_correspond(node);
        }
        let ghost list = self.kids()[id as int];
        let mut out: Vec<Node> = Vec::new();
        let mut i: usize = 0;
        while i < self.forest.children[id].len()
            invariant
                self.wf(),
                id < self.forest.count(),
                list == self.forest.children@[id as int]@,
                i <= list.len(),
                out@.len() == i,
                forall|j: int| 0 <= j < i ==> out@[j] == self.handles()[#[trigger] list[j]],
            decreases list.len() - i,
        {
            let child = self.forest.children[id][i];
            assert(self.forest.kids()[id as int][i as int] == child);
            out.push(self.handle_at(child));
            i += 1;
        }
        assert(out@ =~= self.handles_of(list));
        proof {
            self.lemma_numbers_correspond(id);
            assert forall|j: int| 0 <= j < out@.len() implies self.number_of(#[trigger] out@[j])
                == Some(list[j]) by {
                self.lemma_numbers_correspond(list[j]);
            }
            assert(self.numbers_of(out@) =~= list);
        }
        Ok(out)
    }

    /// The handle of the child of `node` at `index`.
    pub fn child_at_index(&self, node: Node, index: usize) -> (result: Result<Node, Error>)
        requires
            self.wf(),
            self.number_of(node) is Some ==> index < self.kids()[self.number_of(
                node,
            ).unwrap() as int].len(),
        ensures
            match self.number_of(node) {
                Some(id) => result == Ok::<Node, Error>(
                    self.handles()[self.kids()[id as int][index as int]],
                ),
                None => result == Err::<Node, Error>(Error::InvalidNode(node)),
            },
    {
        let id = match self.find_node(node) {
            Ok(id) => id,
            Err(error) => {
                return Err(error);
            },
        };
        proof {
            self.lemma_handles_correspond(node);
        }
        let child = self.forest.children[id][index];
        assert(self.forest.kids()[id as int][index as int] == child);
        Ok(self.handle_at(child))
    }

    /// The number of children of `node`.
    pub fn child_count(&self, node: Node) -> (result: Result<usize, Error>)
        requires
            self.wf(),
        ensures
            match self.number_of(node) {
                Some(id) => result == Ok::<usize, Error>(self.kids()[id as int].len() as usize),
                None => result == Err::<usize, Error>(Error::InvalidNode(node)),
            },
    {
        let id = match self.find_node(node) {
            Ok(id) => id,
            Err(error) => {
                return Err(error);
            },
        };
        proof {
            self.lemma_handles_correspond(node);
        }
        Ok(self.forest.children[id].len())
    }

    /// Sets the style of `node`; `node` and the nodes above it are out of
    /// date. Fails, changing nothing, if `node` names no node.
    pub fn set_style(&mut self, node: Node, style: Style) -> (result: Result<(), Error>)
        requires
            old(self).wf(),
            old(self).number_of(node) is Some ==> rises(
                old(self).folks(),
                old(self).number_of(node).unwrap() as int,
            ),
        ensures
            final(self).wf(),
            final(self).same_handles(old(self)),
            final(self).next_local() == old(self).next_local(),
            final(self).count() == old(self).count(),
            final(self).kids() == old(self).kids(),
            final(self).folks() == old(self).folks(),
            match old(self).number_of(node) {
                Some(id) => {
                    &&& result is Ok
                    &&& final(self).states()[id as int].style == style
                    &&& forall|i: int|
                        0 <= i < old(self).count() ==> {
                            &&& i != id ==> (#[trigger] final(self).states()[i]).style == old(self).states()[i].style
                            &&& final(self).states()[i].layout == old(self).states()[i].layout
                            &&& final(self).states()[i].is_dirty == (old(self).states()[i].is_dirty || above(old(self).folks(), id as int).contains(
                                i,
                            ))
                        }
                },
                None => result == Err::<(), Error>(Error::InvalidNode(node)) && final(self).same_forest(old(self)),
            },
    {
        let id = match self.find_node(node) {
            Ok(id) => id,
            Err(error) => {
                return Err(error);
            },
        };
        self.forest.set_style(id, style);
        Ok(())
    }

    /// The style of `node`.
    pub fn style(&self, node: Node) -> (result: Result<&Style, Error>)
        requires
            self.wf(),
        ensures
            match self.number_of(node) {
                Some(id) => result is Ok && *result.unwrap() == self.states()[id as int].style,
                None => result == Err::<&Style, Error>(Error::InvalidNode(node)),
            },
    {
        let id = match self.find_node(node) {
            Ok(id) => id,
            Err(error) => {
                return Err(error);
            },
        };
        proof {
            self.lemma_handles_correspond(node);
        }
        Ok(&self.forest.nodes[id].style)
    }

    /// The layout of `node`, relative to its parent.
    pub fn layout(&self, node: Node) -> (result: Result<&Layout, Error>)
        requires
            self.wf(),
        ensures
            match self.number_of(node) {
                Some(id) => result is Ok && *result.unwrap() == self.states()[id as int].layout,
                None => result == Err::<&Layout, Error>(Error::InvalidNode(node)),
            },
    {
        let id = match self.find_node(node) {
            Ok(id) => id,
            Err(error) => {
                return Err(error);
            },
        };
        proof {
            self.lemma_handles_correspond(node);
        }
        Ok(&self.forest.nodes[id].layout)
    }

    /// Marks `node` and the nodes above it as out of date. Fails, changing
    /// nothing, if `node` names no node.
    pub fn mark_dirty(&mut self, node: Node) -> (result: Result<(), Error>)
        requires
            old(self).wf(),
            old(self).number_of(node) is Some ==> rises(
                old(self).folks(),
                old(self).number_of(node).unwrap() as int,
            ),
        ensures
            final(self).wf(),
            final(self).same_handles(old(self)),
            final(self).next_local() == old(self).next_local(),
            final(self).count() == old(self).count(),
            final(self).kids() == old(self).kids(),
            final(self).folks() == old(self).folks(),
            match old(self).number_of(node) {
                Some(id) => result is Ok && dirtied_in(
                    old(self).states(),
                    final(self).states(),
                    above(old(self).folks(), id as int),
                ),
                None => result == Err::<(), Error>(Error::InvalidNode(node)) && final(self).same_forest(old(self)),
            },
    {
        let id = match self.find_node(node) {
            Ok(id) => id,
            Err(error) => {
                return Err(error);
            },
        };
        self.forest.mark_dirty(id);
        Ok(())
    }

    /// Whether the layout of `node` is out of date.
    pub fn dirty(&self, node: Node) -> (result: Result<bool, Error>)
        requires
            self.wf(),
        ensures
            match self.number_of(node) {
                Some(id) => result == Ok::<bool, Error>(self.states()[id as int].is_dirty),
                None => result == Err::<bool, Error>(Error::InvalidNode(node)),
            },
    {
        let id = match self.find_node(node) {
            Ok(id) => id,
            Err(error) => {
                return Err(error);
            },
        };
        proof {
            self.lemma_handles_correspond(node);
        }
        Ok(self.forest.nodes[id].is_dirty)
    }
    /// Whether `node` names a node from which going up ends within as many
    /// steps as the tree has nodes, which it does in every tree that does
    /// not run in a circle: a test for what marking and the functions that
    /// change the tree ask of their callers.
    pub fn ancestors_are_sound(&self, node: Node) -> (sound: bool)
        requires
            self.wf(),
        ensures
            sound == (match self.number_of(node) {
                Some(id) => crate::forest::rises_within(self.folks(), id as int, self.count()),
                None => false,
            }),
            sound ==> rises(self.folks(), self.number_of(node).unwrap() as int),
    {
        match self.find_node(node) {
            Ok(id) => self.forest.rises_within_height(id, self.forest.nodes.len()),
            Err(_) => false,
        }
    }
}

} // verus!
