//! The driver: which algorithm lays out a node and what a node remembers
//! of it, what the root is laid out with, and the sweep that zeroes a
//! subtree without boxes.

use crate::tree::cache::{made_of_numbers, Cache};
use crate::geometry::{Line, Point, Size};
use crate::scalar::Scalar;
use crate::style::dimension::AvailableSpace;
use crate::style::Display;
use crate::tree::slots::{key_of, NodeData};
use crate::tree::taffy_tree::{
    find_children_recursive, flattened, flattens_within, holds, lemma_resolved_children_at, record,
    resolvable, resolved_children, Nodes, Taffy,
};
use crate::tree::{Layout, LayoutInput, LayoutOutput, NodeId, RunMode, SizingMode};
use vstd::prelude::*;

verus! {

/// The ways to lay out a node.
#[derive(Copy, Clone, Debug, PartialEq, Eq, Structural)]
pub enum LayoutAlgorithm {
    /// The node and everything below it make no box.
    Hidden,
    /// The node makes no box; its children are laid out by its parent.
    Contents,
    /// Block layout.
    Block,
    /// Flexbox layout.
    Flexbox,
    /// Grid layout.
    Grid,
    /// Layout of a node without children.
    Leaf,
}

/// The algorithm for a node with the given display. `Hidden` and
/// `Contents` decide by themselves; a node without children is a leaf
/// whatever else its display says; block, flex and grid containers get
/// their own algorithm.
pub open spec fn algorithm_for(display: Display, has_children: bool) -> LayoutAlgorithm {
    match display {
        Display::Hidden => LayoutAlgorithm::Hidden,
        Display::Contents => LayoutAlgorithm::Contents,
        _ => if !has_children {
            LayoutAlgorithm::Leaf
        } else {
            match display {
                Display::Block => LayoutAlgorithm::Block,
                Display::Flex => LayoutAlgorithm::Flexbox,
                _ => LayoutAlgorithm::Grid,
            }
        },
    }
}

/// The algorithm for a node with the given display.
pub fn select_algorithm(display: Display, has_children: bool) -> (algorithm: LayoutAlgorithm)
    ensures
        algorithm == algorithm_for(display, has_children),
{
    match (display, has_children) {
        (Display::Hidden, _) => LayoutAlgorithm::Hidden,
        (Display::Contents, _) => LayoutAlgorithm::Contents,
        (_, false) => LayoutAlgorithm::Leaf,
        (Display::Block, true) => LayoutAlgorithm::Block,
        (Display::Flex, true) => LayoutAlgorithm::Flexbox,
        (Display::Grid, true) => LayoutAlgorithm::Grid,
    }
}

/// Whether an algorithm begins by forgetting what the node remembers.
pub open spec fn forgets(algorithm: LayoutAlgorithm) -> bool {
    algorithm == LayoutAlgorithm::Hidden || algorithm == LayoutAlgorithm::Contents
}

/// Lays out a node, given what it remembers, through `run`, which runs
/// the algorithm that it is handed. A hidden run forgets what the node
/// remembers and runs the hidden algorithm whatever the node's display.
/// Any other run first asks what is remembered: if that answers, it is
/// the result and nothing else happens; else the algorithm for the
/// node's display is run, and its result is remembered under what the
/// node was laid out with. A node that makes no box forgets everything
/// else. Either way the node then remembers the result: asked again with
/// the same, it gives the same and runs nothing.
pub fn compute_node_layout<F: FnOnce(LayoutAlgorithm, LayoutInput) -> LayoutOutput>(
    cache: &mut Cache,
    display: Display,
    has_children: bool,
    inputs: LayoutInput,
    run: F,
) -> (output: LayoutOutput)
    requires
        forall|algorithm: LayoutAlgorithm| call_requires(run, (algorithm, inputs)),
    ensures
        old(cache).in_place() ==> final(cache).in_place(),
        inputs.run_mode != RunMode::PerformHiddenLayout && old(cache).in_place() && made_of_numbers(
            inputs.known_dimensions,
            inputs.available_space,
        ) ==> final(cache).gives(
            inputs.known_dimensions,
            inputs.available_space,
            inputs.run_mode,
            Some(output),
        ),
        inputs.run_mode == RunMode::PerformHiddenLayout ==> final(cache).empty() && call_ensures(
            run,
            (LayoutAlgorithm::Hidden, inputs),
            output,
        ),
        inputs.run_mode != RunMode::PerformHiddenLayout ==> exists|remembered: Option<LayoutOutput>|
            #[trigger] old(cache).gives(
                inputs.known_dimensions,
                inputs.available_space,
                inputs.run_mode,
                remembered,
            ) && (match remembered {
                Some(hit) => output == hit && *final(cache) == *old(cache),
                None => call_ensures(run, (algorithm_for(display, has_children), inputs), output)
                    && exists|base: Cache|
                    (if forgets(algorithm_for(display, has_children)) {
                        base.empty()
                    } else {
                        base == *old(cache)
                    }) && final(cache).final_layout_entry == (#[trigger] base.stored(
                        inputs.known_dimensions,
                        inputs.available_space,
                        inputs.run_mode,
                        output,
                    )).0 && final(cache).measure_entries@ == base.stored(
                        inputs.known_dimensions,
                        inputs.available_space,
                        inputs.run_mode,
                        output,
                    ).1,
            }),
{
    if matches!(inputs.run_mode, RunMode::PerformHiddenLayout) {
        cache.clear();
        return run(LayoutAlgorithm::Hidden, inputs);
    }
    let remembered = cache.get(inputs.known_dimensions, inputs.available_space, inputs.run_mode);
    assert(cache.gives(
        inputs.known_dimensions,
        inputs.available_space,
        inputs.run_mode,
        remembered,
    ));
    match remembered {
        Some(hit) => {
            return hit;
        },
        None => {},
    }
    let algorithm = select_algorithm(display, has_children);
    match algorithm {
        LayoutAlgorithm::Hidden | LayoutAlgorithm::Contents => {
            cache.clear();
        },
        _ => {},
    }
    let ghost base = *cache;
    let output = run(algorithm, inputs);
    cache.store(inputs.known_dimensions, inputs.available_space, inputs.run_mode, output);
    proof {
        if base.in_place() && made_of_numbers(inputs.known_dimensions, inputs.available_space) {
            crate::tree::cache::lemma_asking_again_gives_the_same(
                base,
                *cache,
                inputs.known_dimensions,
                inputs.available_space,
                inputs.run_mode,
                output,
            );
        }
        let stored = base.stored(
            inputs.known_dimensions,
            inputs.available_space,
            inputs.run_mode,
            output,
        );
        assert(cache.final_layout_entry == stored.0);
    }
    output
}

/// What the root is laid out with: a full layout under its own size
/// styles, no dimension known, the space on offer both as the available
/// space and, where definite, as the parent's size, and margins that do
/// not collapse with anything.
pub open spec fn root_input(available_space: Size<AvailableSpace>) -> LayoutInput {
    LayoutInput {
        run_mode: RunMode::PerformLayout,
        sizing_mode: SizingMode::InherentSize,
        known_dimensions: Size { width: None, height: None },
        parent_size: Size {
            width: available_space.width.amount(),
            height: available_space.height.amount(),
        },
        available_space,
        vertical_margins_are_collapsible: Line { start: false, end: false },
    }
}

/// What the root is laid out with.
pub fn root_layout_input(available_space: Size<AvailableSpace>) -> (input: LayoutInput)
    ensures
        input == root_input(available_space),
{
    LayoutInput {
        run_mode: RunMode::PerformLayout,
        sizing_mode: SizingMode::InherentSize,
        known_dimensions: Size::none(),
        parent_size: available_space.into_options(),
        available_space,
        vertical_margins_are_collapsible: Line::both_false(),
    }
}

/// The layout of the root: the computed size at the origin, first in order.
pub fn root_layout(size: Size<Scalar>) -> (layout: Layout)
    ensures
        layout == (Layout {
            order: 0,
            size,
            location: Point { x: Scalar::zero_value(), y: Scalar::zero_value() },
        }),
{
    Layout { order: 0, size, location: Point { x: Scalar(0), y: Scalar(0) } }
}

/// What a node in a subtree without boxes is laid out with: a hidden
/// run, with nothing known and no bound on the space.
pub open spec fn hidden_input() -> LayoutInput {
    LayoutInput {
        run_mode: RunMode::PerformHiddenLayout,
        sizing_mode: SizingMode::InherentSize,
        known_dimensions: Size { width: None, height: None },
        parent_size: Size { width: None, height: None },
        available_space: Size { width: AvailableSpace::MaxContent, height: AvailableSpace::MaxContent },
        vertical_margins_are_collapsible: Line { start: false, end: false },
    }
}

/// What a node in a subtree without boxes is laid out with.
pub fn hidden_layout_input() -> (input: LayoutInput)
    ensures
        input == hidden_input(),
{
    LayoutInput {
        run_mode: RunMode::PerformHiddenLayout,
        sizing_mode: SizingMode::InherentSize,
        known_dimensions: Size::none(),
        parent_size: Size::none(),
        available_space: Size::<AvailableSpace>::max_content(),
        vertical_margins_are_collapsible: Line::both_false(),
    }
}

/// Whether `a` and `b` hold the same nodes with the same children, parents
/// and styles.
pub open spec fn same_shape(a: Nodes, b: Nodes) -> bool {
    &&& a.dom() == b.dom()
    &&& forall|k: u64| #[trigger]
        a.dom().contains(k) ==> {
            &&& a[k].children == b[k].children
            &&& a[k].parent == b[k].parent
            &&& a[k].data.style == b[k].data.style
        }
}

/// Whether `after` is `before` with the nodes whose keys are in `set`
/// zeroed: their computed layout is that of an empty box, and they
/// remember nothing. Nothing else differs.
pub open spec fn swept(before: Nodes, after: Nodes, set: Set<u64>) -> bool {
    &&& same_shape(before, after)
    &&& forall|k: u64| #[trigger]
        before.dom().contains(k) ==> {
            &&& after[k].data.final_layout == before[k].data.final_layout
            &&& after[k].data.needs_measure == before[k].data.needs_measure
            &&& if set.contains(k) {
                after[k].data.cache.empty() && after[k].data.unrounded_layout == Layout::zeroed(0)
            } else {
                after[k].data.cache == before[k].data.cache && after[k].data.unrounded_layout
                    == before[k].data.unrounded_layout
            }
        }
}

/// Whether the subtrees below the nodes of `list` can be swept by going at
/// most `depth` levels down.
pub open spec fn sweeps_within_list(nodes: Nodes, list: Seq<NodeId>, depth: nat) -> bool
    decreases depth, list.len(), 0nat,
{
    list.len() == 0 || (sweeps_within_list(nodes, list.drop_last(), depth) && sweeps_within(
        nodes,
        list.last(),
        depth,
    ))
}

/// Whether the subtree below `node` can be swept by going at most `depth`
/// levels down: the children of every node in it can be resolved, and the
/// subtree does not run in a circle.
pub open spec fn sweeps_within(nodes: Nodes, node: NodeId, depth: nat) -> bool
    decreases depth, 0nat, 0nat,
{
    &&& resolvable(nodes, node)
    &&& resolved_children(nodes, node).len() > 0 ==> depth > 0 && sweeps_within_list(
        nodes,
        resolved_children(nodes, node),
        (depth - 1) as nat,
    )
}

/// The keys of the nodes in the subtrees below the nodes of `list`.
pub open spec fn sweep_set_of_list(nodes: Nodes, list: Seq<NodeId>, depth: nat) -> Set<u64>
    decreases depth, list.len(), 0nat,
{
    if list.len() == 0 {
        Set::empty()
    } else {
        sweep_set_of_list(nodes, list.drop_last(), depth).union(
            sweep_set(nodes, list.last(), depth),
        )
    }
}

/// The keys of the nodes in the subtree below `node`, `node` included, as
/// the layout algorithms see it: through resolved children.
pub open spec fn sweep_set(nodes: Nodes, node: NodeId, depth: nat) -> Set<u64>
    decreases depth, 0nat, 0nat,
{
    if depth == 0 {
        set![key_of(node.0)]
    } else {
        sweep_set_of_list(nodes, resolved_children(nodes, node), (depth - 1) as nat).insert(
            key_of(node.0),
        )
    }
}

/// Whether the subtree below `node` can be swept.
pub open spec fn sweepable(nodes: Nodes, node: NodeId) -> bool {
    exists|depth: nat| sweeps_within(nodes, node, depth)
}

/// The keys of the nodes in the subtree below `node`, `node` included.
pub open spec fn subtree(nodes: Nodes, node: NodeId) -> Set<u64> {
    sweep_set(nodes, node, choose|depth: nat| sweeps_within(nodes, node, depth))
}

proof fn lemma_shape_flattens(a: Nodes, b: Nodes, list: Seq<NodeId>, depth: nat)
    requires
        same_shape(a, b),
    ensures
        flattens_within(a, list, depth) == flattens_within(b, list, depth),
        flattens_within(a, list, depth) ==> flattened(a, list, depth) == flattened(b, list, depth),
    decreases depth, list.len(),
{
    if list.len() > 0 {
        let last = list.last();
        lemma_shape_flattens(a, b, list.drop_last(), depth);
        if holds(a, last) {
            assert(a.dom().contains(key_of(last.0)));
            if depth > 0 {
                lemma_shape_flattens(a, b, record(a, last).children, (depth - 1) as nat);
            }
        }
    }
}

pub(crate) proof fn lemma_shape_resolves(a: Nodes, b: Nodes, node: NodeId)
    requires
        same_shape(a, b),
        resolvable(a, node),
    ensures
        resolvable(b, node),
        resolved_children(b, node) == resolved_children(a, node),
{
    let d = choose|d: nat| flattens_within(a, record(a, node).children, d);
    assert(a.dom().contains(key_of(node.0)));
    lemma_shape_flattens(a, b, record(a, node).children, d);
    lemma_resolved_children_at(a, node, d);
    lemma_resolved_children_at(b, node, d);
}

pub(crate) proof fn lemma_shape_sweeps_list(a: Nodes, b: Nodes, list: Seq<NodeId>, depth: nat)
    requires
        same_shape(a, b),
        sweeps_within_list(a, list, depth),
    ensures
        sweeps_within_list(b, list, depth),
        sweep_set_of_list(b, list, depth) == sweep_set_of_list(a, list, depth),
    decreases depth, list.len(), 0nat,
{
    if list.len() > 0 {
        lemma_shape_sweeps_list(a, b, list.drop_last(), depth);
        lemma_shape_sweeps(a, b, list.last(), depth);
    }
}

pub(crate) proof fn lemma_shape_sweeps(a: Nodes, b: Nodes, node: NodeId, depth: nat)
    requires
        same_shape(a, b),
        sweeps_within(a, node, depth),
    ensures
        sweeps_within(b, node, depth),
        sweep_set(b, node, depth) == sweep_set(a, node, depth),
    decreases depth, 0nat, 1nat,
{
    lemma_shape_resolves(a, b, node);
    if depth > 0 {
        if resolved_children(a, node).len() > 0 {
            lemma_shape_sweeps_list(a, b, resolved_children(a, node), (depth - 1) as nat);
        } else {
            assert(resolved_children(a, node) =~= Seq::empty());
        }
    }
}

pub(crate) proof fn lemma_prefix_sweeps(nodes: Nodes, list: Seq<NodeId>, depth: nat, i: int)
    requires
        sweeps_within_list(nodes, list, depth),
        0 <= i <= list.len(),
    ensures
        sweeps_within_list(nodes, list.take(i), depth),
    decreases list.len(),
{
    if i < list.len() {
        lemma_prefix_sweeps(nodes, list.drop_last(), depth, i);
        assert(list.drop_last().take(i) =~= list.take(i));
    } else {
        assert(list.take(i) =~= list);
    }
}

proof fn lemma_swept_twice(a: Nodes, b: Nodes, c: Nodes, first: Set<u64>, second: Set<u64>)
    requires
        swept(a, b, first),
        swept(b, c, second),
    ensures
        swept(a, c, first.union(second)),
{
    assert forall|k: u64| #[trigger] a.dom().contains(k) implies {
        &&& a[k].children == c[k].children
        &&& a[k].parent == c[k].parent
        &&& a[k].data.style == c[k].data.style
        &&& c[k].data.final_layout == a[k].data.final_layout
        &&& c[k].data.needs_measure == a[k].data.needs_measure
        &&& if first.union(second).contains(k) {
            c[k].data.cache.empty() && c[k].data.unrounded_layout == Layout::zeroed(0)
        } else {
            c[k].data.cache == a[k].data.cache && c[k].data.unrounded_layout
                == a[k].data.unrounded_layout
        }
    } by {
        assert(b.dom().contains(k));
        if second.contains(k) {
        } else if first.contains(k) {
            assert(c[k].data.cache == b[k].data.cache);
            assert(b[k].data.cache.empty());
        }
    }
}

fn hide_within<NodeContext>(tree: &mut Taffy<NodeContext>, node: NodeId, Ghost(depth): Ghost<nat>)
    requires
        sweeps_within(old(tree)@, node, depth),
    ensures
        swept(old(tree)@, final(tree)@, sweep_set(old(tree)@, node, depth)),
        final(tree).rounds() == old(tree).rounds(),
        final(tree).contexts() == old(tree).contexts(),
    decreases depth,
{
    let ghost before = tree@;
    let data = tree.node_data_mut(node);
    data.cache.clear();
    data.unrounded_layout = Layout::with_order(0);
    let ghost zeroed = tree@;
    proof {
        assert(zeroed.dom() =~= before.dom());
        assert(swept(before, zeroed, set![key_of(node.0)]));
        lemma_shape_resolves(before, zeroed, node);
    }
    let mut children: Vec<NodeId> = Vec::new();
    find_children_recursive(tree, node, &mut children);
    let ghost list = resolved_children(before, node);
    proof {
        assert(children@ =~= list);
        assert(list.take(0) =~= Seq::empty());
        assert(set![key_of(node.0)].union(Set::empty()) =~= set![key_of(node.0)]);
    }
    let mut i: usize = 0;
    while i < children.len()
        invariant
            i <= children.len(),
            children@ == list,
            list == resolved_children(before, node),
            sweeps_within(before, node, depth),
            swept(
                before,
                tree@,
                set![key_of(node.0)].union(
                    sweep_set_of_list(before, list.take(i as int), (depth - 1) as nat),
                ),
            ),
            tree.rounds() == old(tree).rounds(),
            tree.contexts() == old(tree).contexts(),
        decreases children.len() - i,
    {
        let child = children[i];
        let ghost mid = tree@;
        let ghost done = set![key_of(node.0)].union(
            sweep_set_of_list(before, list.take(i as int), (depth - 1) as nat),
        );
        proof {
            assert(depth > 0);
            lemma_prefix_sweeps(before, list, (depth - 1) as nat, i + 1);
            assert(list.take(i + 1).drop_last() =~= list.take(i as int));
            assert(list.take(i + 1).last() == child);
            assert(sweeps_within(before, child, (depth - 1) as nat));
            lemma_shape_sweeps(before, mid, child, (depth - 1) as nat);
        }
        hide_within(tree, child, Ghost((depth - 1) as nat));
        proof {
            lemma_swept_twice(before, mid, tree@, done, sweep_set(before, child, (depth - 1) as nat));
            assert(done.union(sweep_set(before, child, (depth - 1) as nat)) =~= set![
                key_of(node.0),
            ].union(sweep_set_of_list(before, list.take(i + 1), (depth - 1) as nat)));
        }
        i += 1;
    }
    proof {
        assert(list.take(list.len() as int) =~= list);
        if depth > 0 {
            assert(set![key_of(node.0)].union(
                sweep_set_of_list(before, list, (depth - 1) as nat),
            ) =~= sweep_set(before, node, depth));
        } else {
            assert(list.len() == 0);
            assert(set![key_of(node.0)].union(
                sweep_set_of_list(before, list, (depth - 1) as nat),
            ) =~= sweep_set(before, node, depth));
        }
    }
}

/// Lays out a subtree that makes no boxes: `node` and every node below it,
/// as the layout algorithms see the tree, gets the layout of an empty box
/// and forgets what it remembers. Returns the output of a node without a box.
pub fn compute_hidden_layout<NodeContext>(tree: &mut Taffy<NodeContext>, node: NodeId) -> (output:
    LayoutOutput)
    requires
        sweepable(old(tree)@, node),
    ensures
        output == LayoutOutput::hidden_value(),
        swept(old(tree)@, final(tree)@, subtree(old(tree)@, node)),
        final(tree).rounds() == old(tree).rounds(),
        final(tree).contexts() == old(tree).contexts(),
{
    let ghost depth = choose|depth: nat| sweeps_within(tree@, node, depth);
    hide_within(tree, node, Ghost(depth));
    LayoutOutput::hidden()
}

/// Lays out a node that makes no box of its own but whose children stand
/// in its place: the node gets the layout of an empty box and forgets what
/// it remembers; its children are not touched. Returns the output of a
/// node without a box.
pub fn compute_contents_layout<NodeContext>(tree: &mut Taffy<NodeContext>, node: NodeId) -> (output:
    LayoutOutput)
    requires
        holds(old(tree)@, node),
    ensures
        output == LayoutOutput::hidden_value(),
        swept(old(tree)@, final(tree)@, set![key_of(node.0)]),
        final(tree).rounds() == old(tree).rounds(),
        final(tree).contexts() == old(tree).contexts(),
{
    let ghost before = tree@;
    let data = tree.node_data_mut(node);
    data.unrounded_layout = Layout::with_order(0);
    data.cache.clear();
    proof {
        assert(tree@.dom() =~= before.dom());
    }
    LayoutOutput::hidden()
}

/// The set of nodes in a subtree does not depend on how many levels the
/// sweep was allowed to go down, as long as those were enough.
pub proof fn lemma_sweep_set_is_stable(nodes: Nodes, node: NodeId, d1: nat, d2: nat)
    requires
        sweeps_within(nodes, node, d1),
        sweeps_within(nodes, node, d2),
    ensures
        sweep_set(nodes, node, d1) == sweep_set(nodes, node, d2),
    decreases d1, 0nat, 1nat,
{
    if resolved_children(nodes, node).len() > 0 {
        lemma_sweep_set_of_list_is_stable(
            nodes,
            resolved_children(nodes, node),
            (d1 - 1) as nat,
            (d2 - 1) as nat,
        );
    } else {
        assert(resolved_children(nodes, node) =~= Seq::empty());
        if d1 > 0 {
            assert(sweep_set(nodes, node, d1) =~= set![key_of(node.0)]);
        }
        if d2 > 0 {
            assert(sweep_set(nodes, node, d2) =~= set![key_of(node.0)]);
        }
    }
}

proof fn lemma_sweep_set_of_list_is_stable(nodes: Nodes, list: Seq<NodeId>, d1: nat, d2: nat)
    requires
        sweeps_within_list(nodes, list, d1),
        sweeps_within_list(nodes, list, d2),
    ensures
        sweep_set_of_list(nodes, list, d1) == sweep_set_of_list(nodes, list, d2),
    decreases d1, list.len(), 0nat,
{
    if list.len() > 0 {
        lemma_sweep_set_of_list_is_stable(nodes, list.drop_last(), d1, d2);
        lemma_sweep_set_is_stable(nodes, list.last(), d1, d2);
    }
}

/// The subtree of a node is what a sweep of any depth that is enough reaches.
pub proof fn lemma_subtree_at(nodes: Nodes, node: NodeId, depth: nat)
    requires
        sweeps_within(nodes, node, depth),
    ensures
        subtree(nodes, node) == sweep_set(nodes, node, depth),
{
    let d = choose|d: nat| sweeps_within(nodes, node, d);
    lemma_sweep_set_is_stable(nodes, node, d, depth);
}

/// Whether everything below the nodes of `list` is in the tree and at most
/// `depth` levels further down.
pub open spec fn descends_within_list(nodes: Nodes, list: Seq<NodeId>, depth: nat) -> bool
    decreases depth, list.len(), 0nat,
{
    list.len() == 0 || (descends_within_list(nodes, list.drop_last(), depth) && descends_within(
        nodes,
        list.last(),
        depth,
    ))
}

/// Whether `node` and everything below it is in the tree, and nothing
/// below it more than `depth` levels down: the children of a node at the
/// last level have none.
pub open spec fn descends_within(nodes: Nodes, node: NodeId, depth: nat) -> bool
    decreases depth, 0nat, 0nat,
{
    &&& holds(nodes, node)
    &&& record(nodes, node).children.len() > 0 ==> depth > 0 && descends_within_list(
        nodes,
        record(nodes, node).children,
        (depth - 1) as nat,
    )
}

/// Whether `node` and everything below it is in the tree and nothing below
/// it more than `depth` levels down: a test for what the sweep and the
/// resolution of children ask of their callers. A tree that does not run in
/// a circle passes with its number of nodes for a depth.
pub fn subtree_is_sound<NodeContext>(tree: &Taffy<NodeContext>, node: NodeId, depth: usize) -> (sound:
    bool)
    ensures
        sound == descends_within(tree@, node, depth as nat),
        sound ==> sweepable(tree@, node) && resolvable(tree@, node),
    decreases depth,
{
    if !tree.contains(node) {
        return false;
    }
    let children = match tree.children(node) {
        Ok(children) => children,
        Err(_) => vstd::pervasive::unreached(),
    };
    if children.len() == 0 {
        proof {
            lemma_sound_subtree_sweeps(tree@, node, depth as nat);
        }
        return true;
    }
    if depth == 0 {
        return false;
    }
    let ghost list = children@;
    let mut i: usize = 0;
    while i < children.len()
        invariant
            i <= children.len(),
            list == children@,
            list == record(tree@, node).children,
            depth > 0,
            descends_within_list(tree@, list.take(i as int), (depth - 1) as nat),
        decreases children.len() - i,
    {
        proof {
            assert(list.take(i + 1).drop_last() =~= list.take(i as int));
            assert(list.take(i + 1).last() == children@[i as int]);
        }
        if !subtree_is_sound(tree, children[i], depth - 1) {
            proof {
                lemma_prefix_descends(tree@, list, (depth - 1) as nat, i + 1);
            }
            return false;
        }
        i += 1;
    }
    proof {
        assert(list.take(list.len() as int) =~= list);
        lemma_sound_subtree_sweeps(tree@, node, depth as nat);
    }
    true
}

proof fn lemma_prefix_descends(nodes: Nodes, list: Seq<NodeId>, depth: nat, i: int)
    requires
        0 <= i <= list.len(),
    ensures
        descends_within_list(nodes, list, depth) ==> descends_within_list(nodes, list.take(i), depth),
    decreases list.len(),
{
    if i < list.len() {
        lemma_prefix_descends(nodes, list.drop_last(), depth, i);
        assert(list.drop_last().take(i) =~= list.take(i));
    } else {
        assert(list.take(i) =~= list);
    }
}

proof fn lemma_descends_further_list(nodes: Nodes, list: Seq<NodeId>, d1: nat, d2: nat)
    requires
        descends_within_list(nodes, list, d1),
        d1 <= d2,
    ensures
        descends_within_list(nodes, list, d2),
    decreases d1, list.len(), 0nat,
{
    if list.len() > 0 {
        lemma_descends_further_list(nodes, list.drop_last(), d1, d2);
        lemma_descends_further(nodes, list.last(), d1, d2);
    }
}

proof fn lemma_descends_further(nodes: Nodes, node: NodeId, d1: nat, d2: nat)
    requires
        descends_within(nodes, node, d1),
        d1 <= d2,
    ensures
        descends_within(nodes, node, d2),
    decreases d1, 0nat, 1nat,
{
    if record(nodes, node).children.len() > 0 {
        lemma_descends_further_list(
            nodes,
            record(nodes, node).children,
            (d1 - 1) as nat,
            (d2 - 1) as nat,
        );
    }
}

proof fn lemma_sound_list_flattens(nodes: Nodes, list: Seq<NodeId>, depth: nat)
    requires
        descends_within_list(nodes, list, depth),
    ensures
        flattens_within(nodes, list, depth + 1),
        forall|i: int|
            0 <= i < flattened(nodes, list, depth + 1).len() ==> descends_within(
                nodes,
                #[trigger] flattened(nodes, list, depth + 1)[i],
                depth,
            ),
    decreases depth, list.len(),
{
    if list.len() > 0 {
        let last = list.last();
        let before = flattened(nodes, list.drop_last(), depth + 1);
        assert(descends_within_list(nodes, list.drop_last(), depth));
        assert(descends_within(nodes, last, depth));
        lemma_sound_list_flattens(nodes, list.drop_last(), depth);
        if record(nodes, last).data.style.display == Display::Contents {
            let below = record(nodes, last).children;
            if below.len() > 0 {
                assert(depth > 0);
                assert(descends_within_list(nodes, below, (depth - 1) as nat));
                lemma_sound_list_flattens(nodes, below, (depth - 1) as nat);
                assert(flattens_within(nodes, below, depth));
                let inner = flattened(nodes, below, depth);
                assert forall|i: int|
                    0 <= i < flattened(nodes, list, depth + 1).len() implies descends_within(
                    nodes,
                    #[trigger] flattened(nodes, list, depth + 1)[i],
                    depth,
                ) by {
                    if i >= before.len() {
                        let r = inner[i - before.len()];
                        assert(flattened(nodes, list, depth + 1)[i] == r);
                        assert(descends_within(nodes, r, (depth - 1) as nat));
                        lemma_descends_further(nodes, r, (depth - 1) as nat, depth);
                    } else {
                        assert(flattened(nodes, list, depth + 1)[i] == before[i]);
                    }
                }
            } else {
                assert(flattens_within(nodes, below, depth));
                assert(flattened(nodes, below, depth) =~= Seq::empty());
                assert(flattened(nodes, list, depth + 1) =~= before);
            }
        } else {
            assert forall|i: int|
                0 <= i < flattened(nodes, list, depth + 1).len() implies descends_within(
                nodes,
                #[trigger] flattened(nodes, list, depth + 1)[i],
                depth,
            ) by {
                if i < before.len() {
                    assert(flattened(nodes, list, depth + 1)[i] == before[i]);
                }
            }
        }
    }
}

proof fn lemma_all_sweep(nodes: Nodes, list: Seq<NodeId>, depth: nat)
    requires
        forall|i: int| 0 <= i < list.len() ==> sweeps_within(nodes, #[trigger] list[i], depth),
    ensures
        sweeps_within_list(nodes, list, depth),
    decreases list.len(),
{
    if list.len() > 0 {
        assert forall|i: int| 0 <= i < list.drop_last().len() implies sweeps_within(
            nodes,
            #[trigger] list.drop_last()[i],
            depth,
        ) by {
            assert(list.drop_last()[i] == list[i]);
        }
        lemma_all_sweep(nodes, list.drop_last(), depth);
        assert(list.last() == list[list.len() - 1]);
    }
}

/// A subtree that is in the tree and of bounded depth can be swept, and
/// the children of its root can be resolved.
pub proof fn lemma_sound_subtree_sweeps(nodes: Nodes, node: NodeId, depth: nat)
    requires
        descends_within(nodes, node, depth),
    ensures
        resolvable(nodes, node),
        sweeps_within(nodes, node, depth),
        sweepable(nodes, node),
    decreases depth,
{
    let children = record(nodes, node).children;
    if children.len() > 0 {
        lemma_sound_list_flattens(nodes, children, (depth - 1) as nat);
        assert(flattens_within(nodes, children, depth));
        lemma_resolved_children_at(nodes, node, depth);
        let resolved = resolved_children(nodes, node);
        assert forall|i: int| 0 <= i < resolved.len() implies sweeps_within(
            nodes,
            #[trigger] resolved[i],
            (depth - 1) as nat,
        ) by {
            lemma_sound_subtree_sweeps(nodes, resolved[i], (depth - 1) as nat);
        }
        lemma_all_sweep(nodes, resolved, (depth - 1) as nat);
    } else {
        assert(flattens_within(nodes, children, 0));
        lemma_resolved_children_at(nodes, node, 0);
        assert(resolved_children(nodes, node) =~= Seq::empty());
    }
}

} // verus!
