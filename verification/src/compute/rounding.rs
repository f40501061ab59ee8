//! The rounding pass: layouts with whole coordinates from the layouts as
//! computed, such that boxes whose edges met still meet.

use crate::compute::taffy_tree::{
    same_shape, sweep_set, sweep_set_of_list, sweepable, sweeps_within, sweeps_within_list,
};
use crate::geometry::{Point, Size};
use crate::scalar::exact::{lemma_edges_meet, small};
use crate::scalar::Scalar;
use crate::tree::slots::{key_of, NodeData};
use crate::tree::taffy_tree::{
    find_children_recursive, holds, record, resolvable, resolved_children, with_data, Nodes, Taffy,
};
use crate::tree::{Layout, NodeId};
use vstd::prelude::*;

verus! {

/// The rounded layout of a box whose parent's corner is at (`abs_x`,
/// `abs_y`) in the coordinates of the root. The corner is rounded as it
/// stands, relative to the parent's; the extent is the distance between
/// the rounded edges in the coordinates of the root, so that edges which
/// met before rounding meet after it.
pub open spec fn rounded_layout_of(unrounded: Layout, abs_x: Scalar, abs_y: Scalar) -> Layout {
    let left = abs_x.sum(unrounded.location.x);
    let top = abs_y.sum(unrounded.location.y);
    Layout {
        order: unrounded.order,
        location: Point {
            x: unrounded.location.x.rounded_to_whole(),
            y: unrounded.location.y.rounded_to_whole(),
        },
        size: Size {
            width: left.sum(unrounded.size.width).rounded_to_whole().difference(
                left.rounded_to_whole(),
            ),
            height: top.sum(unrounded.size.height).rounded_to_whole().difference(
                top.rounded_to_whole(),
            ),
        },
    }
}

/// The rounded layout of a box whose parent's corner is at (`abs_x`,
/// `abs_y`), with the place of the box's own corner in the coordinates of
/// the root.
pub fn round_node(unrounded: &Layout, abs_x: Scalar, abs_y: Scalar) -> (out: (Layout, Scalar, Scalar))
    ensures
        out.0 == rounded_layout_of(*unrounded, abs_x, abs_y),
        out.1 == abs_x.sum(unrounded.location.x),
        out.2 == abs_y.sum(unrounded.location.y),
{
    let left = abs_x.plus(unrounded.location.x);
    let top = abs_y.plus(unrounded.location.y);
    let layout = Layout {
        order: unrounded.order,
        location: Point { x: unrounded.location.x.round(), y: unrounded.location.y.round() },
        size: Size {
            width: left.plus(unrounded.size.width).round().minus(left.round()),
            height: top.plus(unrounded.size.height).round().minus(top.round()),
        },
    };
    (layout, left, top)
}

/// `nodes` with the rounded layout of `node` set, for a parent whose
/// corner is at (`abs_x`, `abs_y`).
pub open spec fn with_rounded(nodes: Nodes, node: NodeId, abs_x: Scalar, abs_y: Scalar) -> Nodes {
    with_data(
        nodes,
        node,
        NodeData {
            final_layout: rounded_layout_of(
                record(nodes, node).data.unrounded_layout,
                abs_x,
                abs_y,
            ),
            ..record(nodes, node).data
        },
    )
}

/// `nodes` once the subtrees below the nodes of `list` are rounded in
/// turn, for a parent whose corner is at (`abs_x`, `abs_y`).
pub open spec fn rounded_list(
    nodes: Nodes,
    list: Seq<NodeId>,
    abs_x: Scalar,
    abs_y: Scalar,
    depth: nat,
) -> Nodes
    decreases depth, list.len(), 1nat,
{
    if list.len() == 0 {
        nodes
    } else {
        rounded_tree(
            rounded_list(nodes, list.drop_last(), abs_x, abs_y, depth),
            list.last(),
            abs_x,
            abs_y,
            depth,
        )
    }
}

/// `nodes` once the subtree below `node` is rounded, going at most
/// `depth` levels down: the node gets its rounded layout, and then its
/// children theirs, as the layout algorithms see them, with the node's
/// corner for the parent's.
pub open spec fn rounded_tree(
    nodes: Nodes,
    node: NodeId,
    abs_x: Scalar,
    abs_y: Scalar,
    depth: nat,
) -> Nodes
    decreases depth, 0nat, 0nat,
{
    let own = with_rounded(nodes, node, abs_x, abs_y);
    if depth == 0 {
        own
    } else {
        rounded_list(
            own,
            resolved_children(nodes, node),
            abs_x.sum(record(nodes, node).data.unrounded_layout.location.x),
            abs_y.sum(record(nodes, node).data.unrounded_layout.location.y),
            (depth - 1) as nat,
        )
    }
}

/// `nodes` once the subtree below `node` is rounded.
pub open spec fn rounded(nodes: Nodes, node: NodeId, abs_x: Scalar, abs_y: Scalar) -> Nodes {
    rounded_tree(nodes, node, abs_x, abs_y, choose|depth: nat| sweeps_within(nodes, node, depth))
}

proof fn lemma_rounding_keeps_shape_list(
    nodes: Nodes,
    list: Seq<NodeId>,
    abs_x: Scalar,
    abs_y: Scalar,
    depth: nat,
)
    requires
        sweeps_within_list(nodes, list, depth),
    ensures
        same_shape(nodes, rounded_list(nodes, list, abs_x, abs_y, depth)),
    decreases depth, list.len(), 1nat,
{
    if list.len() > 0 {
        let before = rounded_list(nodes, list.drop_last(), abs_x, abs_y, depth);
        lemma_rounding_keeps_shape_list(nodes, list.drop_last(), abs_x, abs_y, depth);
        crate::compute::taffy_tree::lemma_shape_sweeps(nodes, before, list.last(), depth);
        lemma_rounding_keeps_shape(before, list.last(), abs_x, abs_y, depth);
    }
}

/// Rounding changes no node's children, parent or style.
pub proof fn lemma_rounding_keeps_shape(
    nodes: Nodes,
    node: NodeId,
    abs_x: Scalar,
    abs_y: Scalar,
    depth: nat,
)
    requires
        sweeps_within(nodes, node, depth),
    ensures
        same_shape(nodes, rounded_tree(nodes, node, abs_x, abs_y, depth)),
    decreases depth, 0nat, 0nat,
{
    let own = with_rounded(nodes, node, abs_x, abs_y);
    assert(nodes.dom().contains(key_of(node.0)));
    assert(own.dom() =~= nodes.dom());
    assert(same_shape(nodes, own));
    if depth > 0 {
        let list = resolved_children(nodes, node);
        if list.len() > 0 {
            crate::compute::taffy_tree::lemma_shape_sweeps_list(nodes, own, list, (depth - 1) as nat);
            lemma_rounding_keeps_shape_list(
                own,
                list,
                abs_x.sum(record(nodes, node).data.unrounded_layout.location.x),
                abs_y.sum(record(nodes, node).data.unrounded_layout.location.y),
                (depth - 1) as nat,
            );
        }
    }
}

fn round_within<NodeContext>(
    tree: &mut Taffy<NodeContext>,
    node: NodeId,
    abs_x: Scalar,
    abs_y: Scalar,
    Ghost(depth): Ghost<nat>,
)
    requires
        sweeps_within(old(tree)@, node, depth),
    ensures
        final(tree)@ == rounded_tree(old(tree)@, node, abs_x, abs_y, depth),
        same_shape(old(tree)@, final(tree)@),
        final(tree).rounds() == old(tree).rounds(),
        final(tree).contexts() == old(tree).contexts(),
    decreases depth,
{
    let ghost before = tree@;
    let data = tree.node_data_mut(node);
    let (layout, left, top) = round_node(&data.unrounded_layout, abs_x, abs_y);
    data.final_layout = layout;
    let ghost own = tree@;
    proof {
        assert(before.dom().contains(key_of(node.0)));
        assert(own == with_rounded(before, node, abs_x, abs_y));
        assert(own.dom() =~= before.dom());
        assert(same_shape(before, own));
        crate::compute::taffy_tree::lemma_shape_resolves(before, own, node);
    }
    let mut children: Vec<NodeId> = Vec::new();
    find_children_recursive(tree, node, &mut children);
    let ghost list = resolved_children(before, node);
    proof {
        assert(children@ =~= list);
        assert(list.take(0) =~= Seq::empty());
        if list.len() > 0 {
            crate::compute::taffy_tree::lemma_shape_sweeps_list(before, own, list, (depth - 1) as nat);
        }
    }
    let mut i: usize = 0;
    while i < children.len()
        invariant
            i <= children.len(),
            children@ == list,
            list.len() > 0 ==> depth > 0 && sweeps_within_list(own, list, (depth - 1) as nat),
            tree@ == rounded_list(own, list.take(i as int), left, top, (depth - 1) as nat),
            same_shape(own, tree@),
            tree.rounds() == old(tree).rounds(),
            tree.contexts() == old(tree).contexts(),
        decreases children.len() - i,
    {
        let child = children[i];
        let ghost mid = tree@;
        proof {
            crate::compute::taffy_tree::lemma_prefix_sweeps(own, list, (depth - 1) as nat, i + 1);
            assert(list.take(i + 1).drop_last() =~= list.take(i as int));
            assert(list.take(i + 1).last() == child);
            assert(sweeps_within(own, child, (depth - 1) as nat));
            crate::compute::taffy_tree::lemma_shape_sweeps(own, mid, child, (depth - 1) as nat);
        }
        round_within(tree, child, left, top, Ghost((depth - 1) as nat));
        i += 1;
    }
    proof {
        assert(list.take(list.len() as int) =~= list);
        if depth == 0 {
            assert(list.len() == 0);
        }
    }
}

/// Rounds the layouts of a subtree: `node` and every node below it, as
/// the layout algorithms see the tree, gets for its final layout its
/// computed layout rounded, where the corner of the parent of `node` is
/// at (`abs_x`, `abs_y`) in the coordinates of the root.
pub fn round_layout<NodeContext>(tree: &mut Taffy<NodeContext>, node: NodeId, abs_x: Scalar, abs_y: Scalar)
    requires
        sweepable(old(tree)@, node),
    ensures
        final(tree)@ == rounded(old(tree)@, node, abs_x, abs_y),
        same_shape(old(tree)@, final(tree)@),
        final(tree).rounds() == old(tree).rounds(),
        final(tree).contexts() == old(tree).contexts(),
{
    let ghost depth = choose|depth: nat| sweeps_within(tree@, node, depth);
    round_within(tree, node, abs_x, abs_y, Ghost(depth));
}

/// Whether `b` is `a` but for the rounded layouts.
pub open spec fn same_but_rounded(a: Nodes, b: Nodes) -> bool {
    &&& a.dom() == b.dom()
    &&& forall|k: u64| #[trigger]
        a.dom().contains(k) ==> {
            &&& a[k].children == b[k].children
            &&& a[k].parent == b[k].parent
            &&& a[k].data.style == b[k].data.style
            &&& a[k].data.unrounded_layout == b[k].data.unrounded_layout
            &&& a[k].data.needs_measure == b[k].data.needs_measure
            &&& a[k].data.cache == b[k].data.cache
        }
}

/// Whether `ra` and `rb` are what a pass over the nodes with keys in
/// `set` makes of `a` and `b`, which are alike but for rounded layouts:
/// the pass gives both the same rounded layouts on `set` and leaves
/// everything else as it was.
spec fn passes_agree(a: Nodes, b: Nodes, ra: Nodes, rb: Nodes, set: Set<u64>) -> bool {
    &&& same_but_rounded(a, ra)
    &&& same_but_rounded(b, rb)
    &&& forall|k: u64| #[trigger]
        a.dom().contains(k) ==> if set.contains(k) {
            rb[k].data.final_layout == ra[k].data.final_layout
        } else {
            ra[k].data.final_layout == a[k].data.final_layout && rb[k].data.final_layout
                == b[k].data.final_layout
        }
}

proof fn lemma_alike_have_one_shape(a: Nodes, b: Nodes)
    requires
        same_but_rounded(a, b),
    ensures
        same_shape(a, b),
{
}

proof fn lemma_passes_agree_list(
    a: Nodes,
    b: Nodes,
    list: Seq<NodeId>,
    abs_x: Scalar,
    abs_y: Scalar,
    depth: nat,
)
    requires
        sweeps_within_list(a, list, depth),
        same_but_rounded(a, b),
    ensures
        passes_agree(
            a,
            b,
            rounded_list(a, list, abs_x, abs_y, depth),
            rounded_list(b, list, abs_x, abs_y, depth),
            sweep_set_of_list(a, list, depth),
        ),
    decreases depth, list.len(), 1nat,
{
    if list.len() > 0 {
        let before_a = rounded_list(a, list.drop_last(), abs_x, abs_y, depth);
        let before_b = rounded_list(b, list.drop_last(), abs_x, abs_y, depth);
        let first = sweep_set_of_list(a, list.drop_last(), depth);
        let second = sweep_set(a, list.last(), depth);
        lemma_passes_agree_list(a, b, list.drop_last(), abs_x, abs_y, depth);
        lemma_alike_have_one_shape(a, before_a);
        crate::compute::taffy_tree::lemma_shape_sweeps(a, before_a, list.last(), depth);
        assert(same_but_rounded(before_a, before_b));
        lemma_passes_agree(before_a, before_b, list.last(), abs_x, abs_y, depth);
        let ra = rounded_tree(before_a, list.last(), abs_x, abs_y, depth);
        let rb = rounded_tree(before_b, list.last(), abs_x, abs_y, depth);
        assert(sweep_set_of_list(a, list, depth) == first.union(second));
        assert(same_but_rounded(a, ra));
        assert(same_but_rounded(b, rb));
        assert forall|k: u64| #[trigger] a.dom().contains(k) implies if first.union(second).contains(
            k,
        ) {
            rb[k].data.final_layout == ra[k].data.final_layout
        } else {
            ra[k].data.final_layout == a[k].data.final_layout && rb[k].data.final_layout
                == b[k].data.final_layout
        } by {
            assert(before_a.dom().contains(k));
        }
    }
}

proof fn lemma_passes_agree(a: Nodes, b: Nodes, node: NodeId, abs_x: Scalar, abs_y: Scalar, depth: nat)
    requires
        sweeps_within(a, node, depth),
        same_but_rounded(a, b),
    ensures
        passes_agree(
            a,
            b,
            rounded_tree(a, node, abs_x, abs_y, depth),
            rounded_tree(b, node, abs_x, abs_y, depth),
            sweep_set(a, node, depth),
        ),
    decreases depth, 0nat, 0nat,
{
    let key = key_of(node.0);
    let own_a = with_rounded(a, node, abs_x, abs_y);
    let own_b = with_rounded(b, node, abs_x, abs_y);
    assert(a.dom().contains(key));
    assert(own_a.dom() =~= a.dom());
    assert(own_b.dom() =~= b.dom());
    assert(same_but_rounded(a, own_a));
    assert(same_but_rounded(b, own_b));
    assert(same_but_rounded(own_a, own_b));
    assert(own_a[key].data.final_layout == own_b[key].data.final_layout);
    if depth == 0 {
        assert(passes_agree(a, b, own_a, own_b, set![key]));
    } else {
        let list = resolved_children(a, node);
        let x = abs_x.sum(record(a, node).data.unrounded_layout.location.x);
        let y = abs_y.sum(record(a, node).data.unrounded_layout.location.y);
        lemma_alike_have_one_shape(a, b);
        crate::compute::taffy_tree::lemma_shape_resolves(a, b, node);
        lemma_alike_have_one_shape(a, own_a);
        let ra = rounded_list(own_a, list, x, y, (depth - 1) as nat);
        let rb = rounded_list(own_b, list, x, y, (depth - 1) as nat);
        let below = sweep_set_of_list(a, list, (depth - 1) as nat);
        if list.len() > 0 {
            crate::compute::taffy_tree::lemma_shape_sweeps_list(a, own_a, list, (depth - 1) as nat);
            lemma_passes_agree_list(own_a, own_b, list, x, y, (depth - 1) as nat);
        } else {
            assert(ra == own_a);
            assert(rb == own_b);
            assert(below =~= Set::<u64>::empty());
        }
        assert(passes_agree(own_a, own_b, ra, rb, below));
        assert(sweep_set(a, node, depth) == below.insert(key));
        assert(rounded_tree(a, node, abs_x, abs_y, depth) == ra);
        assert(rounded_tree(b, node, abs_x, abs_y, depth) == rb);
        assert(same_but_rounded(a, ra));
        assert(same_but_rounded(b, rb));
        assert forall|k: u64| #[trigger] a.dom().contains(k) implies if below.insert(key).contains(k) {
            rb[k].data.final_layout == ra[k].data.final_layout
        } else {
            ra[k].data.final_layout == a[k].data.final_layout && rb[k].data.final_layout
                == b[k].data.final_layout
        } by {
            assert(own_a.dom().contains(k));
        }
    }
}

proof fn lemma_rounded_list_is_stable(
    nodes: Nodes,
    list: Seq<NodeId>,
    abs_x: Scalar,
    abs_y: Scalar,
    d1: nat,
    d2: nat,
)
    requires
        sweeps_within_list(nodes, list, d1),
        sweeps_within_list(nodes, list, d2),
    ensures
        rounded_list(nodes, list, abs_x, abs_y, d1) == rounded_list(nodes, list, abs_x, abs_y, d2),
    decreases d1, list.len(), 1nat,
{
    if list.len() > 0 {
        lemma_rounded_list_is_stable(nodes, list.drop_last(), abs_x, abs_y, d1, d2);
        let before = rounded_list(nodes, list.drop_last(), abs_x, abs_y, d1);
        lemma_rounding_keeps_shape_list(nodes, list.drop_last(), abs_x, abs_y, d1);
        crate::compute::taffy_tree::lemma_shape_sweeps(nodes, before, list.last(), d1);
        crate::compute::taffy_tree::lemma_shape_sweeps(nodes, before, list.last(), d2);
        lemma_rounded_tree_is_stable(before, list.last(), abs_x, abs_y, d1, d2);
    }
}

/// What a pass makes of a tree does not depend on how many levels it was
/// allowed to go down, as long as those were enough.
pub proof fn lemma_rounded_tree_is_stable(
    nodes: Nodes,
    node: NodeId,
    abs_x: Scalar,
    abs_y: Scalar,
    d1: nat,
    d2: nat,
)
    requires
        sweeps_within(nodes, node, d1),
        sweeps_within(nodes, node, d2),
    ensures
        rounded_tree(nodes, node, abs_x, abs_y, d1) == rounded_tree(nodes, node, abs_x, abs_y, d2),
    decreases d1, 0nat, 0nat,
{
    let own = with_rounded(nodes, node, abs_x, abs_y);
    let list = resolved_children(nodes, node);
    let x = abs_x.sum(record(nodes, node).data.unrounded_layout.location.x);
    let y = abs_y.sum(record(nodes, node).data.unrounded_layout.location.y);
    assert(nodes.dom().contains(key_of(node.0)));
    assert(own.dom() =~= nodes.dom());
    assert(same_shape(nodes, own));
    if list.len() > 0 {
        crate::compute::taffy_tree::lemma_shape_sweeps_list(nodes, own, list, (d1 - 1) as nat);
        crate::compute::taffy_tree::lemma_shape_sweeps_list(nodes, own, list, (d2 - 1) as nat);
        lemma_rounded_list_is_stable(own, list, x, y, (d1 - 1) as nat, (d2 - 1) as nat);
    } else {
        if d1 > 0 {
            assert(rounded_list(own, list, x, y, (d1 - 1) as nat) == own);
        }
        if d2 > 0 {
            assert(rounded_list(own, list, x, y, (d2 - 1) as nat) == own);
        }
    }
}

/// Rounding a second time changes nothing: every layout stays what the
/// first pass made of it.
pub proof fn lemma_rounding_twice_changes_nothing(nodes: Nodes, node: NodeId, abs_x: Scalar, abs_y: Scalar)
    requires
        sweepable(nodes, node),
    ensures
        rounded(rounded(nodes, node, abs_x, abs_y), node, abs_x, abs_y) == rounded(
            nodes,
            node,
            abs_x,
            abs_y,
        ),
{
    let depth = choose|depth: nat| sweeps_within(nodes, node, depth);
    let once = rounded_tree(nodes, node, abs_x, abs_y, depth);
    lemma_passes_agree(nodes, nodes, node, abs_x, abs_y, depth);
    lemma_alike_have_one_shape(nodes, once);
    crate::compute::taffy_tree::lemma_shape_sweeps(nodes, once, node, depth);
    let again = choose|d: nat| sweeps_within(once, node, d);
    lemma_rounded_tree_is_stable(once, node, abs_x, abs_y, again, depth);
    lemma_passes_agree(nodes, once, node, abs_x, abs_y, depth);
    let twice = rounded_tree(once, node, abs_x, abs_y, depth);
    assert forall|k: u64| once.dom().contains(k) implies twice[k] == once[k] by {
        assert(nodes.dom().contains(k));
        assert(twice[k].data.final_layout == once[k].data.final_layout);
        assert(twice[k].data == once[k].data);
    }
    assert(twice =~= once);
}

/// Rounding leaves no gap between two boxes side by side: where the
/// second starts at the right edge of the first as computed, it starts at
/// the right edge of the first as rounded. The boxes stand in a parent
/// whose corner is at the origin, at places of magnitude below 2 to the
/// 22nd; nothing is
/// claimed of larger places.
pub proof fn lemma_rounding_leaves_no_gap_beside(a: Layout, b: Layout)
    requires
        small(a.location.x),
        small(b.location.x),
        a.size.width.finite(),
        a.location.x.sum(a.size.width).same(b.location.x),
    ensures
        ({
            let first = rounded_layout_of(a, Scalar::zero_value(), Scalar::zero_value());
            let second = rounded_layout_of(b, Scalar::zero_value(), Scalar::zero_value());
            first.location.x.sum(first.size.width).same(second.location.x)
        }),
{
    lemma_edges_meet(a.location.x, a.size.width, b.location.x);
}

/// Rounding leaves no gap between two boxes one below the other: where
/// the second starts at the bottom edge of the first as computed, it
/// starts at the bottom edge of the first as rounded. The boxes stand in
/// a parent whose corner is at the origin, at places of magnitude below 2
/// to the 22nd; nothing is
/// claimed of larger places.
pub proof fn lemma_rounding_leaves_no_gap_below(a: Layout, b: Layout)
    requires
        small(a.location.y),
        small(b.location.y),
        a.size.height.finite(),
        a.location.y.sum(a.size.height).same(b.location.y),
    ensures
        ({
            let first = rounded_layout_of(a, Scalar::zero_value(), Scalar::zero_value());
            let second = rounded_layout_of(b, Scalar::zero_value(), Scalar::zero_value());
            first.location.y.sum(first.size.height).same(second.location.y)
        }),
{
    lemma_edges_meet(a.location.y, a.size.height, b.location.y);
}

/// Rounding leaves no gap between two boxes side by side, wherever
/// their parent stands. With the parent's corner at `abs_x` in the
/// coordinates of the root, the first box starts at `abs_x` plus its own
/// place and the second at `abs_x` plus its own. Where the first, as
/// computed, ends where the second starts, the first, as rounded, ends
/// where the second, as rounded, starts: its rounded left edge and its
/// rounded width make the rounded left edge of the second. The places
/// are of magnitude below 2 to the 22nd; nothing is
/// claimed of larger places.
pub proof fn lemma_rounding_leaves_no_gap_beside_anywhere(
    a: Layout,
    b: Layout,
    abs_x: Scalar,
    abs_y: Scalar,
)
    requires
        small(abs_x.sum(a.location.x)),
        small(abs_x.sum(b.location.x)),
        a.size.width.finite(),
        abs_x.sum(a.location.x).sum(a.size.width).same(abs_x.sum(b.location.x)),
    ensures
        abs_x.sum(a.location.x).rounded_to_whole().sum(
            rounded_layout_of(a, abs_x, abs_y).size.width,
        ).same(abs_x.sum(b.location.x).rounded_to_whole()),
{
    crate::scalar::exact::lemma_absolute_edges_meet(
        abs_x.sum(a.location.x),
        a.size.width,
        abs_x.sum(b.location.x),
    );
}

/// Rounding leaves no gap between two boxes one below the other,
/// wherever their parent stands: the rounded top edge of the first and
/// its rounded height make the rounded top edge of the second, where the
/// first, as computed, ends where the second starts. The places are of
/// magnitude below 2 to the 22nd; nothing is
/// claimed of larger places.
pub proof fn lemma_rounding_leaves_no_gap_below_anywhere(
    a: Layout,
    b: Layout,
    abs_x: Scalar,
    abs_y: Scalar,
)
    requires
        small(abs_y.sum(a.location.y)),
        small(abs_y.sum(b.location.y)),
        a.size.height.finite(),
        abs_y.sum(a.location.y).sum(a.size.height).same(abs_y.sum(b.location.y)),
    ensures
        abs_y.sum(a.location.y).rounded_to_whole().sum(
            rounded_layout_of(a, abs_x, abs_y).size.height,
        ).same(abs_y.sum(b.location.y).rounded_to_whole()),
{
    crate::scalar::exact::lemma_absolute_edges_meet(
        abs_y.sum(a.location.y),
        a.size.height,
        abs_y.sum(b.location.y),
    );
}

/// Whether the sum of the two numbers is computed without rounding.
pub open spec fn adds_exactly(a: Scalar, b: Scalar) -> bool {
    a.finite() && b.finite() && a.sum(b).finite() && a.sum(b).units() == a.units() + b.units()
}

/// Rounding leaves no gap between two boxes of which the second starts,
/// in the coordinates of their parent, where the first ends, wherever
/// the parent stands, as long as the sums that place the boxes are
/// computed without rounding: the rounded left edge of the first and its
/// rounded width make the rounded left edge of the second. The places
/// are of magnitude below 2 to the 22nd; nothing is
/// claimed of larger places.
pub proof fn lemma_rounding_leaves_no_gap_where_sums_are_exact(
    a: Layout,
    b: Layout,
    abs_x: Scalar,
    abs_y: Scalar,
)
    requires
        a.location.x.sum(a.size.width).same(b.location.x),
        adds_exactly(a.location.x, a.size.width),
        adds_exactly(abs_x, a.location.x),
        adds_exactly(abs_x.sum(a.location.x), a.size.width),
        adds_exactly(abs_x, b.location.x),
        small(abs_x.sum(a.location.x)),
        small(abs_x.sum(b.location.x)),
    ensures
        abs_x.sum(a.location.x).rounded_to_whole().sum(
            rounded_layout_of(a, abs_x, abs_y).size.width,
        ).same(abs_x.sum(b.location.x).rounded_to_whole()),
{
    let right = a.location.x.sum(a.size.width);
    crate::scalar::exact::lemma_units_are_the_value(right, b.location.x);
    crate::scalar::exact::lemma_units_decide(
        abs_x.sum(a.location.x).sum(a.size.width),
        abs_x.sum(b.location.x),
    );
    lemma_rounding_leaves_no_gap_beside_anywhere(a, b, abs_x, abs_y);
}

/// Rounding leaves no gap between two boxes in a parent whose corner
/// is at a whole place. Where the second box starts, in the coordinates
/// of the parent, at the right edge of the first as computed, it starts,
/// in those coordinates, at the right edge of the first as rounded: the
/// rounded place of the first and its rounded width make the rounded
/// place of the second. The parent's corner is a whole number that is
/// not negative, the places of the boxes are not negative, the sums that
/// place the boxes are computed without rounding, and all places are of
/// magnitude below 2 to the 22nd; nothing is
/// claimed of larger places.
pub proof fn lemma_rounding_leaves_no_gap_at_a_whole_origin(
    a: Layout,
    b: Layout,
    abs_x: Scalar,
    abs_y: Scalar,
    origin: int,
)
    requires
        crate::scalar::exact::is_whole(abs_x, origin),
        origin >= 0,
        Scalar::zero_value().less_eq(a.location.x),
        Scalar::zero_value().less_eq(b.location.x),
        a.location.x.sum(a.size.width).same(b.location.x),
        adds_exactly(a.location.x, a.size.width),
        adds_exactly(abs_x, a.location.x),
        adds_exactly(abs_x.sum(a.location.x), a.size.width),
        adds_exactly(abs_x, b.location.x),
        small(a.location.x),
        small(b.location.x),
        small(abs_x.sum(a.location.x)),
        small(abs_x.sum(b.location.x)),
    ensures
        rounded_layout_of(a, abs_x, abs_y).location.x.sum(
            rounded_layout_of(a, abs_x, abs_y).size.width,
        ).same(rounded_layout_of(b, abs_x, abs_y).location.x),
{
    lemma_edges_meet_at_a_whole_origin(a, b, abs_x, origin);
}

/// Rounding leaves no gap between two boxes one below the other in a
/// parent whose corner is at a whole place: the rounded place of the
/// first and its rounded height make the rounded place of the second,
/// under the same conditions as side by side.
pub proof fn lemma_rounding_leaves_no_gap_below_at_a_whole_origin(
    a: Layout,
    b: Layout,
    abs_x: Scalar,
    abs_y: Scalar,
    origin: int,
)
    requires
        crate::scalar::exact::is_whole(abs_y, origin),
        origin >= 0,
        Scalar::zero_value().less_eq(a.location.y),
        Scalar::zero_value().less_eq(b.location.y),
        a.location.y.sum(a.size.height).same(b.location.y),
        adds_exactly(a.location.y, a.size.height),
        adds_exactly(abs_y, a.location.y),
        adds_exactly(abs_y.sum(a.location.y), a.size.height),
        adds_exactly(abs_y, b.location.y),
        small(a.location.y),
        small(b.location.y),
        small(abs_y.sum(a.location.y)),
        small(abs_y.sum(b.location.y)),
    ensures
        rounded_layout_of(a, abs_x, abs_y).location.y.sum(
            rounded_layout_of(a, abs_x, abs_y).size.height,
        ).same(rounded_layout_of(b, abs_x, abs_y).location.y),
{
    let turned_a = Layout {
        order: a.order,
        size: Size { width: a.size.height, height: a.size.width },
        location: Point { x: a.location.y, y: a.location.x },
    };
    let turned_b = Layout {
        order: b.order,
        size: Size { width: b.size.height, height: b.size.width },
        location: Point { x: b.location.y, y: b.location.x },
    };
    lemma_edges_meet_at_a_whole_origin(turned_a, turned_b, abs_y, origin);
}

proof fn lemma_edges_meet_at_a_whole_origin(a: Layout, b: Layout, abs_x: Scalar, origin: int)
    requires
        crate::scalar::exact::is_whole(abs_x, origin),
        origin >= 0,
        Scalar::zero_value().less_eq(a.location.x),
        Scalar::zero_value().less_eq(b.location.x),
        a.location.x.sum(a.size.width).same(b.location.x),
        adds_exactly(a.location.x, a.size.width),
        adds_exactly(abs_x, a.location.x),
        adds_exactly(abs_x.sum(a.location.x), a.size.width),
        adds_exactly(abs_x, b.location.x),
        small(a.location.x),
        small(b.location.x),
        small(abs_x.sum(a.location.x)),
        small(abs_x.sum(b.location.x)),
    ensures
        a.location.x.rounded_to_whole().sum(
            abs_x.sum(a.location.x).sum(a.size.width).rounded_to_whole().difference(
                abs_x.sum(a.location.x).rounded_to_whole(),
            ),
        ).same(b.location.x.rounded_to_whole()),
{
    vstd::arithmetic::power2::lemma2_to64();
    let x = a.location.x;
    let next = b.location.x;
    let left = abs_x.sum(x);
    let next_left = abs_x.sum(next);
    let right = left.sum(a.size.width);
    crate::scalar::exact::lemma_units_are_the_value(x.sum(a.size.width), next);
    crate::scalar::exact::lemma_units_decide(right, next_left);
    crate::scalar::exact::lemma_whole_part_goes_by_value(right, next_left);
    crate::scalar::exact::lemma_whole_part_moves_with_the_origin(abs_x, x, origin);
    crate::scalar::exact::lemma_whole_part_moves_with_the_origin(abs_x, next, origin);
    let p = crate::scalar::exact::whole_part(x);
    let q = crate::scalar::exact::whole_part(next);
    crate::scalar::exact::lemma_round_is_whole(x);
    crate::scalar::exact::lemma_round_is_whole(next);
    crate::scalar::exact::lemma_round_is_whole(left);
    crate::scalar::exact::lemma_round_is_whole(next_left);
    assert(right.magnitude() == next_left.magnitude());
    crate::scalar::exact::lemma_round_is_whole(right);
    let from = left.rounded_to_whole();
    let to = right.rounded_to_whole();
    crate::scalar::exact::lemma_negated_whole(from, origin + p);
    crate::scalar::exact::lemma_sum_of_wholes(to, from.negated(), origin + q, -(origin + p));
    let width = to.difference(from);
    crate::scalar::exact::lemma_sum_of_wholes(x.rounded_to_whole(), width, p, q - p);
    crate::scalar::exact::lemma_units_decide(
        x.rounded_to_whole().sum(width),
        next.rounded_to_whole(),
    );
}

} // verus!
