use vstd::prelude::*;

use crate::bvh::{
    depth, has_parent, identity, is_child, leaf_count, lemma_permutation_entries, node_ok, tree_ok,
    Bvh, Node, MAX_LEAF_TRIANGLES,
};
use crate::geom::{encloses_triangle, is_hull, touches_max, touches_min, tri_at, union, Axis, Triangle};

verus! {

/// Position `k` of the order lies in the range of leaf `i`.
pub open spec fn leaf_holds(nodes: Seq<Node>, i: int, k: int) -> bool {
    &&& 0 <= i < nodes.len()
    &&& match nodes[i] {
        Node::Leaf { start, count, .. } => start <= k < start + count,
        Node::Internal { .. } => false,
    }
}

/// The box of node `i` is exact: for a leaf, the bounding box of its
/// triangles; for an internal node, the union of its children's boxes.
pub open spec fn box_exact(nodes: Seq<Node>, tris: Seq<Triangle>, order: Seq<usize>, i: int) -> bool {
    match nodes[i] {
        Node::Leaf { bounds, start, count } => count > 0 ==> is_hull(
            bounds,
            tris,
            order,
            start as int,
            start + count,
        ),
        Node::Internal { bounds, left, right, .. } => bounds == union(
            nodes[left as int].spec_bounds(),
            nodes[right as int].spec_bounds(),
        ),
    }
}

/// A hull over a whole permutation of the triangle ids is the hull of the
/// mesh, whatever the order.
proof fn lemma_hull_any_order(bx: crate::geom::Aabb, tris: Seq<Triangle>, order: Seq<usize>, n: nat)
    requires
        is_hull(bx, tris, order, 0, n as int),
        order.len() == n,
        order.to_multiset() == identity(n).to_multiset(),
    ensures
        is_hull(bx, tris, identity(n), 0, n as int),
{
    lemma_permutation_entries(order, n);
    let id = identity(n);
    assert forall|t: int| 0 <= t < n implies encloses_triangle(bx, #[trigger] tri_at(tris, id, t)) by {
        assert(order.contains(t as usize));
        let k = choose|k: int| 0 <= k < order.len() && order[k] == t as usize;
        assert(encloses_triangle(bx, tri_at(tris, order, k)));
    }
    let axes = seq![Axis::X, Axis::Y, Axis::Z];
    assert forall|j: int| 0 <= j < 3 implies crate::geom::low_attained(bx, tris, id, 0, n as int, #[trigger] axes[j])
        && crate::geom::high_attained(bx, tris, id, 0, n as int, axes[j]) by {
        let a = axes[j];
        let k1 = choose|k: int| 0 <= k < n && #[trigger] touches_min(bx, tri_at(tris, order, k), a);
        let k2 = choose|k: int| 0 <= k < n && #[trigger] touches_max(bx, tri_at(tris, order, k), a);
        assert(tri_at(tris, id, order[k1] as int) == tri_at(tris, order, k1));
        assert(tri_at(tris, id, order[k2] as int) == tri_at(tris, order, k2));
        assert(touches_min(bx, tri_at(tris, id, order[k1] as int), a));
        assert(touches_max(bx, tri_at(tris, id, order[k2] as int), a));
    }
    assert(axes[0] == Axis::X && axes[1] == Axis::Y && axes[2] == Axis::Z);
}

/// Every box of the hierarchy is exact: a leaf's box is the bounding box of
/// the vertices of its triangles, an internal node's box is the union of its
/// children's boxes, and the root's box is the bounding box of the whole mesh.
pub proof fn lemma_bounds_exact(b: Bvh)
    requires
        b.wf(),
    ensures
        forall|i: int|
            0 <= i < b.node_seq().len() ==> #[trigger] box_exact(
                b.node_seq(),
                b.triangle_seq(),
                b.order_seq(),
                i,
            ),
        b.triangle_seq().len() > 0 ==> is_hull(
            b.node_seq()[0].spec_bounds(),
            b.triangle_seq(),
            identity(b.triangle_seq().len()),
            0,
            b.triangle_seq().len() as int,
        ),
{
    let nodes = b.node_seq();
    let spans = b.span_seq();
    let tris = b.triangle_seq();
    let order = b.order_seq();
    assert forall|i: int| 0 <= i < nodes.len() implies #[trigger] box_exact(nodes, tris, order, i) by {
        if tris.len() > 0 {
            assert(node_ok(nodes, spans, tris, order, i));
        }
    }
    if tris.len() > 0 {
        assert(node_ok(nodes, spans, tris, order, 0));
        lemma_hull_any_order(nodes[0].spec_bounds(), tris, order, tris.len());
    }
}

proof fn lemma_leaf_covers(
    nodes: Seq<Node>,
    spans: Seq<(int, int)>,
    tris: Seq<Triangle>,
    order: Seq<usize>,
    i: int,
    k: int,
)
    requires
        tree_ok(nodes, spans, tris, order),
        tris.len() > 0,
        0 <= i < nodes.len(),
        spans[i].0 <= k < spans[i].1,
    ensures
        exists|j: int| #[trigger] leaf_holds(nodes, j, k),
    decreases nodes.len() - i,
{
    assert(node_ok(nodes, spans, tris, order, i));
    match nodes[i] {
        Node::Leaf { .. } => {
            assert(leaf_holds(nodes, i, k));
        },
        Node::Internal { left, right, .. } => {
            let s = spans[i].0;
            let e = spans[i].1;
            if k < s + (e - s) / 2 {
                lemma_leaf_covers(nodes, spans, tris, order, left as int, k);
            } else {
                lemma_leaf_covers(nodes, spans, tris, order, right as int, k);
            }
        },
    }
}

/// The order is a true permutation with leaves that tile it: it holds
/// triangle ids only, every triangle id stands at exactly one position of
/// it, and exactly one leaf's range holds that position.
pub proof fn lemma_triangle_in_one_leaf(b: Bvh, t: usize)
    requires
        b.wf(),
        t < b.triangle_seq().len(),
    ensures
        b.order_seq().len() == b.triangle_seq().len(),
        forall|k: int| 0 <= k < b.order_seq().len() ==> b.order_seq()[k] < b.triangle_seq().len(),
        exists|k: int, i: int|
            0 <= k < b.order_seq().len() && b.order_seq()[k] == t && #[trigger] leaf_holds(
                b.node_seq(),
                i,
                k,
            ),
        forall|k1: int, k2: int|
            0 <= k1 < b.order_seq().len() && 0 <= k2 < b.order_seq().len() && b.order_seq()[k1] == t
                && b.order_seq()[k2] == t ==> k1 == k2,
        forall|k: int, i1: int, i2: int|
            #[trigger] leaf_holds(b.node_seq(), i1, k) && #[trigger] leaf_holds(b.node_seq(), i2, k)
                ==> i1 == i2,
{
    let nodes = b.node_seq();
    let spans = b.span_seq();
    let tris = b.triangle_seq();
    let order = b.order_seq();
    let n = tris.len();
    lemma_permutation_entries(order, n);
    assert(order.contains((t as int) as usize));
    let k = choose|k: int| 0 <= k < order.len() && order[k] == t;
    lemma_leaf_covers(nodes, spans, tris, order, 0, k);
    let i = choose|i: int| #[trigger] leaf_holds(nodes, i, k);
    assert(leaf_holds(nodes, i, k));
    // No id appears twice.
    let id = identity(n);
    b.lemma_lengths();
    assert(id.no_duplicates()) by {
        assert forall|a: int, c: int| 0 <= a < id.len() && 0 <= c < id.len() && a != c implies id[a]
            != id[c] by {
            assert(id[a] == a as usize && id[c] == c as usize);
        }
    }
    id.lemma_multiset_has_no_duplicates();
    order.lemma_multiset_has_no_duplicates_conv();
    // No position lies in two leaves.
    assert forall|k: int, i1: int, i2: int|
        #[trigger] leaf_holds(nodes, i1, k) && #[trigger] leaf_holds(nodes, i2, k) implies i1 == i2 by {
        assert(node_ok(nodes, spans, tris, order, i1));
        assert(node_ok(nodes, spans, tris, order, i2));
        if i1 < i2 {
            assert(spans[i1].1 <= spans[i2].0);
        } else if i2 < i1 {
            assert(spans[i2].1 <= spans[i1].0);
        }
    }
}

/// A structure over at most `MAX_LEAF_TRIANGLES` triangles is a single leaf:
/// its diagnostics report one node, one leaf, no internal node, depth 0.
pub proof fn lemma_small_mesh_stats(b: Bvh)
    requires
        b.wf(),
        b.triangle_seq().len() <= MAX_LEAF_TRIANGLES,
    ensures
        b.stats_spec() == seq![1u32, 1u32, 0u32, 0u32, b.triangle_seq().len() as u32],
{
    let nodes = b.node_seq();
    let spans = b.span_seq();
    let tris = b.triangle_seq();
    let order = b.order_seq();
    if tris.len() > 0 {
        assert(node_ok(nodes, spans, tris, order, 0));
    }
    assert(nodes[0].is_leaf());
    if nodes.len() > 1 {
        assert(has_parent(nodes, 0, 1));
        let j = choose|j: int| 0 <= j < 1 && #[trigger] is_child(nodes[j], 1);
        assert(is_child(nodes[0], 1));
    }
    assert(nodes.len() == 1);
    assert(leaf_count(nodes, 0) == 0);
    assert(leaf_count(nodes, 1) == 1);
    assert(depth(nodes, 0) == 0);
    assert(b.stats_spec() =~= seq![1u32, 1u32, 0u32, 0u32, tris.len() as u32]);
}

} // verus!
