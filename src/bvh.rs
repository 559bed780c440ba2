use vstd::prelude::*;

use crate::coord::SIGN_BIT;
use crate::geom::{
    encloses_triangle, is_hull, lemma_hull_frame, lemma_hull_unique, lemma_union_hull,
    range_bounds, touches_max, touches_min, tri_at, union, union_box, widest, widest_axis, Aabb,
    Axis, Point, Triangle,
};

verus! {

/// The most triangles a leaf holds.
pub const MAX_LEAF_TRIANGLES: usize = 4;

/// A node of the hierarchy, in an arena addressed by index.
#[derive(Clone, Copy, PartialEq, Eq, Structural, Debug)]
pub enum Node {
    /// Positions `start..start + count` of the triangle order.
    Leaf { bounds: Aabb, start: usize, count: usize },
    /// Two children, split on `axis` at the median.
    Internal { bounds: Aabb, axis: Axis, left: usize, right: usize },
}

impl Node {
    pub open spec fn spec_bounds(self) -> Aabb {
        match self {
            Node::Leaf { bounds, .. } => bounds,
            Node::Internal { bounds, .. } => bounds,
        }
    }

    pub open spec fn is_leaf(self) -> bool {
        self is Leaf
    }

    /// The node's bounding box.
    pub fn bounds(&self) -> (r: Aabb)
        ensures
            r == self.spec_bounds(),
    {
        match self {
            Node::Leaf { bounds, .. } => *bounds,
            Node::Internal { bounds, .. } => *bounds,
        }
    }
}

/// `node` has `i` as a child.
pub open spec fn is_child(node: Node, i: int) -> bool {
    match node {
        Node::Leaf { .. } => false,
        Node::Internal { left, right, .. } => left == i || right == i,
    }
}

/// The centroid key on `axis` of the triangle at position `k` of `order`.
pub open spec fn centroid_key(tris: Seq<Triangle>, order: Seq<usize>, k: int, axis: Axis) -> u32 {
    tri_at(tris, order, k).centroid.at(axis)
}

/// Positions `s..e` of `order` ascend by centroid key on `axis`.
pub open spec fn sorted_on(tris: Seq<Triangle>, order: Seq<usize>, s: int, e: int, axis: Axis) -> bool {
    forall|a: int, b: int|
        s <= a < b < e ==> #[trigger] centroid_key(tris, order, a, axis) <= #[trigger] centroid_key(
            tris,
            order,
            b,
            axis,
        )
}

/// Every triangle of positions `s..m` has a centroid key on `axis` no
/// larger than any of positions `m..e`: the two halves of a median split.
pub open spec fn split_ok(tris: Seq<Triangle>, order: Seq<usize>, s: int, m: int, e: int, axis: Axis) -> bool {
    forall|a: int, b: int|
        s <= a < m <= b < e ==> #[trigger] centroid_key(tris, order, a, axis) <= #[trigger] centroid_key(
            tris,
            order,
            b,
            axis,
        )
}

/// Node `i` is sound: `spans[i]` is the range of positions of `order` that it
/// covers; a leaf covers its own range, an internal node the two halves that
/// its children cover, and each box is the exact hull of its range.
pub open spec fn node_ok(
    nodes: Seq<Node>,
    spans: Seq<(int, int)>,
    tris: Seq<Triangle>,
    order: Seq<usize>,
    i: int,
) -> bool {
    let s = spans[i].0;
    let e = spans[i].1;
    &&& 0 <= s <= e <= order.len()
    &&& is_hull(nodes[i].spec_bounds(), tris, order, s, e)
    &&& match nodes[i] {
        Node::Leaf { bounds, start, count } => {
            &&& s == start
            &&& e == start + count
            &&& 0 < count <= MAX_LEAF_TRIANGLES
        },
        Node::Internal { bounds, axis, left, right } => {
            &&& left == i + 1
            &&& left < right < nodes.len()
            &&& e - s > MAX_LEAF_TRIANGLES
            &&& spans[left as int] == (s, s + (e - s) / 2)
            &&& spans[right as int] == (s + (e - s) / 2, e)
            &&& bounds == union(nodes[left as int].spec_bounds(), nodes[right as int].spec_bounds())
            &&& split_ok(tris, order, s, s + (e - s) / 2, e, axis)
        },
    }
}

/// Leaves of `nodes[lo..hi]` appear in the order of their ranges, which do not overlap.
pub open spec fn leaves_ordered(nodes: Seq<Node>, spans: Seq<(int, int)>, lo: int, hi: int) -> bool {
    forall|i: int, j: int|
        lo <= i < j < hi && nodes[i].is_leaf() && nodes[j].is_leaf() ==> #[trigger] spans[i].1
            <= #[trigger] spans[j].0
}

/// Node `i` is a child of a node of `nodes[lo..i]`.
pub open spec fn has_parent(nodes: Seq<Node>, lo: int, i: int) -> bool {
    exists|j: int| lo <= j < i && #[trigger] is_child(nodes[j], i)
}

/// Every node of `nodes[lo..hi]` but the first is a child of an earlier one.
pub open spec fn has_parents(nodes: Seq<Node>, lo: int, hi: int) -> bool {
    forall|i: int| lo < i < hi ==> #[trigger] has_parent(nodes, lo, i)
}

/// `0, 1, .., n - 1`.
pub open spec fn identity(n: nat) -> Seq<usize> {
    Seq::new(n, |i: int| i as usize)
}

/// The box of the structure built from no triangles: the point at +0.0.
pub open spec fn empty_leaf() -> Node {
    let zero = Point { x: SIGN_BIT, y: SIGN_BIT, z: SIGN_BIT };
    Node::Leaf { bounds: Aabb { min: zero, max: zero }, start: 0, count: 0 }
}

/// The whole hierarchy is sound.
pub open spec fn tree_ok(
    nodes: Seq<Node>,
    spans: Seq<(int, int)>,
    tris: Seq<Triangle>,
    order: Seq<usize>,
) -> bool {
    &&& nodes.len() >= 1
    &&& spans.len() == nodes.len()
    &&& order.len() == tris.len()
    &&& tris.len() < usize::MAX / 4
    &&& order.to_multiset() == identity(tris.len()).to_multiset()
    &&& if tris.len() == 0 {
        nodes.len() == 1 && nodes[0] == empty_leaf() && spans[0] == (0int, 0int)
    } else {
        &&& spans[0] == (0int, tris.len() as int)
        &&& forall|i: int| 0 <= i < nodes.len() ==> #[trigger] node_ok(nodes, spans, tris, order, i)
        &&& leaves_ordered(nodes, spans, 0, nodes.len() as int)
        &&& has_parents(nodes, 0, nodes.len() as int)
    }
}

/// Each entry of a permutation of `0..n` is below `n`, and each number below
/// `n` is an entry.
pub proof fn lemma_permutation_entries(order: Seq<usize>, n: nat)
    requires
        order.len() == n,
        order.to_multiset() == identity(n).to_multiset(),
    ensures
        forall|k: int| 0 <= k < n ==> order[k] < n,
        forall|t: int| 0 <= t < n ==> #[trigger] order.contains(t as usize),
{
    broadcast use vstd::seq_lib::group_to_multiset_ensures;

    let id = identity(n);
    assert forall|k: int| 0 <= k < n implies order[k] < n by {
        assert(order.contains(order[k]));
        assert(id.to_multiset().count(order[k]) > 0);
        assert(id.contains(order[k]));
    }
    assert forall|t: int| 0 <= t < n implies #[trigger] order.contains(t as usize) by {
        assert(id[t] == t as usize);
        assert(id.contains(t as usize));
        assert(order.to_multiset().count(t as usize) > 0);
    }
}

/// Two orders equal outside `s..e` whose ranges `s..e` hold the same
/// entries hold the same entries overall.
proof fn lemma_whole_multiset(o1: Seq<usize>, o2: Seq<usize>, s: int, e: int)
    requires
        0 <= s <= e <= o1.len(),
        o2.len() == o1.len(),
        o1.subrange(s, e).to_multiset() == o2.subrange(s, e).to_multiset(),
        forall|k: int| 0 <= k < o1.len() && !(s <= k < e) ==> o1[k] == o2[k],
    ensures
        o1.to_multiset() == o2.to_multiset(),
{
    let n = o1.len() as int;
    let (p1, m1, q1) = (o1.subrange(0, s), o1.subrange(s, e), o1.subrange(e, n));
    let (p2, m2, q2) = (o2.subrange(0, s), o2.subrange(s, e), o2.subrange(e, n));
    assert(o1 =~= p1 + m1 + q1);
    assert(o2 =~= p2 + m2 + q2);
    assert(p1 =~= p2);
    assert(q1 =~= q2);
    vstd::seq_lib::lemma_multiset_commutative(p1 + m1, q1);
    vstd::seq_lib::lemma_multiset_commutative(p1, m1);
    vstd::seq_lib::lemma_multiset_commutative(p2 + m2, q2);
    vstd::seq_lib::lemma_multiset_commutative(p2, m2);
}

/// Sorts positions `start..end` of `order` by the centroid key of their
/// triangles on `axis` (merge sort: stable, never fails).
fn merge_sort_range(tris: &Vec<Triangle>, order: &mut Vec<usize>, start: usize, end: usize, axis: Axis)
    requires
        start <= end <= old(order).len(),
        forall|k: int| start <= k < end ==> old(order)[k] < tris.len(),
    ensures
        final(order).len() == old(order).len(),
        forall|k: int|
            0 <= k < final(order).len() && !(start <= k < end) ==> final(order)[k] == old(order)[k],
        forall|k: int| start <= k < end ==> final(order)[k] < tris.len(),
        final(order)@.to_multiset() == old(order)@.to_multiset(),
        sorted_on(tris@, final(order)@, start as int, end as int, axis),
    decreases end - start,
{
    if end - start <= 1 {
        return;
    }
    let mid = start + (end - start) / 2;
    merge_sort_range(tris, order, start, mid, axis);
    let ghost left_run = order@;
    merge_sort_range(tris, order, mid, end, axis);
    let ghost runs = order@;
    let mut out: Vec<usize> = Vec::with_capacity(end - start);
    proof {
        broadcast use vstd::seq_lib::group_to_multiset_ensures;
        broadcast use vstd::multiset::group_multiset_axioms;

        assert forall|a: int, b: int| start <= a < b < mid implies #[trigger] centroid_key(
            tris@,
            runs,
            a,
            axis,
        ) <= #[trigger] centroid_key(tris@, runs, b, axis) by {
            assert(centroid_key(tris@, left_run, a, axis) <= centroid_key(tris@, left_run, b, axis));
        }
        assert(runs.subrange(start as int, start as int) =~= Seq::<usize>::empty());
        assert(runs.subrange(mid as int, mid as int) =~= Seq::<usize>::empty());
        assert(out@ =~= Seq::<usize>::empty());
        assert(out@.to_multiset() =~= runs.subrange(start as int, start as int).to_multiset().add(
            runs.subrange(mid as int, mid as int).to_multiset(),
        ));
    }
    let mut i: usize = start;
    let mut j: usize = mid;
    while i < mid || j < end
        invariant
            start <= i <= mid <= j <= end <= order.len(),
            order@ == runs,
            forall|k: int| start <= k < end ==> order[k] < tris.len(),
            sorted_on(tris@, runs, start as int, mid as int, axis),
            sorted_on(tris@, runs, mid as int, end as int, axis),
            out.len() == (i - start) + (j - mid),
            out@.to_multiset() == runs.subrange(start as int, i as int).to_multiset().add(
                runs.subrange(mid as int, j as int).to_multiset(),
            ),
            forall|k: int| 0 <= k < out.len() ==> out[k] < tris.len(),
            sorted_on(tris@, out@, 0, out.len() as int, axis),
            out.len() > 0 && i < mid ==> centroid_key(tris@, out@, out.len() - 1, axis)
                <= centroid_key(tris@, runs, i as int, axis),
            out.len() > 0 && j < end ==> centroid_key(tris@, out@, out.len() - 1, axis)
                <= centroid_key(tris@, runs, j as int, axis),
        decreases (mid - i) + (end - j),
    {
        let ghost before = out@;
        let take_left = if j >= end {
            true
        } else if i >= mid {
            false
        } else {
            tris[order[i]].centroid.get(axis) <= tris[order[j]].centroid.get(axis)
        };
        let ghost (i0, j0) = (i as int, j as int);
        if take_left {
            out.push(order[i]);
            i += 1;
        } else {
            out.push(order[j]);
            j += 1;
        }
        proof {
            broadcast use vstd::seq_lib::group_to_multiset_ensures;
            broadcast use vstd::multiset::group_multiset_axioms;

            let x = out@.last();
            assert(out@ == before.push(x));
            if take_left {
                assert(runs.subrange(start as int, i as int) =~= runs.subrange(start as int, i0).push(x));
                assert(runs.subrange(mid as int, j as int) =~= runs.subrange(mid as int, j0));
                assert(out@.to_multiset() =~= runs.subrange(start as int, i as int).to_multiset().add(
                    runs.subrange(mid as int, j as int).to_multiset(),
                ));
            } else {
                assert(runs.subrange(mid as int, j as int) =~= runs.subrange(mid as int, j0).push(x));
                assert(runs.subrange(start as int, i as int) =~= runs.subrange(start as int, i0));
                assert(out@.to_multiset() =~= runs.subrange(start as int, i as int).to_multiset().add(
                    runs.subrange(mid as int, j as int).to_multiset(),
                ));
            }
            let last = out.len() - 1;
            assert(centroid_key(tris@, out@, last as int, axis) == tris@[x as int].centroid.at(axis));
            assert forall|a: int, b: int| 0 <= a < b < out.len() implies #[trigger] centroid_key(
                tris@,
                out@,
                a,
                axis,
            ) <= #[trigger] centroid_key(tris@, out@, b, axis) by {
                assert(out@[a] == before[a] || a == last);
                if b < last {
                    assert(centroid_key(tris@, before, a, axis) <= centroid_key(tris@, before, b, axis));
                } else if a < last - 1 {
                    assert(centroid_key(tris@, before, a, axis) <= centroid_key(
                        tris@,
                        before,
                        last - 1,
                        axis,
                    ));
                }
            }
            if take_left && i < mid {
                assert(centroid_key(tris@, runs, i0, axis) <= centroid_key(tris@, runs, i as int, axis));
            }
            if !take_left && j < end {
                assert(centroid_key(tris@, runs, j0, axis) <= centroid_key(tris@, runs, j as int, axis));
            }
        }
    }
    proof {
        assert(runs.subrange(start as int, end as int) =~= runs.subrange(start as int, mid as int)
            + runs.subrange(mid as int, end as int));
        vstd::seq_lib::lemma_multiset_commutative(
            runs.subrange(start as int, mid as int),
            runs.subrange(mid as int, end as int),
        );
    }
    let mut k: usize = 0;
    while k < out.len()
        invariant
            out.len() == end - start,
            start <= end <= order.len(),
            order.len() == runs.len(),
            forall|q: int| 0 <= q < order.len() && !(start <= q < start + k) ==> order[q] == runs[q],
            forall|q: int| 0 <= q < k ==> order[start + q] == out[q],
            k <= out.len(),
        decreases out.len() - k,
    {
        order.set(start + k, out[k]);
        k += 1;
    }
    proof {
        assert(order@.subrange(start as int, end as int) =~= out@);
        lemma_whole_multiset(runs, order@, start as int, end as int);
        assert forall|a: int, b: int| start <= a < b < end implies #[trigger] centroid_key(
            tris@,
            order@,
            a,
            axis,
        ) <= #[trigger] centroid_key(tris@, order@, b, axis) by {
            assert(centroid_key(tris@, out@, a - start, axis) <= centroid_key(tris@, out@, b - start, axis));
        }
        assert forall|q: int| start <= q < end implies order[q] < tris.len() by {
            assert(order[q] == out[q - start]);
        }
    }
}

/// Two orders with the same entries, equal outside `s..e`, have the same
/// entries inside `s..e`.
proof fn lemma_sub_multiset(o1: Seq<usize>, o2: Seq<usize>, s: int, e: int)
    requires
        0 <= s <= e <= o1.len(),
        o2.len() == o1.len(),
        o1.to_multiset() == o2.to_multiset(),
        forall|k: int| 0 <= k < o1.len() && !(s <= k < e) ==> o1[k] == o2[k],
    ensures
        o1.subrange(s, e).to_multiset() == o2.subrange(s, e).to_multiset(),
{
    broadcast use vstd::multiset::group_multiset_axioms;

    let n = o1.len() as int;
    let (p1, m1, q1) = (o1.subrange(0, s), o1.subrange(s, e), o1.subrange(e, n));
    let (p2, m2, q2) = (o2.subrange(0, s), o2.subrange(s, e), o2.subrange(e, n));
    assert(o1 =~= p1 + m1 + q1);
    assert(o2 =~= p2 + m2 + q2);
    assert(p1 =~= p2);
    assert(q1 =~= q2);
    vstd::seq_lib::lemma_multiset_commutative(p1 + m1, q1);
    vstd::seq_lib::lemma_multiset_commutative(p1, m1);
    vstd::seq_lib::lemma_multiset_commutative(p2 + m2, q2);
    vstd::seq_lib::lemma_multiset_commutative(p2, m2);
    assert(o1.to_multiset() == p1.to_multiset().add(m1.to_multiset()).add(q1.to_multiset()));
    assert(o2.to_multiset() == p2.to_multiset().add(m2.to_multiset()).add(q2.to_multiset()));
    assert forall|x: usize| m1.to_multiset().count(x) == m2.to_multiset().count(x) by {
        let (a1, b1, c1) = (p1.to_multiset(), m1.to_multiset(), q1.to_multiset());
        let (a2, b2, c2) = (p2.to_multiset(), m2.to_multiset(), q2.to_multiset());
        assert(a1.add(b1).add(c1).count(x) == a1.add(b1).count(x) + c1.count(x));
        assert(a1.add(b1).count(x) == a1.count(x) + b1.count(x));
        assert(a2.add(b2).add(c2).count(x) == a2.add(b2).count(x) + c2.count(x));
        assert(a2.add(b2).count(x) == a2.count(x) + b2.count(x));
        assert(o1.to_multiset().count(x) == o2.to_multiset().count(x));
    }
    assert(o1.subrange(s, e).to_multiset() =~= o2.subrange(s, e).to_multiset());
}

/// `x` is an entry of `o` in `s..e`.
pub open spec fn entry_in(o: Seq<usize>, s: int, e: int, x: usize) -> bool {
    exists|j: int| s <= j < e && o[j] == x
}

/// Every entry of `o2` in `s..e` is an entry of `o1` in `s..e`, when the two
/// ranges hold the same entries.
proof fn lemma_members(o1: Seq<usize>, o2: Seq<usize>, s: int, e: int)
    requires
        0 <= s <= e <= o1.len(),
        e <= o2.len(),
        o1.subrange(s, e).to_multiset() == o2.subrange(s, e).to_multiset(),
    ensures
        forall|k: int| s <= k < e ==> #[trigger] entry_in(o1, s, e, o2[k]),
{
    broadcast use vstd::seq_lib::group_to_multiset_ensures;

    assert forall|k: int| s <= k < e implies #[trigger] entry_in(o1, s, e, o2[k]) by {
        let x = o2[k];
        assert(o2.subrange(s, e)[k - s] == x);
        assert(o2.subrange(s, e).contains(x));
        assert(o1.subrange(s, e).to_multiset().count(x) > 0);
        assert(o1.subrange(s, e).contains(x));
        let j = choose|j: int| 0 <= j < e - s && o1.subrange(s, e)[j] == x;
        assert(o1.subrange(s, e)[j] == o1[s + j]);
        assert(s <= s + j < e && o1[s + j] == x);
    }
}

/// A hull carries over to another order whose range holds the same entries.
proof fn lemma_hull_same_members(b: Aabb, tris: Seq<Triangle>, o1: Seq<usize>, o2: Seq<usize>, s: int, e: int)
    requires
        is_hull(b, tris, o1, s, e),
        forall|k: int| s <= k < e ==> #[trigger] entry_in(o1, s, e, o2[k]),
        forall|k: int| s <= k < e ==> #[trigger] entry_in(o2, s, e, o1[k]),
    ensures
        is_hull(b, tris, o2, s, e),
{
    assert forall|k: int| s <= k < e implies encloses_triangle(b, #[trigger] tri_at(tris, o2, k)) by {
        assert(entry_in(o1, s, e, o2[k]));
        let j = choose|j: int| s <= j < e && o1[j] == o2[k];
        assert(encloses_triangle(b, tri_at(tris, o1, j)));
    }
    let axes = seq![Axis::X, Axis::Y, Axis::Z];
    assert forall|i: int| 0 <= i < 3 implies crate::geom::low_attained(b, tris, o2, s, e, #[trigger] axes[i])
        && crate::geom::high_attained(b, tris, o2, s, e, axes[i]) by {
        let a = axes[i];
        let k1 = choose|k: int| s <= k < e && #[trigger] touches_min(b, tri_at(tris, o1, k), a);
        let k2 = choose|k: int| s <= k < e && #[trigger] touches_max(b, tri_at(tris, o1, k), a);
        assert(entry_in(o2, s, e, o1[k1]));
        assert(entry_in(o2, s, e, o1[k2]));
        let j1 = choose|j: int| s <= j < e && o2[j] == o1[k1];
        let j2 = choose|j: int| s <= j < e && o2[j] == o1[k2];
        assert(touches_min(b, tri_at(tris, o2, j1), a));
        assert(touches_max(b, tri_at(tris, o2, j2), a));
    }
    assert(axes[0] == Axis::X && axes[1] == Axis::Y && axes[2] == Axis::Z);
}

/// Node `node`, if internal, splits on the widest axis of the extent that
/// `extent` gave for its box.
pub open spec fn axis_chosen<F: Fn(Aabb) -> Point>(extent: F, node: Node) -> bool {
    match node {
        Node::Leaf { .. } => true,
        Node::Internal { bounds, axis, .. } => exists|x: Point|
            extent.ensures((bounds,), x) && axis == widest(x),
    }
}

/// The halves of a sorted range stay ordered against each other while each
/// half is rearranged within itself.
proof fn lemma_split_kept(
    tris: Seq<Triangle>,
    o0: Seq<usize>,
    o1: Seq<usize>,
    o2: Seq<usize>,
    s: int,
    m: int,
    e: int,
    axis: Axis,
)
    requires
        0 <= s <= m <= e <= o0.len(),
        o1.len() == o0.len(),
        o2.len() == o0.len(),
        sorted_on(tris, o0, s, e, axis),
        o1.to_multiset() == o0.to_multiset(),
        forall|k: int| 0 <= k < o0.len() && !(s <= k < m) ==> o1[k] == o0[k],
        o2.to_multiset() == o1.to_multiset(),
        forall|k: int| 0 <= k < o0.len() && !(m <= k < e) ==> o2[k] == o1[k],
    ensures
        split_ok(tris, o2, s, m, e, axis),
{
    lemma_sub_multiset(o0, o1, s, m);
    lemma_members(o0, o1, s, m);
    lemma_sub_multiset(o1, o2, m, e);
    lemma_members(o1, o2, m, e);
    assert forall|a: int, b: int| s <= a < m <= b < e implies #[trigger] centroid_key(tris, o2, a, axis)
        <= #[trigger] centroid_key(tris, o2, b, axis) by {
        assert(o2[a] == o1[a]);
        assert(entry_in(o0, s, m, o1[a]));
        assert(entry_in(o1, m, e, o2[b]));
        let a1 = choose|j: int| s <= j < m && o0[j] == o1[a];
        let b1 = choose|j: int| m <= j < e && o1[j] == o2[b];
        assert(o1[b1] == o0[b1]);
        assert(centroid_key(tris, o0, a1, axis) <= centroid_key(tris, o0, b1, axis));
    }
}

/// Node `i` stays sound when nothing that it reads has changed.
proof fn lemma_node_ok_frame(
    n1: Seq<Node>,
    n2: Seq<Node>,
    sp1: Seq<(int, int)>,
    sp2: Seq<(int, int)>,
    tris: Seq<Triangle>,
    o1: Seq<usize>,
    o2: Seq<usize>,
    i: int,
)
    requires
        node_ok(n1, sp1, tris, o1, i),
        n2.len() >= n1.len(),
        o2.len() == o1.len(),
        n2[i] == n1[i],
        sp2[i] == sp1[i],
        forall|c: int| #[trigger] is_child(n1[i], c) ==> n2[c] == n1[c] && sp2[c] == sp1[c],
        forall|k: int| sp1[i].0 <= k < sp1[i].1 ==> o1[k] == o2[k],
    ensures
        node_ok(n2, sp2, tris, o2, i),
{
    lemma_hull_frame(n1[i].spec_bounds(), tris, o1, o2, sp1[i].0, sp1[i].1);
    match n1[i] {
        Node::Leaf { .. } => {},
        Node::Internal { left, right, axis, .. } => {
            assert(is_child(n1[i], left as int));
            assert(is_child(n1[i], right as int));
            let s = sp1[i].0;
            let e = sp1[i].1;
            assert forall|a: int, b: int| s <= a < s + (e - s) / 2 <= b < e implies #[trigger] centroid_key(
                tris,
                o2,
                a,
                axis,
            ) <= #[trigger] centroid_key(tris, o2, b, axis) by {
                assert(centroid_key(tris, o1, a, axis) <= centroid_key(tris, o1, b, axis));
            }
        },
    }
}

/// Node `idx` is internal and was reserved before its subtrees were built:
/// its left child comes right after it, its right child right after the left
/// subtree, whose nodes all cover positions before `mid`, while the right
/// subtree's nodes, up to the end of `nodes`, cover positions from `mid` on.
pub open spec fn reserved_then_backfilled(nodes: Seq<Node>, spans: Seq<(int, int)>, idx: int, mid: int) -> bool {
    match nodes[idx] {
        Node::Leaf { .. } => false,
        Node::Internal { left, right, .. } => {
            &&& left == idx + 1
            &&& left < right < nodes.len()
            &&& forall|i: int| left <= i < right ==> #[trigger] spans[i].1 <= mid
            &&& forall|i: int| right <= i < nodes.len() ==> mid <= #[trigger] spans[i].0
        },
    }
}

/// Builds the subtree over positions `start..end` of `order`, appending its
/// nodes to `nodes` (its root first) and the ranges they cover to `spans`.
#[verifier::rlimit(100)]
#[verifier::spinoff_prover]
fn build_node<F: Fn(Aabb) -> Point>(
    tris: &Vec<Triangle>,
    order: &mut Vec<usize>,
    start: usize,
    end: usize,
    nodes: &mut Vec<Node>,
    spans: Ghost<Seq<(int, int)>>,
    extent: &F,
) -> (r: (usize, Ghost<Seq<(int, int)>>))
    requires
        start < end <= old(order).len(),
        forall|k: int| start <= k < end ==> old(order)[k] < tris.len(),
        spans@.len() == old(nodes).len(),
        old(nodes).len() + 2 * (end - start) < usize::MAX,
        forall|b: Aabb| extent.requires((b,)),
    ensures
        r.0 == old(nodes).len(),
        final(nodes).len() > old(nodes).len(),
        final(nodes).len() <= old(nodes).len() + 2 * (end - start) - 1,
        r.1@.len() == final(nodes).len(),
        r.1@.subrange(0, old(nodes).len() as int) == spans@,
        final(nodes)@.subrange(0, old(nodes).len() as int) == old(nodes)@,
        r.1@[r.0 as int] == (start as int, end as int),
        final(order).len() == old(order).len(),
        forall|k: int|
            0 <= k < final(order).len() && !(start <= k < end) ==> final(order)[k] == old(order)[k],
        forall|k: int| start <= k < end ==> final(order)[k] < tris.len(),
        final(order)@.to_multiset() == old(order)@.to_multiset(),
        forall|i: int|
            old(nodes).len() <= i < final(nodes).len() ==> #[trigger] node_ok(
                final(nodes)@,
                r.1@,
                tris@,
                final(order)@,
                i,
            ),
        forall|i: int|
            old(nodes).len() <= i < final(nodes).len() ==> start <= #[trigger] r.1@[i].0 && r.1@[i].1
                <= end,
        leaves_ordered(final(nodes)@, r.1@, old(nodes).len() as int, final(nodes).len() as int),
        has_parents(final(nodes)@, old(nodes).len() as int, final(nodes).len() as int),
        end - start <= MAX_LEAF_TRIANGLES ==> final(nodes).len() == old(nodes).len() + 1,
        end - start <= MAX_LEAF_TRIANGLES ==> final(order)@ == old(order)@,
        end - start > MAX_LEAF_TRIANGLES ==> reserved_then_backfilled(
            final(nodes)@,
            r.1@,
            r.0 as int,
            start + (end - start) / 2,
        ),
        forall|i: int|
            old(nodes).len() <= i < final(nodes).len() ==> axis_chosen(*extent, #[trigger] final(nodes)@[i]),
    decreases end - start,
{
    let ghost pre = order@;
    let count = end - start;
    let bounds = range_bounds(tris, order, start, end);
    let idx = nodes.len();
    if count <= MAX_LEAF_TRIANGLES {
        nodes.push(Node::Leaf { bounds, start, count });
        let ghost sp = spans@.push((start as int, end as int));
        proof {
            assert(sp.subrange(0, idx as int) =~= spans@);
            assert(nodes@.subrange(0, idx as int) =~= old(nodes)@);
            assert(node_ok(nodes@, sp, tris@, order@, idx as int));
        }
        return (idx, Ghost(sp));
    }
    let ext = extent(bounds);
    let axis = widest_axis(&ext);
    merge_sort_range(tris, order, start, end, axis);
    let mid = start + count / 2;
    nodes.push(Node::Internal { bounds, axis, left: 0, right: 0 });
    let ghost sp0 = spans@.push((start as int, end as int));
    let ghost order0 = order@;
    let (left, sp1) = build_node(tris, order, start, mid, nodes, Ghost(sp0), extent);
    let ghost order1 = order@;
    let ghost nodes1 = nodes@;
    let (right, sp2) = build_node(tris, order, mid, end, nodes, sp1, extent);
    let ghost order2 = order@;
    let ghost nodes2 = nodes@;
    let lb = nodes[left].bounds();
    let rb = nodes[right].bounds();
    let ub = union_box(&lb, &rb);
    nodes.set(idx, Node::Internal { bounds: ub, axis, left, right });
    proof {
        let sp = sp2@;
        let fin = nodes@;
        let t = tris@;
        let m1 = right as int;
        assert(sp.subrange(0, idx as int) =~= spans@) by {
            assert forall|k: int| 0 <= k < idx implies sp[k] == spans@[k] by {
                assert(sp1@.subrange(0, idx as int + 1)[k] == sp0[k]);
                assert(sp.subrange(0, m1)[k] == sp1@[k]);
            }
        }
        assert(fin.subrange(0, idx as int) =~= old(nodes)@) by {
            assert forall|k: int| 0 <= k < idx implies fin[k] == old(nodes)@[k] by {
                assert(nodes1.subrange(0, idx as int + 1)[k] == old(nodes)@.push(
                    Node::Internal { bounds, axis, left: 0, right: 0 },
                )[k]);
                assert(nodes2.subrange(0, m1)[k] == nodes1[k]);
            }
        }
        assert(sp[idx as int] == (start as int, end as int)) by {
            assert(sp1@.subrange(0, idx as int + 1)[idx as int] == sp0[idx as int]);
            assert(sp.subrange(0, m1)[idx as int] == sp1@[idx as int]);
        }
        assert(sp[left as int] == sp1@[left as int]) by {
            assert(sp.subrange(0, m1)[left as int] == sp1@[left as int]);
        }
        assert(nodes2[left as int] == nodes1[left as int]) by {
            assert(nodes2.subrange(0, m1)[left as int] == nodes1[left as int]);
        }
        // The left subtree is untouched by the right one.
        assert forall|i: int| left <= i < m1 implies #[trigger] node_ok(fin, sp, t, order@, i) && start
            <= sp[i].0 && sp[i].1 <= mid by {
            assert(node_ok(nodes1, sp1@, t, order1, i));
            assert(nodes2.subrange(0, m1)[i] == nodes1[i]);
            assert(sp.subrange(0, m1)[i] == sp1@[i]);
            assert forall|c: int| #[trigger] is_child(nodes1[i], c) implies fin[c] == nodes1[c]
                && sp[c] == sp1@[c] by {
                assert(nodes2.subrange(0, m1)[c] == nodes1[c]);
                assert(sp.subrange(0, m1)[c] == sp1@[c]);
            }
            lemma_node_ok_frame(nodes1, fin, sp1@, sp, t, order1, order@, i);
        }
        assert forall|i: int| m1 <= i < fin.len() implies #[trigger] node_ok(fin, sp, t, order@, i)
            && mid <= sp[i].0 && sp[i].1 <= end by {
            assert(node_ok(nodes2, sp, t, order2, i));
            assert forall|c: int| #[trigger] is_child(nodes2[i], c) implies fin[c] == nodes2[c]
                && sp[c] == sp[c] by {}
            lemma_node_ok_frame(nodes2, fin, sp, sp, t, order2, order@, i);
        }
        // The new root's box is the one its axis was chosen from.
        lemma_sub_multiset(pre, order@, start as int, end as int);
        lemma_members(pre, order@, start as int, end as int);
        lemma_members(order@, pre, start as int, end as int);
        lemma_hull_same_members(bounds, t, pre, order@, start as int, end as int);
        // The halves stay split on the sorted keys.
        lemma_split_kept(t, order0, order1, order@, start as int, mid as int, end as int, axis);
        assert(node_ok(fin, sp, t, order@, left as int));
        assert(node_ok(fin, sp, t, order@, m1));
        lemma_union_hull(lb, rb, t, order@, start as int, mid as int, end as int);
        assert(node_ok(fin, sp, t, order@, idx as int));
        lemma_hull_unique(ub, bounds, t, order@, start as int, end as int);
        assert(axis_chosen(*extent, fin[idx as int]));
        assert forall|i: int| idx <= i < fin.len() implies axis_chosen(*extent, #[trigger] fin[i]) by {
            if i == idx {
            } else if i < m1 {
                assert(nodes2.subrange(0, m1)[i] == nodes1[i]);
                assert(axis_chosen(*extent, nodes1[i]));
            } else {
                assert(axis_chosen(*extent, nodes2[i]));
            }
        }
        assert forall|i: int| left <= i < m1 implies #[trigger] sp[i].1 <= mid by {
            assert(node_ok(fin, sp, t, order@, i));
        }
        assert forall|i: int| m1 <= i < fin.len() implies mid <= #[trigger] sp[i].0 by {
            assert(node_ok(fin, sp, t, order@, i));
        }
        assert(reserved_then_backfilled(fin, sp, idx as int, mid as int));
        assert forall|i: int| idx <= i < fin.len() implies #[trigger] node_ok(fin, sp, t, order@, i)
            && start <= sp[i].0 && sp[i].1 <= end by {
            if i == idx {
                assert(node_ok(fin, sp, t, order@, idx as int));
                assert(sp[idx as int] == (start as int, end as int));
            } else if i < m1 {
                assert(left <= i < m1);
                assert(node_ok(fin, sp, t, order@, i));
            } else {
                assert(node_ok(fin, sp, t, order@, i));
            }
        }
        assert(leaves_ordered(fin, sp, idx as int, fin.len() as int)) by {
            assert forall|i: int, j: int|
                idx <= i < j < fin.len() && fin[i].is_leaf() && fin[j].is_leaf() implies #[trigger] sp[i].1
                <= #[trigger] sp[j].0 by {
                if j < m1 {
                    assert(nodes2.subrange(0, m1)[i] == nodes1[i]);
                    assert(nodes2.subrange(0, m1)[j] == nodes1[j]);
                    assert(sp.subrange(0, m1)[i] == sp1@[i]);
                    assert(sp.subrange(0, m1)[j] == sp1@[j]);
                } else if i >= m1 {
                } else {
                    assert(node_ok(fin, sp, t, order@, i));
                    assert(node_ok(fin, sp, t, order@, j));
                }
            }
        }
        assert(has_parents(fin, idx as int, fin.len() as int)) by {
            assert forall|i: int| idx < i < fin.len() implies #[trigger] has_parent(fin, idx as int, i) by {
                if i == left {
                    assert(is_child(fin[idx as int], i));
                } else if i == m1 {
                    assert(is_child(fin[idx as int], i));
                } else if i < m1 {
                    assert(has_parent(nodes1, left as int, i));
                    let j = choose|j: int| left <= j < i && #[trigger] is_child(nodes1[j], i);
                    assert(nodes2.subrange(0, m1)[j] == nodes1[j]);
                    assert(is_child(fin[j], i));
                } else {
                    assert(has_parent(nodes2, m1, i));
                    let j = choose|j: int| m1 <= j < i && #[trigger] is_child(nodes2[j], i);
                    assert(is_child(fin[j], i));
                }
            }
        }
    }
    proof {
        assert(idx == old(nodes).len());
        assert(forall|i: int|
            old(nodes).len() <= i < nodes.len() ==> #[trigger] node_ok(nodes@, sp2@, tris@, order@, i));
        assert forall|i: int| old(nodes).len() <= i < nodes.len() implies start <= #[trigger] sp2@[i].0
            && sp2@[i].1 <= end by {
            assert(node_ok(nodes@, sp2@, tris@, order@, i));
        }
    }
    (idx, sp2)
}

/// The number of leaves among `nodes[0..k]`.
pub open spec fn leaf_count(nodes: Seq<Node>, k: int) -> nat
    decreases k,
{
    if k <= 0 {
        0
    } else {
        leaf_count(nodes, k - 1) + if nodes[k - 1].is_leaf() { 1nat } else { 0nat }
    }
}

/// The number of edges on the longest path from node `i` down to a leaf.
pub open spec fn depth(nodes: Seq<Node>, i: int) -> nat
    decreases nodes.len() - i,
{
    if 0 <= i < nodes.len() {
        match nodes[i] {
            Node::Leaf { .. } => 0,
            Node::Internal { left, right, .. } => {
                if i < left < nodes.len() && i < right < nodes.len() {
                    let dl = depth(nodes, left as int);
                    let dr = depth(nodes, right as int);
                    1 + if dl >= dr { dl } else { dr }
                } else {
                    0
                }
            },
        }
    } else {
        0
    }
}

/// A bounding-volume hierarchy over a triangle mesh.
///
/// The nodes form an arena whose root is node 0; `order` is a permutation of
/// the triangle ids in which every leaf's triangles are contiguous.
pub struct Bvh {
    nodes: Vec<Node>,
    triangles: Vec<Triangle>,
    order: Vec<usize>,
    spans: Ghost<Seq<(int, int)>>,
}

impl Bvh {
    pub closed spec fn node_seq(self) -> Seq<Node> {
        self.nodes@
    }

    pub closed spec fn triangle_seq(self) -> Seq<Triangle> {
        self.triangles@
    }

    pub closed spec fn order_seq(self) -> Seq<usize> {
        self.order@
    }

    /// The range of positions of the order that each node covers.
    pub closed spec fn span_seq(self) -> Seq<(int, int)> {
        self.spans@
    }

    /// The sequences are held in vectors, so their lengths fit in `usize`.
    pub proof fn lemma_lengths(self)
        ensures
            self.node_seq().len() <= usize::MAX,
            self.triangle_seq().len() <= usize::MAX,
            self.order_seq().len() <= usize::MAX,
    {
        assert(self.nodes@.len() == self.nodes.len());
        assert(self.triangles@.len() == self.triangles.len());
        assert(self.order@.len() == self.order.len());
    }

    pub open spec fn wf(self) -> bool {
        tree_ok(self.node_seq(), self.span_seq(), self.triangle_seq(), self.order_seq())
    }

    /// The five diagnostic counts: nodes, leaves, internal nodes, depth of
    /// the tree, triangles.
    pub open spec fn stats_spec(self) -> Seq<u32> {
        let nodes = self.node_seq();
        let leaves = leaf_count(nodes, nodes.len() as int);
        seq![
            nodes.len() as u32,
            leaves as u32,
            (nodes.len() - leaves) as u32,
            depth(nodes, 0) as u32,
            self.triangle_seq().len() as u32,
        ]
    }

    /// Builds the hierarchy by median splits on the axis of largest extent.
    ///
    /// `extent` gives, for a box, the order keys of its lengths along the
    /// three axes (the float differences of its corners); it decides only the
    /// split axis of each internal node.
    pub fn build<F: Fn(Aabb) -> Point>(triangles: Vec<Triangle>, extent: F) -> (r: Bvh)
        requires
            triangles.len() < usize::MAX / 4,
            forall|b: Aabb| extent.requires((b,)),
        ensures
            r.wf(),
            r.triangle_seq() == triangles@,
            triangles.len() <= MAX_LEAF_TRIANGLES ==> r.node_seq().len() == 1,
            forall|i: int|
                0 <= i < r.node_seq().len() ==> axis_chosen(extent, #[trigger] r.node_seq()[i]),
    {
        let n = triangles.len();
        let mut order: Vec<usize> = Vec::new();
        let mut i: usize = 0;
        while i < n
            invariant
                i <= n,
                order@ == identity(i as nat),
            decreases n - i,
        {
            order.push(i);
            i += 1;
            proof {
                assert(order@ =~= identity(i as nat));
            }
        }
        if n == 0 {
            let zero = Point { x: SIGN_BIT, y: SIGN_BIT, z: SIGN_BIT };
            let mut nodes: Vec<Node> = Vec::new();
            nodes.push(Node::Leaf { bounds: Aabb { min: zero, max: zero }, start: 0, count: 0 });
            let ghost sp: Seq<(int, int)> = seq![(0int, 0int)];
            return Bvh { nodes, triangles, order, spans: Ghost(sp) };
        }
        let mut nodes: Vec<Node> = Vec::new();
        let (_root, spans) = build_node(
            &triangles,
            &mut order,
            0,
            n,
            &mut nodes,
            Ghost(Seq::empty()),
            &extent,
        );
        Bvh { nodes, triangles, order, spans }
    }

    /// Number of nodes.
    pub fn node_count(&self) -> (r: usize)
        ensures
            r == self.node_seq().len(),
    {
        self.nodes.len()
    }

    /// Number of triangles.
    pub fn triangle_count(&self) -> (r: usize)
        ensures
            r == self.triangle_seq().len(),
    {
        self.triangles.len()
    }

    /// Node `i`.
    pub fn node(&self, i: usize) -> (r: Node)
        requires
            i < self.node_seq().len(),
        ensures
            r == self.node_seq()[i as int],
    {
        self.nodes[i]
    }

    /// The id of the triangle at position `k` of the order.
    pub fn triangle_id(&self, k: usize) -> (r: usize)
        requires
            k < self.order_seq().len(),
        ensures
            r == self.order_seq()[k as int],
    {
        self.order[k]
    }

    /// Triangle `id`.
    pub fn triangle(&self, id: usize) -> (r: Triangle)
        requires
            id < self.triangle_seq().len(),
        ensures
            r == self.triangle_seq()[id as int],
    {
        self.triangles[id]
    }

    /// Height of the subtree under node `i` (0 past the end of the arena).
    fn max_depth(&self, i: usize) -> (r: usize)
        requires
            self.wf(),
        ensures
            r == depth(self.node_seq(), i as int),
            i < self.node_seq().len() ==> r < self.node_seq().len() - i,
        decreases self.node_seq().len() - i,
    {
        if i >= self.nodes.len() {
            return 0;
        }
        proof {
            if self.triangles.len() > 0 {
                assert(node_ok(self.nodes@, self.spans@, self.triangles@, self.order@, i as int));
            }
        }
        match self.nodes[i] {
            Node::Leaf { .. } => 0,
            Node::Internal { left, right, .. } => {
                assert(i < left < self.nodes.len() && i < right < self.nodes.len());
                let dl = self.max_depth(left);
                let dr = self.max_depth(right);
                if dl >= dr {
                    1 + dl
                } else {
                    1 + dr
                }
            },
        }
    }

    /// Number of leaves.
    fn leaf_nodes(&self) -> (r: usize)
        ensures
            r == leaf_count(self.node_seq(), self.node_seq().len() as int),
            r <= self.node_seq().len(),
    {
        let mut count: usize = 0;
        let mut k: usize = 0;
        while k < self.nodes.len()
            invariant
                k <= self.nodes.len(),
                count == leaf_count(self.nodes@, k as int),
                count <= k,
            decreases self.nodes.len() - k,
        {
            if let Node::Leaf { .. } = self.nodes[k] {
                count += 1;
            }
            k += 1;
        }
        count
    }

    /// Diagnostics: node count, leaf count, internal node count, depth of
    /// the tree (edges from the root to its deepest leaf), triangle count.
    pub fn get_stats(&self) -> (r: Vec<u32>)
        requires
            self.wf(),
        ensures
            r@ == self.stats_spec(),
    {
        let total = self.nodes.len();
        let leaves = self.leaf_nodes();
        let internal = total - leaves;
        let d = self.max_depth(0);
        let tris = self.triangles.len();
        let mut r: Vec<u32> = Vec::new();
        r.push(total as u32);
        r.push(leaves as u32);
        r.push(internal as u32);
        r.push(d as u32);
        r.push(tris as u32);
        proof {
            assert(r@ =~= self.stats_spec());
        }
        r
    }

    /// The stack that a ray query starts from: the root, unless the
    /// structure holds no triangle (then no ray can hit anything).
    pub fn traversal_start(&self) -> (r: Vec<usize>)
        ensures
            r@ == if self.triangle_seq().len() == 0 {
                Seq::<usize>::empty()
            } else {
                seq![0usize]
            },
    {
        let mut r: Vec<usize> = Vec::new();
        if self.triangles.len() > 0 {
            r.push(0);
        }
        proof {
            if self.triangles.len() > 0 {
                assert(r@ =~= seq![0usize]);
            } else {
                assert(r@ =~= Seq::<usize>::empty());
            }
        }
        r
    }

    /// Steps into node `i`, popped from the stack with its box reached by
    /// the ray: a leaf gives the range of positions of the order to test; an
    /// internal node pushes its right child, then its left one, so that the
    /// left one is visited first.
    pub fn descend(&self, i: usize, stack: &mut Vec<usize>) -> (r: Option<(usize, usize)>)
        requires
            self.wf(),
            i < self.node_seq().len(),
        ensures
            match self.node_seq()[i as int] {
                Node::Leaf { start, count, .. } => {
                    &&& r == Some((start, (start + count) as usize))
                    &&& start + count <= self.order_seq().len()
                    &&& final(stack)@ == old(stack)@
                },
                Node::Internal { left, right, .. } => {
                    &&& r.is_none()
                    &&& final(stack)@ == old(stack)@.push(right).push(left)
                    &&& left < self.node_seq().len()
                    &&& right < self.node_seq().len()
                },
            },
    {
        proof {
            if self.triangles.len() > 0 {
                assert(node_ok(self.nodes@, self.spans@, self.triangles@, self.order@, i as int));
            }
        }
        match self.nodes[i] {
            Node::Leaf { start, count, .. } => Some((start, start + count)),
            Node::Internal { left, right, .. } => {
                stack.push(right);
                stack.push(left);
                None
            },
        }
    }
}

} // verus!
