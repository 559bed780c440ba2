use vstd::prelude::*;

use crate::bvh::{lemma_permutation_entries, node_ok, Bvh, Node};
use crate::geom::Aabb;

verus! {

/// The number of nodes in the subtree under node `i`.
pub open spec fn subtree_size(nodes: Seq<Node>, i: int) -> nat
    decreases nodes.len() - i,
{
    if 0 <= i < nodes.len() {
        match nodes[i] {
            Node::Leaf { .. } => 1,
            Node::Internal { left, right, .. } => {
                if i < left < nodes.len() && i < right < nodes.len() {
                    1 + subtree_size(nodes, left as int) + subtree_size(nodes, right as int)
                } else {
                    1
                }
            },
        }
    } else {
        0
    }
}

/// The number of node visits that a stack can still lead to.
pub open spec fn pending(nodes: Seq<Node>, stack: Seq<usize>) -> nat
    decreases stack.len(),
{
    if stack.len() == 0 {
        0
    } else {
        pending(nodes, stack.drop_last()) + subtree_size(nodes, stack.last() as int)
    }
}

/// Pushing a node adds its subtree to what is pending.
pub proof fn lemma_pending_push(nodes: Seq<Node>, stack: Seq<usize>, x: usize)
    ensures
        pending(nodes, stack.push(x)) == pending(nodes, stack) + subtree_size(nodes, x as int),
{
    assert(stack.push(x).drop_last() =~= stack);
}

/// The best hit after offering positions `k..end` of `order`, in turn, to
/// the triangle test `tf`, starting from `best`: a hit that `tf` returns
/// replaces the best one.
pub open spec fn leaf_scan<H>(
    order: Seq<usize>,
    k: int,
    end: int,
    best: Option<H>,
    tf: spec_fn(usize, Option<H>) -> Option<H>,
) -> Option<H>
    decreases end - k,
{
    if k < end {
        let found = tf(order[k], best);
        leaf_scan(order, k + 1, end, if found is Some { found } else { best }, tf)
    } else {
        best
    }
}

/// The outcome of the depth-first search from `stack` with best hit `best`,
/// box test `bf` and triangle test `tf`: pop the top node; if `bf` rejects
/// its box, go on; a leaf scans its range; an internal node pushes its right
/// child, then its left one.
pub open spec fn search<H>(
    nodes: Seq<Node>,
    order: Seq<usize>,
    stack: Seq<usize>,
    best: Option<H>,
    bf: spec_fn(Aabb, Option<H>) -> bool,
    tf: spec_fn(usize, Option<H>) -> Option<H>,
) -> Option<H>
    decreases pending(nodes, stack),
{
    if stack.len() == 0 {
        best
    } else {
        let i = stack.last();
        let rest = stack.drop_last();
        proof {
            assert(rest.push(i) =~= stack);
            lemma_pending_push(nodes, rest, i);
        }
        if i >= nodes.len() {
            best
        } else if !bf(nodes[i as int].spec_bounds(), best) {
            search(nodes, order, rest, best, bf, tf)
        } else {
            match nodes[i as int] {
                Node::Leaf { start, count, .. } => search(
                    nodes,
                    order,
                    rest,
                    leaf_scan(order, start as int, start + count, best, tf),
                    bf,
                    tf,
                ),
                Node::Internal { left, right, .. } => {
                    if i < left < nodes.len() && i < right < nodes.len() {
                        proof {
                            lemma_pending_push(nodes, rest, right);
                            lemma_pending_push(nodes, rest.push(right), left);
                        }
                        search(nodes, order, rest.push(right).push(left), best, bf, tf)
                    } else {
                        best
                    }
                },
            }
        }
    }
}

/// `f` computes the box test `bf`.
pub open spec fn box_model<H, B: Fn(Aabb, &Option<H>) -> bool>(
    f: B,
    bf: spec_fn(Aabb, Option<H>) -> bool,
) -> bool {
    forall|b: Aabb, h: Option<H>, r: bool| #[trigger] f.ensures((b, &h), r) ==> r == bf(b, h)
}

/// `f` computes the triangle test `tf`.
pub open spec fn tri_model<H, T: Fn(usize, &Option<H>) -> Option<H>>(
    f: T,
    tf: spec_fn(usize, Option<H>) -> Option<H>,
) -> bool {
    forall|id: usize, h: Option<H>, r: Option<H>| #[trigger] f.ensures((id, &h), r) ==> r == tf(id, h)
}

/// A subtree has fewer than twice as many nodes as the positions it covers.
proof fn lemma_subtree_bound(
    nodes: Seq<Node>,
    spans: Seq<(int, int)>,
    tris: Seq<crate::geom::Triangle>,
    order: Seq<usize>,
    i: int,
)
    requires
        crate::bvh::tree_ok(nodes, spans, tris, order),
        tris.len() > 0,
        0 <= i < nodes.len(),
    ensures
        subtree_size(nodes, i) < 2 * (spans[i].1 - spans[i].0),
    decreases nodes.len() - i,
{
    assert(node_ok(nodes, spans, tris, order, i));
    match nodes[i] {
        Node::Leaf { .. } => {},
        Node::Internal { left, right, .. } => {
            lemma_subtree_bound(nodes, spans, tris, order, left as int);
            lemma_subtree_bound(nodes, spans, tris, order, right as int);
        },
    }
}

impl Bvh {
    /// The stack that the search starts from.
    pub open spec fn start_stack(self) -> Seq<usize> {
        if self.triangle_seq().len() == 0 {
            Seq::<usize>::empty()
        } else {
            seq![0usize]
        }
    }

    /// Depth-first search for the closest hit of a ray.
    ///
    /// Starting from the root (or from nothing, for a structure without
    /// triangles), it pops a node, asks `box_hit` whether the ray reaches the
    /// node's box closer than the best hit so far, and if so either tests
    /// each triangle of a leaf with `tri_hit` or pushes the right child and
    /// then the left one. `tri_hit` returns a hit only where it improves on
    /// the best hit so far, which it then replaces.
    ///
    /// Returns the best hit and the number of nodes visited, which is below
    /// twice the number of triangles: no node is visited twice.
    ///
    /// Where the two tests compute functions of their arguments, the hit is
    /// the one [`search`] gives: a function of the structure and the tests.
    pub fn closest_hit<H, B, T>(&self, box_hit: B, tri_hit: T) -> (r: (Option<H>, usize)) where
        B: Fn(Aabb, &Option<H>) -> bool,
        T: Fn(usize, &Option<H>) -> Option<H>,

        requires
            self.wf(),
            forall|b: Aabb, h: &Option<H>| box_hit.requires((b, h)),
            forall|id: usize, h: &Option<H>| tri_hit.requires((id, h)),
        ensures
            self.triangle_seq().len() == 0 ==> r.0.is_none() && r.1 == 0,
            self.triangle_seq().len() > 0 ==> r.1 < 2 * self.triangle_seq().len(),
            r.0.is_some() ==> exists|id: usize, prev: &Option<H>|
                id < self.triangle_seq().len() && tri_hit.ensures((id, prev), r.0),
            forall|bf: spec_fn(Aabb, Option<H>) -> bool, tf: spec_fn(usize, Option<H>) -> Option<H>|
                #![trigger box_model(box_hit, bf), tri_model(tri_hit, tf)]
                box_model(box_hit, bf) && tri_model(tri_hit, tf) ==> r.0 == search(
                    self.node_seq(),
                    self.order_seq(),
                    self.start_stack(),
                    None,
                    bf,
                    tf,
                ),
    {
        let ghost nodes = self.node_seq();
        let ghost n = self.triangle_seq().len();
        let ghost total = pending(nodes, self.start_stack());
        proof {
            self.lemma_lengths();
            lemma_permutation_entries(self.order_seq(), n);
            if n > 0 {
                assert(self.start_stack().drop_last() =~= Seq::<usize>::empty());
                assert(pending(nodes, Seq::<usize>::empty()) == 0);
                assert(total == subtree_size(nodes, 0));
                assert(self.span_seq()[0] == (0int, n as int));
                lemma_subtree_bound(nodes, self.span_seq(), self.triangle_seq(), self.order_seq(), 0);
            }
        }
        let mut stack = self.traversal_start();
        let mut best: Option<H> = None;
        let mut visits: usize = 0;
        while stack.len() > 0
            invariant
                self.wf(),
                visits + pending(nodes, stack@) <= total,
                n > 0 ==> total < 2 * n,
                n == 0 ==> total == 0,
                nodes == self.node_seq(),
                n == self.triangle_seq().len(),
                self.order_seq().len() <= usize::MAX,
                forall|k: int| 0 <= k < self.order_seq().len() ==> self.order_seq()[k] < n,
                forall|b: Aabb, h: &Option<H>| box_hit.requires((b, h)),
                forall|id: usize, h: &Option<H>| tri_hit.requires((id, h)),
                forall|k: int| 0 <= k < stack.len() ==> stack[k] < nodes.len(),
                n == 0 ==> stack@.len() == 0 && best.is_none(),
                best.is_some() ==> exists|id: usize, prev: &Option<H>|
                    id < n && tri_hit.ensures((id, prev), best),
                forall|bf: spec_fn(Aabb, Option<H>) -> bool, tf: spec_fn(usize, Option<H>) -> Option<H>|
                    #![trigger box_model(box_hit, bf), tri_model(tri_hit, tf)]
                    box_model(box_hit, bf) && tri_model(tri_hit, tf) ==> search(
                        nodes,
                        self.order_seq(),
                        stack@,
                        best,
                        bf,
                        tf,
                    ) == search(nodes, self.order_seq(), self.start_stack(), None, bf, tf),
            decreases pending(nodes, stack@),
        {
            let ghost before = stack@;
            let node = match stack.pop() {
                Some(i) => i,
                None => 0,
            };
            proof {
                assert(before =~= stack@.push(node));
                lemma_pending_push(nodes, stack@, node);
                assert(node_ok(nodes, self.span_seq(), self.triangle_seq(), self.order_seq(), node as int));
                assert(subtree_size(nodes, node as int) >= 1);
            }
            visits += 1;
            let bounds = self.node(node).bounds();
            let ghost best0 = best;
            let reached = box_hit(bounds, &best);
            if reached {
                let ghost popped = stack@;
                match self.descend(node, &mut stack) {
                    Some((start, end)) => {
                        let mut k: usize = start;
                        while k < end
                            invariant
                                start <= k <= end <= self.order_seq().len(),
                                forall|j: int| 0 <= j < self.order_seq().len() ==> self.order_seq()[j] < n,
                                forall|id: usize, h: &Option<H>| tri_hit.requires((id, h)),
                                best.is_some() ==> exists|id: usize, prev: &Option<H>|
                                    id < n && tri_hit.ensures((id, prev), best),
                                forall|tf: spec_fn(usize, Option<H>) -> Option<H>|
                                    #![trigger tri_model(tri_hit, tf)]
                                    tri_model(tri_hit, tf) ==> leaf_scan(
                                        self.order_seq(),
                                        k as int,
                                        end as int,
                                        best,
                                        tf,
                                    ) == leaf_scan(self.order_seq(), start as int, end as int, best0, tf),
                            decreases end - k,
                        {
                            let id = self.triangle_id(k);
                            let ghost cur = best;
                            let found = tri_hit(id, &best);
                            if found.is_some() {
                                best = found;
                            }
                            k += 1;
                            proof {
                                assert forall|tf: spec_fn(usize, Option<H>) -> Option<H>|
                                    #![trigger tri_model(tri_hit, tf)]
                                    tri_model(tri_hit, tf) implies leaf_scan(
                                        self.order_seq(),
                                        k as int,
                                        end as int,
                                        best,
                                        tf,
                                    ) == leaf_scan(self.order_seq(), start as int, end as int, best0, tf) by {
                                    assert(tri_hit.ensures((id, &cur), found));
                                    assert(found == tf(id, cur));
                                    assert(leaf_scan(self.order_seq(), k - 1, end as int, cur, tf)
                                        == leaf_scan(self.order_seq(), k as int, end as int, best, tf));
                                }
                            }
                        }
                    },
                    None => {
                        proof {
                            lemma_pending_push(nodes, popped, nodes[node as int]->right);
                            lemma_pending_push(
                                nodes,
                                popped.push(nodes[node as int]->right),
                                nodes[node as int]->left,
                            );
                        }
                    },
                }
            }
        }
        (best, visits)
    }
}

} // verus!

verus! {

/// `h` is closer than `best` by the distance `d` (anything beats no hit).
pub open spec fn improves<H>(d: spec_fn(H) -> int, h: H, best: Option<H>) -> bool {
    best is None || d(h) < d(best->0)
}

/// The triangle test that keeps the closest hit: it returns triangle `id`'s
/// hit `hit(id)` where that improves on the best so far.
pub open spec fn closest_test<H>(hit: spec_fn(usize) -> Option<H>, d: spec_fn(H) -> int) -> spec_fn(
    usize,
    Option<H>,
) -> Option<H> {
    |id: usize, best: Option<H>|
        if hit(id) is Some && improves(d, hit(id)->0, best) {
            hit(id)
        } else {
            None
        }
}

/// `r` is at least as close as `x`, if `x` is a hit.
pub open spec fn as_close<H>(d: spec_fn(H) -> int, r: Option<H>, x: Option<H>) -> bool {
    x is Some ==> r is Some && d(r->0) <= d(x->0)
}

/// The box test `bf` rejects a node's box, given the best hit so far, only
/// where no triangle under the node has a hit that improves on it.
pub open spec fn prunes_soundly<H>(
    nodes: Seq<Node>,
    spans: Seq<(int, int)>,
    order: Seq<usize>,
    bf: spec_fn(Aabb, Option<H>) -> bool,
    hit: spec_fn(usize) -> Option<H>,
    d: spec_fn(H) -> int,
) -> bool {
    forall|i: int, best: Option<H>, k: int|
        0 <= i < nodes.len() && !#[trigger] bf(nodes[i].spec_bounds(), best) && spans[i].0 <= k
            < spans[i].1 ==> !(#[trigger] hit(order[k]) is Some && improves(d, hit(order[k])->0, best))
}

proof fn lemma_leaf_scan_closest<H>(
    order: Seq<usize>,
    k: int,
    end: int,
    best: Option<H>,
    hit: spec_fn(usize) -> Option<H>,
    d: spec_fn(H) -> int,
)
    ensures
        as_close(d, leaf_scan(order, k, end, best, closest_test(hit, d)), best),
        forall|j: int|
            k <= j < end ==> as_close(
                d,
                leaf_scan(order, k, end, best, closest_test(hit, d)),
                #[trigger] hit(order[j]),
            ),
        leaf_scan(order, k, end, best, closest_test(hit, d)) is Some ==> leaf_scan(
            order,
            k,
            end,
            best,
            closest_test(hit, d),
        ) == best || exists|j: int|
            k <= j < end && #[trigger] hit(order[j]) == leaf_scan(order, k, end, best, closest_test(hit, d)),
    decreases end - k,
{
    let tf = closest_test(hit, d);
    if k < end {
        let found = tf(order[k], best);
        let next = if found is Some { found } else { best };
        lemma_leaf_scan_closest(order, k + 1, end, next, hit, d);
        let r = leaf_scan(order, k, end, best, tf);
        assert(r == leaf_scan(order, k + 1, end, next, tf));
        assert(as_close(d, r, hit(order[k])));
        assert forall|j: int| k <= j < end implies as_close(d, r, #[trigger] hit(order[j])) by {
            if j > k {
                assert(as_close(d, r, hit(order[j])));
            }
        }
        if r is Some && r != best {
            if r == next && next != best {
                assert(hit(order[k]) == r);
            } else {
                let j = choose|j: int| k + 1 <= j < end && #[trigger] hit(order[j]) == r;
                assert(k <= j < end && hit(order[j]) == r);
            }
        }
    }
}

/// Under sound pruning, the result of `search` from `stack` is at least as
/// close as `best` and as every hit under the nodes on the stack, and is
/// `best` or one of those hits.
proof fn lemma_search_closest<H>(
    nodes: Seq<Node>,
    spans: Seq<(int, int)>,
    tris: Seq<crate::geom::Triangle>,
    order: Seq<usize>,
    stack: Seq<usize>,
    best: Option<H>,
    bf: spec_fn(Aabb, Option<H>) -> bool,
    hit: spec_fn(usize) -> Option<H>,
    d: spec_fn(H) -> int,
)
    requires
        crate::bvh::tree_ok(nodes, spans, tris, order),
        tris.len() > 0,
        forall|j: int| 0 <= j < stack.len() ==> stack[j] < nodes.len(),
        prunes_soundly(nodes, spans, order, bf, hit, d),
    ensures
        as_close(d, search(nodes, order, stack, best, bf, closest_test(hit, d)), best),
        forall|j: int, k: int|
            #![trigger stack[j], hit(order[k])]
            0 <= j < stack.len() && spans[stack[j] as int].0 <= k < spans[stack[j] as int].1
                ==> as_close(
                d,
                search(nodes, order, stack, best, bf, closest_test(hit, d)),
                hit(order[k]),
            ),
        search(nodes, order, stack, best, bf, closest_test(hit, d)) is Some ==> search(
            nodes,
            order,
            stack,
            best,
            bf,
            closest_test(hit, d),
        ) == best || exists|k: int|
            0 <= k < order.len() && #[trigger] hit(order[k]) == search(
                nodes,
                order,
                stack,
                best,
                bf,
                closest_test(hit, d),
            ),
    decreases pending(nodes, stack),
{
    let tf = closest_test(hit, d);
    if stack.len() > 0 {
        let i = stack.last();
        let rest = stack.drop_last();
        assert(rest.push(i) =~= stack);
        lemma_pending_push(nodes, rest, i);
        assert(node_ok(nodes, spans, tris, order, i as int));
        let r = search(nodes, order, stack, best, bf, tf);
        if !bf(nodes[i as int].spec_bounds(), best) {
            lemma_search_closest(nodes, spans, tris, order, rest, best, bf, hit, d);
            assert(r == search(nodes, order, rest, best, bf, tf));
            assert forall|j: int, k: int|
                #![trigger stack[j], hit(order[k])]
                0 <= j < stack.len() && spans[stack[j] as int].0 <= k < spans[stack[j] as int].1
                    implies as_close(d, r, hit(order[k])) by {
                if j < rest.len() {
                    assert(stack[j] == rest[j]);
                } else {
                    assert(stack[j] == i);
                    assert(!(hit(order[k]) is Some && improves(d, hit(order[k])->0, best)));
                }
            }
        } else {
            match nodes[i as int] {
                Node::Leaf { start, count, .. } => {
                    let ls = leaf_scan(order, start as int, start + count, best, tf);
                    lemma_leaf_scan_closest(order, start as int, start + count, best, hit, d);
                    lemma_search_closest(nodes, spans, tris, order, rest, ls, bf, hit, d);
                    assert(r == search(nodes, order, rest, ls, bf, tf));
                    assert forall|j: int, k: int|
                        #![trigger stack[j], hit(order[k])]
                        0 <= j < stack.len() && spans[stack[j] as int].0 <= k < spans[stack[j] as int].1
                            implies as_close(d, r, hit(order[k])) by {
                        if j < rest.len() {
                            assert(stack[j] == rest[j]);
                        } else {
                            assert(stack[j] == i);
                            assert(as_close(d, ls, hit(order[k])));
                        }
                    }
                    if r is Some && r != best && r != ls {
                        let k = choose|k: int| 0 <= k < order.len() && #[trigger] hit(order[k]) == r;
                        assert(0 <= k < order.len() && hit(order[k]) == r);
                    } else if r is Some && r != best {
                        let k = choose|k: int|
                            start <= k < start + count && #[trigger] hit(order[k]) == ls;
                        assert(0 <= k < order.len() && hit(order[k]) == r);
                    }
                },
                Node::Internal { left, right, .. } => {
                    let next = rest.push(right).push(left);
                    lemma_pending_push(nodes, rest, right);
                    lemma_pending_push(nodes, rest.push(right), left);
                    lemma_search_closest(nodes, spans, tris, order, next, best, bf, hit, d);
                    assert(r == search(nodes, order, next, best, bf, tf));
                    assert forall|j: int, k: int|
                        #![trigger stack[j], hit(order[k])]
                        0 <= j < stack.len() && spans[stack[j] as int].0 <= k < spans[stack[j] as int].1
                            implies as_close(d, r, hit(order[k])) by {
                        if j < rest.len() {
                            assert(stack[j] == next[j]);
                        } else {
                            assert(stack[j] == i);
                            let s = spans[i as int].0;
                            let e = spans[i as int].1;
                            if k < s + (e - s) / 2 {
                                assert(next[rest.len() as int + 1] == left);
                                assert(spans[next[rest.len() as int + 1] as int].0 <= k);
                            } else {
                                assert(next[rest.len() as int] == right);
                                assert(spans[next[rest.len() as int] as int].0 <= k);
                            }
                        }
                    }
                },
            }
        }
    }
}

/// The search finds the closest hit: with the triangle test that keeps the
/// closer hit and a box test that rejects a box only where nothing under it
/// improves on the best hit so far, the result is a hit of some triangle and
/// is at least as close as every triangle's hit; with no hit, it is `None`.
pub proof fn lemma_search_finds_closest<H>(
    b: Bvh,
    bf: spec_fn(Aabb, Option<H>) -> bool,
    hit: spec_fn(usize) -> Option<H>,
    d: spec_fn(H) -> int,
)
    requires
        b.wf(),
        prunes_soundly(b.node_seq(), b.span_seq(), b.order_seq(), bf, hit, d),
    ensures
        forall|id: usize|
            id < b.triangle_seq().len() ==> as_close(
                d,
                search(b.node_seq(), b.order_seq(), b.start_stack(), None, bf, closest_test(hit, d)),
                #[trigger] hit(id),
            ),
        search(b.node_seq(), b.order_seq(), b.start_stack(), None, bf, closest_test(hit, d)) is Some
            ==> exists|id: usize|
            id < b.triangle_seq().len() && #[trigger] hit(id) == search(
                b.node_seq(),
                b.order_seq(),
                b.start_stack(),
                None,
                bf,
                closest_test(hit, d),
            ),
{
    let nodes = b.node_seq();
    let order = b.order_seq();
    let n = b.triangle_seq().len();
    let stack = b.start_stack();
    let r = search(nodes, order, stack, None, bf, closest_test(hit, d));
    if n > 0 {
        lemma_permutation_entries(order, n);
        lemma_search_closest(nodes, b.span_seq(), b.triangle_seq(), order, stack, None, bf, hit, d);
        assert(stack[0] == 0usize);
        assert forall|id: usize| id < n implies as_close(d, r, #[trigger] hit(id)) by {
            assert(order.contains((id as int) as usize));
            let k = choose|k: int| 0 <= k < order.len() && order[k] == id;
            assert(as_close(d, r, hit(order[k])));
        }
        if r is Some {
            let k = choose|k: int| 0 <= k < order.len() && #[trigger] hit(order[k]) == r;
            assert(order[k] < n && hit(order[k]) == r);
        }
    } else {
        assert(stack.len() == 0);
        assert forall|id: usize| id < n implies as_close(d, r, #[trigger] hit(id)) by {}
    }
}

} // verus!
