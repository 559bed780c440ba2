use mesh_bvh::bvh::{Bvh, Node, MAX_LEAF_TRIANGLES};
use mesh_bvh::coord::{key_bits, order_key};
use mesh_bvh::geom::{Aabb, Point, Triangle};
use mesh_bvh::mesh::extract_triangles;

fn key(v: f32) -> u32 {
    order_key(v.to_bits())
}

fn unkey(k: u32) -> f32 {
    f32::from_bits(key_bits(k))
}

fn point(v: [f32; 3]) -> Point {
    Point { x: key(v[0]), y: key(v[1]), z: key(v[2]) }
}

fn extent(b: Aabb) -> Point {
    point([
        unkey(b.max.x) - unkey(b.min.x),
        unkey(b.max.y) - unkey(b.min.y),
        unkey(b.max.z) - unkey(b.min.z),
    ])
}

fn keyed_triangles(positions: &[f32], indices: &[u32]) -> Vec<Triangle> {
    let at = |i: u32| {
        let i = i as usize * 3;
        [positions[i], positions[i + 1], positions[i + 2]]
    };
    extract_triangles(positions.len(), &indices.to_vec())
        .into_iter()
        .map(|(a, b, c)| {
            let (v0, v1, v2) = (at(a), at(b), at(c));
            let centroid = [
                (v0[0] + v1[0] + v2[0]) / 3.0,
                (v0[1] + v1[1] + v2[1]) / 3.0,
                (v0[2] + v1[2] + v2[2]) / 3.0,
            ];
            Triangle { v0: point(v0), v1: point(v1), v2: point(v2), centroid: point(centroid) }
        })
        .collect()
}

fn cube_positions() -> Vec<f32> {
    vec![
        -1.0, -1.0, 1.0, 1.0, -1.0, 1.0, 1.0, 1.0, 1.0, -1.0, 1.0, 1.0, // front
        -1.0, -1.0, -1.0, 1.0, -1.0, -1.0, 1.0, 1.0, -1.0, -1.0, 1.0, -1.0, // back
    ]
}

fn cube_indices() -> Vec<u32> {
    vec![
        0, 1, 2, 0, 2, 3, // front
        4, 6, 5, 4, 7, 6, // back
        0, 3, 7, 0, 7, 4, // left
        1, 5, 6, 1, 6, 2, // right
        3, 2, 6, 3, 6, 7, // top
        0, 4, 5, 0, 5, 1, // bottom
    ]
}

fn cube() -> Bvh {
    Bvh::build(keyed_triangles(&cube_positions(), &cube_indices()), extent)
}

/// A strip of `n` triangles along the X axis, ids in order.
fn strip(n: usize) -> Vec<Triangle> {
    (0..n)
        .map(|i| {
            let x = i as f32;
            Triangle {
                v0: point([x, 0.0, 0.0]),
                v1: point([x + 1.0, 0.0, 0.0]),
                v2: point([x, 1.0, 0.0]),
                centroid: point([x + 1.0 / 3.0, 1.0 / 3.0, 0.0]),
            }
        })
        .collect()
}

fn hull_of(tris: &[Triangle]) -> Aabb {
    let mut b = Aabb { min: tris[0].v0, max: tris[0].v0 };
    for t in tris {
        for v in [t.v0, t.v1, t.v2] {
            b.min = Point { x: b.min.x.min(v.x), y: b.min.y.min(v.y), z: b.min.z.min(v.z) };
            b.max = Point { x: b.max.x.max(v.x), y: b.max.y.max(v.y), z: b.max.z.max(v.z) };
        }
    }
    b
}

/// Every leaf's triangle ids, by position of the order.
fn leaf_ranges(b: &Bvh) -> Vec<(usize, usize)> {
    (0..b.node_count())
        .filter_map(|i| match b.node(i) {
            Node::Leaf { start, count, .. } => Some((start, start + count)),
            Node::Internal { .. } => None,
        })
        .collect()
}

#[test]
fn test_bvh_build() {
    let raycaster = cube();
    assert_eq!(raycaster.triangle_count(), 12);
    assert!(raycaster.node_count() > 1, "BVH should have multiple nodes");

    let stats = raycaster.get_stats();
    println!(
        "BVH Stats: nodes={}, leaves={}, internal={}, depth={}, tris={}",
        stats[0], stats[1], stats[2], stats[3], stats[4]
    );
}

#[test]
fn cube_stats_are_consistent() {
    let b = cube();
    let stats = b.get_stats();
    assert_eq!(stats.len(), 5);
    assert_eq!(stats[0] as usize, b.node_count());
    assert_eq!(stats[0], stats[1] + stats[2]);
    // A binary tree: one fewer internal node than leaves.
    assert_eq!(stats[2] + 1, stats[1]);
    assert_eq!(stats[4], 12);
    // 12 splits into 6 + 6, each into 3 + 3 leaves.
    assert_eq!(stats, vec![7, 4, 3, 2, 12]);
}

#[test]
fn cube_root_box_is_the_mesh_box() {
    let b = cube();
    let root = b.node(0).bounds();
    assert_eq!(root.min, point([-1.0, -1.0, -1.0]));
    assert_eq!(root.max, point([1.0, 1.0, 1.0]));
}

#[test]
fn every_box_is_exact() {
    let b = cube();
    let tris: Vec<Triangle> = (0..b.triangle_count()).map(|i| b.triangle(i)).collect();
    for i in 0..b.node_count() {
        match b.node(i) {
            Node::Leaf { bounds, start, count } => {
                let own: Vec<Triangle> =
                    (start..start + count).map(|k| tris[b.triangle_id(k)]).collect();
                assert_eq!(bounds, hull_of(&own));
            }
            Node::Internal { bounds, left, right, .. } => {
                let l = b.node(left).bounds();
                let r = b.node(right).bounds();
                assert_eq!(bounds.min, Point {
                    x: l.min.x.min(r.min.x),
                    y: l.min.y.min(r.min.y),
                    z: l.min.z.min(r.min.z),
                });
                assert_eq!(bounds.max, Point {
                    x: l.max.x.max(r.max.x),
                    y: l.max.y.max(r.max.y),
                    z: l.max.z.max(r.max.z),
                });
            }
        }
    }
}

#[test]
fn every_triangle_is_in_exactly_one_leaf() {
    for n in [1usize, 5, 12, 37, 100] {
        let b = Bvh::build(strip(n), extent);
        let mut seen = vec![0usize; n];
        for (s, e) in leaf_ranges(&b) {
            assert!(e > s && e - s <= MAX_LEAF_TRIANGLES);
            for k in s..e {
                seen[b.triangle_id(k)] += 1;
            }
        }
        assert!(seen.iter().all(|&c| c == 1), "n = {}", n);
    }
}

#[test]
fn small_mesh_is_one_leaf() {
    for n in 1..=MAX_LEAF_TRIANGLES {
        let b = Bvh::build(strip(n), extent);
        assert_eq!(b.get_stats(), vec![1, 1, 0, 0, n as u32]);
        assert_eq!(b.node(0), Node::Leaf { bounds: hull_of(&strip(n)), start: 0, count: n });
    }
}

#[test]
fn five_triangles_split_two_and_three() {
    let b = Bvh::build(strip(5), extent);
    assert_eq!(b.get_stats(), vec![3, 2, 1, 1, 5]);
    match b.node(0) {
        Node::Internal { left, right, .. } => {
            assert_eq!(left, 1);
            assert_eq!(right, 2);
            assert!(matches!(b.node(1), Node::Leaf { start: 0, count: 2, .. }));
            assert!(matches!(b.node(2), Node::Leaf { start: 2, count: 3, .. }));
        }
        Node::Leaf { .. } => panic!("expected an internal root"),
    }
}

#[test]
fn split_sorts_by_centroid() {
    // Ids in reverse order of position along X: the split puts the low ones left.
    let mut tris = strip(8);
    tris.reverse();
    let b = Bvh::build(tris, extent);
    let order: Vec<usize> = (0..8).map(|k| b.triangle_id(k)).collect();
    assert_eq!(order, vec![7, 6, 5, 4, 3, 2, 1, 0]);
}

#[test]
fn empty_mesh_builds_and_has_nothing_to_visit() {
    let b = Bvh::build(Vec::new(), extent);
    assert_eq!(b.triangle_count(), 0);
    assert_eq!(b.node_count(), 1);
    assert_eq!(b.get_stats(), vec![1, 1, 0, 0, 0]);
    assert!(b.traversal_start().is_empty());
    let zero = point([0.0, 0.0, 0.0]);
    assert_eq!(b.node(0), Node::Leaf { bounds: Aabb { min: zero, max: zero }, start: 0, count: 0 });
}

#[test]
fn descend_pushes_right_then_left() {
    let b = cube();
    assert_eq!(b.traversal_start(), vec![0]);
    let mut stack = vec![42];
    let r = b.descend(0, &mut stack);
    assert_eq!(r, None);
    match b.node(0) {
        Node::Internal { left, right, .. } => assert_eq!(stack, vec![42, right, left]),
        Node::Leaf { .. } => panic!("expected an internal root"),
    }
}

#[test]
fn descend_into_leaf_gives_its_range() {
    let b = Bvh::build(strip(3), extent);
    let mut stack = vec![7];
    assert_eq!(b.descend(0, &mut stack), Some((0, 3)));
    assert_eq!(stack, vec![7]);
}

#[test]
fn degenerate_triangles_still_build() {
    // All centroids equal: the split still halves the range.
    let t = Triangle {
        v0: point([0.0, 0.0, 0.0]),
        v1: point([0.0, 0.0, 0.0]),
        v2: point([0.0, 0.0, 0.0]),
        centroid: point([0.0, 0.0, 0.0]),
    };
    let b = Bvh::build(vec![t; 9], extent);
    assert_eq!(b.get_stats(), vec![5, 3, 2, 2, 9]);
    let order: Vec<usize> = (0..9).map(|k| b.triangle_id(k)).collect();
    assert_eq!(order, (0..9).collect::<Vec<usize>>());
}

#[test]
fn split_axis_is_the_widest() {
    // A strip along X, turned to lie along Z: the root splits on Z.
    let tris: Vec<Triangle> = (0..10)
        .map(|i| {
            let z = i as f32 * 2.0;
            Triangle {
                v0: point([0.0, 0.0, z]),
                v1: point([0.0, 0.5, z + 1.0]),
                v2: point([0.5, 0.0, z]),
                centroid: point([0.5 / 3.0, 0.5 / 3.0, z + 1.0 / 3.0]),
            }
        })
        .collect();
    let b = Bvh::build(tris, extent);
    match b.node(0) {
        Node::Internal { axis, .. } => assert_eq!(axis, mesh_bvh::geom::Axis::Z),
        Node::Leaf { .. } => panic!("expected an internal root"),
    }
}

#[test]
fn split_halves_are_ordered_by_centroid() {
    // Ids scrambled along X.
    let xs = [9.0f32, 2.0, 7.0, 0.0, 5.0, 11.0, 3.0, 8.0, 1.0, 6.0, 10.0, 4.0];
    let tris: Vec<Triangle> = xs
        .iter()
        .map(|&x| Triangle {
            v0: point([x, 0.0, 0.0]),
            v1: point([x + 1.0, 0.0, 0.0]),
            v2: point([x, 1.0, 0.0]),
            centroid: point([x + 1.0 / 3.0, 1.0 / 3.0, 0.0]),
        })
        .collect();
    let b = Bvh::build(tris.clone(), extent);
    let centroid_x = |k: usize| tris[b.triangle_id(k)].centroid.x;
    // Root covers 0..12, split at 6.
    let left_max = (0..6).map(centroid_x).max().unwrap();
    let right_min = (6..12).map(centroid_x).min().unwrap();
    assert!(left_max <= right_min);
    let mut lefts: Vec<f32> = (0..6).map(|k| xs[b.triangle_id(k)]).collect();
    lefts.sort_by(|a, c| a.partial_cmp(c).unwrap());
    assert_eq!(lefts, vec![0.0, 1.0, 2.0, 3.0, 4.0, 5.0]);
}

/// Every triangle hits; the "distance" of a hit is its id, so the closest
/// hit is the smallest id.
fn smallest_id(b: &Bvh) -> Option<usize> {
    b.closest_hit(
        |_: Aabb, _: &Option<usize>| true,
        |id: usize, best: &Option<usize>| match best {
            Some(d) if *d <= id => None,
            _ => Some(id),
        },
    )
    .0
}

#[test]
fn closest_hit_finds_the_closest() {
    for n in [1usize, 4, 5, 12, 50] {
        let mut tris = strip(n);
        tris.reverse();
        assert_eq!(smallest_id(&Bvh::build(tris, extent)), Some(0));
    }
}

#[test]
fn closest_hit_on_empty_mesh_is_none() {
    let b = Bvh::build(Vec::new(), extent);
    assert_eq!(smallest_id(&b), None);
}

#[test]
fn closest_hit_with_every_box_missed_is_none() {
    let b = cube();
    let (r, visits) =
        b.closest_hit(|_: Aabb, _: &Option<usize>| false, |id: usize, _: &Option<usize>| Some(id));
    assert_eq!(r, None);
    // Only the root is looked at.
    assert_eq!(visits, 1);
}

#[test]
fn closest_hit_visits_left_subtrees_first() {
    // With every box reached, leaves are tested in the order of their ranges.
    let b = Bvh::build(strip(23), extent);
    let seen = std::cell::RefCell::new(Vec::new());
    let (r, visits) = b.closest_hit(
        |_: Aabb, _: &Option<usize>| true,
        |id: usize, _: &Option<usize>| {
            seen.borrow_mut().push(id);
            None
        },
    );
    assert_eq!(r, None);
    // Every node once.
    assert_eq!(visits, b.node_count());
    assert!(visits < 2 * 23);
    let positions: Vec<usize> = (0..23).map(|k| b.triangle_id(k)).collect();
    assert_eq!(*seen.borrow(), positions);
}

#[test]
fn closest_hit_prunes_missed_boxes() {
    // Only boxes reaching x >= 10 are entered: no triangle left of that is tested.
    let b = Bvh::build(strip(40), extent);
    let seen = std::cell::RefCell::new(Vec::new());
    let (r, visits) = b.closest_hit(
        |bx: Aabb, _: &Option<usize>| unkey(bx.max.x) >= 10.0,
        |id: usize, best: &Option<usize>| {
            seen.borrow_mut().push(id);
            match best {
                Some(d) if *d <= id => None,
                _ => Some(id),
            }
        },
    );
    // A parent's box holds its children's, so exactly the leaves reaching
    // x >= 10 are tested, in order.
    let mut expected = Vec::new();
    for i in 0..b.node_count() {
        if let Node::Leaf { bounds, start, count } = b.node(i) {
            if unkey(bounds.max.x) >= 10.0 {
                expected.extend((start..start + count).map(|k| b.triangle_id(k)));
            }
        }
    }
    assert!(expected.len() < 40);
    assert_eq!(*seen.borrow(), expected);
    assert_eq!(r, expected.iter().min().copied());
    assert!(r.unwrap() <= 9);
    assert!(visits < b.node_count());
}

#[test]
fn repeated_queries_agree() {
    let b = cube();
    let first = smallest_id(&b);
    for _ in 0..5 {
        assert_eq!(smallest_id(&b), first);
    }
}
