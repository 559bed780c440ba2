use vstd::prelude::*;

verus! {

/// One of the three coordinate axes.
#[derive(Clone, Copy, PartialEq, Eq, Structural, Debug)]
pub enum Axis {
    X,
    Y,
    Z,
}

/// A point whose coordinates are order keys (see `crate::coord`).
#[derive(Clone, Copy, PartialEq, Eq, Structural, Debug)]
pub struct Point {
    pub x: u32,
    pub y: u32,
    pub z: u32,
}

impl Point {
    pub open spec fn at(self, a: Axis) -> u32 {
        match a {
            Axis::X => self.x,
            Axis::Y => self.y,
            Axis::Z => self.z,
        }
    }

    /// The coordinate on axis `a`.
    pub fn get(&self, a: Axis) -> (r: u32)
        ensures
            r == self.at(a),
    {
        match a {
            Axis::X => self.x,
            Axis::Y => self.y,
            Axis::Z => self.z,
        }
    }
}

/// An axis-aligned box given by its two extreme corners.
#[derive(Clone, Copy, PartialEq, Eq, Structural, Debug)]
pub struct Aabb {
    pub min: Point,
    pub max: Point,
}

/// A triangle's three vertices and its centroid, all as key points.
/// The centroid is the arithmetic mean of the vertices, computed by the
/// caller in floating point; the library uses it only as a sort key.
#[derive(Clone, Copy, PartialEq, Eq, Structural, Debug)]
pub struct Triangle {
    pub v0: Point,
    pub v1: Point,
    pub v2: Point,
    pub centroid: Point,
}

pub open spec fn min_u32(a: u32, b: u32) -> u32 {
    if a <= b { a } else { b }
}

pub open spec fn max_u32(a: u32, b: u32) -> u32 {
    if a >= b { a } else { b }
}

pub open spec fn point_min(p: Point, q: Point) -> Point {
    Point { x: min_u32(p.x, q.x), y: min_u32(p.y, q.y), z: min_u32(p.z, q.z) }
}

pub open spec fn point_max(p: Point, q: Point) -> Point {
    Point { x: max_u32(p.x, q.x), y: max_u32(p.y, q.y), z: max_u32(p.z, q.z) }
}

/// The smallest box holding both boxes.
pub open spec fn union(a: Aabb, b: Aabb) -> Aabb {
    Aabb { min: point_min(a.min, b.min), max: point_max(a.max, b.max) }
}

/// The box of a single point.
pub open spec fn point_box(p: Point) -> Aabb {
    Aabb { min: p, max: p }
}

/// The smallest box holding a triangle's three vertices.
pub open spec fn triangle_box(t: Triangle) -> Aabb {
    union(union(point_box(t.v0), point_box(t.v1)), point_box(t.v2))
}

pub open spec fn encloses(b: Aabb, p: Point) -> bool {
    &&& b.min.x <= p.x <= b.max.x
    &&& b.min.y <= p.y <= b.max.y
    &&& b.min.z <= p.z <= b.max.z
}

pub open spec fn encloses_triangle(b: Aabb, t: Triangle) -> bool {
    encloses(b, t.v0) && encloses(b, t.v1) && encloses(b, t.v2)
}

/// Some vertex of `t` lies on the low face of `b` on axis `a`.
pub open spec fn touches_min(b: Aabb, t: Triangle, a: Axis) -> bool {
    t.v0.at(a) == b.min.at(a) || t.v1.at(a) == b.min.at(a) || t.v2.at(a) == b.min.at(a)
}

/// Some vertex of `t` lies on the high face of `b` on axis `a`.
pub open spec fn touches_max(b: Aabb, t: Triangle, a: Axis) -> bool {
    t.v0.at(a) == b.max.at(a) || t.v1.at(a) == b.max.at(a) || t.v2.at(a) == b.max.at(a)
}

/// The triangle at position `k` of the index permutation `order`.
pub open spec fn tri_at(tris: Seq<Triangle>, order: Seq<usize>, k: int) -> Triangle {
    tris[order[k] as int]
}

pub open spec fn low_attained(b: Aabb, tris: Seq<Triangle>, order: Seq<usize>, s: int, e: int, a: Axis) -> bool {
    exists|k: int| s <= k < e && #[trigger] touches_min(b, tri_at(tris, order, k), a)
}

pub open spec fn high_attained(b: Aabb, tris: Seq<Triangle>, order: Seq<usize>, s: int, e: int, a: Axis) -> bool {
    exists|k: int| s <= k < e && #[trigger] touches_max(b, tri_at(tris, order, k), a)
}

/// `b` is exactly the bounding box of the vertices of the triangles at
/// positions `s..e` of `order`: it holds all of them, and each of its six
/// faces is reached by one of them.
pub open spec fn is_hull(b: Aabb, tris: Seq<Triangle>, order: Seq<usize>, s: int, e: int) -> bool {
    &&& forall|k: int| s <= k < e ==> encloses_triangle(b, #[trigger] tri_at(tris, order, k))
    &&& low_attained(b, tris, order, s, e, Axis::X)
    &&& low_attained(b, tris, order, s, e, Axis::Y)
    &&& low_attained(b, tris, order, s, e, Axis::Z)
    &&& high_attained(b, tris, order, s, e, Axis::X)
    &&& high_attained(b, tris, order, s, e, Axis::Y)
    &&& high_attained(b, tris, order, s, e, Axis::Z)
}

/// The axis of largest extent, ties going to X, then Y.
pub open spec fn widest(extent: Point) -> Axis {
    if extent.x >= extent.y && extent.x >= extent.z {
        Axis::X
    } else if extent.y >= extent.z {
        Axis::Y
    } else {
        Axis::Z
    }
}

proof fn lemma_union_attained(
    b1: Aabb,
    b2: Aabb,
    tris: Seq<Triangle>,
    order: Seq<usize>,
    s: int,
    m: int,
    e: int,
    a: Axis,
)
    requires
        low_attained(b1, tris, order, s, m, a),
        low_attained(b2, tris, order, m, e, a),
        high_attained(b1, tris, order, s, m, a),
        high_attained(b2, tris, order, m, e, a),
    ensures
        low_attained(union(b1, b2), tris, order, s, e, a),
        high_attained(union(b1, b2), tris, order, s, e, a),
{
    let u = union(b1, b2);
    let k1 = choose|k: int| s <= k < m && #[trigger] touches_min(b1, tri_at(tris, order, k), a);
    let k2 = choose|k: int| m <= k < e && #[trigger] touches_min(b2, tri_at(tris, order, k), a);
    let j1 = choose|k: int| s <= k < m && #[trigger] touches_max(b1, tri_at(tris, order, k), a);
    let j2 = choose|k: int| m <= k < e && #[trigger] touches_max(b2, tri_at(tris, order, k), a);
    if b1.min.at(a) <= b2.min.at(a) {
        assert(touches_min(u, tri_at(tris, order, k1), a));
    } else {
        assert(touches_min(u, tri_at(tris, order, k2), a));
    }
    if b1.max.at(a) >= b2.max.at(a) {
        assert(touches_max(u, tri_at(tris, order, j1), a));
    } else {
        assert(touches_max(u, tri_at(tris, order, j2), a));
    }
}

/// The hulls of two adjacent ranges unite to the hull of the whole range.
pub proof fn lemma_union_hull(
    b1: Aabb,
    b2: Aabb,
    tris: Seq<Triangle>,
    order: Seq<usize>,
    s: int,
    m: int,
    e: int,
)
    requires
        is_hull(b1, tris, order, s, m),
        is_hull(b2, tris, order, m, e),
    ensures
        is_hull(union(b1, b2), tris, order, s, e),
{
    lemma_union_attained(b1, b2, tris, order, s, m, e, Axis::X);
    lemma_union_attained(b1, b2, tris, order, s, m, e, Axis::Y);
    lemma_union_attained(b1, b2, tris, order, s, m, e, Axis::Z);
    let u = union(b1, b2);
    assert forall|k: int| s <= k < e implies encloses_triangle(u, #[trigger] tri_at(tris, order, k)) by {
        if k < m {
            assert(encloses_triangle(b1, tri_at(tris, order, k)));
        } else {
            assert(encloses_triangle(b2, tri_at(tris, order, k)));
        }
    }
}

/// A hull depends only on the entries of `order` in its range.
pub proof fn lemma_hull_frame(
    b: Aabb,
    tris: Seq<Triangle>,
    o1: Seq<usize>,
    o2: Seq<usize>,
    s: int,
    e: int,
)
    requires
        is_hull(b, tris, o1, s, e),
        forall|k: int| s <= k < e ==> o1[k] == o2[k],
    ensures
        is_hull(b, tris, o2, s, e),
{
    assert forall|k: int| s <= k < e implies encloses_triangle(b, #[trigger] tri_at(tris, o2, k)) by {
        assert(tri_at(tris, o1, k) == tri_at(tris, o2, k));
    }
    let axes = seq![Axis::X, Axis::Y, Axis::Z];
    assert forall|i: int| 0 <= i < 3 implies low_attained(b, tris, o2, s, e, #[trigger] axes[i])
        && high_attained(b, tris, o2, s, e, axes[i]) by {
        let a = axes[i];
        let k1 = choose|k: int| s <= k < e && #[trigger] touches_min(b, tri_at(tris, o1, k), a);
        let k2 = choose|k: int| s <= k < e && #[trigger] touches_max(b, tri_at(tris, o1, k), a);
        assert(tri_at(tris, o1, k1) == tri_at(tris, o2, k1));
        assert(tri_at(tris, o1, k2) == tri_at(tris, o2, k2));
        assert(touches_min(b, tri_at(tris, o2, k1), a));
        assert(touches_max(b, tri_at(tris, o2, k2), a));
    }
    assert(axes[0] == Axis::X && axes[1] == Axis::Y && axes[2] == Axis::Z);
}

/// A range has one hull.
pub proof fn lemma_hull_unique(b1: Aabb, b2: Aabb, tris: Seq<Triangle>, order: Seq<usize>, s: int, e: int)
    requires
        is_hull(b1, tris, order, s, e),
        is_hull(b2, tris, order, s, e),
    ensures
        b1 == b2,
{
    let axes = seq![Axis::X, Axis::Y, Axis::Z];
    assert forall|i: int| 0 <= i < 3 implies b1.min.at(#[trigger] axes[i]) == b2.min.at(axes[i])
        && b1.max.at(axes[i]) == b2.max.at(axes[i]) by {
        let a = axes[i];
        let k1 = choose|k: int| s <= k < e && #[trigger] touches_min(b1, tri_at(tris, order, k), a);
        let k2 = choose|k: int| s <= k < e && #[trigger] touches_min(b2, tri_at(tris, order, k), a);
        let j1 = choose|k: int| s <= k < e && #[trigger] touches_max(b1, tri_at(tris, order, k), a);
        let j2 = choose|k: int| s <= k < e && #[trigger] touches_max(b2, tri_at(tris, order, k), a);
        assert(encloses_triangle(b1, tri_at(tris, order, k2)));
        assert(encloses_triangle(b2, tri_at(tris, order, k1)));
        assert(encloses_triangle(b1, tri_at(tris, order, j2)));
        assert(encloses_triangle(b2, tri_at(tris, order, j1)));
    }
    assert(axes[0] == Axis::X && axes[1] == Axis::Y && axes[2] == Axis::Z);
}

/// The smaller of two keys.
fn key_min(a: u32, b: u32) -> (r: u32)
    ensures
        r == min_u32(a, b),
{
    if a <= b { a } else { b }
}

/// The larger of two keys.
fn key_max(a: u32, b: u32) -> (r: u32)
    ensures
        r == max_u32(a, b),
{
    if a >= b { a } else { b }
}

/// The smallest box holding both boxes.
pub fn union_box(a: &Aabb, b: &Aabb) -> (r: Aabb)
    ensures
        r == union(*a, *b),
{
    Aabb {
        min: Point {
            x: key_min(a.min.x, b.min.x),
            y: key_min(a.min.y, b.min.y),
            z: key_min(a.min.z, b.min.z),
        },
        max: Point {
            x: key_max(a.max.x, b.max.x),
            y: key_max(a.max.y, b.max.y),
            z: key_max(a.max.z, b.max.z),
        },
    }
}

/// The smallest box holding a triangle's vertices.
pub fn triangle_bounds(t: &Triangle) -> (r: Aabb)
    ensures
        r == triangle_box(*t),
{
    let b0 = Aabb { min: t.v0, max: t.v0 };
    let b1 = Aabb { min: t.v1, max: t.v1 };
    let b2 = Aabb { min: t.v2, max: t.v2 };
    let u = union_box(&b0, &b1);
    union_box(&u, &b2)
}

proof fn lemma_triangle_hull(tris: Seq<Triangle>, order: Seq<usize>, k: int)
    ensures
        is_hull(triangle_box(tri_at(tris, order, k)), tris, order, k, k + 1),
{
    let t = tri_at(tris, order, k);
    let b = triangle_box(t);
    assert(encloses_triangle(b, tri_at(tris, order, k)));
    assert(touches_min(b, tri_at(tris, order, k), Axis::X));
    assert(touches_min(b, tri_at(tris, order, k), Axis::Y));
    assert(touches_min(b, tri_at(tris, order, k), Axis::Z));
    assert(touches_max(b, tri_at(tris, order, k), Axis::X));
    assert(touches_max(b, tri_at(tris, order, k), Axis::Y));
    assert(touches_max(b, tri_at(tris, order, k), Axis::Z));
}

/// The key of `f32::MAX`.
pub const KEY_F32_MAX: u32 = 0xFF7F_FFFF;

/// The key of `f32::MIN`.
pub const KEY_F32_MIN: u32 = 0x0080_0000;

/// The box of an empty range: inverted, from `f32::MAX` down to `f32::MIN`
/// on every axis, so that a union with a box of finite coordinates gives
/// that box.
pub open spec fn empty_range_box() -> Aabb {
    Aabb {
        min: Point { x: KEY_F32_MAX, y: KEY_F32_MAX, z: KEY_F32_MAX },
        max: Point { x: KEY_F32_MIN, y: KEY_F32_MIN, z: KEY_F32_MIN },
    }
}

/// The bounding box of the triangles at positions `start..end` of `order`;
/// for an empty range, the inverted box `empty_range_box()`.
pub fn range_bounds(tris: &Vec<Triangle>, order: &Vec<usize>, start: usize, end: usize) -> (r: Aabb)
    requires
        start <= end <= order.len(),
        forall|k: int| start <= k < end ==> order[k] < tris.len(),
    ensures
        start < end ==> is_hull(r, tris@, order@, start as int, end as int),
        start == end ==> r == empty_range_box(),
{
    if start == end {
        return Aabb {
            min: Point { x: KEY_F32_MAX, y: KEY_F32_MAX, z: KEY_F32_MAX },
            max: Point { x: KEY_F32_MIN, y: KEY_F32_MIN, z: KEY_F32_MIN },
        };
    }
    let mut acc = triangle_bounds(&tris[order[start]]);
    proof {
        lemma_triangle_hull(tris@, order@, start as int);
    }
    let mut k: usize = start + 1;
    while k < end
        invariant
            start < k <= end <= order.len(),
            forall|j: int| start <= j < end ==> order[j] < tris.len(),
            is_hull(acc, tris@, order@, start as int, k as int),
        decreases end - k,
    {
        let tb = triangle_bounds(&tris[order[k]]);
        proof {
            lemma_triangle_hull(tris@, order@, k as int);
            lemma_union_hull(acc, tb, tris@, order@, start as int, k as int, k as int + 1);
        }
        acc = union_box(&acc, &tb);
        k += 1;
    }
    acc
}

/// The axis of largest extent, ties going to X, then Y.
pub fn widest_axis(extent: &Point) -> (r: Axis)
    ensures
        r == widest(*extent),
{
    if extent.x >= extent.y && extent.x >= extent.z {
        Axis::X
    } else if extent.y >= extent.z {
        Axis::Y
    } else {
        Axis::Z
    }
}

} // verus!
