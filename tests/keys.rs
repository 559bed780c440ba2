use mesh_bvh::coord::{key_bits, order_key, SIGN_BIT};
use mesh_bvh::geom::{range_bounds, triangle_bounds, union_box, widest_axis, Aabb, Axis, Point, Triangle};

fn key(v: f32) -> u32 {
    order_key(v.to_bits())
}

fn point(x: f32, y: f32, z: f32) -> Point {
    Point { x: key(x), y: key(y), z: key(z) }
}

#[test]
fn keys_follow_float_order() {
    let values = [f32::NEG_INFINITY, -1e30, -2.0, -1.0, -1e-30, -0.0, 0.0, 1e-30, 1.0, 2.5, 1e30, f32::INFINITY];
    for w in values.windows(2) {
        assert!(key(w[0]) < key(w[1]), "{} vs {}", w[0], w[1]);
    }
}

#[test]
fn key_exact_values() {
    assert_eq!(order_key(0.0f32.to_bits()), SIGN_BIT);
    assert_eq!(order_key((-0.0f32).to_bits()), SIGN_BIT - 1);
    assert_eq!(order_key(1.0f32.to_bits()), 0x3f80_0000 + SIGN_BIT);
    assert_eq!(order_key((-1.0f32).to_bits()), !0xbf80_0000u32);
}

#[test]
fn keys_round_trip() {
    for v in [-3.5f32, -0.0, 0.0, 1.0, 123.25, f32::MAX, f32::MIN] {
        assert_eq!(f32::from_bits(key_bits(key(v))).to_bits(), v.to_bits());
    }
    for k in [0u32, 1, SIGN_BIT - 1, SIGN_BIT, u32::MAX] {
        assert_eq!(order_key(key_bits(k)), k);
    }
}

#[test]
fn union_of_boxes() {
    let a = Aabb { min: point(-1.0, 0.0, 2.0), max: point(1.0, 1.0, 3.0) };
    let b = Aabb { min: point(0.0, -5.0, 2.5), max: point(0.5, 4.0, 7.0) };
    let u = union_box(&a, &b);
    assert_eq!(u, Aabb { min: point(-1.0, -5.0, 2.0), max: point(1.0, 4.0, 7.0) });
}

#[test]
fn bounds_of_triangles() {
    let t0 = Triangle {
        v0: point(0.0, 0.0, 0.0),
        v1: point(2.0, -1.0, 0.0),
        v2: point(1.0, 3.0, -4.0),
        centroid: point(1.0, 2.0 / 3.0, -4.0 / 3.0),
    };
    let t1 = Triangle {
        v0: point(-7.0, 0.0, 0.0),
        v1: point(0.0, 0.0, 9.0),
        v2: point(0.0, 1.0, 0.0),
        centroid: point(-7.0 / 3.0, 1.0 / 3.0, 3.0),
    };
    assert_eq!(triangle_bounds(&t0), Aabb { min: point(0.0, -1.0, -4.0), max: point(2.0, 3.0, 0.0) });
    let tris = vec![t0, t1];
    assert_eq!(
        range_bounds(&tris, &vec![1, 0], 0, 2),
        Aabb { min: point(-7.0, -1.0, -4.0), max: point(2.0, 3.0, 9.0) }
    );
    assert_eq!(range_bounds(&tris, &vec![1, 0], 0, 1), triangle_bounds(&t1));
}

#[test]
fn bounds_of_empty_range_is_inverted() {
    let tris = vec![Triangle {
        v0: point(0.0, 0.0, 0.0),
        v1: point(1.0, 0.0, 0.0),
        v2: point(0.0, 1.0, 0.0),
        centroid: point(1.0 / 3.0, 1.0 / 3.0, 0.0),
    }];
    let b = range_bounds(&tris, &vec![0], 1, 1);
    assert_eq!(b, Aabb { min: point(f32::MAX, f32::MAX, f32::MAX), max: point(f32::MIN, f32::MIN, f32::MIN) });
    assert_eq!(b.min.x, 0xFF7F_FFFF);
    assert_eq!(b.max.x, 0x0080_0000);
    // A union with it changes nothing.
    assert_eq!(union_box(&b, &triangle_bounds(&tris[0])), triangle_bounds(&tris[0]));
}

#[test]
fn widest_axis_breaks_ties_toward_x_then_y() {
    assert_eq!(widest_axis(&point(1.0, 1.0, 1.0)), Axis::X);
    assert_eq!(widest_axis(&point(1.0, 2.0, 2.0)), Axis::Y);
    assert_eq!(widest_axis(&point(1.0, 2.0, 3.0)), Axis::Z);
    assert_eq!(widest_axis(&point(3.0, 2.0, 3.0)), Axis::X);
    assert_eq!(widest_axis(&point(0.0, 0.0, 0.5)), Axis::Z);
}
