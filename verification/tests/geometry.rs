use fence_graph::geometry::{derive_transform, isqrt, Vec3i, COORD_LIMIT};

fn v(x: i64, y: i64, z: i64) -> Vec3i {
    Vec3i { x, y, z }
}

#[test]
fn transform_along_x_axis() {
    let t = derive_transform(v(0, 0, 0), v(5, 0, 0));
    // Midpoint (2.5, 0, 0), stored doubled.
    assert_eq!(t.mid_double, v(5, 0, 0));
    // Length 5, stored squared.
    assert_eq!(t.len_sq, 25);
    assert_eq!(isqrt(t.len_sq), 5);
    // Yaw 0: direction along positive x, no z component.
    assert_eq!(t.dir_x, 5);
    assert_eq!(t.dir_z, 0);
}

#[test]
fn transform_is_exact_mean_and_distance() {
    let a = v(-3, 7, 10);
    let b = v(9, -1, 4);
    let t = derive_transform(a, b);
    assert_eq!(t.mid_double, v(a.x + b.x, a.y + b.y, a.z + b.z));
    let (dx, dy, dz) = (b.x - a.x, b.y - a.y, b.z - a.z);
    assert_eq!(t.len_sq, (dx * dx + dy * dy + dz * dz) as u64);
    assert_eq!(t.dir_x, dx);
    assert_eq!(t.dir_z, dz);
}

#[test]
fn recompute_with_unchanged_endpoints_is_bit_identical() {
    let a = v(123, -456, 789);
    let b = v(-987, 654, -321);
    let t1 = derive_transform(a, b);
    let t2 = derive_transform(a, b);
    assert_eq!(t1, t2);
}

#[test]
fn transform_at_the_coordinate_limit() {
    let a = v(-COORD_LIMIT, -COORD_LIMIT, -COORD_LIMIT);
    let b = v(COORD_LIMIT, COORD_LIMIT, COORD_LIMIT);
    let t = derive_transform(a, b);
    assert_eq!(t.mid_double, v(0, 0, 0));
    let d = 2 * COORD_LIMIT as u64;
    assert_eq!(t.len_sq, 3 * d * d);
}

#[test]
fn isqrt_rounds_down() {
    assert_eq!(isqrt(0), 0);
    assert_eq!(isqrt(1), 1);
    assert_eq!(isqrt(2), 1);
    assert_eq!(isqrt(3), 1);
    assert_eq!(isqrt(4), 2);
    assert_eq!(isqrt(24), 4);
    assert_eq!(isqrt(25), 5);
    assert_eq!(isqrt(26), 5);
    assert_eq!(isqrt(u64::MAX), 4_294_967_295);
}
