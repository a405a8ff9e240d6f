use snapolation::math::{degree_lerp, isqrt, lerp, radian_lerp, rotation_lerp, time_lerp, wrap_angle_lerp};

#[test]
fn lerp_midpoint() {
    assert_eq!(lerp(10, 20, 1, 2), 15);
}

#[test]
fn lerp_of_equal_values_is_constant() {
    assert_eq!(lerp(7, 7, 3, 4), 7);
    assert_eq!(lerp(7, 7, 0, 1), 7);
    assert_eq!(lerp(7, 7, 9, 9), 7);
    assert_eq!(lerp(-3, -3, 1, 3), -3);
}

#[test]
fn lerp_endpoints_exact() {
    assert_eq!(lerp(10, 20, 0, 5), 10);
    assert_eq!(lerp(10, 20, 5, 5), 20);
    assert_eq!(lerp(20, 10, 0, 5), 20);
    assert_eq!(lerp(20, 10, 5, 5), 10);
}

#[test]
fn lerp_negative_values() {
    assert_eq!(lerp(-10, 10, 1, 2), 0);
    assert_eq!(lerp(-20, -10, 1, 2), -15);
}

#[test]
fn lerp_rounds_toward_start() {
    assert_eq!(lerp(0, 3, 1, 2), 1);
    assert_eq!(lerp(3, 0, 1, 2), 2);
}

#[test]
fn wrap_crosses_zero_boundary() {
    assert_eq!(wrap_angle_lerp(350, 10, 1, 2, 360), 0);
}

#[test]
fn wrap_crosses_zero_boundary_downward() {
    assert_eq!(wrap_angle_lerp(10, 350, 1, 2, 360), 0);
}

#[test]
fn wrap_direct_path() {
    assert_eq!(wrap_angle_lerp(10, 90, 1, 2, 360), 50);
}

#[test]
fn wrap_endpoints_exact() {
    assert_eq!(wrap_angle_lerp(350, 10, 0, 2, 360), 350);
    assert_eq!(wrap_angle_lerp(350, 10, 2, 2, 360), 10);
}

#[test]
fn degree_lerp_milli_units() {
    assert_eq!(degree_lerp(350_000, 10_000, 1, 2), 0);
    assert_eq!(degree_lerp(350_000, 10_000, 0, 2), 350_000);
    assert_eq!(degree_lerp(350_000, 10_000, 2, 2), 10_000);
}

#[test]
fn radian_lerp_wraps_at_full_turn() {
    assert_eq!(radian_lerp(6_000, 200, 1, 2), 6_241);
}

#[test]
fn lerp_extrapolates_past_one() {
    assert_eq!(lerp(10, 20, 3, 2), 25);
    assert_eq!(lerp(20, 10, 3, 2), 5);
}

#[test]
fn isqrt_values() {
    assert_eq!(isqrt(0), 0);
    assert_eq!(isqrt(1), 1);
    assert_eq!(isqrt(999_999), 999);
    assert_eq!(isqrt(1_000_000), 1000);
    assert_eq!(isqrt(500_000), 707);
}

#[test]
fn rotation_lerp_midpoint_unit() {
    assert_eq!(rotation_lerp(0, 0, 0, 1000, 1000, 0, 0, 0, 1, 2), (707, 0, 0, 707));
}

#[test]
fn rotation_lerp_flips_opposite_hemisphere() {
    assert_eq!(rotation_lerp(0, 0, 0, 1000, 0, 0, 0, -1000, 1, 2), (0, 0, 0, 1000));
    assert_eq!(rotation_lerp(0, 0, 0, 1000, 0, 0, 0, -1000, 1, 4), (0, 0, 0, 1000));
}

#[test]
fn rotation_lerp_endpoints_on_unit_grid() {
    assert_eq!(rotation_lerp(600, 800, 0, 0, 0, 0, 0, 1000, 0, 2), (600, 800, 0, 0));
    assert_eq!(rotation_lerp(600, 800, 0, 0, 0, 0, 0, 1000, 2, 2), (0, 0, 0, 1000));
}

#[test]
fn rotation_lerp_zero_quaternion_stays() {
    assert_eq!(rotation_lerp(0, 0, 0, 0, 0, 0, 0, 0, 1, 2), (0, 0, 0, 0));
}

#[test]
fn rotation_lerp_out_of_range_falls_back_componentwise() {
    let big: i64 = 0x4000_0000_0000_0001;
    let r = rotation_lerp(big, 0, 0, 0, big, 0, 0, 0, 1, 2);
    assert_eq!(r, (big, 0, 0, 0));
}

#[test]
fn time_lerp_values() {
    assert_eq!(time_lerp(100, 300, 3, 4), 250);
    assert_eq!(time_lerp(100, 300, 0, 4), 100);
    assert_eq!(time_lerp(100, 300, 4, 4), 300);
}

#[test]
fn rotation_lerp_result_is_near_unit() {
    let (x, y, z, w) = rotation_lerp(0, 0, 0, 1000, 1000, 0, 0, 0, 1, 3);
    let nsq: i64 = x * x + y * y + z * z + w * w;
    assert!(nsq >= 990_000 && nsq <= 1_010_000);
}
