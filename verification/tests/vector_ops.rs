use gjk3d::simplex_based_cd_helper::plane_normal;
use gjk3d::vector::{fp_of, isqrt, lerp_pts_fp, proj_fp, ratio_fp, tdiv, Int3, SCALE};

fn v(x: i128, y: i128, z: i128) -> Int3 {
    Int3 { x, y, z }
}

#[test]
fn dot_cross_and_sums() {
    let a = v(1, 1, 1);
    let b = v(2, 3, 4);
    assert_eq!(a.dot(&b), 9);
    assert_eq!(a.cross(&b), v(1, -2, 1));
    assert_eq!(a.sqr_magnitude(), 3);
    assert_eq!(a.add(&b), v(3, 4, 5));
    assert_eq!(b.sub(&a), v(1, 2, 3));
    assert_eq!(a.neg(), v(-1, -1, -1));
    assert_eq!(Int3::zero(), v(0, 0, 0));
}

#[test]
fn triangle_normal_of_axis_square() {
    let a = v(1, -2, -2);
    let b = v(1, 2, -2);
    let c = v(1, 0, 2);
    assert_eq!(a.triangle_normal(&b, &c), v(16, 0, 0));
}

#[test]
fn triple_cross_unrolls() {
    let a = v(1, 0, 0);
    let axis = v(0, 0, 1);
    assert_eq!(a.triple_cross(&axis, &a), v(0, 0, 1));
}

#[test]
fn zero_test_ignores_z() {
    assert!(v(0, 0, 5).is_zero());
    assert!(v(0, 0, 0).is_zero());
    assert!(!v(1, 0, 0).is_zero());
    assert!(!v(0, -3, 0).is_zero());
}

#[test]
fn integer_square_roots() {
    assert_eq!(isqrt(0), 0);
    assert_eq!(isqrt(1), 1);
    assert_eq!(isqrt(8), 2);
    assert_eq!(isqrt(9), 3);
    assert_eq!(isqrt(10), 3);
    assert_eq!(isqrt(SCALE * SCALE), SCALE);
}

#[test]
fn ratio_is_clamped() {
    assert_eq!(ratio_fp(1, 2), SCALE / 2);
    assert_eq!(ratio_fp(5, 2), SCALE);
    assert_eq!(ratio_fp(-1, 2), 0);
    assert_eq!(ratio_fp(1, 0), 0);
    assert_eq!(ratio_fp(3, -4), 0);
}

#[test]
fn truncating_division() {
    assert_eq!(tdiv(7, 2), 3);
    assert_eq!(tdiv(-7, 2), -3);
    assert_eq!(tdiv(0, 5), 0);
}

#[test]
fn interpolation_midpoint() {
    let p0 = v(0, 0, 0);
    let p1 = v(2, 4, -6);
    let mid = lerp_pts_fp(&p0, &p1, SCALE / 2);
    assert_eq!(mid, v(SCALE, 2 * SCALE, -3 * SCALE));
    assert_eq!(lerp_pts_fp(&p0, &p1, 0), v(0, 0, 0));
    assert_eq!(lerp_pts_fp(&p0, &p1, SCALE), v(2 * SCALE, 4 * SCALE, -6 * SCALE));
}

#[test]
fn projection_of_origin_onto_plane() {
    let dir = v(16, 0, 0);
    let pt = v(-1, 3, -2);
    assert_eq!(proj_fp(&dir, &pt), v(-SCALE, 0, 0));
    assert_eq!(proj_fp(&v(0, 0, 0), &pt), v(0, 0, 0));
}

#[test]
fn fixed_point_carry() {
    assert_eq!(fp_of(&v(3, -1, 0)), v(3 * SCALE, -SCALE, 0));
}

#[test]
fn plane_normal_regular_and_collinear() {
    assert_eq!(plane_normal(&v(1, 0, 0), &v(0, 1, 1)), v(0, 1, 1));
    // cross(v0, v1) is zero: falls back to the axis construction.
    assert_eq!(plane_normal(&v(1, 0, 0), &v(-2, 0, 0)), v(0, 0, 1));
    // The zero test looks only at x and y, so a z-only cross product
    // also takes the fallback.
    assert_eq!(plane_normal(&v(1, 0, 0), &v(0, 1, 0)), v(0, 0, 1));
}
