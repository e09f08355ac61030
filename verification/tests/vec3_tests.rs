use raytrace::vec3::{Vec3, dot, cross, unit_vector, reflect};
use raytrace::ONE;

fn v(x: i64, y: i64, z: i64) -> Vec3 {
    Vec3::new(x * ONE, y * ONE, z * ONE)
}

#[test]
fn test_neg() {
    assert_eq!(v(1, 2, 3).neg(), v(-1, -2, -3));
}

#[test]
fn test_add() {
    assert_eq!(v(1, 2, 3).add(v(1, 2, 3)), v(2, 4, 6));
}

#[test]
fn test_sub() {
    assert_eq!(v(1, 2, 3).sub(v(1, 2, 3)), v(0, 0, 0));
}

#[test]
fn test_mul() {
    assert_eq!(v(1, 2, 3).mul(v(1, 2, 3)), v(1, 4, 9));
}

#[test]
fn test_div() {
    assert_eq!(v(1, 2, 3).div(v(1, 2, 3)), v(1, 1, 1));
}

#[test]
fn test_add_assign() {
    let mut t = v(1, 2, 3);
    t.add_assign(v(1, 2, 3));
    assert_eq!(t, v(2, 4, 6));
}

#[test]
fn test_dot() {
    // dot carries scale ONE^2: 1*1 + 2*2 + 3*3 = 14.
    assert_eq!(dot(&v(1, 2, 3), &v(1, 2, 3)), 14 * ONE * ONE);
}

#[test]
fn test_cross() {
    // The cross product of a vector with itself vanishes.
    assert_eq!(cross(&v(1, 2, 3), &v(1, 2, 3)), Vec3::new(0, 0, 0));
}

#[test]
fn dot_of_self_is_squared_length() {
    let a = Vec3::new(12345, -777, 3 * ONE);
    assert_eq!(dot(&a, &a), a.squared_length());
}

#[test]
fn unit_vector_of_3_4_0() {
    // length(3, 4, 0) = 5, so the unit vector is (3/5, 4/5, 0) truncated.
    let u = unit_vector(v(3, 4, 0));
    assert_eq!(u.x, 3 * ONE * ONE / (5 * ONE));
    assert_eq!(u.y, 4 * ONE * ONE / (5 * ONE));
    assert_eq!(u.z, 0);
    let sq = u.x * u.x + u.y * u.y + u.z * u.z;
    assert!(sq <= ONE * ONE + 2 * ONE);
    assert!(sq >= (ONE - 2) * (ONE - 2));
}

#[test]
fn reflect_about_unit_normal_negates_normal_part() {
    // n = (0, 1, 0) is exactly unit; reflect carries scale ONE^3.
    let a = Vec3::new(3 * ONE, -5 * ONE, 2 * ONE);
    let n = Vec3::new(0, ONE, 0);
    let d = dot(&a, &n);
    let r = reflect(&a, &n);
    // Componentwise: r = a * ONE^2 - 2 * dot(a, n) * n.
    let s2 = (ONE as i128) * (ONE as i128);
    assert_eq!(r.x as i128, (a.x as i128) * s2);
    assert_eq!(r.y as i128, (a.y as i128) * s2 - 2 * (d as i128) * (n.y as i128));
    assert_eq!(r.z as i128, (a.z as i128) * s2);
    // dot(reflect(a, n), n) == -dot(a, n), at matching scales.
    let lhs = (r.x as i128) * (n.x as i128) + (r.y as i128) * (n.y as i128)
        + (r.z as i128) * (n.z as i128);
    assert_eq!(lhs, -(d as i128) * s2);
}

#[test]
fn make_unit_vector_normalizes_in_place() {
    let mut a = v(0, 0, 7);
    a.make_unit_vector();
    assert_eq!(a, Vec3::new(0, 0, ONE));
}
