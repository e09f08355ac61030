use raytrace::vec3::{Vec3, random_in_unit_sphere, random_in_unit_disk};
use raytrace::ray::Ray;
use raytrace::sphere::Sphere;
use raytrace::material::Material;
use raytrace::hitable_list::HitableList;
use raytrace::camera::{Camera, check_camera_params};
use raytrace::render::{color, render, render_row, gamma_encode, quantize};
use raytrace::ppm::ppm_bytes;
use raytrace::rng::RngStream;
use raytrace::ONE;

#[test]
fn unit_sphere_draws_stay_inside() {
    let mut rng = RngStream::from_seed(99);
    let mut sum_x: i64 = 0;
    let mut sum_y: i64 = 0;
    let mut sum_z: i64 = 0;
    let mut octant_count = [0u32; 8];
    for _ in 0..10000 {
        let p = random_in_unit_sphere(&mut rng);
        let sq = p.x * p.x + p.y * p.y + p.z * p.z;
        assert!(sq < ONE * ONE);
        sum_x += p.x;
        sum_y += p.y;
        sum_z += p.z;
        let idx = (if p.x >= 0 { 1 } else { 0 }) + (if p.y >= 0 { 2 } else { 0 })
            + (if p.z >= 0 { 4 } else { 0 });
        octant_count[idx] += 1;
    }
    // Roughly uniform over the ball: small mean, every octant populated.
    assert!(sum_x.abs() / 10000 < ONE / 10);
    assert!(sum_y.abs() / 10000 < ONE / 10);
    assert!(sum_z.abs() / 10000 < ONE / 10);
    for c in octant_count {
        assert!(c > 600);
    }
}

#[test]
fn unit_disk_draws_stay_inside_the_plane() {
    let mut rng = RngStream::from_seed(7);
    let mut quadrant_count = [0u32; 4];
    for _ in 0..10000 {
        let p = random_in_unit_disk(&mut rng);
        assert_eq!(p.z, 0);
        assert!(p.x * p.x + p.y * p.y < ONE * ONE);
        let idx = (if p.x >= 0 { 1 } else { 0 }) + (if p.y >= 0 { 2 } else { 0 });
        quadrant_count[idx] += 1;
    }
    for c in quadrant_count {
        assert!(c > 1500);
    }
}

#[test]
fn gen_range_stays_in_bounds_and_varies() {
    let mut rng = RngStream::from_seed(3);
    let mut distinct = std::collections::BTreeSet::new();
    for _ in 0..100 {
        let v = rng.gen_range_i64(5, 1_000_000);
        assert!((5..1_000_000).contains(&v));
        distinct.insert(v);
    }
    assert!(distinct.len() > 10);
}

#[test]
fn gamma_and_quantize_exact_values() {
    // gamma is the fixed-point square root: sqrt(1/4) = 1/2.
    assert_eq!(gamma_encode(0), 0);
    assert_eq!(gamma_encode(ONE), ONE);
    assert_eq!(gamma_encode(ONE / 4), ONE / 2);
    // quantize is floor(value * 255.99) clamped.
    assert_eq!(quantize(0), 0);
    assert_eq!(quantize(ONE), 255);
    assert_eq!(quantize(ONE / 2), 127);
}

#[test]
fn ppm_layout_of_a_single_pixel() {
    let pixels = vec![vec![(0u8, 128u8, 255u8)]];
    let out = ppm_bytes(&pixels, 1, 1);
    assert_eq!(out, b"P3\n1 1 255\n0 128 255\n".to_vec());
}

fn two_sphere_world() -> HitableList {
    let mut world = HitableList::new();
    world.push(Sphere::new(Vec3::new(0, 0, -ONE), ONE / 2, Material::Lambertian {
        albedo: Vec3::new(6554, 19661, 32768),
    }));
    world.push(Sphere::new(Vec3::new(0, -6586368, -ONE), 100 * ONE, Material::Lambertian {
        albedo: Vec3::new(52429, 52429, 0),
    }));
    world
}

fn test_camera() -> Camera {
    let lookfrom = Vec3::new(0, 0, 0);
    let lookat = Vec3::new(0, 0, -ONE);
    let vup = Vec3::new(0, ONE, 0);
    // Vertical fov 90 degrees: tan of the half angle is exactly 1.
    assert!(check_camera_params(lookfrom, lookat, vup, ONE, 2 * ONE, 0, ONE));
    Camera::new(lookfrom, lookat, vup, ONE, 2 * ONE, 0, ONE)
}

#[test]
fn render_produces_the_expected_header_and_range() {
    let world = two_sphere_world();
    let cam = test_camera();
    let (rows, rays) = render(20, 10, 4, &cam, &world, 1984);
    assert_eq!(rows.len(), 10);
    for row in &rows {
        assert_eq!(row.len(), 20);
    }
    assert!(rays > 0);
    let out = ppm_bytes(&rows, 20, 10);
    assert!(out.starts_with(b"P3\n20 10 255\n"));
    // Every payload byte is a digit, a space or a newline.
    for &b in &out[3..] {
        assert!(b.is_ascii_digit() || b == b' ' || b == b'\n');
    }
    // Not everything is black: the sky contributes.
    assert!(out.iter().filter(|&&b| b.is_ascii_digit() && b != b'0').count() > 10);
}

#[test]
fn render_is_deterministic_for_a_seed() {
    let world = two_sphere_world();
    let cam = test_camera();
    let first = render(20, 10, 4, &cam, &world, 1984);
    let second = render(20, 10, 4, &cam, &world, 1984);
    assert_eq!(first.0, second.0);
    assert_eq!(first.1, second.1);
    let other = render(20, 10, 4, &cam, &world, 2024);
    assert!(first.0 != other.0);
}

#[test]
fn rows_rendered_in_any_order_assemble_the_same_image() {
    let world = two_sphere_world();
    let cam = test_camera();
    let whole = render(20, 10, 4, &cam, &world, 1984);
    // Compute the rows bottom-up and on their own, as independent workers
    // would, then place each at its output position.
    let mut assembled: Vec<Vec<(u8, u8, u8)>> = vec![Vec::new(); 10];
    let mut total: i64 = 0;
    for j in 0..10usize {
        let (row, cnt) = render_row(j, 20, 10, 4, &cam, &world, 1984 + j as u64);
        assembled[10 - 1 - j] = row;
        total += cnt;
    }
    assert_eq!(whole.0, assembled);
    assert_eq!(whole.1, total);
}

#[test]
fn mirror_corridor_terminates_at_the_bounce_budget() {
    // Two facing mirrors; a ray bouncing between them must stop after
    // exactly 51 hits (depths 0 through 50) and come back black.
    let mirror = Material::Metal { albedo: Vec3::new(ONE, ONE, ONE), fuzz: 0 };
    let mut world = HitableList::new();
    world.push(Sphere::new(Vec3::new(0, 0, -3 * ONE), ONE, mirror));
    world.push(Sphere::new(Vec3::new(0, 0, 3 * ONE), ONE, mirror));
    let r = Ray::new(Vec3::new(0, 0, 0), Vec3::new(0, 0, -ONE));
    let mut rng = RngStream::from_seed(5);
    let mut rays: i64 = 0;
    let c = color(&r, &world, 0, &mut rng, &mut rays);
    assert_eq!(rays, 51);
    assert_eq!(c, Vec3::new(0, 0, 0));
}

#[test]
fn pinhole_camera_rays_span_the_viewport() {
    // Aperture 0: the lens offset vanishes and rays are exact. With fov
    // 90 degrees, aspect 2 and focus 1 the viewport corners are exact
    // multiples of ONE.
    let cam = test_camera();
    let mut rng = RngStream::from_seed(1);
    let bottom_left = cam.get_ray(0, 0, &mut rng);
    assert_eq!(bottom_left.origin, Vec3::new(0, 0, 0));
    assert_eq!(bottom_left.direction, Vec3::new(-2 * ONE, -ONE, -ONE));
    let top_right = cam.get_ray(ONE, ONE, &mut rng);
    assert_eq!(top_right.direction, Vec3::new(2 * ONE, ONE, -ONE));
    let center = cam.get_ray(ONE / 2, ONE / 2, &mut rng);
    assert_eq!(center.direction, Vec3::new(0, 0, -ONE));
}
