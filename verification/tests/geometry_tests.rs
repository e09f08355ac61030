use raytrace::vec3::Vec3;
use raytrace::ray::Ray;
use raytrace::sphere::Sphere;
use raytrace::material::Material;
use raytrace::hitable::{Hitable, HitRecord};
use raytrace::hitable_list::HitableList;
use raytrace::render::T_INF;
use raytrace::rng::RngStream;
use raytrace::scenes::{original_scene, redblue_scene, final_scene};
use raytrace::ONE;

fn gray() -> Material {
    Material::Lambertian { albedo: Vec3::new(ONE / 2, ONE / 2, ONE / 2) }
}

#[test]
fn ray_toward_center_hits_at_distance_minus_radius() {
    // Center 5 units away along -z, radius 1: t = 5 - 1 = 4, exactly.
    let s = Sphere::new(Vec3::new(0, 0, -5 * ONE), ONE, gray());
    let r = Ray::new(Vec3::new(0, 0, 0), Vec3::new(0, 0, -ONE));
    let mut rec = HitRecord::new();
    assert!(s.hit(&r, 66, T_INF, &mut rec));
    assert_eq!(rec.t, 4 * ONE);
    assert_eq!(rec.p, Vec3::new(0, 0, -4 * ONE));
    assert_eq!(rec.normal, Vec3::new(0, 0, ONE));
}

#[test]
fn ray_offset_beyond_radius_misses() {
    let s = Sphere::new(Vec3::new(0, 0, -5 * ONE), ONE, gray());
    let r = Ray::new(Vec3::new(2 * ONE, 0, 0), Vec3::new(0, 0, -ONE));
    let mut rec = HitRecord::new();
    assert!(!s.hit(&r, 66, T_INF, &mut rec));
}

#[test]
fn ray_from_inside_hits_far_side() {
    let s = Sphere::new(Vec3::new(0, 0, -5 * ONE), ONE, gray());
    let r = Ray::new(Vec3::new(0, 0, -5 * ONE), Vec3::new(0, 0, -ONE));
    let mut rec = HitRecord::new();
    assert!(s.hit(&r, 66, T_INF, &mut rec));
    assert_eq!(rec.t, ONE);
    assert_eq!(rec.p, Vec3::new(0, 0, -6 * ONE));
    assert_eq!(rec.normal, Vec3::new(0, 0, -ONE));
}

#[test]
fn negative_radius_inverts_the_normal() {
    let s = Sphere::new(Vec3::new(0, 0, -5 * ONE), -ONE, gray());
    let r = Ray::new(Vec3::new(0, 0, 0), Vec3::new(0, 0, -ONE));
    let mut rec = HitRecord::new();
    assert!(s.hit(&r, 66, T_INF, &mut rec));
    assert_eq!(rec.t, 4 * ONE);
    assert_eq!(rec.normal, Vec3::new(0, 0, -ONE));
}

#[test]
fn scene_returns_smaller_of_two_overlapping_roots() {
    // Individual roots along the ray: 4 for the nearer, 5 for the farther.
    let near = Sphere::new(Vec3::new(0, 0, -5 * ONE), ONE, gray());
    let far = Sphere::new(Vec3::new(0, 0, -6 * ONE), ONE, gray());
    let r = Ray::new(Vec3::new(0, 0, 0), Vec3::new(0, 0, -ONE));

    let mut rec = HitRecord::new();
    assert!(near.hit(&r, 66, T_INF, &mut rec));
    assert_eq!(rec.t, 4 * ONE);
    assert!(far.hit(&r, 66, T_INF, &mut rec));
    assert_eq!(rec.t, 5 * ONE);

    let mut world = HitableList::new();
    world.push(near);
    world.push(far);
    let mut out = HitRecord::new();
    assert!(world.hit(&r, 66, T_INF, &mut out));
    assert_eq!(out.t, 4 * ONE);

    // Member order does not change the nearest hit.
    let mut world2 = HitableList::new();
    world2.push(far);
    world2.push(near);
    let mut out2 = HitRecord::new();
    assert!(world2.hit(&r, 66, T_INF, &mut out2));
    assert_eq!(out2.t, 4 * ONE);
}

#[test]
fn scene_hit_copies_the_material() {
    let metal = Material::Metal { albedo: Vec3::new(ONE, ONE, ONE), fuzz: 0 };
    let s = Sphere::new(Vec3::new(0, 0, -5 * ONE), ONE, metal);
    let mut world = HitableList::new();
    world.push(s);
    let r = Ray::new(Vec3::new(0, 0, 0), Vec3::new(0, 0, -ONE));
    let mut rec = HitRecord::new();
    assert!(world.hit(&r, 66, T_INF, &mut rec));
    assert_eq!(rec.material, metal);
}

#[test]
fn empty_scene_misses() {
    let world = HitableList::new();
    let r = Ray::new(Vec3::new(0, 0, 0), Vec3::new(0, 0, -ONE));
    let mut rec = HitRecord::new();
    assert!(!world.hit(&r, 66, T_INF, &mut rec));
    assert_eq!(rec.t, 0);
}

#[test]
fn original_scene_has_five_spheres_with_the_bubble() {
    let mut world = HitableList::new();
    original_scene(&mut world);
    assert_eq!(world.len(), 5);
    assert_eq!(world.spheres[0].center(), Vec3::new(0, 0, -ONE));
    assert_eq!(world.spheres[0].radius(), ONE / 2);
    assert_eq!(world.spheres[4].radius(), -29491);
    assert_eq!(world.spheres[4].material, Material::Dielectric { ref_idx: 98304 });
}

#[test]
fn redblue_scene_uses_cos_quarter_pi_radius() {
    let mut world = HitableList::new();
    redblue_scene(&mut world);
    assert_eq!(world.len(), 2);
    // floor(sqrt(2^31)) = floor(cos(pi/4) * ONE) at fixed-point scale.
    assert_eq!(world.spheres[0].radius(), 46340);
    assert_eq!(world.spheres[0].center(), Vec3::new(-46340, 0, -ONE));
    assert_eq!(world.spheres[1].center(), Vec3::new(46340, 0, -ONE));
}

#[test]
fn final_scene_is_ground_smalls_and_heroes() {
    let mut world = HitableList::new();
    let mut rng = RngStream::from_seed(1984);
    final_scene(&mut world, &mut rng);
    let n = world.len();
    // The exclusion disk can only ever swallow the four grid cells next
    // to the metal hero, so at least 480 of the 484 cells are drawn.
    assert!(n >= 484 && n <= 488);
    for i in 1..(n - 3) {
        let s = &world.spheres[i];
        assert_eq!(s.radius(), 13107);
        assert_eq!(s.center().y, 13107);
        assert!(s.center().x >= -11 * ONE && s.center().x <= 11 * ONE);
        assert!(s.center().z >= -11 * ONE && s.center().z <= 11 * ONE);
    }
    assert_eq!(world.spheres[0].center(), Vec3::new(0, -1000 * ONE, 0));
    assert_eq!(world.spheres[0].radius(), 1000 * ONE);
    let metal_hero = &world.spheres[n - 1];
    assert_eq!(metal_hero.center(), Vec3::new(4 * ONE, ONE, 0));
    assert_eq!(metal_hero.material, Material::Metal {
        albedo: Vec3::new(45875, 39322, 32768),
        fuzz: 0,
    });
    for i in 0..n {
        assert!(world.spheres[i].radius() != 0);
    }
    // The same seed builds the same scene.
    let mut world2 = HitableList::new();
    let mut rng2 = RngStream::from_seed(1984);
    final_scene(&mut world2, &mut rng2);
    assert_eq!(world2.len(), n);
    for i in 0..n {
        assert_eq!(world.spheres[i].center(), world2.spheres[i].center());
        assert_eq!(world.spheres[i].radius(), world2.spheres[i].radius());
    }
}

#[test]
fn equal_spheres_tie_keeps_the_first_member() {
    // Only a strictly closer hit replaces the record, so on a tie the
    // earlier member's material stays.
    let red = Material::Lambertian { albedo: Vec3::new(ONE, 0, 0) };
    let blue = Material::Lambertian { albedo: Vec3::new(0, 0, ONE) };
    let mut world = HitableList::new();
    world.push(Sphere::new(Vec3::new(0, 0, -5 * ONE), ONE, red));
    world.push(Sphere::new(Vec3::new(0, 0, -5 * ONE), ONE, blue));
    let r = Ray::new(Vec3::new(0, 0, 0), Vec3::new(0, 0, -ONE));
    let mut rec = HitRecord::new();
    assert!(world.hit(&r, 66, T_INF, &mut rec));
    assert_eq!(rec.t, 4 * ONE);
    assert_eq!(rec.material, red);
}
