use raytrace::vec3::{Vec3, dot, refract};
use raytrace::ray::Ray;
use raytrace::hitable::HitRecord;
use raytrace::material::{Material, scatter, schlick};
use raytrace::rng::RngStream;
use raytrace::ONE;

fn hit_at_origin(material: Material) -> HitRecord {
    HitRecord {
        t: 4 * ONE,
        p: Vec3::new(0, 0, -4 * ONE),
        normal: Vec3::new(0, 0, ONE),
        material,
    }
}

#[test]
fn schlick_at_grazing_angle_is_total() {
    // cosine 0: reflectance is exactly 1, for any index.
    assert_eq!(schlick(0, ONE), ONE);
    assert_eq!(schlick(0, 98304), ONE);
    assert_eq!(schlick(0, 2 * ONE), ONE);
}

#[test]
fn schlick_head_on_matched_index_is_zero() {
    assert_eq!(schlick(ONE, ONE), 0);
}

#[test]
fn schlick_head_on_glass_is_r0() {
    // For index 1.5 head on: q = (1 - 1.5)/(1 + 1.5) truncated, r0 = q^2.
    let q = (ONE - 98304) * ONE / (ONE + 98304);
    let r0 = q * q / ONE;
    assert_eq!(q, -13107);
    assert_eq!(schlick(ONE, 98304), r0);
}

#[test]
fn lambertian_always_scatters_from_the_hit_point() {
    let albedo = Vec3::new(6554, 19661, 32768);
    let rec = hit_at_origin(Material::Lambertian { albedo });
    let r_in = Ray::new(Vec3::new(0, 0, 0), Vec3::new(0, 0, -ONE));
    let mut rng = RngStream::from_seed(7);
    for _ in 0..100 {
        let mut attenuation = Vec3::new(0, 0, 0);
        let mut scattered = Ray::new(Vec3::new(0, 0, 0), Vec3::new(0, 0, 0));
        assert!(scatter(&r_in, &rec, &mut attenuation, &mut scattered, &mut rng));
        assert_eq!(attenuation, albedo);
        assert_eq!(scattered.origin, rec.p);
        // direction = normal + a vector inside the unit ball.
        let d = scattered.direction.sub(rec.normal);
        assert!(d.x * d.x + d.y * d.y + d.z * d.z < ONE * ONE);
    }
}

#[test]
fn mirror_metal_reflects_head_on_rays_back() {
    let albedo = Vec3::new(ONE, ONE, ONE);
    let rec = hit_at_origin(Material::Metal { albedo, fuzz: 0 });
    let r_in = Ray::new(Vec3::new(0, 0, 0), Vec3::new(0, 0, -ONE));
    let mut rng = RngStream::from_seed(7);
    let mut attenuation = Vec3::new(0, 0, 0);
    let mut scattered = Ray::new(Vec3::new(0, 0, 0), Vec3::new(0, 0, 0));
    assert!(scatter(&r_in, &rec, &mut attenuation, &mut scattered, &mut rng));
    assert_eq!(attenuation, albedo);
    assert_eq!(scattered.origin, rec.p);
    assert_eq!(scattered.direction, Vec3::new(0, 0, ONE));
}

#[test]
fn metal_absorbs_rays_that_stay_below_the_surface() {
    // A glancing ray reflected into the surface: scatter reports absorption
    // exactly when dot(direction, normal) <= 0.
    let albedo = Vec3::new(ONE, ONE, ONE);
    let rec = hit_at_origin(Material::Metal { albedo, fuzz: ONE });
    let r_in = Ray::new(Vec3::new(0, 0, 0), Vec3::new(0, ONE, -3));
    let mut rng = RngStream::from_seed(11);
    let mut absorbed: u32 = 0;
    let mut survived: u32 = 0;
    for _ in 0..200 {
        let mut attenuation = Vec3::new(0, 0, 0);
        let mut scattered = Ray::new(Vec3::new(0, 0, 0), Vec3::new(0, 0, 0));
        let ok = scatter(&r_in, &rec, &mut attenuation, &mut scattered, &mut rng);
        let dn = dot(&scattered.direction, &rec.normal);
        assert_eq!(ok, dn > 0);
        if ok {
            survived += 1;
        } else {
            absorbed += 1;
        }
    }
    // A heavily fuzzed grazing reflection goes both ways.
    assert!(absorbed > 0);
    assert!(survived > 0);
}

#[test]
fn dielectric_always_scatters_with_no_attenuation() {
    let rec = hit_at_origin(Material::Dielectric { ref_idx: 98304 });
    let r_in = Ray::new(Vec3::new(0, 0, 0), Vec3::new(0, ONE / 2, -ONE));
    let mut rng = RngStream::from_seed(13);
    for _ in 0..100 {
        let mut attenuation = Vec3::new(0, 0, 0);
        let mut scattered = Ray::new(Vec3::new(0, 0, 0), Vec3::new(0, 0, 0));
        assert!(scatter(&r_in, &rec, &mut attenuation, &mut scattered, &mut rng));
        assert_eq!(attenuation, Vec3::new(ONE, ONE, ONE));
        assert_eq!(scattered.origin, rec.p);
        assert!(scattered.direction != Vec3::new(0, 0, 0));
    }
}

#[test]
fn refract_reports_total_internal_reflection() {
    // Leaving a dense medium at a shallow angle: no refracted ray exists.
    let v = Vec3::new(ONE, 0, -ONE / 8);
    let n = Vec3::new(0, 0, ONE);
    let mut refracted = Vec3::new(1, 2, 3);
    let ok = refract(&v, &n, 2 * ONE, &mut refracted);
    assert!(!ok);
    // On failure the out-parameter is untouched.
    assert_eq!(refracted, Vec3::new(1, 2, 3));
}

#[test]
fn refract_bends_a_straight_ray_straight_through() {
    let v = Vec3::new(0, 0, -ONE);
    let n = Vec3::new(0, 0, ONE);
    let mut refracted = Vec3::new(0, 0, 0);
    let ok = refract(&v, &n, ONE, &mut refracted);
    assert!(ok);
    // Index ratio 1: the direction continues along -z.
    assert_eq!(refracted.x, 0);
    assert_eq!(refracted.y, 0);
    assert!(refracted.z < 0);
}
