//! Reference scene builders: the four-sphere scene with a hollow glass
//! bubble, the two-sphere red/blue scene, and the seeded showcase of
//! several hundred small spheres around three fixed hero spheres.

use vstd::prelude::*;
use crate::fixed::{sqrt_s, ONE, tdiv64, isqrt64, lemma_tdiv_le};
use crate::vec3::Vec3;
use crate::material::Material;
use crate::sphere::Sphere;
use crate::hitable_list::HitableList;
use crate::hitable::Hitable;
use crate::rng::RngStream;

verus! {

/// The four-sphere scene: a small diffuse sphere over a diffuse ground,
/// a fuzzy metal sphere, and a glass sphere holding a negative-radius
/// shell that makes it a hollow bubble.
pub fn original_scene(world: &mut HitableList)
    requires
        old(world).wf(),
    ensures
        final(world).wf(),
        final(world).spheres@ =~= old(world).spheres@ + seq![
            Sphere {
                center: Vec3 { x: 0, y: 0, z: -65536i64 },
                radius: 32768,
                material: Material::Lambertian { albedo: Vec3 { x: 6554, y: 19661, z: 32768 } },
            },
            Sphere {
                center: Vec3 { x: 0, y: -6586368i64, z: -65536i64 },
                radius: 6553600,
                material: Material::Lambertian { albedo: Vec3 { x: 52429, y: 52429, z: 0 } },
            },
            Sphere {
                center: Vec3 { x: 65536, y: 0, z: -65536i64 },
                radius: 32768,
                material: Material::Metal {
                    albedo: Vec3 { x: 52429, y: 39322, z: 13107 },
                    fuzz: 65536,
                },
            },
            Sphere {
                center: Vec3 { x: -65536i64, y: 0, z: -65536i64 },
                radius: 32768,
                material: Material::Dielectric { ref_idx: 98304 },
            },
            Sphere {
                center: Vec3 { x: -65536i64, y: 0, z: -65536i64 },
                radius: -29491i64,
                material: Material::Dielectric { ref_idx: 98304 },
            },
        ],
{
    world.push(Sphere::new(Vec3::new(0, 0, -ONE), ONE / 2, Material::Lambertian {
        albedo: Vec3::new(6554, 19661, 32768),
    }));
    world.push(Sphere::new(Vec3::new(0, -6586368, -ONE), 100 * ONE, Material::Lambertian {
        albedo: Vec3::new(52429, 52429, 0),
    }));
    world.push(Sphere::new(Vec3::new(ONE, 0, -ONE), ONE / 2, Material::Metal {
        albedo: Vec3::new(52429, 39322, 13107),
        fuzz: ONE,
    }));
    world.push(Sphere::new(Vec3::new(-ONE, 0, -ONE), ONE / 2, Material::Dielectric {
        ref_idx: 98304,
    }));
    world.push(Sphere::new(Vec3::new(-ONE, 0, -ONE), -29491, Material::Dielectric {
        ref_idx: 98304,
    }));
}

/// Two touching spheres of radius cos(pi/4), one blue and one red.
pub fn redblue_scene(world: &mut HitableList)
    requires
        old(world).wf(),
    ensures
        final(world).wf(),
        ({
            let r = sqrt_s(0x8000_0000) as i64;
            final(world).spheres@ =~= old(world).spheres@ + seq![
                Sphere {
                    center: Vec3 { x: (-r) as i64, y: 0, z: -65536i64 },
                    radius: r,
                    material: Material::Lambertian { albedo: Vec3 { x: 0, y: 0, z: 65536 } },
                },
                Sphere {
                    center: Vec3 { x: r, y: 0, z: -65536i64 },
                    radius: r,
                    material: Material::Lambertian { albedo: Vec3 { x: 65536, y: 0, z: 0 } },
                },
            ]
        }),
{
    let r = isqrt64(ONE / 2 * ONE);
    proof {
        assert(r >= 1) by {
            if r == 0 {
                assert((r as int + 1) * (r as int + 1) == 1) by (nonlinear_arith)
                    requires r == 0;
            }
        }
        assert(r <= 0x2000_0000) by {
            if r > 0x2000_0000 {
                assert(r * r > 0x8000_0000) by (nonlinear_arith)
                    requires r > 0x2000_0000;
            }
        }
    }
    world.push(Sphere::new(Vec3::new(-r, 0, -ONE), r, Material::Lambertian {
        albedo: Vec3::new(0, 0, ONE),
    }));
    world.push(Sphere::new(Vec3::new(r, 0, -ONE), r, Material::Lambertian {
        albedo: Vec3::new(ONE, 0, 0),
    }));
}

/// A random small sphere's material: mostly diffuse, sometimes metal,
/// rarely glass, drawn from the stream.
fn showcase_material(rng: &mut RngStream) -> (m: Material)
    ensures
        crate::material::mat_wf(m),
{
    let choose_mat = rng.gen_range_i64(0, ONE);
    if choose_mat < 52429 {
        let r1 = rng.gen_range_i64(0, ONE);
        let r2 = rng.gen_range_i64(0, ONE);
        let g1 = rng.gen_range_i64(0, ONE);
        let g2 = rng.gen_range_i64(0, ONE);
        let b1 = rng.gen_range_i64(0, ONE);
        let b2 = rng.gen_range_i64(0, ONE);
        Material::Lambertian { albedo: Vec3::new(unit_prod(r1, r2), unit_prod(g1, g2), unit_prod(
            b1, b2)) }
    } else if choose_mat < 62259 {
        let r1 = rng.gen_range_i64(0, ONE);
        let g1 = rng.gen_range_i64(0, ONE);
        let b1 = rng.gen_range_i64(0, ONE);
        let f = rng.gen_range_i64(0, ONE);
        Material::Metal {
            albedo: Vec3::new(half_up(r1), half_up(g1), half_up(b1)),
            fuzz: tdiv64(f, 2),
        }
    } else {
        Material::Dielectric { ref_idx: 98304 }
    }
}

/// `a * b / ONE` for two channels in [0, 1).
fn unit_prod(a: i64, b: i64) -> (r: i64)
    requires
        0 <= a < ONE,
        0 <= b < ONE,
    ensures
        0 <= r <= ONE,
{
    proof {
        assert(0 <= a * b <= (ONE as int) * (ONE as int)) by (nonlinear_arith)
            requires 0 <= a < ONE as int, 0 <= b < ONE as int;
        lemma_tdiv_le(a * b, ONE as int, ONE as int);
        vstd::arithmetic::div_mod::lemma_div_pos_is_pos(a * b, ONE as int);
    }
    crate::fixed::scale_down(crate::fixed::mul64(a, b), ONE)
}

/// `(1 + r) / 2` for a draw in [0, 1): a channel in [1/2, 1].
fn half_up(r: i64) -> (v: i64)
    requires
        0 <= r < ONE,
    ensures
        0 <= v <= ONE,
{
    proof {
        vstd::arithmetic::div_mod::lemma_div_pos_is_pos((ONE + r) as int, 2);
        lemma_tdiv_le((ONE + r) as int, 2, ONE as int);
    }
    tdiv64(ONE + r, 2)
}

/// A drawn showcase sphere: radius 0.2, resting at height 0.2, centered
/// inside the 22x22 unit grid.
pub open spec fn showcase_sphere(s: Sphere) -> bool {
    &&& s.radius == 13107
    &&& s.center.y == 13107
    &&& -11 * (ONE as int) <= s.center.x <= 11 * (ONE as int)
    &&& -11 * (ONE as int) <= s.center.z <= 11 * (ONE as int)
}

/// Grid cells whose drawn center can ever fall inside the exclusion disk
/// around the metal hero at (4, 0.2, 0): only the four cells with
/// `a` in {3, 4} and `b` in {-1, 0}, counted over the columns strictly
/// before `a`.
pub open spec fn excludable_before_col(a: int) -> int {
    if a <= 3 {
        0
    } else if a == 4 {
        2
    } else {
        4
    }
}

/// Excludable cells strictly before row `b` of column `a`, plus all of
/// the earlier columns.
pub open spec fn excludable_before(a: int, b: int) -> int {
    excludable_before_col(a) + if a == 3 || a == 4 {
        if b <= -1 {
            0int
        } else if b == 0 {
            1int
        } else {
            2int
        }
    } else {
        0int
    }
}

/// The seeded showcase: a large gray ground sphere, at least 480 of the
/// 484 grid-drawn small spheres (only the four cells nearest the metal
/// hero can fall inside the exclusion disk), then the three hero
/// spheres: glass, diffuse and mirror metal.
pub fn final_scene(world: &mut HitableList, rng: &mut RngStream)
    requires
        old(world).wf(),
    ensures
        final(world).wf(),
        old(world).spheres@.len() + 484 <= final(world).spheres@.len(),
        final(world).spheres@.len() <= old(world).spheres@.len() + 488,
        forall|i: int|
            old(world).spheres@.len() + 1 <= i < final(world).spheres@.len() - 3
                ==> showcase_sphere(#[trigger] final(world).spheres@[i]),
        final(world).spheres@[old(world).spheres@.len() as int] == (Sphere {
            center: Vec3 { x: 0, y: -65536000i64, z: 0 },
            radius: 65536000,
            material: Material::Lambertian { albedo: Vec3 { x: 32768, y: 32768, z: 32768 } },
        }),
        final(world).spheres@[final(world).spheres@.len() - 3] == (Sphere {
            center: Vec3 { x: 0, y: 65536, z: 0 },
            radius: 65536,
            material: Material::Dielectric { ref_idx: 98304 },
        }),
        final(world).spheres@[final(world).spheres@.len() - 2] == (Sphere {
            center: Vec3 { x: -262144i64, y: 65536, z: 0 },
            radius: 65536,
            material: Material::Lambertian { albedo: Vec3 { x: 26214, y: 13107, z: 6554 } },
        }),
        final(world).spheres@[final(world).spheres@.len() - 1] == (Sphere {
            center: Vec3 { x: 262144, y: 65536, z: 0 },
            radius: 65536,
            material: Material::Metal {
                albedo: Vec3 { x: 45875, y: 39322, z: 32768 },
                fuzz: 0,
            },
        }),
{
    world.push(Sphere::new(Vec3::new(0, -1000 * ONE, 0), 1000 * ONE, Material::Lambertian {
        albedo: Vec3::new(ONE / 2, ONE / 2, ONE / 2),
    }));
    let ghost base = world.spheres@.len();
    let ghost ground = (Sphere {
        center: Vec3 { x: 0, y: -65536000i64, z: 0 },
        radius: 65536000,
        material: Material::Lambertian { albedo: Vec3 { x: 32768, y: 32768, z: 32768 } },
    });
    proof {
        assert(world.spheres@[base - 1] == ground);
    }
    let mut a: i64 = -11;
    while a < 11
        invariant
            world.wf(),
            base >= 1,
            base + (a + 11) * 22 - excludable_before_col(a as int) <= world.spheres@.len(),
            world.spheres@.len() <= base + (a + 11) * 22,
            world.spheres@[base - 1] == ground,
            forall|i: int|
                base <= i < world.spheres@.len() ==> showcase_sphere(
                    #[trigger] world.spheres@[i]),
            -11 <= a <= 11,
        decreases 11 - a,
    {
        let mut b: i64 = -11;
        while b < 11
            invariant
                world.wf(),
                base >= 1,
                base + (a + 11) * 22 + (b + 11) - excludable_before(a as int, b as int)
                    <= world.spheres@.len(),
                world.spheres@.len() <= base + (a + 11) * 22 + (b + 11),
                world.spheres@[base - 1] == ground,
                forall|i: int|
                    base <= i < world.spheres@.len() ==> showcase_sphere(
                        #[trigger] world.spheres@[i]),
                -11 <= a < 11,
                -11 <= b <= 11,
            decreases 11 - b,
        {
            let ra = rng.gen_range_i64(0, ONE);
            let rb = rng.gen_range_i64(0, ONE);
            proof {
                assert(0 <= ra * 9 <= 58982 * 10 && 0 <= rb * 9 <= 58982 * 10)
                    by (nonlinear_arith)
                    requires 0 <= ra < ONE as int, 0 <= rb < ONE as int, ONE == 65536;
                lemma_tdiv_le(ra * 9, 10, 58982);
                lemma_tdiv_le(rb * 9, 10, 58982);
                vstd::arithmetic::div_mod::lemma_div_pos_is_pos(ra * 9, 10);
                vstd::arithmetic::div_mod::lemma_div_pos_is_pos(rb * 9, 10);
            }
            let cx = a * ONE + tdiv64(ra * 9, 10);
            let cz = b * ONE + tdiv64(rb * 9, 10);
            let center = Vec3::new(cx, 13107, cz);
            let diff = center.sub(Vec3::new(4 * ONE, 13107, 0));
            let dist = diff.length();
            if dist > 58982 {
                let material = showcase_material(rng);
                world.push(Sphere::new(center, 13107, material));
                proof {
                    assert(excludable_before(a as int, b + 1) >= excludable_before(a as int,
                        b as int));
                }
            } else {
                proof {
                    assert(diff.y * diff.y >= 0 && diff.z * diff.z >= 0 && diff.x * diff.x >= 0)
                        by (nonlinear_arith);
                    crate::vec3::lemma_component_le_sqrt(diff.x as int, crate::vec3::sq_s(diff),
                        dist as int);
                    crate::vec3::lemma_component_le_sqrt(diff.z as int, crate::vec3::sq_s(diff),
                        dist as int);
                    assert(-58982 <= diff.x <= 58982);
                    assert(-58982 <= diff.z <= 58982);
                    assert(3 <= a <= 4);
                    assert(-1 <= b <= 0);
                    assert(excludable_before(a as int, b + 1) == excludable_before(a as int,
                        b as int) + 1);
                }
            }
            b = b + 1;
        }
        proof {
            assert((a + 11) * 22 + 22 == ((a + 1) + 11) * 22) by (nonlinear_arith);
            assert(excludable_before(a as int, 11) == excludable_before_col(a + 1));
        }
        a = a + 1;
    }
    proof {
        assert((11int + 11) * 22 == 484) by (nonlinear_arith);
    }
    world.push(Sphere::new(Vec3::new(0, ONE, 0), ONE, Material::Dielectric { ref_idx: 98304 }));
    world.push(Sphere::new(Vec3::new(-4 * ONE, ONE, 0), ONE, Material::Lambertian {
        albedo: Vec3::new(26214, 13107, 6554),
    }));
    world.push(Sphere::new(Vec3::new(4 * ONE, ONE, 0), ONE, Material::Metal {
        albedo: Vec3::new(45875, 39322, 32768),
        fuzz: 0,
    }));
}

} // verus!
