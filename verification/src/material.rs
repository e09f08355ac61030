//! Materials: the tagged scattering behaviours a sphere can carry, and the
//! Schlick reflectance used by glass. The scattering function itself lives
//! here too, once the hit record type is in scope.

use vstd::prelude::*;
use crate::fixed::{tdiv, ONE, mul64, scale_down, lemma_tdiv_le, tdiv64};
use crate::vec3::{
    Vec3, bounded, sq_s, dot_s, dot, unit_vector, unit_v, neg_v, reflect, reflect_sx, reflect_sy,
    reflect_sz, refract, refract_disc, refract_cx, refract_cy, refract_cz, random_in_unit_sphere,
};
use crate::ray::{Ray, ray_wf};
use crate::hitable::{HitRecord, rec_wf};
use crate::rng::RngStream;

verus! {

#[derive(Clone, Copy, Debug, PartialEq, Eq, Structural)]
pub enum Material {
    Lambertian { albedo: Vec3 },
    Metal { albedo: Vec3, fuzz: i64 },
    Dielectric { ref_idx: i64 },
}

/// Colors are fixed-point channels in [0, 1]; fuzz is in [0, 1]; a
/// refraction index is at least 1 and within a sane physical range.
pub open spec fn mat_wf(m: Material) -> bool {
    match m {
        Material::Lambertian { albedo } => color_wf(albedo),
        Material::Metal { albedo, fuzz } => color_wf(albedo) && 0 <= fuzz <= ONE,
        Material::Dielectric { ref_idx } => ONE <= ref_idx <= 16 * (ONE as int),
    }
}

/// Each channel within [0, ONE].
pub open spec fn color_wf(c: Vec3) -> bool {
    &&& 0 <= c.x <= ONE
    &&& 0 <= c.y <= ONE
    &&& 0 <= c.z <= ONE
}

/// The Schlick reflectance `r0 + (1 - r0) * (1 - cosine)^5` with
/// `r0 = ((1 - n) / (1 + n))^2`, each step truncated at scale ONE.
pub open spec fn schlick_s(cosine: int, ref_idx: int) -> int {
    let q = tdiv((ONE - ref_idx) * ONE, ONE + ref_idx);
    let r0 = tdiv(q * q, ONE as int);
    let p1 = ONE - cosine;
    let p2 = tdiv(p1 * p1, ONE as int);
    let p4 = tdiv(p2 * p2, ONE as int);
    let p5 = tdiv(p4 * p1, ONE as int);
    r0 + tdiv((ONE - r0) * p5, ONE as int)
}

/// The Schlick reflectance, scale ONE.
pub fn schlick(cosine: i64, ref_idx: i64) -> (r: i64)
    requires
        -2 * (ONE as int) <= cosine <= 2 * (ONE as int),
        1 <= ref_idx <= 16 * (ONE as int),
    ensures
        r == schlick_s(cosine as int, ref_idx as int),
{
    let q = tdiv64((ONE - ref_idx) * ONE, ONE + ref_idx);
    proof {
        lemma_abs_q_le_one(ref_idx as int);
        assert(0 <= q * q <= (ONE as int) * (ONE as int)) by (nonlinear_arith)
            requires -(ONE as int) <= q <= ONE as int;
        assert((ONE as int) * (ONE as int) == (ONE as int) * (ONE as int));
    }
    let r0 = scale_down(mul64(q, q), ONE);
    proof {
        assert(r0 >= 0) by {
            vstd::arithmetic::div_mod::lemma_div_pos_is_pos(q * q, ONE as int);
        }
    }
    let p1: i64 = ONE - cosine;
    proof {
        assert(-((9 * (ONE as int)) * (ONE as int)) <= p1 * p1
            <= (9 * (ONE as int)) * (ONE as int)) by (nonlinear_arith)
            requires -3 * (ONE as int) <= p1 <= 3 * (ONE as int), ONE == 65536;
    }
    let p2 = scale_down(mul64(p1, p1), 9 * ONE);
    proof {
        assert(-(9 * (ONE as int)) * (9 * (ONE as int)) <= p2 * p2
            <= (9 * (ONE as int)) * (9 * (ONE as int))) by (nonlinear_arith)
            requires -(9 * (ONE as int)) <= p2 <= 9 * (ONE as int);
        assert((9 * (ONE as int)) * (9 * (ONE as int)) == (81 * (ONE as int)) * (ONE as int))
            by (nonlinear_arith);
    }
    let p4 = scale_down(mul64(p2, p2), 81 * ONE);
    proof {
        assert(-(81 * (ONE as int)) * (3 * (ONE as int)) <= p4 * p1
            <= (81 * (ONE as int)) * (3 * (ONE as int))) by (nonlinear_arith)
            requires
                -(81 * (ONE as int)) <= p4 <= 81 * (ONE as int),
                -3 * (ONE as int) <= p1 <= 3 * (ONE as int);
        assert((81 * (ONE as int)) * (3 * (ONE as int)) == (243 * (ONE as int)) * (ONE as int))
            by (nonlinear_arith);
    }
    let p5 = scale_down(mul64(p4, p1), 243 * ONE);
    let w: i64 = ONE - r0;
    proof {
        assert(-(2 * (ONE as int)) * (243 * (ONE as int)) <= w * p5
            <= (2 * (ONE as int)) * (243 * (ONE as int))) by (nonlinear_arith)
            requires
                -2 * (ONE as int) <= w <= 2 * (ONE as int),
                -(243 * (ONE as int)) <= p5 <= 243 * (ONE as int);
        assert((2 * (ONE as int)) * (243 * (ONE as int)) == (486 * (ONE as int)) * (ONE as int))
            by (nonlinear_arith);
    }
    let tail = scale_down(mul64(w, p5), 486 * ONE);
    r0 + tail
}

/// The first Schlick factor stays within [-1, 1] for an index >= 1.
proof fn lemma_abs_q_le_one(ref_idx: int)
    requires
        1 <= ref_idx <= 16 * (ONE as int),
    ensures
        -(ONE as int) <= tdiv((ONE - ref_idx) * ONE, ONE + ref_idx) <= ONE as int,
{
    assert(-((ONE as int) * (ONE + ref_idx)) <= (ONE - ref_idx) * ONE
        <= (ONE as int) * (ONE + ref_idx)) by (nonlinear_arith)
        requires ONE == 65536, 1 <= ref_idx;
    lemma_tdiv_le((ONE - ref_idx) * ONE, ONE + ref_idx, ONE as int);
}

/// At a grazing angle (cosine 0) the Schlick reflectance is exactly 1,
/// whatever the refraction index.
pub proof fn lemma_schlick_grazing(ref_idx: int)
    requires
        1 <= ref_idx <= 16 * (ONE as int),
    ensures
        schlick_s(0, ref_idx) == ONE,
{
    lemma_abs_q_le_one(ref_idx);
    let q = tdiv((ONE - ref_idx) * ONE, ONE + ref_idx);
    let r0 = tdiv(q * q, ONE as int);
    assert(0 <= q * q <= (ONE as int) * (ONE as int)) by (nonlinear_arith)
        requires -(ONE as int) <= q <= ONE as int;
    assert(0 <= r0 <= ONE) by {
        vstd::arithmetic::div_mod::lemma_div_pos_is_pos(q * q, ONE as int);
        lemma_tdiv_le(q * q, ONE as int, ONE as int);
        assert((ONE as int) * (ONE as int) == (ONE as int) * (ONE as int));
    }
    assert(tdiv((ONE as int) * (ONE as int), ONE as int) == ONE) by {
        vstd::arithmetic::div_mod::lemma_div_by_multiple(ONE as int, ONE as int);
    }
    assert((ONE - r0) * ONE >= 0) by (nonlinear_arith)
        requires r0 <= ONE, ONE == 65536;
    assert(tdiv((ONE - r0) * ONE, ONE as int) == ONE - r0) by {
        vstd::arithmetic::div_mod::lemma_div_by_multiple(ONE - r0, ONE as int);
    }
    assert(schlick_s(0, ref_idx) == r0 + (ONE - r0));
}

/// Head on into a medium of matching index, nothing is reflected.
pub proof fn lemma_schlick_head_on_matched()
    ensures
        schlick_s(ONE as int, ONE as int) == 0,
{
    vstd::arithmetic::div_mod::lemma_div_of0(2 * (ONE as int));
    vstd::arithmetic::div_mod::lemma_div_of0(ONE as int);
    assert((ONE - ONE) * ONE == 0) by (nonlinear_arith);
    let q = tdiv((ONE - ONE) * ONE, ONE + ONE);
    assert(q == 0);
    assert(q * q == 0) by (nonlinear_arith)
        requires q == 0;
    let r0 = tdiv(q * q, ONE as int);
    assert(r0 == 0);
    let p1 = ONE - (ONE as int);
    assert(p1 == 0);
    assert(p1 * p1 == 0) by (nonlinear_arith)
        requires p1 == 0;
    let p2 = tdiv(p1 * p1, ONE as int);
    assert(p2 == 0);
    assert(p2 * p2 == 0) by (nonlinear_arith)
        requires p2 == 0;
    let p4 = tdiv(p2 * p2, ONE as int);
    assert(p4 == 0);
    assert(p4 * p1 == 0) by (nonlinear_arith)
        requires p4 == 0;
    let p5 = tdiv(p4 * p1, ONE as int);
    assert(p5 == 0);
    assert((ONE - r0) * p5 == 0) by (nonlinear_arith)
        requires p5 == 0;
    assert(tdiv((ONE - r0) * p5, ONE as int) == 0);
}

/// One component of a metal bounce: the rescaled reflection of the
/// normalized incoming direction, plus the fuzz offset.
pub open spec fn metal_dir_x(dir: Vec3, n: Vec3, fuzz: i64, rv: Vec3) -> int {
    tdiv(reflect_sx(unit_v(dir), n), (ONE as int) * (ONE as int)) + tdiv(rv.x * fuzz, ONE as int)
}

pub open spec fn metal_dir_y(dir: Vec3, n: Vec3, fuzz: i64, rv: Vec3) -> int {
    tdiv(reflect_sy(unit_v(dir), n), (ONE as int) * (ONE as int)) + tdiv(rv.y * fuzz, ONE as int)
}

pub open spec fn metal_dir_z(dir: Vec3, n: Vec3, fuzz: i64, rv: Vec3) -> int {
    tdiv(reflect_sz(unit_v(dir), n), (ONE as int) * (ONE as int)) + tdiv(rv.z * fuzz, ONE as int)
}

/// One component of a mirror bounce: the rescaled reflection alone.
pub open spec fn refl_dir_x(dir: Vec3, n: Vec3) -> int {
    tdiv(reflect_sx(unit_v(dir), n), (ONE as int) * (ONE as int))
}

pub open spec fn refl_dir_y(dir: Vec3, n: Vec3) -> int {
    tdiv(reflect_sy(unit_v(dir), n), (ONE as int) * (ONE as int))
}

pub open spec fn refl_dir_z(dir: Vec3, n: Vec3) -> int {
    tdiv(reflect_sz(unit_v(dir), n), (ONE as int) * (ONE as int))
}

/// The index ratio used by glass: the index itself on exit along the
/// normal, its reciprocal on entry against it.
pub open spec fn diel_ratio(entering: bool, ref_idx: int) -> int {
    if entering {
        ref_idx
    } else {
        tdiv((ONE as int) * (ONE as int), ref_idx)
    }
}

/// Scatters an incoming ray at a hit. Writes the attenuation and the
/// scattered ray, and says whether the ray survives:
/// - diffuse: always survives; the bounce leaves from the hit point toward
///   `normal + rv` for some vector `rv` inside the unit ball;
/// - metal: the normalized direction is reflected and fuzzed by
///   `fuzz * rv`; the ray survives exactly when the result leaves the
///   surface (`dot(direction, normal) > 0`);
/// - glass: always survives with no attenuation; the working normal and
///   index ratio follow the side the ray meets; the outgoing direction is
///   the refraction when the discriminant admits one (the reflection may
///   still be chosen, by the Schlick probability), and the reflection on
///   total internal reflection.
pub fn scatter(
    r_in: &Ray,
    rec: &HitRecord,
    attenuation: &mut Vec3,
    scattered: &mut Ray,
    rng: &mut RngStream,
) -> (res: bool)
    requires
        ray_wf(*r_in),
        rec_wf(*rec),
    ensures
        final(scattered).origin == rec.p,
        bounded(final(scattered).direction, 0x2000_0000),
        match rec.material {
            Material::Lambertian { albedo } => {
                &&& res
                &&& *final(attenuation) == albedo
                &&& (exists|rv: Vec3|
                    {
                        &&& #[trigger] sq_s(rv) < ONE * ONE
                        &&& bounded(rv, ONE as int)
                        &&& final(scattered).direction.x == rec.normal.x + rv.x
                        &&& final(scattered).direction.y == rec.normal.y + rv.y
                        &&& final(scattered).direction.z == rec.normal.z + rv.z
                    })
            },
            Material::Metal { albedo, fuzz } => {
                &&& *final(attenuation) == albedo
                &&& res == (dot_s(final(scattered).direction, rec.normal) > 0)
                &&& (exists|rv: Vec3|
                    {
                        &&& #[trigger] sq_s(rv) < ONE * ONE
                        &&& bounded(rv, ONE as int)
                        &&& final(scattered).direction.x == metal_dir_x(r_in.direction,
                            rec.normal, fuzz, rv)
                        &&& final(scattered).direction.y == metal_dir_y(r_in.direction,
                            rec.normal, fuzz, rv)
                        &&& final(scattered).direction.z == metal_dir_z(r_in.direction,
                            rec.normal, fuzz, rv)
                    })
            },
            Material::Dielectric { ref_idx } => {
                &&& res
                &&& *final(attenuation) == (Vec3 { x: ONE, y: ONE, z: ONE })
                &&& ({
                    let entering = dot_s(r_in.direction, rec.normal) > 0;
                    let on = if entering {
                        neg_v(rec.normal)
                    } else {
                        rec.normal
                    };
                    let ni = diel_ratio(entering, ref_idx as int);
                    let d = final(scattered).direction;
                    let refl = (d.x == refl_dir_x(r_in.direction, rec.normal) && d.y
                        == refl_dir_y(r_in.direction, rec.normal) && d.z == refl_dir_z(
                        r_in.direction, rec.normal));
                    let refr = (d.x == refract_cx(r_in.direction, on, ni) && d.y == refract_cy(
                        r_in.direction, on, ni) && d.z == refract_cz(r_in.direction, on, ni));
                    if refract_disc(r_in.direction, on, ni) > 0 {
                        refr || refl
                    } else {
                        refl
                    }
                })
            },
        },
{
    match rec.material {
        Material::Lambertian { albedo } => {
            let rv = random_in_unit_sphere(rng);
            let target = rec.p.add(rec.normal).add(rv);
            *attenuation = albedo;
            *scattered = Ray::new(rec.p, target.sub(rec.p));
            proof {
                assert(sq_s(rv) < ONE * ONE && bounded(rv, ONE as int)
                    && final(scattered).direction.x == rec.normal.x + rv.x
                    && final(scattered).direction.y == rec.normal.y + rv.y
                    && final(scattered).direction.z == rec.normal.z + rv.z);
            }
            true
        },
        Material::Metal { albedo, fuzz } => {
            let uv = unit_vector(r_in.direction);
            let rfl = reflect(&uv, &rec.normal);
            let base = Vec3 {
                x: tdiv64(rfl.x, ONE * ONE),
                y: tdiv64(rfl.y, ONE * ONE),
                z: tdiv64(rfl.z, ONE * ONE),
            };
            proof {
                lemma_tdiv_le(rfl.x as int, (ONE as int) * (ONE as int), 0x200_0000_0000_0000);
                lemma_tdiv_le(rfl.y as int, (ONE as int) * (ONE as int), 0x200_0000_0000_0000);
                lemma_tdiv_le(rfl.z as int, (ONE as int) * (ONE as int), 0x200_0000_0000_0000);
                assert(0x200_0000_0000_0000i128 * ((ONE as int) * (ONE as int))
                    >= 0x200_0000_0000_0000) by (nonlinear_arith)
                    requires ONE == 65536;
            }
            let rv = random_in_unit_sphere(rng);
            let fz = rv.scale(fuzz);
            proof {
                assert(-(ONE as int) * (ONE as int) <= rv.x * fuzz <= (ONE as int) * (ONE as int)
                    && -(ONE as int) * (ONE as int) <= rv.y * fuzz <= (ONE as int) * (ONE as int)
                    && -(ONE as int) * (ONE as int) <= rv.z * fuzz <= (ONE as int) * (ONE as int))
                    by (nonlinear_arith)
                    requires
                        -(ONE as int) <= rv.x <= ONE as int,
                        -(ONE as int) <= rv.y <= ONE as int,
                        -(ONE as int) <= rv.z <= ONE as int,
                        0 <= fuzz <= ONE as int;
                lemma_tdiv_le(rv.x * fuzz, ONE as int, ONE as int);
                lemma_tdiv_le(rv.y * fuzz, ONE as int, ONE as int);
                lemma_tdiv_le(rv.z * fuzz, ONE as int, ONE as int);
            }
            let dir = base.add(fz);
            *attenuation = albedo;
            *scattered = Ray::new(rec.p, dir);
            let dd = dot(&dir, &rec.normal);
            proof {
                assert(sq_s(rv) < ONE * ONE && bounded(rv, ONE as int)
                    && final(scattered).direction.x == metal_dir_x(r_in.direction, rec.normal,
                    fuzz, rv) && final(scattered).direction.y == metal_dir_y(r_in.direction,
                    rec.normal, fuzz, rv) && final(scattered).direction.z == metal_dir_z(
                    r_in.direction, rec.normal, fuzz, rv));
            }
            dd > 0
        },
        Material::Dielectric { ref_idx } => {
            let ddn = dot(&r_in.direction, &rec.normal);
            proof {
                crate::vec3::lemma_dot_bound(r_in.direction, rec.normal, 0x2000_0000,
                    4 * (ONE as int));
                assert(3 * 0x2000_0000 * (4 * (ONE as int)) == 0x1_8000_0000_0000)
                    by (nonlinear_arith)
                    requires ONE == 65536;
            }
            let entering = ddn > 0;
            let outward = if entering {
                rec.normal.neg()
            } else {
                rec.normal
            };
            proof {
                if entering {
                    assert(outward == neg_v(rec.normal));
                }
            }
            let ni = if entering {
                ref_idx
            } else {
                let inv = tdiv64(ONE * ONE, ref_idx);
                proof {
                    vstd::arithmetic::div_mod::lemma_div_is_ordered(ref_idx as int,
                        (ONE as int) * (ONE as int), ref_idx as int);
                    vstd::arithmetic::div_mod::lemma_div_by_self(ref_idx as int);
                    vstd::arithmetic::div_mod::lemma_div_is_ordered_by_denominator(
                        (ONE as int) * (ONE as int), ONE as int, ref_idx as int);
                    vstd::arithmetic::div_mod::lemma_div_by_multiple(ONE as int, ONE as int);
                    assert((ONE as int) * (ONE as int) / (ONE as int) == ONE);
                }
                inv
            };
            proof {
                assert(ni == diel_ratio(entering, ref_idx as int));
                assert(0 < ni <= 16 * (ONE as int));
            }
            let len = r_in.direction.length();
            proof {
                assert(len >= 1) by {
                    if len == 0 {
                        assert((len as int + 1) * (len as int + 1) == 1) by (nonlinear_arith)
                            requires len == 0;
                    }
                }
            }
            proof {
                assert(0x1_8000_0000_0000i128 <= 0x1_8000_0000_0000i128 * (len as int))
                    by (nonlinear_arith)
                    requires len >= 1;
                crate::fixed::lemma_tdiv_le(ddn as int, len as int, 0x1_8000_0000_0000);
            }
            let dq = tdiv64(ddn, len);
            let cos_raw = if entering {
                proof {
                    assert(-(0x18_0000_0000_0000i128 * (ONE as int)) <= dq * ref_idx
                        <= 0x18_0000_0000_0000i128 * (ONE as int)) by (nonlinear_arith)
                        requires
                            -0x1_8000_0000_0000 <= dq <= 0x1_8000_0000_0000,
                            0 < ref_idx <= 0x10_0000,
                            ONE == 65536;
                }
                scale_down(mul64(dq, ref_idx), 0x18_0000_0000_0000)
            } else {
                -dq
            };
            let cosine = if cos_raw > ONE {
                ONE
            } else if cos_raw < -ONE {
                -ONE
            } else {
                cos_raw
            };
            let mut refracted = Vec3 { x: 0, y: 0, z: 0 };
            let did_refract = refract(&r_in.direction, &outward, ni, &mut refracted);
            let reflect_prob = if did_refract {
                schlick(cosine, ref_idx)
            } else {
                ONE
            };
            let uv = unit_vector(r_in.direction);
            let rfl = reflect(&uv, &rec.normal);
            let base = Vec3 {
                x: tdiv64(rfl.x, ONE * ONE),
                y: tdiv64(rfl.y, ONE * ONE),
                z: tdiv64(rfl.z, ONE * ONE),
            };
            proof {
                lemma_tdiv_le(rfl.x as int, (ONE as int) * (ONE as int), 0x200_0000_0000_0000);
                lemma_tdiv_le(rfl.y as int, (ONE as int) * (ONE as int), 0x200_0000_0000_0000);
                lemma_tdiv_le(rfl.z as int, (ONE as int) * (ONE as int), 0x200_0000_0000_0000);
                assert(0x200_0000_0000_0000i128 * ((ONE as int) * (ONE as int))
                    >= 0x200_0000_0000_0000) by (nonlinear_arith)
                    requires ONE == 65536;
            }
            *attenuation = Vec3 { x: ONE, y: ONE, z: ONE };
            let draw = rng.gen_range_i64(0, ONE);
            if draw < reflect_prob {
                *scattered = Ray::new(rec.p, base);
            } else {
                *scattered = Ray::new(rec.p, refracted);
            }
            true
        },
    }
}

/// With zero fuzz the metal bounce is exactly the mirror reflection:
/// the fuzz offset vanishes for every drawn vector.
pub proof fn lemma_mirror_metal_dir(dir: Vec3, n: Vec3, rv: Vec3)
    ensures
        metal_dir_x(dir, n, 0, rv) == refl_dir_x(dir, n),
        metal_dir_y(dir, n, 0, rv) == refl_dir_y(dir, n),
        metal_dir_z(dir, n, 0, rv) == refl_dir_z(dir, n),
{
    assert(rv.x * 0 == 0 && rv.y * 0 == 0 && rv.z * 0 == 0) by (nonlinear_arith);
    vstd::arithmetic::div_mod::lemma_div_of0(ONE as int);
}

/// A perfect mirror never absorbs a ray that arrives distinctly on the
/// normal's side: for an exactly unit normal and an incidence cosine of
/// at most -3*2^-16 - 3*2^-32, the reflected direction leaves the
/// surface, `dot(direction, normal) > 0`. (Right at grazing the
/// truncation of the rescale can flip the sign, hence the margin.)
pub proof fn lemma_mirror_survives(dir: Vec3, n: Vec3)
    requires
        crate::vec3::bounded(dir, 0x4000_0000),
        sq_s(dir) > 0,
        crate::vec3::sq_s(n) == ONE * ONE,
        crate::vec3::udot(dir, n) <= -3 * (ONE as int) - 3,
    ensures
        refl_dir_x(dir, n) * n.x + refl_dir_y(dir, n) * n.y + refl_dir_z(dir, n) * n.z > 0,
{
    crate::vec3::lemma_unit_components_bounded(dir);
    let uv = unit_v(dir);
    let d = dot_s(uv, n);
    assert(d == crate::vec3::udot(dir, n));
    assert(-(ONE as int) <= n.x <= ONE as int && -(ONE as int) <= n.y <= ONE as int
        && -(ONE as int) <= n.z <= ONE as int) by (nonlinear_arith)
        requires n.x * n.x + n.y * n.y + n.z * n.z == (ONE as int) * (ONE as int), ONE == 65536;
    let s2 = (ONE as int) * (ONE as int);
    assert(s2 > 0) by (nonlinear_arith)
        requires s2 == (ONE as int) * (ONE as int), ONE == 65536;
    let rx = reflect_sx(uv, n);
    let ry = reflect_sy(uv, n);
    let rz = reflect_sz(uv, n);
    crate::vec3::lemma_reflect_unit_dot(uv, n);
    assert(rx * n.x + ry * n.y + rz * n.z == -d * s2);
    crate::fixed::lemma_tdiv_err(rx, s2);
    crate::fixed::lemma_tdiv_err(ry, s2);
    crate::fixed::lemma_tdiv_err(rz, s2);
    let tx = tdiv(rx, s2);
    let ty = tdiv(ry, s2);
    let tz = tdiv(rz, s2);
    lemma_err_term(rx, tx, n.x as int, s2);
    lemma_err_term(ry, ty, n.y as int, s2);
    lemma_err_term(rz, tz, n.z as int, s2);
    assert((tx * n.x) * s2 == (tx * s2) * n.x) by (nonlinear_arith);
    assert((ty * n.y) * s2 == (ty * s2) * n.y) by (nonlinear_arith);
    assert((tz * n.z) * s2 == (tz * s2) * n.z) by (nonlinear_arith);
    assert((tx * n.x + ty * n.y + tz * n.z) * s2 == (tx * n.x) * s2 + (ty * n.y) * s2 + (tz
        * n.z) * s2) by (nonlinear_arith);
    assert((tx * s2) * n.x + (ty * s2) * n.y + (tz * s2) * n.z >= rx * n.x + ry * n.y + rz * n.z
        - 3 * (s2 * (ONE as int)));
    assert(-d * s2 - 3 * (s2 * (ONE as int)) == s2 * (-d - 3 * (ONE as int))) by (nonlinear_arith);
    assert(s2 * (-d - 3 * (ONE as int)) >= s2 * 3) by (nonlinear_arith)
        requires -d - 3 * (ONE as int) >= 3, s2 > 0;
    assert(tx * n.x + ty * n.y + tz * n.z > 0) by (nonlinear_arith)
        requires
            (tx * n.x + ty * n.y + tz * n.z) * s2 >= s2 * 3,
            s2 > 0;
}

/// One term of the rescale error: `(t*s2)*c` stays within `s2*ONE` of
/// `r*c` when `t` is the truncated quotient and `|c| <= ONE`.
proof fn lemma_err_term(r: int, t: int, c: int, s2: int)
    requires
        s2 == (ONE as int) * (ONE as int),
        r >= 0 ==> r - s2 < t * s2 <= r,
        r < 0 ==> r <= t * s2 < r + s2,
        -(ONE as int) <= c <= ONE as int,
    ensures
        (t * s2) * c >= r * c - s2 * (ONE as int),
{
    let e = t * s2 - r;
    assert(-s2 < e && e <= s2) by {
        if r >= 0 {
        } else {
        }
    }
    assert((t * s2) * c == r * c + e * c) by (nonlinear_arith)
        requires t * s2 == r + e;
    assert(e * c >= -(s2 * (ONE as int))) by (nonlinear_arith)
        requires
            -s2 < e <= s2,
            -(ONE as int) <= c <= ONE as int,
            s2 == (ONE as int) * (ONE as int);
}

/// The Schlick reflectance falls as the incidence cosine rises: on
/// [0, 1] the truncated formula is monotonically decreasing, so driving
/// the cosine toward 0 drives the reflectance up toward its grazing
/// value of exactly 1.
pub proof fn lemma_schlick_monotone(c1: int, c2: int, ref_idx: int)
    requires
        0 <= c1 <= c2 <= ONE,
        1 <= ref_idx <= 16 * (ONE as int),
    ensures
        schlick_s(c2, ref_idx) <= schlick_s(c1, ref_idx),
{
    lemma_abs_q_le_one(ref_idx);
    let q = tdiv((ONE - ref_idx) * ONE, ONE + ref_idx);
    let r0 = tdiv(q * q, ONE as int);
    assert(0 <= q * q <= (ONE as int) * (ONE as int)) by (nonlinear_arith)
        requires -(ONE as int) <= q <= ONE as int;
    vstd::arithmetic::div_mod::lemma_div_pos_is_pos(q * q, ONE as int);
    lemma_tdiv_le(q * q, ONE as int, ONE as int);
    let p1a = ONE - c1;
    let p1b = ONE - c2;
    assert(0 <= p1b <= p1a <= ONE);
    assert(0 <= p1b * p1b <= p1a * p1a) by (nonlinear_arith)
        requires 0 <= p1b <= p1a;
    crate::fixed::lemma_tdiv_mono(p1b * p1b, p1a * p1a, ONE as int);
    vstd::arithmetic::div_mod::lemma_div_pos_is_pos(p1b * p1b, ONE as int);
    let p2a = tdiv(p1a * p1a, ONE as int);
    let p2b = tdiv(p1b * p1b, ONE as int);
    assert(0 <= p2b <= p2a);
    assert(0 <= p2b * p2b <= p2a * p2a) by (nonlinear_arith)
        requires 0 <= p2b <= p2a;
    crate::fixed::lemma_tdiv_mono(p2b * p2b, p2a * p2a, ONE as int);
    vstd::arithmetic::div_mod::lemma_div_pos_is_pos(p2b * p2b, ONE as int);
    let p4a = tdiv(p2a * p2a, ONE as int);
    let p4b = tdiv(p2b * p2b, ONE as int);
    assert(0 <= p4b <= p4a);
    assert(0 <= p4b * p1b <= p4a * p1a) by (nonlinear_arith)
        requires 0 <= p4b <= p4a, 0 <= p1b <= p1a;
    crate::fixed::lemma_tdiv_mono(p4b * p1b, p4a * p1a, ONE as int);
    vstd::arithmetic::div_mod::lemma_div_pos_is_pos(p4b * p1b, ONE as int);
    let p5a = tdiv(p4a * p1a, ONE as int);
    let p5b = tdiv(p4b * p1b, ONE as int);
    assert(0 <= p5b <= p5a);
    assert((ONE - r0) * p5b <= (ONE - r0) * p5a) by (nonlinear_arith)
        requires 0 <= p5b <= p5a, r0 <= ONE;
    crate::fixed::lemma_tdiv_mono((ONE - r0) * p5b, (ONE - r0) * p5a, ONE as int);
}

} // verus!
