//! Spheres, and their exact quadratic intersection.
//!
//! A ray hits the sphere where `a*t^2 + 2*b*t + c = 0`, with `a = d.d`,
//! `b = oc.d`, `c = oc.oc - radius^2` and `oc = origin - center`. The roots
//! are computed in fixed point with a floor square root and truncating
//! division; the contract states the result of exactly that arithmetic.
//! A root is accepted only when it lies in the query window and the derived
//! point and normal are representable (the guard against numeric
//! degeneracy); the normal is `(point - center) / radius`, so a negative
//! radius yields the inward-facing shell used for hollow glass.

use vstd::prelude::*;
use crate::fixed::{tdiv, sqrt_s, ONE, mul64, mul128, tdiv128, tdiv128_any, isqrt128};
use crate::vec3::{Vec3, bounded, sq_s, dot};
use crate::ray::{Ray, ray_wf};
use crate::material::{Material, mat_wf};
use crate::hitable::{Hitable, HitRecord, rec_wf};

verus! {

#[derive(Clone, Copy, Debug)]
pub struct Sphere {
    pub center: Vec3,
    pub radius: i64,
    pub material: Material,
}

/// The quadratic coefficient `dot(d, d)`.
pub open spec fn sph_a(s: Sphere, r: Ray) -> int {
    sq_s(r.direction)
}

/// The half coefficient `dot(oc, d)`.
pub open spec fn sph_b(s: Sphere, r: Ray) -> int {
    (r.origin.x - s.center.x) * r.direction.x + (r.origin.y - s.center.y) * r.direction.y
        + (r.origin.z - s.center.z) * r.direction.z
}

/// The constant coefficient `dot(oc, oc) - radius^2`.
pub open spec fn sph_c(s: Sphere, r: Ray) -> int {
    (r.origin.x - s.center.x) * (r.origin.x - s.center.x)
        + (r.origin.y - s.center.y) * (r.origin.y - s.center.y)
        + (r.origin.z - s.center.z) * (r.origin.z - s.center.z)
        - s.radius * s.radius
}

/// The reduced discriminant `b^2 - a*c`, scale ONE^4.
pub open spec fn sph_disc(s: Sphere, r: Ray) -> int {
    sph_b(s, r) * sph_b(s, r) - sph_a(s, r) * sph_c(s, r)
}

/// The smaller root `(-b - sqrt(disc)) / a`, scale ONE.
pub open spec fn sph_t1(s: Sphere, r: Ray) -> int {
    tdiv((-sph_b(s, r) - sqrt_s(sph_disc(s, r))) * ONE, sph_a(s, r))
}

/// The larger root `(-b + sqrt(disc)) / a`, scale ONE.
pub open spec fn sph_t2(s: Sphere, r: Ray) -> int {
    tdiv((-sph_b(s, r) + sqrt_s(sph_disc(s, r))) * ONE, sph_a(s, r))
}

/// Components of the hit point `origin + t * d`.
pub open spec fn sph_px(s: Sphere, r: Ray, t: int) -> int {
    r.origin.x + tdiv(r.direction.x * t, ONE as int)
}

pub open spec fn sph_py(s: Sphere, r: Ray, t: int) -> int {
    r.origin.y + tdiv(r.direction.y * t, ONE as int)
}

pub open spec fn sph_pz(s: Sphere, r: Ray, t: int) -> int {
    r.origin.z + tdiv(r.direction.z * t, ONE as int)
}

/// Components of the outward normal `(p - center) / radius`.
pub open spec fn sph_nx(s: Sphere, r: Ray, t: int) -> int {
    tdiv((sph_px(s, r, t) - s.center.x) * ONE, s.radius as int)
}

pub open spec fn sph_ny(s: Sphere, r: Ray, t: int) -> int {
    tdiv((sph_py(s, r, t) - s.center.y) * ONE, s.radius as int)
}

pub open spec fn sph_nz(s: Sphere, r: Ray, t: int) -> int {
    tdiv((sph_pz(s, r, t) - s.center.z) * ONE, s.radius as int)
}

/// The derived record is representable: point within the coordinate range,
/// normal within four units. A root failing this is treated as degenerate
/// and rejected rather than aborting the render.
pub open spec fn sph_rec_ok(s: Sphere, r: Ray, t: int) -> bool {
    &&& -0x2000_0000 <= sph_px(s, r, t) <= 0x2000_0000
    &&& -0x2000_0000 <= sph_py(s, r, t) <= 0x2000_0000
    &&& -0x2000_0000 <= sph_pz(s, r, t) <= 0x2000_0000
    &&& -4 * (ONE as int) <= sph_nx(s, r, t) <= 4 * (ONE as int)
    &&& -4 * (ONE as int) <= sph_ny(s, r, t) <= 4 * (ONE as int)
    &&& -4 * (ONE as int) <= sph_nz(s, r, t) <= 4 * (ONE as int)
}

/// A root is accepted when it lies strictly inside the query window and
/// its record is representable.
pub open spec fn sph_accept(s: Sphere, r: Ray, t_min: int, t_max: int, t: int) -> bool {
    t_min < t < t_max && sph_rec_ok(s, r, t)
}

/// The record an accepted root yields.
pub open spec fn sph_make_rec(s: Sphere, r: Ray, t: int) -> HitRecord {
    HitRecord {
        t: t as i64,
        p: Vec3 {
            x: sph_px(s, r, t) as i64,
            y: sph_py(s, r, t) as i64,
            z: sph_pz(s, r, t) as i64,
        },
        normal: Vec3 {
            x: sph_nx(s, r, t) as i64,
            y: sph_ny(s, r, t) as i64,
            z: sph_nz(s, r, t) as i64,
        },
        material: s.material,
    }
}

/// Numeric ranges of the quadratic coefficients for a well-formed query.
proof fn lemma_sph_coeff_bounds(s: Sphere, r: Ray)
    requires
        bounded(s.center, 0x2000_0000),
        -0x2000_0000 <= s.radius <= 0x2000_0000,
        bounded(r.origin, 0x2000_0000),
        bounded(r.direction, 0x2000_0000),
    ensures
        0 <= sph_a(s, r) <= 0xC00_0000_0000_0000,
        -0x1800_0000_0000_0000 <= sph_b(s, r) <= 0x1800_0000_0000_0000,
        -0x4000_0000_0000_0000 <= sph_c(s, r) <= 0x4000_0000_0000_0000,
{
    assert(0 <= sph_a(s, r) <= 0xC00_0000_0000_0000 && -0x1800_0000_0000_0000 <= sph_b(s, r)
        <= 0x1800_0000_0000_0000 && -0x4000_0000_0000_0000 <= sph_c(s, r)
        <= 0x4000_0000_0000_0000) by (nonlinear_arith)
        requires
            -0x2000_0000 <= s.center.x <= 0x2000_0000,
            -0x2000_0000 <= s.center.y <= 0x2000_0000,
            -0x2000_0000 <= s.center.z <= 0x2000_0000,
            -0x2000_0000 <= s.radius <= 0x2000_0000,
            -0x2000_0000 <= r.origin.x <= 0x2000_0000,
            -0x2000_0000 <= r.origin.y <= 0x2000_0000,
            -0x2000_0000 <= r.origin.z <= 0x2000_0000,
            -0x2000_0000 <= r.direction.x <= 0x2000_0000,
            -0x2000_0000 <= r.direction.y <= 0x2000_0000,
            -0x2000_0000 <= r.direction.z <= 0x2000_0000,
            sph_a(s, r) == r.direction.x * r.direction.x + r.direction.y * r.direction.y
                + r.direction.z * r.direction.z,
            sph_b(s, r) == (r.origin.x - s.center.x) * r.direction.x
                + (r.origin.y - s.center.y) * r.direction.y
                + (r.origin.z - s.center.z) * r.direction.z,
            sph_c(s, r) == (r.origin.x - s.center.x) * (r.origin.x - s.center.x)
                + (r.origin.y - s.center.y) * (r.origin.y - s.center.y)
                + (r.origin.z - s.center.z) * (r.origin.z - s.center.z)
                - s.radius * s.radius;
}

/// The discriminant and the square root term stay within `i128` range.
proof fn lemma_sph_disc_bounds(s: Sphere, r: Ray)
    requires
        bounded(s.center, 0x2000_0000),
        -0x2000_0000 <= s.radius <= 0x2000_0000,
        bounded(r.origin, 0x2000_0000),
        bounded(r.direction, 0x2000_0000),
    ensures
        0 <= sph_b(s, r) * sph_b(s, r) <= 0x240_0000_0000_0000_0000_0000_0000_0000,
        -0x300_0000_0000_0000_0000_0000_0000_0000 <= sph_a(s, r) * sph_c(s, r)
            <= 0x300_0000_0000_0000_0000_0000_0000_0000,
        sph_disc(s, r) >= 0 ==> sqrt_s(sph_disc(s, r)) <= 0x3000_0000_0000_0000,
{
    lemma_sph_coeff_bounds(s, r);
    let b = sph_b(s, r);
    let a = sph_a(s, r);
    let c = sph_c(s, r);
    assert(0 <= b * b <= 0x240_0000_0000_0000_0000_0000_0000_0000) by (nonlinear_arith)
        requires -0x1800_0000_0000_0000 <= b <= 0x1800_0000_0000_0000;
    assert(-0x300_0000_0000_0000_0000_0000_0000_0000 <= a * c
        <= 0x300_0000_0000_0000_0000_0000_0000_0000) by (nonlinear_arith)
        requires
            0 <= a <= 0xC00_0000_0000_0000,
            -0x4000_0000_0000_0000 <= c <= 0x4000_0000_0000_0000;
    if sph_disc(s, r) >= 0 {
        crate::fixed::lemma_sqrt(sph_disc(s, r));
        let sd = sqrt_s(sph_disc(s, r));
        assert(sd * sd <= sph_disc(s, r));
        if sd > 0x3000_0000_0000_0000 {
            assert(0x540_0000_0000_0000_0000_0000_0000_0000 < sd * sd) by (nonlinear_arith)
                requires sd > 0x3000_0000_0000_0000;
        }
    }
}

impl Sphere {
    pub fn new(center: Vec3, radius: i64, material: Material) -> (s: Sphere)
        ensures
            s.center == center,
            s.radius == radius,
            s.material == material,
    {
        Sphere { center, radius, material }
    }

    pub fn center(&self) -> (c: Vec3)
        ensures
            c == self.center,
    {
        self.center
    }

    pub fn radius(&self) -> (r: i64)
        ensures
            r == self.radius,
    {
        self.radius
    }

    /// Tests one candidate root: accepted exactly when it lies in the
    /// window and yields a representable record, which is then written.
    fn try_root(&self, r: &Ray, t_min: i64, t_max: i64, t: i128, rec: &mut HitRecord) -> (res:
        bool)
        requires
            self.wf(),
            ray_wf(*r),
            0 <= t_min < t_max <= 0x4000_0000_0000_0000,
        ensures
            res == sph_accept(*self, *r, t_min as int, t_max as int, t as int),
            res ==> *final(rec) == sph_make_rec(*self, *r, t as int),
            res ==> rec_wf(*final(rec)),
            res ==> t_min < final(rec).t < t_max,
            !res ==> *final(rec) == *old(rec),
    {
        if !((t_min as i128) < t && t < (t_max as i128)) {
            return false;
        }
        let pxq = tdiv128(mul128(r.direction.x as i128, t), ONE as i128);
        let pyq = tdiv128(mul128(r.direction.y as i128, t), ONE as i128);
        let pzq = tdiv128(mul128(r.direction.z as i128, t), ONE as i128);
        proof {
            lemma_pt_quot_bound(r.direction.x as int, t as int);
            lemma_pt_quot_bound(r.direction.y as int, t as int);
            lemma_pt_quot_bound(r.direction.z as int, t as int);
        }
        let px = (r.origin.x as i128) + pxq;
        let py = (r.origin.y as i128) + pyq;
        let pz = (r.origin.z as i128) + pzq;
        if px < -0x2000_0000 || px > 0x2000_0000 || py < -0x2000_0000 || py > 0x2000_0000
            || pz < -0x2000_0000 || pz > 0x2000_0000 {
            return false;
        }
        let nx = tdiv128_any(mul128(px - (self.center.x as i128), ONE as i128),
            self.radius as i128);
        let ny = tdiv128_any(mul128(py - (self.center.y as i128), ONE as i128),
            self.radius as i128);
        let nz = tdiv128_any(mul128(pz - (self.center.z as i128), ONE as i128),
            self.radius as i128);
        let nb: i128 = 4 * (ONE as i128);
        if nx < -nb || nx > nb || ny < -nb || ny > nb || nz < -nb || nz > nb {
            return false;
        }
        rec.t = t as i64;
        rec.p = Vec3 { x: px as i64, y: py as i64, z: pz as i64 };
        rec.normal = Vec3 { x: nx as i64, y: ny as i64, z: nz as i64 };
        rec.material = self.material;
        proof {
            assert(*rec == sph_make_rec(*self, *r, t as int));
        }
        true
    }
}

/// `d * t / ONE` keeps a workable `i128` magnitude for in-window roots.
proof fn lemma_pt_quot_bound(d: int, t: int)
    requires
        -0x2000_0000 <= d <= 0x2000_0000,
        0 <= t <= 0x4000_0000_0000_0000,
    ensures
        -0x8000_0000_0000_0000_0000 <= tdiv(d * t, ONE as int) <= 0x8000_0000_0000_0000_0000,
{
    assert(-(0x8000_0000_0000_0000_0000 * (ONE as int)) <= d * t
        <= 0x8000_0000_0000_0000_0000 * (ONE as int)) by (nonlinear_arith)
        requires
            -0x2000_0000 <= d <= 0x2000_0000,
            0 <= t <= 0x4000_0000_0000_0000,
            ONE == 65536;
    crate::fixed::lemma_tdiv_le(d * t, ONE as int, 0x8000_0000_0000_0000_0000);
}

impl Hitable for Sphere {
    open spec fn wf(&self) -> bool {
        &&& bounded(self.center, 0x2000_0000)
        &&& self.radius != 0
        &&& -0x2000_0000 <= self.radius <= 0x2000_0000
        &&& mat_wf(self.material)
    }

    open spec fn hit_rec(&self, r: Ray, t_min: i64, t_max: i64) -> Option<HitRecord> {
        if sph_disc(*self, r) > 0 {
            if sph_accept(*self, r, t_min as int, t_max as int, sph_t1(*self, r)) {
                Option::Some(sph_make_rec(*self, r, sph_t1(*self, r)))
            } else if sph_accept(*self, r, t_min as int, t_max as int, sph_t2(*self, r)) {
                Option::Some(sph_make_rec(*self, r, sph_t2(*self, r)))
            } else {
                Option::None
            }
        } else {
            Option::None
        }
    }

    fn hit(&self, r: &Ray, t_min: i64, t_max: i64, rec: &mut HitRecord) -> (res: bool) {
        proof {
            lemma_sph_coeff_bounds(*self, *r);
            lemma_sph_disc_bounds(*self, *r);
        }
        let a = dot(&r.direction, &r.direction);
        let ocx = r.origin.x - self.center.x;
        let ocy = r.origin.y - self.center.y;
        let ocz = r.origin.z - self.center.z;
        proof {
            assert(-0x4000_0000i128 * 0x4000_0000i128 <= ocx * r.direction.x
                <= 0x4000_0000i128 * 0x4000_0000i128
                && -0x4000_0000i128 * 0x4000_0000i128 <= ocy * r.direction.y
                <= 0x4000_0000i128 * 0x4000_0000i128
                && -0x4000_0000i128 * 0x4000_0000i128 <= ocz * r.direction.z
                <= 0x4000_0000i128 * 0x4000_0000i128
                && 0 <= ocx * ocx <= 0x4000_0000i128 * 0x4000_0000i128
                && 0 <= ocy * ocy <= 0x4000_0000i128 * 0x4000_0000i128
                && 0 <= ocz * ocz <= 0x4000_0000i128 * 0x4000_0000i128
                && 0 <= self.radius * self.radius <= 0x4000_0000i128 * 0x4000_0000i128)
                by (nonlinear_arith)
                requires
                    -0x4000_0000 <= ocx <= 0x4000_0000,
                    -0x4000_0000 <= ocy <= 0x4000_0000,
                    -0x4000_0000 <= ocz <= 0x4000_0000,
                    -0x2000_0000 <= r.direction.x <= 0x2000_0000,
                    -0x2000_0000 <= r.direction.y <= 0x2000_0000,
                    -0x2000_0000 <= r.direction.z <= 0x2000_0000,
                    -0x2000_0000 <= self.radius <= 0x2000_0000;
        }
        let b128 = mul64(ocx, r.direction.x) + mul64(ocy, r.direction.y)
            + mul64(ocz, r.direction.z);
        let c128 = mul64(ocx, ocx) + mul64(ocy, ocy) + mul64(ocz, ocz)
            - mul64(self.radius, self.radius);
        proof {
            assert(a == sph_a(*self, *r));
            assert(b128 == sph_b(*self, *r));
            assert(c128 == sph_c(*self, *r));
            assert(a >= 1) by {
                crate::vec3::lemma_dot_self_is_squared_length(r.direction);
            }
        }
        let disc = mul128(b128, b128) - mul128(a as i128, c128);
        if disc > 0 {
            let sd = isqrt128(disc);
            let t1 = tdiv128(mul128(ONE as i128, -b128 - sd), a as i128);
            proof {
                assert(t1 == sph_t1(*self, *r)) by {
                    assert((ONE as int) * (-sph_b(*self, *r) - sqrt_s(sph_disc(*self, *r)))
                        == (-sph_b(*self, *r) - sqrt_s(sph_disc(*self, *r))) * ONE)
                        by (nonlinear_arith);
                }
            }
            if self.try_root(r, t_min, t_max, t1, rec) {
                return true;
            }
            let t2 = tdiv128(mul128(ONE as i128, -b128 + sd), a as i128);
            proof {
                assert(t2 == sph_t2(*self, *r)) by {
                    assert((ONE as int) * (-sph_b(*self, *r) + sqrt_s(sph_disc(*self, *r)))
                        == (-sph_b(*self, *r) + sqrt_s(sph_disc(*self, *r))) * ONE)
                        by (nonlinear_arith);
                }
            }
            if self.try_root(r, t_min, t_max, t2, rec) {
                return true;
            }
            false
        } else {
            false
        }
    }
}

/// The smaller root never passes the larger one.
proof fn lemma_sphere_roots_ordered(s: Sphere, r: Ray)
    requires
        s.wf(),
        ray_wf(r),
        sph_disc(s, r) >= 0,
    ensures
        sph_t1(s, r) <= sph_t2(s, r),
{
    crate::fixed::lemma_sqrt(sph_disc(s, r));
    let sd = sqrt_s(sph_disc(s, r));
    let b = sph_b(s, r);
    let a = sph_a(s, r);
    assert(a >= 1) by {
        crate::vec3::lemma_dot_self_is_squared_length(r.direction);
    }
    assert((-b - sd) * ONE <= (-b + sd) * ONE) by (nonlinear_arith)
        requires sd >= 0, ONE == 65536;
    crate::fixed::lemma_tdiv_mono((-b - sd) * ONE, (-b + sd) * ONE, a);
}

/// An accepted root lies strictly inside the query window.
pub proof fn lemma_sphere_hit_in_window(s: Sphere, r: Ray, t_min: i64, t_max: i64)
    requires
        s.wf(),
        ray_wf(r),
        0 <= t_min < t_max <= 0x4000_0000_0000_0000,
    ensures
        match s.hit_rec(r, t_min, t_max) {
            Option::Some(h) => t_min < h.t < t_max,
            Option::None => true,
        },
{
}

/// Shrinking the query window keeps a hit that is still inside it and
/// loses one that is not; it never creates a new hit.
pub proof fn lemma_sphere_hit_window(s: Sphere, r: Ray, t_min: i64, tm1: i64, tm2: i64)
    requires
        s.wf(),
        ray_wf(r),
        0 <= t_min < tm1 <= tm2 <= 0x4000_0000_0000_0000,
    ensures
        match s.hit_rec(r, t_min, tm2) {
            Option::Some(h) => {
                &&& (h.t < tm1 ==> s.hit_rec(r, t_min, tm1) == Option::Some(h))
                &&& (h.t >= tm1 ==> s.hit_rec(r, t_min, tm1) is None)
            },
            Option::None => s.hit_rec(r, t_min, tm1) is None,
        },
{
    if sph_disc(s, r) > 0 {
        lemma_sphere_roots_ordered(s, r);
        let t1 = sph_t1(s, r);
        let t2 = sph_t2(s, r);
        let a1b = sph_accept(s, r, t_min as int, tm2 as int, t1);
        let a2b = sph_accept(s, r, t_min as int, tm2 as int, t2);
        let a1s = sph_accept(s, r, t_min as int, tm1 as int, t1);
        let a2s = sph_accept(s, r, t_min as int, tm1 as int, t2);
        assert(a1s ==> a1b);
        assert(a2s ==> a2b);
        if a1b {
            assert(sph_make_rec(s, r, t1).t == t1);
        } else if a2b {
            assert(sph_make_rec(s, r, t2).t == t2);
        }
    }
}

/// One component of the outward test: dividing by a positive radius
/// keeps the component's sign, so its product with the offset is never
/// negative, and is positive once the offset clears the radius grid.
proof fn lemma_orient_term(d: int, rad: int)
    requires
        rad > 0,
    ensures
        tdiv(d * ONE, rad) * d >= 0,
        (d * d) * ((ONE as int) * (ONE as int)) > rad * rad ==> tdiv(d * ONE, rad) * d >= 1,
{
    if d >= 0 {
        assert(d * ONE >= 0) by (nonlinear_arith)
            requires d >= 0, ONE == 65536;
        vstd::arithmetic::div_mod::lemma_div_pos_is_pos(d * ONE, rad);
        assert(tdiv(d * ONE, rad) * d >= 0) by (nonlinear_arith)
            requires tdiv(d * ONE, rad) >= 0, d >= 0;
        if (d * d) * ((ONE as int) * (ONE as int)) > rad * rad {
            assert(d * ONE > rad) by (nonlinear_arith)
                requires
                    (d * d) * ((ONE as int) * (ONE as int)) > rad * rad,
                    d >= 0,
                    rad > 0,
                    ONE == 65536;
            vstd::arithmetic::div_mod::lemma_div_is_ordered(rad, d * ONE, rad);
            vstd::arithmetic::div_mod::lemma_div_by_self(rad);
            assert(d >= 1) by (nonlinear_arith)
                requires d * ONE > rad, rad > 0, d >= 0, ONE == 65536;
            assert(tdiv(d * ONE, rad) * d >= 1) by (nonlinear_arith)
                requires tdiv(d * ONE, rad) >= 1, d >= 1;
        }
    } else {
        assert(-d * ONE > 0) by (nonlinear_arith)
            requires d < 0, ONE == 65536;
        assert(-(d * ONE) == -d * ONE) by (nonlinear_arith);
        vstd::arithmetic::div_mod::lemma_div_pos_is_pos(-(d * ONE), rad);
        assert(tdiv(d * ONE, rad) * d >= 0) by (nonlinear_arith)
            requires tdiv(d * ONE, rad) <= 0, d < 0;
        if (d * d) * ((ONE as int) * (ONE as int)) > rad * rad {
            assert(-(d * ONE) > rad) by (nonlinear_arith)
                requires
                    (d * d) * ((ONE as int) * (ONE as int)) > rad * rad,
                    d < 0,
                    rad > 0,
                    ONE == 65536;
            vstd::arithmetic::div_mod::lemma_div_is_ordered(rad, -(d * ONE), rad);
            vstd::arithmetic::div_mod::lemma_div_by_self(rad);
            assert(tdiv(d * ONE, rad) * d >= 1) by (nonlinear_arith)
                requires tdiv(d * ONE, rad) <= -1, d <= -1;
        }
    }
}

/// The normal's orientation follows the sign of the radius: a positive
/// radius never yields an inward normal, and yields a strictly outward
/// one as soon as the hit point stands clear of the center by more than
/// sqrt(3) * radius / ONE (a few grid steps: true of any surface hit).
/// A negative radius inverts both, the hollow-shell glass convention;
/// front/back orientation against the ray is the material's business.
pub proof fn lemma_sphere_normal_orientation(s: Sphere, r: Ray, t: int)
    requires
        s.radius != 0,
    ensures
        ({
            let dx = sph_px(s, r, t) - s.center.x;
            let dy = sph_py(s, r, t) - s.center.y;
            let dz = sph_pz(s, r, t) - s.center.z;
            let nd = sph_nx(s, r, t) * dx + sph_ny(s, r, t) * dy + sph_nz(s, r, t) * dz;
            let clear = 3 * (s.radius * s.radius) < (dx * dx + dy * dy + dz * dz) * ((
            ONE as int) * (ONE as int));
            &&& s.radius > 0 ==> nd >= 0
            &&& s.radius < 0 ==> nd <= 0
            &&& s.radius > 0 && clear ==> nd > 0
            &&& s.radius < 0 && clear ==> nd < 0
        }),
{
    let dx = sph_px(s, r, t) - s.center.x;
    let dy = sph_py(s, r, t) - s.center.y;
    let dz = sph_pz(s, r, t) - s.center.z;
    let rad = s.radius as int;
    let arad = if rad > 0 { rad } else { -rad };
    lemma_orient_term(dx, arad);
    lemma_orient_term(dy, arad);
    lemma_orient_term(dz, arad);
    if rad < 0 {
        crate::fixed::lemma_tdiv_neg_divisor(dx * ONE, rad);
        crate::fixed::lemma_tdiv_neg_divisor(dy * ONE, rad);
        crate::fixed::lemma_tdiv_neg_divisor(dz * ONE, rad);
        assert(tdiv(dx * ONE, rad) * dx == -(tdiv(dx * ONE, arad) * dx)) by (nonlinear_arith)
            requires tdiv(dx * ONE, rad) == -tdiv(dx * ONE, arad);
        assert(tdiv(dy * ONE, rad) * dy == -(tdiv(dy * ONE, arad) * dy)) by (nonlinear_arith)
            requires tdiv(dy * ONE, rad) == -tdiv(dy * ONE, arad);
        assert(tdiv(dz * ONE, rad) * dz == -(tdiv(dz * ONE, arad) * dz)) by (nonlinear_arith)
            requires tdiv(dz * ONE, rad) == -tdiv(dz * ONE, arad);
    }
    if 3 * (rad * rad) < (dx * dx + dy * dy + dz * dz) * ((ONE as int) * (ONE as int)) {
        assert((dx * dx + dy * dy + dz * dz) * ((ONE as int) * (ONE as int)) == (dx * dx) * ((
        ONE as int) * (ONE as int)) + (dy * dy) * ((ONE as int) * (ONE as int)) + (dz * dz) * ((
        ONE as int) * (ONE as int))) by (nonlinear_arith);
        assert(rad * rad == arad * arad) by (nonlinear_arith)
            requires arad == (if rad > 0 { rad } else { -rad });
        if (dx * dx) * ((ONE as int) * (ONE as int)) <= arad * arad && (dy * dy) * ((ONE as int)
            * (ONE as int)) <= arad * arad && (dz * dz) * ((ONE as int) * (ONE as int)) <= arad
            * arad {
            assert(false);
        }
    }
}

/// The normal's squared length tracks the hit point's offset from the
/// center: `|normal|^2 * radius^2` equals `ONE^2 * |p - center|^2` up to
/// one truncated division per component. For a point on the surface
/// (`|p - center| ~ |radius|`) this is a normal of near-unit length.
pub proof fn lemma_sphere_normal_length(s: Sphere, r: Ray, t: int)
    requires
        s.radius != 0,
    ensures
        ({
            let dx = sph_px(s, r, t) - s.center.x;
            let dy = sph_py(s, r, t) - s.center.y;
            let dz = sph_pz(s, r, t) - s.center.z;
            let nn = sph_nx(s, r, t) * sph_nx(s, r, t) + sph_ny(s, r, t) * sph_ny(s, r, t)
                + sph_nz(s, r, t) * sph_nz(s, r, t);
            let rad2 = s.radius * s.radius;
            let adx = if dx >= 0 { dx } else { -dx };
            let ady = if dy >= 0 { dy } else { -dy };
            let adz = if dz >= 0 { dz } else { -dz };
            let arad = if s.radius > 0 { s.radius as int } else { -(s.radius as int) };
            &&& nn * rad2 <= ((ONE as int) * (ONE as int)) * (dx * dx + dy * dy + dz * dz)
            &&& nn * rad2 >= ((ONE as int) * (ONE as int)) * (dx * dx + dy * dy + dz * dz) - 2
                * (ONE as int) * ((adx + ady + adz) * arad)
        }),
{
    let dx = sph_px(s, r, t) - s.center.x;
    let dy = sph_py(s, r, t) - s.center.y;
    let dz = sph_pz(s, r, t) - s.center.z;
    let rad = s.radius as int;
    let arad = if rad > 0 { rad } else { -rad };
    if rad < 0 {
        crate::fixed::lemma_tdiv_neg_divisor(dx * ONE, rad);
        crate::fixed::lemma_tdiv_neg_divisor(dy * ONE, rad);
        crate::fixed::lemma_tdiv_neg_divisor(dz * ONE, rad);
        assert(tdiv(dx * ONE, rad) * tdiv(dx * ONE, rad) == tdiv(dx * ONE, arad) * tdiv(dx * ONE,
            arad)) by (nonlinear_arith)
            requires tdiv(dx * ONE, rad) == -tdiv(dx * ONE, arad);
        assert(tdiv(dy * ONE, rad) * tdiv(dy * ONE, rad) == tdiv(dy * ONE, arad) * tdiv(dy * ONE,
            arad)) by (nonlinear_arith)
            requires tdiv(dy * ONE, rad) == -tdiv(dy * ONE, arad);
        assert(tdiv(dz * ONE, rad) * tdiv(dz * ONE, rad) == tdiv(dz * ONE, arad) * tdiv(dz * ONE,
            arad)) by (nonlinear_arith)
            requires tdiv(dz * ONE, rad) == -tdiv(dz * ONE, arad);
    }
    crate::vec3::lemma_unit_sq_step(dx, arad);
    crate::vec3::lemma_unit_sq_step(dy, arad);
    crate::vec3::lemma_unit_sq_step(dz, arad);
    crate::vec3::lemma_unit_sq_lower(dx, arad);
    crate::vec3::lemma_unit_sq_lower(dy, arad);
    crate::vec3::lemma_unit_sq_lower(dz, arad);
    let nx = tdiv(dx * ONE, arad);
    let ny = tdiv(dy * ONE, arad);
    let nz = tdiv(dz * ONE, arad);
    let nn = nx * nx + ny * ny + nz * nz;
    assert(rad * rad == arad * arad) by (nonlinear_arith)
        requires arad == (if rad > 0 { rad } else { -rad });
    assert(nn * (arad * arad) == nx * nx * (arad * arad) + ny * ny * (arad * arad) + nz * nz * (
    arad * arad)) by (nonlinear_arith)
        requires nn == nx * nx + ny * ny + nz * nz;
    assert(((ONE as int) * (ONE as int)) * (dx * dx + dy * dy + dz * dz) == ((ONE as int) * (
    ONE as int)) * (dx * dx) + ((ONE as int) * (ONE as int)) * (dy * dy) + ((ONE as int) * (
    ONE as int)) * (dz * dz)) by (nonlinear_arith);
    let adx = if dx >= 0 { dx } else { -dx };
    let ady = if dy >= 0 { dy } else { -dy };
    let adz = if dz >= 0 { dz } else { -dz };
    assert(2 * (ONE as int) * ((adx + ady + adz) * arad) == 2 * (ONE as int) * (adx * arad) + 2
        * (ONE as int) * (ady * arad) + 2 * (ONE as int) * (adz * arad)) by (nonlinear_arith);
}

} // verus!
