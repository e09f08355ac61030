//! The camera: an orthonormal basis and a viewport derived once from the
//! view parameters, producing lens-sampled rays with depth of field.
//!
//! The vertical field of view enters as the tangent of its half angle
//! (a fixed-point value), since the trigonometry itself is not part of
//! the rendering arithmetic.

use vstd::prelude::*;
use crate::fixed::{tdiv, ONE, mul64, scale_down, lemma_tdiv_le};
use crate::vec3::{
    Vec3, bounded, sq_s, dot_s, sub_v, cross_v, cross_unit, cross_sx, cross_sy, cross_sz, unit_v,
    unit_cx, unit_cy, unit_cz, unit_vector, cross, random_in_unit_disk, lemma_cross_perp,
    lemma_tdiv_dot_err, lemma_unit_components_bounded, lemma_unit_vector_near_unit,
};
use crate::fixed::{sqrt_s, is_isqrt, lemma_sqrt, lemma_sqrt_le, lemma_sqrt_unique};
use crate::ray::Ray;
use crate::rng::RngStream;

verus! {

#[derive(Clone, Copy, Debug)]
pub struct Camera {
    pub origin: Vec3,
    pub lower_left_corner: Vec3,
    pub horizontal: Vec3,
    pub vertical: Vec3,
    pub u: Vec3,
    pub v: Vec3,
    pub w: Vec3,
    pub lens_radius: i64,
}

/// Derived camera state the ray generator can work with.
pub open spec fn cam_wf(c: Camera) -> bool {
    &&& bounded(c.origin, 0x40_0000)
    &&& bounded(c.lower_left_corner, 0x800_0000)
    &&& bounded(c.horizontal, 0x800_0000)
    &&& bounded(c.vertical, 0x800_0000)
    &&& bounded(c.u, ONE as int)
    &&& bounded(c.v, 2 * (ONE as int))
    &&& bounded(c.w, ONE as int)
    &&& 0 <= c.lens_radius <= ONE
}

/// The view parameters `Camera::new` accepts: positions within 32 units,
/// an up vector within 16 units that is not parallel to the view axis,
/// and positive tangent, aspect and focus distance of moderate size.
pub open spec fn cam_params_ok(
    lookfrom: Vec3,
    lookat: Vec3,
    vup: Vec3,
    tan_half_vfov: i64,
    aspect: i64,
    aperture: i64,
    focus_dist: i64,
) -> bool {
    &&& bounded(lookfrom, 0x20_0000)
    &&& bounded(lookat, 0x20_0000)
    &&& bounded(vup, 2 * (ONE as int))
    &&& sq_s(sub_v(lookfrom, lookat)) > 0
    &&& sq_s(cross_unit(vup, unit_v(sub_v(lookfrom, lookat)))) > 0
    &&& 0 < tan_half_vfov <= 4 * (ONE as int)
    &&& 0 < aspect <= 4 * (ONE as int)
    &&& 0 <= aperture <= 2 * (ONE as int)
    &&& 0 < focus_dist <= 0x20_0000
}

impl Camera {
    /// Builds the derived state: basis `w = unit(lookfrom - lookat)`,
    /// `u = unit(vup x w)`, `v = w x u`; the viewport corner and spans
    /// scaled by the focus distance; lens radius half the aperture.
    pub fn new(
        lookfrom: Vec3,
        lookat: Vec3,
        vup: Vec3,
        tan_half_vfov: i64,
        aspect: i64,
        aperture: i64,
        focus_dist: i64,
    ) -> (c: Camera)
        requires
            cam_params_ok(lookfrom, lookat, vup, tan_half_vfov, aspect, aperture, focus_dist),
        ensures
            cam_wf(c),
            ({
                let w = unit_v(sub_v(lookfrom, lookat));
                let u = unit_v(cross_unit(vup, w));
                let v = cross_unit(w, u);
                let hw = tdiv(aspect * tan_half_vfov, ONE as int);
                let hwf = tdiv(hw * focus_dist, ONE as int);
                let hhf = tdiv(tan_half_vfov * focus_dist, ONE as int);
                &&& c.origin == lookfrom
                &&& c.w == w
                &&& c.u == u
                &&& c.v == v
                &&& c.lower_left_corner.x == lookfrom.x - tdiv(u.x * hwf, ONE as int) - tdiv(
                    v.x * hhf, ONE as int) - tdiv(w.x * focus_dist, ONE as int)
                &&& c.lower_left_corner.y == lookfrom.y - tdiv(u.y * hwf, ONE as int) - tdiv(
                    v.y * hhf, ONE as int) - tdiv(w.y * focus_dist, ONE as int)
                &&& c.lower_left_corner.z == lookfrom.z - tdiv(u.z * hwf, ONE as int) - tdiv(
                    v.z * hhf, ONE as int) - tdiv(w.z * focus_dist, ONE as int)
                &&& c.horizontal.x == tdiv(u.x * (2 * hwf), ONE as int)
                &&& c.horizontal.y == tdiv(u.y * (2 * hwf), ONE as int)
                &&& c.horizontal.z == tdiv(u.z * (2 * hwf), ONE as int)
                &&& c.vertical.x == tdiv(v.x * (2 * hhf), ONE as int)
                &&& c.vertical.y == tdiv(v.y * (2 * hhf), ONE as int)
                &&& c.vertical.z == tdiv(v.z * (2 * hhf), ONE as int)
                &&& c.lens_radius == tdiv(aperture as int, 2)
            }),
    {
        let dirv = lookfrom.sub(lookat);
        let w = unit_vector(dirv);
        proof {
            assert(dirv == sub_v(lookfrom, lookat));
        }
        let cuw = cross(&vup, &w);
        proof {
            assert(-((8 * (ONE as int)) * (ONE as int)) <= cross_sx(vup, w) <= (8 * (ONE as int))
                * (ONE as int) && -((8 * (ONE as int)) * (ONE as int)) <= cross_sy(vup, w) <= (8
                * (ONE as int)) * (ONE as int) && -((8 * (ONE as int)) * (ONE as int))
                <= cross_sz(vup, w) <= (8 * (ONE as int)) * (ONE as int)) by (nonlinear_arith)
                requires
                    -2 * (ONE as int) <= vup.x <= 2 * (ONE as int),
                    -2 * (ONE as int) <= vup.y <= 2 * (ONE as int),
                    -2 * (ONE as int) <= vup.z <= 2 * (ONE as int),
                    -(ONE as int) <= w.x <= ONE as int,
                    -(ONE as int) <= w.y <= ONE as int,
                    -(ONE as int) <= w.z <= ONE as int,
                    cross_sx(vup, w) == vup.y * w.z - vup.z * w.y,
                    cross_sy(vup, w) == -(vup.x * w.z - vup.z * w.x),
                    cross_sz(vup, w) == vup.x * w.y - vup.y * w.x;
            lemma_tdiv_le(cross_sx(vup, w), ONE as int, 8 * (ONE as int));
            lemma_tdiv_le(cross_sy(vup, w), ONE as int, 8 * (ONE as int));
            lemma_tdiv_le(cross_sz(vup, w), ONE as int, 8 * (ONE as int));
        }
        let cuw_s = Vec3 {
            x: crate::fixed::tdiv64(cuw.x, ONE),
            y: crate::fixed::tdiv64(cuw.y, ONE),
            z: crate::fixed::tdiv64(cuw.z, ONE),
        };
        proof {
            assert(cuw_s == cross_unit(vup, w));
        }
        let u = unit_vector(cuw_s);
        let cv = cross(&w, &u);
        let v = Vec3 {
            x: crate::fixed::tdiv64(cv.x, ONE),
            y: crate::fixed::tdiv64(cv.y, ONE),
            z: crate::fixed::tdiv64(cv.z, ONE),
        };
        proof {
            assert(-((2 * (ONE as int)) * (ONE as int)) <= cross_sx(w, u) <= (2 * (ONE as int)) * (
            ONE as int) && -((2 * (ONE as int)) * (ONE as int)) <= cross_sy(w, u) <= (2 * (
            ONE as int)) * (ONE as int) && -((2 * (ONE as int)) * (ONE as int)) <= cross_sz(w, u)
                <= (2 * (ONE as int)) * (ONE as int)) by (nonlinear_arith)
                requires
                    -(ONE as int) <= w.x <= ONE as int,
                    -(ONE as int) <= w.y <= ONE as int,
                    -(ONE as int) <= w.z <= ONE as int,
                    -(ONE as int) <= u.x <= ONE as int,
                    -(ONE as int) <= u.y <= ONE as int,
                    -(ONE as int) <= u.z <= ONE as int,
                    cross_sx(w, u) == w.y * u.z - w.z * u.y,
                    cross_sy(w, u) == -(w.x * u.z - w.z * u.x),
                    cross_sz(w, u) == w.x * u.y - w.y * u.x;
            lemma_tdiv_le(cross_sx(w, u), ONE as int, 2 * (ONE as int));
            lemma_tdiv_le(cross_sy(w, u), ONE as int, 2 * (ONE as int));
            lemma_tdiv_le(cross_sz(w, u), ONE as int, 2 * (ONE as int));
            assert(v == cross_unit(w, u));
        }
        proof {
            assert(0 < aspect * tan_half_vfov <= (16 * (ONE as int)) * (ONE as int))
                by (nonlinear_arith)
                requires
                    0 < aspect <= 4 * (ONE as int),
                    0 < tan_half_vfov <= 4 * (ONE as int),
                    ONE == 65536;
            lemma_tdiv_le(aspect * tan_half_vfov, ONE as int, 16 * (ONE as int));
            vstd::arithmetic::div_mod::lemma_div_pos_is_pos(aspect * tan_half_vfov, ONE as int);
        }
        let hw = scale_down(mul64(aspect, tan_half_vfov), 16 * ONE);
        proof {
            assert(0 <= hw * focus_dist <= 0x200_0000i128 * (ONE as int)) by (nonlinear_arith)
                requires
                    0 <= hw <= 16 * (ONE as int),
                    0 < focus_dist <= 0x20_0000,
                    ONE == 65536;
            lemma_tdiv_le(hw * focus_dist, ONE as int, 0x200_0000);
            vstd::arithmetic::div_mod::lemma_div_pos_is_pos(hw * focus_dist, ONE as int);
        }
        let hwf = scale_down(mul64(hw, focus_dist), 0x200_0000);
        proof {
            assert(0 <= tan_half_vfov * focus_dist <= 0x80_0000i128 * (ONE as int))
                by (nonlinear_arith)
                requires
                    0 < tan_half_vfov <= 4 * (ONE as int),
                    0 < focus_dist <= 0x20_0000,
                    ONE == 65536;
            lemma_tdiv_le(tan_half_vfov * focus_dist, ONE as int, 0x80_0000);
            vstd::arithmetic::div_mod::lemma_div_pos_is_pos(tan_half_vfov * focus_dist,
                ONE as int);
        }
        let hhf = scale_down(mul64(tan_half_vfov, focus_dist), 0x80_0000);
        let su = scale_by(u, hwf, ONE);
        let sv = scale_by(v, hhf, 2 * ONE);
        let sw = scale_by(w, focus_dist, ONE);
        let corner = lookfrom.sub(su).sub(sv).sub(sw);
        let horizontal = scale_by(u, 2 * hwf, ONE);
        let vertical = scale_by(v, 2 * hhf, 2 * ONE);
        let lens_radius = crate::fixed::tdiv64(aperture, 2);
        proof {
            vstd::arithmetic::div_mod::lemma_div_pos_is_pos(aperture as int, 2);
            lemma_tdiv_le(aperture as int, 2, ONE as int);
        }
        Camera { origin: lookfrom, lower_left_corner: corner, horizontal, vertical, u, v, w,
            lens_radius }
    }

    /// A lens-sampled ray through the viewport point at normalized image
    /// coordinates `(s, t)`: the origin is offset within the lens disk,
    /// and the direction aims at the focus-plane point, so the returned
    /// ray is `origin + offset -> corner + s*horizontal + t*vertical`.
    pub fn get_ray(&self, s: i64, t: i64, rng: &mut RngStream) -> (ray: Ray)
        requires
            cam_wf(*self),
            0 <= s <= ONE,
            0 <= t <= ONE,
        ensures
            bounded(ray.origin, 0x2000_0000),
            bounded(ray.direction, 0x2000_0000),
            (exists|rd: Vec3|
                {
                    &&& #[trigger] sq_s(rd) < ONE * ONE
                    &&& bounded(rd, ONE as int)
                    &&& rd.z == 0
                    &&& ray.origin.x == self.origin.x + tdiv(
                        self.u.x * tdiv(rd.x * self.lens_radius, ONE as int), ONE as int) + tdiv(
                        self.v.x * tdiv(rd.y * self.lens_radius, ONE as int), ONE as int)
                    &&& ray.origin.y == self.origin.y + tdiv(
                        self.u.y * tdiv(rd.x * self.lens_radius, ONE as int), ONE as int) + tdiv(
                        self.v.y * tdiv(rd.y * self.lens_radius, ONE as int), ONE as int)
                    &&& ray.origin.z == self.origin.z + tdiv(
                        self.u.z * tdiv(rd.x * self.lens_radius, ONE as int), ONE as int) + tdiv(
                        self.v.z * tdiv(rd.y * self.lens_radius, ONE as int), ONE as int)
                }),
            ray.direction.x == self.lower_left_corner.x + tdiv(self.horizontal.x * s, ONE as int)
                + tdiv(self.vertical.x * t, ONE as int) - ray.origin.x,
            ray.direction.y == self.lower_left_corner.y + tdiv(self.horizontal.y * s, ONE as int)
                + tdiv(self.vertical.y * t, ONE as int) - ray.origin.y,
            ray.direction.z == self.lower_left_corner.z + tdiv(self.horizontal.z * s, ONE as int)
                + tdiv(self.vertical.z * t, ONE as int) - ray.origin.z,
    {
        let rd = random_in_unit_disk(rng);
        let rds = rd.scale(self.lens_radius);
        proof {
            lemma_scale_unit_bound(rd.x as int, self.lens_radius as int);
            lemma_scale_unit_bound(rd.y as int, self.lens_radius as int);
            lemma_scale_unit_bound(rd.z as int, self.lens_radius as int);
        }
        proof {
            assert(-((ONE as int) * (ONE as int)) <= self.u.x * rds.x <= (ONE as int) * (
            ONE as int) && -((ONE as int) * (ONE as int)) <= self.u.y * rds.x <= (ONE as int) * (
            ONE as int) && -((ONE as int) * (ONE as int)) <= self.u.z * rds.x <= (ONE as int) * (
            ONE as int) && -((2 * (ONE as int)) * (ONE as int)) <= self.v.x * rds.y <= (2 * (
            ONE as int)) * (ONE as int) && -((2 * (ONE as int)) * (ONE as int)) <= self.v.y
                * rds.y <= (2 * (ONE as int)) * (ONE as int) && -((2 * (ONE as int)) * (
            ONE as int)) <= self.v.z * rds.y <= (2 * (ONE as int)) * (ONE as int))
                by (nonlinear_arith)
                requires
                    -(ONE as int) <= self.u.x <= ONE as int,
                    -(ONE as int) <= self.u.y <= ONE as int,
                    -(ONE as int) <= self.u.z <= ONE as int,
                    -2 * (ONE as int) <= self.v.x <= 2 * (ONE as int),
                    -2 * (ONE as int) <= self.v.y <= 2 * (ONE as int),
                    -2 * (ONE as int) <= self.v.z <= 2 * (ONE as int),
                    -(ONE as int) <= rds.x <= ONE as int,
                    -(ONE as int) <= rds.y <= ONE as int;
        }
        let ox = scale_by_c(self.u.x, rds.x, ONE) + scale_by_c(self.v.x, rds.y, 2 * ONE);
        let oy = scale_by_c(self.u.y, rds.x, ONE) + scale_by_c(self.v.y, rds.y, 2 * ONE);
        let oz = scale_by_c(self.u.z, rds.x, ONE) + scale_by_c(self.v.z, rds.y, 2 * ONE);
        let ro = Vec3 { x: self.origin.x + ox, y: self.origin.y + oy, z: self.origin.z + oz };
        proof {
            assert(-(0x800_0000i128 * (ONE as int)) <= self.horizontal.x * s <= 0x800_0000i128 * (
            ONE as int) && -(0x800_0000i128 * (ONE as int)) <= self.horizontal.y * s
                <= 0x800_0000i128 * (ONE as int) && -(0x800_0000i128 * (ONE as int))
                <= self.horizontal.z * s <= 0x800_0000i128 * (ONE as int) && -(0x800_0000i128 * (
            ONE as int)) <= self.vertical.x * t <= 0x800_0000i128 * (ONE as int) && -(
            0x800_0000i128 * (ONE as int)) <= self.vertical.y * t <= 0x800_0000i128 * (ONE as int)
                && -(0x800_0000i128 * (ONE as int)) <= self.vertical.z * t <= 0x800_0000i128 * (
            ONE as int)) by (nonlinear_arith)
                requires
                    -0x800_0000 <= self.horizontal.x <= 0x800_0000,
                    -0x800_0000 <= self.horizontal.y <= 0x800_0000,
                    -0x800_0000 <= self.horizontal.z <= 0x800_0000,
                    -0x800_0000 <= self.vertical.x <= 0x800_0000,
                    -0x800_0000 <= self.vertical.y <= 0x800_0000,
                    -0x800_0000 <= self.vertical.z <= 0x800_0000,
                    0 <= s <= ONE as int,
                    0 <= t <= ONE as int,
                    ONE == 65536;
        }
        let hx = scale_by_c(self.horizontal.x, s, 0x800_0000);
        let hy = scale_by_c(self.horizontal.y, s, 0x800_0000);
        let hz = scale_by_c(self.horizontal.z, s, 0x800_0000);
        let vx = scale_by_c(self.vertical.x, t, 0x800_0000);
        let vy = scale_by_c(self.vertical.y, t, 0x800_0000);
        let vz = scale_by_c(self.vertical.z, t, 0x800_0000);
        let dir = Vec3 {
            x: self.lower_left_corner.x + hx + vx - ro.x,
            y: self.lower_left_corner.y + hy + vy - ro.y,
            z: self.lower_left_corner.z + hz + vz - ro.z,
        };
        proof {
            assert(sq_s(rd) < ONE * ONE && bounded(rd, ONE as int) && rd.z == 0);
        }
        Ray { origin: ro, direction: dir }
    }
}

/// `v * k / ONE`, with each component of `v` within `b` and `|k| <= b2`,
/// giving components within `b * b2 / ONE`-ish; here stated with the
/// caller's own bound on the scalar.
fn scale_by(v: Vec3, k: i64, b: i64) -> (r: Vec3)
    requires
        bounded(v, b as int),
        0 <= b <= 2 * (ONE as int),
        0 <= k <= 0x2000_0000,
    ensures
        r.x == tdiv(v.x * k, ONE as int),
        r.y == tdiv(v.y * k, ONE as int),
        r.z == tdiv(v.z * k, ONE as int),
        bounded(r, 2 * (k as int)),
{
    proof {
        assert(-((2 * (k as int)) * (ONE as int)) <= v.x * k <= (2 * (k as int)) * (ONE as int)
            && -((2 * (k as int)) * (ONE as int)) <= v.y * k <= (2 * (k as int)) * (ONE as int)
            && -((2 * (k as int)) * (ONE as int)) <= v.z * k <= (2 * (k as int)) * (ONE as int))
            by (nonlinear_arith)
            requires
                -(b as int) <= v.x <= b as int,
                -(b as int) <= v.y <= b as int,
                -(b as int) <= v.z <= b as int,
                0 <= b <= 2 * (ONE as int),
                0 <= k,
                ONE == 65536;
        crate::fixed::lemma_tdiv_le(v.x * k, ONE as int, 2 * (k as int));
        crate::fixed::lemma_tdiv_le(v.y * k, ONE as int, 2 * (k as int));
        crate::fixed::lemma_tdiv_le(v.z * k, ONE as int, 2 * (k as int));
    }
    let x = scale_down(mul64(v.x, k), 2 * k);
    let y = scale_down(mul64(v.y, k), 2 * k);
    let z = scale_down(mul64(v.z, k), 2 * k);
    Vec3 { x, y, z }
}

/// One truncated product `a * k / ONE`, bounded by `c` when `|a * k|`
/// stays within `c * ONE`; the caller supplies the product bound.
fn scale_by_c(a: i64, k: i64, c: i64) -> (r: i64)
    requires
        c >= 0,
        -(c as int) * (ONE as int) <= a * k <= (c as int) * (ONE as int),
    ensures
        r == tdiv(a * k, ONE as int),
        -c <= r <= c,
{
    scale_down(mul64(a, k), c)
}

/// A unit-ball component scaled by the lens radius stays in the unit ball.
proof fn lemma_scale_unit_bound(a: int, lens: int)
    requires
        -(ONE as int) <= a <= ONE as int,
        0 <= lens <= ONE as int,
    ensures
        -(ONE as int) <= tdiv(a * lens, ONE as int) <= ONE as int,
        -(ONE as int) * (ONE as int) <= a * lens <= (ONE as int) * (ONE as int),
{
    assert(-(ONE as int) * (ONE as int) <= a * lens <= (ONE as int) * (ONE as int))
        by (nonlinear_arith)
        requires
            -(ONE as int) <= a <= ONE as int,
            0 <= lens <= ONE as int;
    lemma_tdiv_le(a * lens, ONE as int, ONE as int);
}

/// Evaluates `cam_params_ok` at runtime, so an unverified caller can test
/// the view parameters before building a camera.
pub fn check_camera_params(
    lookfrom: Vec3,
    lookat: Vec3,
    vup: Vec3,
    tan_half_vfov: i64,
    aspect: i64,
    aperture: i64,
    focus_dist: i64,
) -> (ok: bool)
    ensures
        ok == cam_params_ok(lookfrom, lookat, vup, tan_half_vfov, aspect, aperture, focus_dist),
{
    if !(-0x20_0000 <= lookfrom.x && lookfrom.x <= 0x20_0000 && -0x20_0000 <= lookfrom.y
        && lookfrom.y <= 0x20_0000 && -0x20_0000 <= lookfrom.z && lookfrom.z <= 0x20_0000) {
        return false;
    }
    if !(-0x20_0000 <= lookat.x && lookat.x <= 0x20_0000 && -0x20_0000 <= lookat.y
        && lookat.y <= 0x20_0000 && -0x20_0000 <= lookat.z && lookat.z <= 0x20_0000) {
        return false;
    }
    if !(-2 * ONE <= vup.x && vup.x <= 2 * ONE && -2 * ONE <= vup.y && vup.y <= 2 * ONE && -2
        * ONE <= vup.z && vup.z <= 2 * ONE) {
        return false;
    }
    if !(0 < tan_half_vfov && tan_half_vfov <= 4 * ONE && 0 < aspect && aspect <= 4 * ONE && 0
        <= aperture && aperture <= 2 * ONE && 0 < focus_dist && focus_dist <= 0x20_0000) {
        return false;
    }
    let dirv = lookfrom.sub(lookat);
    proof {
        assert(dirv == sub_v(lookfrom, lookat));
    }
    let sq = dirv.squared_length();
    if sq == 0 {
        return false;
    }
    let w = unit_vector(dirv);
    let cuw = cross(&vup, &w);
    proof {
        assert(-((8 * (ONE as int)) * (ONE as int)) <= cross_sx(vup, w) <= (8 * (ONE as int)) * (
        ONE as int) && -((8 * (ONE as int)) * (ONE as int)) <= cross_sy(vup, w) <= (8 * (
        ONE as int)) * (ONE as int) && -((8 * (ONE as int)) * (ONE as int)) <= cross_sz(vup, w)
            <= (8 * (ONE as int)) * (ONE as int)) by (nonlinear_arith)
            requires
                -2 * (ONE as int) <= vup.x <= 2 * (ONE as int),
                -2 * (ONE as int) <= vup.y <= 2 * (ONE as int),
                -2 * (ONE as int) <= vup.z <= 2 * (ONE as int),
                -(ONE as int) <= w.x <= ONE as int,
                -(ONE as int) <= w.y <= ONE as int,
                -(ONE as int) <= w.z <= ONE as int,
                cross_sx(vup, w) == vup.y * w.z - vup.z * w.y,
                cross_sy(vup, w) == -(vup.x * w.z - vup.z * w.x),
                cross_sz(vup, w) == vup.x * w.y - vup.y * w.x;
        lemma_tdiv_le(cross_sx(vup, w), ONE as int, 8 * (ONE as int));
        lemma_tdiv_le(cross_sy(vup, w), ONE as int, 8 * (ONE as int));
        lemma_tdiv_le(cross_sz(vup, w), ONE as int, 8 * (ONE as int));
    }
    let cuw_s = Vec3 {
        x: crate::fixed::tdiv64(cuw.x, ONE),
        y: crate::fixed::tdiv64(cuw.y, ONE),
        z: crate::fixed::tdiv64(cuw.z, ONE),
    };
    proof {
        assert(cuw_s == cross_unit(vup, w));
    }
    let sq2 = cuw_s.squared_length();
    sq2 > 0
}

/// The derived basis is near-orthonormal: with a baseline and an up
/// cross product of at least one unit, `w` and `u` have unit length and
/// all three pairwise inner products vanish, up to the truncation of one
/// division per component (a few parts in 2^16).
pub proof fn lemma_camera_basis_near_orthonormal(lookfrom: Vec3, lookat: Vec3, vup: Vec3)
    requires
        bounded(lookfrom, 0x20_0000),
        bounded(lookat, 0x20_0000),
        bounded(vup, 2 * (ONE as int)),
        sq_s(sub_v(lookfrom, lookat)) >= ONE * ONE,
        sq_s(cross_unit(vup, unit_v(sub_v(lookfrom, lookat)))) >= ONE * ONE,
    ensures
        ({
            let w = unit_v(sub_v(lookfrom, lookat));
            let u = unit_v(cross_unit(vup, w));
            let v = cross_unit(w, u);
            &&& ONE * ONE - 8 * ONE <= sq_s(w) <= ONE * ONE + 2 * ONE
            &&& ONE * ONE - 8 * ONE <= sq_s(u) <= ONE * ONE + 2 * ONE
            &&& -6 * (ONE as int) <= dot_s(u, w) <= 6 * (ONE as int)
            &&& -3 * (ONE as int) <= dot_s(v, w) <= 3 * (ONE as int)
            &&& -3 * (ONE as int) <= dot_s(v, u) <= 3 * (ONE as int)
        }),
{
    let dirv = sub_v(lookfrom, lookat);
    assert(bounded(dirv, 0x40_0000));
    lemma_unit_components_bounded(dirv);
    lemma_unit_vector_near_unit(dirv);
    let w = unit_v(dirv);
    assert(sq_s(w) == unit_cx(dirv) * unit_cx(dirv) + unit_cy(dirv) * unit_cy(dirv) + unit_cz(
        dirv) * unit_cz(dirv));
    let cs = cross_unit(vup, w);
    assert(-((4 * (ONE as int)) * (ONE as int)) <= cross_sx(vup, w) <= (4 * (ONE as int)) * (
    ONE as int) && -((4 * (ONE as int)) * (ONE as int)) <= cross_sy(vup, w) <= (4 * (ONE as int))
        * (ONE as int) && -((4 * (ONE as int)) * (ONE as int)) <= cross_sz(vup, w) <= (4 * (
    ONE as int)) * (ONE as int)) by (nonlinear_arith)
        requires
            -2 * (ONE as int) <= vup.x <= 2 * (ONE as int),
            -2 * (ONE as int) <= vup.y <= 2 * (ONE as int),
            -2 * (ONE as int) <= vup.z <= 2 * (ONE as int),
            -(ONE as int) <= w.x <= ONE as int,
            -(ONE as int) <= w.y <= ONE as int,
            -(ONE as int) <= w.z <= ONE as int,
            cross_sx(vup, w) == vup.y * w.z - vup.z * w.y,
            cross_sy(vup, w) == -(vup.x * w.z - vup.z * w.x),
            cross_sz(vup, w) == vup.x * w.y - vup.y * w.x;
    lemma_tdiv_le(cross_sx(vup, w), ONE as int, 4 * (ONE as int));
    lemma_tdiv_le(cross_sy(vup, w), ONE as int, 4 * (ONE as int));
    lemma_tdiv_le(cross_sz(vup, w), ONE as int, 4 * (ONE as int));
    assert(bounded(cs, 4 * (ONE as int)));
    lemma_unit_components_bounded(cs);
    lemma_unit_vector_near_unit(cs);
    let u = unit_v(cs);
    assert(sq_s(u) == unit_cx(cs) * unit_cx(cs) + unit_cy(cs) * unit_cy(cs) + unit_cz(cs)
        * unit_cz(cs));
    // The cross product is orthogonal to w exactly; dividing by ONE and
    // normalizing each move the inner product by at most 3*ONE.
    lemma_cross_perp(vup, w);
    lemma_tdiv_dot_err(cross_sx(vup, w), cross_sy(vup, w), cross_sz(vup, w), w.x as int,
        w.y as int, w.z as int, ONE as int, ONE as int);
    let csw = (cs.x as int) * w.x + (cs.y as int) * w.y + (cs.z as int) * w.z;
    assert(-3 * ((ONE as int) * (ONE as int)) <= csw * ONE <= 3 * ((ONE as int) * (ONE as int)));
    assert(-3 * (ONE as int) <= csw <= 3 * (ONE as int)) by (nonlinear_arith)
        requires
            -3 * ((ONE as int) * (ONE as int)) <= csw * ONE <= 3 * ((ONE as int) * (ONE as int)),
            ONE == 65536;
    let el = sq_s(cs);
    let ll = sqrt_s(el);
    lemma_sqrt(el);
    assert(ll >= ONE) by {
        lemma_sqrt_le((ONE * ONE) as int, el);
        assert(is_isqrt((ONE * ONE) as int, ONE as int)) by (nonlinear_arith)
            requires ONE == 65536;
        lemma_sqrt_unique((ONE * ONE) as int, sqrt_s((ONE * ONE) as int), ONE as int);
    }
    lemma_tdiv_dot_err((cs.x as int) * ONE, (cs.y as int) * ONE, (cs.z as int) * ONE, w.x as int,
        w.y as int, w.z as int, ll, ONE as int);
    assert(((cs.x as int) * ONE) * w.x + ((cs.y as int) * ONE) * w.y + ((cs.z as int) * ONE)
        * w.z == csw * ONE) by (nonlinear_arith)
        requires csw == (cs.x as int) * w.x + (cs.y as int) * w.y + (cs.z as int) * w.z;
    let uw = dot_s(u, w);
    assert(uw == tdiv((cs.x as int) * ONE, ll) * w.x + tdiv((cs.y as int) * ONE, ll) * w.y
        + tdiv((cs.z as int) * ONE, ll) * w.z);
    assert(-3 * ((ONE as int) * (ONE as int)) - 3 * (ll * (ONE as int)) <= uw * ll <= 3 * ((
    ONE as int) * (ONE as int)) + 3 * (ll * (ONE as int)));
    assert(3 * ((ONE as int) * (ONE as int)) <= 3 * (ll * (ONE as int))) by (nonlinear_arith)
        requires ll >= ONE as int, ONE == 65536;
    assert(-6 * (ONE as int) <= uw <= 6 * (ONE as int)) by (nonlinear_arith)
        requires
            -6 * (ll * (ONE as int)) <= uw * ll <= 6 * (ll * (ONE as int)),
            ll >= ONE as int,
            ONE == 65536;
    // v is the once-divided cross of w and u, each orthogonal to it exactly.
    let v = cross_unit(w, u);
    assert(-((2 * (ONE as int)) * (ONE as int)) <= cross_sx(w, u) <= (2 * (ONE as int)) * (
    ONE as int) && -((2 * (ONE as int)) * (ONE as int)) <= cross_sy(w, u) <= (2 * (ONE as int))
        * (ONE as int) && -((2 * (ONE as int)) * (ONE as int)) <= cross_sz(w, u) <= (2 * (
    ONE as int)) * (ONE as int)) by (nonlinear_arith)
        requires
            -(ONE as int) <= w.x <= ONE as int,
            -(ONE as int) <= w.y <= ONE as int,
            -(ONE as int) <= w.z <= ONE as int,
            -(ONE as int) <= u.x <= ONE as int,
            -(ONE as int) <= u.y <= ONE as int,
            -(ONE as int) <= u.z <= ONE as int,
            cross_sx(w, u) == w.y * u.z - w.z * u.y,
            cross_sy(w, u) == -(w.x * u.z - w.z * u.x),
            cross_sz(w, u) == w.x * u.y - w.y * u.x;
    lemma_tdiv_le(cross_sx(w, u), ONE as int, 2 * (ONE as int));
    lemma_tdiv_le(cross_sy(w, u), ONE as int, 2 * (ONE as int));
    lemma_tdiv_le(cross_sz(w, u), ONE as int, 2 * (ONE as int));
    lemma_cross_perp(w, u);
    lemma_tdiv_dot_err(cross_sx(w, u), cross_sy(w, u), cross_sz(w, u), w.x as int, w.y as int,
        w.z as int, ONE as int, ONE as int);
    let vw = dot_s(v, w);
    assert(-3 * ((ONE as int) * (ONE as int)) <= vw * ONE <= 3 * ((ONE as int) * (ONE as int)));
    assert(-3 * (ONE as int) <= vw <= 3 * (ONE as int)) by (nonlinear_arith)
        requires
            -3 * ((ONE as int) * (ONE as int)) <= vw * ONE <= 3 * ((ONE as int) * (ONE as int)),
            ONE == 65536;
    lemma_tdiv_dot_err(cross_sx(w, u), cross_sy(w, u), cross_sz(w, u), u.x as int, u.y as int,
        u.z as int, ONE as int, ONE as int);
    let vu = dot_s(v, u);
    assert(-3 * ((ONE as int) * (ONE as int)) <= vu * ONE <= 3 * ((ONE as int) * (ONE as int)));
    assert(-3 * (ONE as int) <= vu <= 3 * (ONE as int)) by (nonlinear_arith)
        requires
            -3 * ((ONE as int) * (ONE as int)) <= vu * ONE <= 3 * ((ONE as int) * (ONE as int)),
            ONE == 65536;
}

} // verus!
