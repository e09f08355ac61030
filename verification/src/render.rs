//! The integrator and the framebuffer pipeline.
//!
//! `color` estimates the radiance a ray carries: scatter at the nearest
//! hit while the depth budget lasts, and fall back to the sky gradient on
//! a miss. `render_row` accumulates jittered samples per pixel, averages,
//! gamma-encodes and quantizes one image row; `render` walks the rows in
//! output order (top first), each with its own seed, so the result is the
//! same whatever order the rows are computed in. `ppm_bytes` lays the
//! quantized image out in the plain-text image format.

use vstd::prelude::*;
use crate::fixed::{tdiv, sqrt_s, is_isqrt, ONE, tdiv64, isqrt64, lemma_tdiv_le, lemma_sqrt,
    lemma_sqrt_unique, lemma_sqrt_le};
use crate::vec3::{Vec3, bounded, sq_s, unit_cy, unit_vector};
use crate::ray::Ray;
use crate::hitable::{Hitable, HitRecord};
use crate::hitable_list::HitableList;
use crate::material::{scatter, color_wf};
use crate::camera::{Camera, cam_wf};
use crate::rng::RngStream;

verus! {

/// The lower end of every intersection window, suppressing self-hits.
pub const T_MIN: i64 = 66;

/// The upper end of a fresh intersection window: farther than any scene.
pub const T_INF: i64 = 0x4000_0000_0000_0000;

/// One channel of the sky gradient: white blended toward the horizon
/// color by `t = (unit(direction).y + 1) / 2`.
pub open spec fn sky_c(dir: Vec3, horizon: i64) -> int {
    let t = tdiv(unit_cy(dir) + ONE, 2);
    tdiv((ONE - t) * ONE, ONE as int) + tdiv(t * horizon, ONE as int)
}

/// The blue a missed ray fades to, per channel.
pub const SKY_R: i64 = 32768;

pub const SKY_G: i64 = 45875;

pub const SKY_B: i64 = 65536;

/// The radiance carried back along a ray: black once the ray is absorbed
/// or the bounce budget is spent, the sky gradient on a miss, and
/// otherwise the scattered radiance filtered by the material's
/// attenuation. Every channel stays within [0, 1]; the trace counter
/// grows by at most one per bounce level. A ray with a zero direction is
/// treated as absorbed rather than aborting the row.
pub fn color(r: &Ray, world: &HitableList, depth: i32, rng: &mut RngStream, ray_count: &mut i64)
    -> (c: Vec3)
    requires
        world.wf(),
        bounded(r.origin, 0x2000_0000),
        bounded(r.direction, 0x2000_0000),
        0 <= depth <= 50,
        0 <= *old(ray_count),
        *old(ray_count) + 51 - depth <= 0x7fff_ffff_ffff_ffff,
    ensures
        0 <= c.x <= ONE,
        0 <= c.y <= ONE,
        0 <= c.z <= ONE,
        *old(ray_count) <= *final(ray_count),
        *final(ray_count) <= *old(ray_count) + 51 - depth,
        sq_s(r.direction) > 0 && world.hit_rec(*r, T_MIN, T_INF) is None ==> c == (Vec3 {
            x: sky_c(r.direction, SKY_R) as i64,
            y: sky_c(r.direction, SKY_G) as i64,
            z: sky_c(r.direction, SKY_B) as i64,
        }),
        sq_s(r.direction) == 0 ==> c == (Vec3 { x: 0, y: 0, z: 0 }),
        depth == 50 && sq_s(r.direction) > 0 && world.hit_rec(*r, T_MIN, T_INF) is Some ==> c
            == (Vec3 { x: 0, y: 0, z: 0 }),
        sq_s(r.direction) == 0 || world.hit_rec(*r, T_MIN, T_INF) is None ==> *final(ray_count)
            == *old(ray_count),
        sq_s(r.direction) > 0 && world.hit_rec(*r, T_MIN, T_INF) is Some ==> *final(ray_count)
            >= *old(ray_count) + 1,
    decreases 50 - depth,
{
    let sq = r.direction.squared_length();
    if sq == 0 {
        return Vec3 { x: 0, y: 0, z: 0 };
    }
    let mut rec = HitRecord::new();
    if world.hit(r, T_MIN, T_INF, &mut rec) {
        *ray_count = *ray_count + 1;
        if depth < 50 {
            let mut attenuation = Vec3 { x: 0, y: 0, z: 0 };
            let mut scattered = Ray {
                origin: Vec3 { x: 0, y: 0, z: 0 },
                direction: Vec3 { x: 0, y: 0, z: 0 },
            };
            if scatter(r, &rec, &mut attenuation, &mut scattered, rng) {
                proof {
                    assert(color_wf(attenuation));
                }
                let rest = color(&scattered, world, depth + 1, rng, ray_count);
                return channel_product(attenuation, rest);
            }
        }
        Vec3 { x: 0, y: 0, z: 0 }
    } else {
        sky_color(&r.direction)
    }
}

/// The sky gradient for a nonzero direction.
fn sky_color(dir: &Vec3) -> (c: Vec3)
    requires
        bounded(*dir, 0x2000_0000),
        sq_s(*dir) > 0,
    ensures
        c.x == sky_c(*dir, SKY_R),
        c.y == sky_c(*dir, SKY_G),
        c.z == sky_c(*dir, SKY_B),
        0 <= c.x <= ONE,
        0 <= c.y <= ONE,
        0 <= c.z <= ONE,
{
    let ud = unit_vector(*dir);
    let t = tdiv64(ud.y + ONE, 2);
    proof {
        lemma_tdiv_le(ud.y + ONE, 2, ONE as int);
        vstd::arithmetic::div_mod::lemma_div_pos_is_pos(ud.y + ONE, 2);
    }
    let x = sky_channel(t, SKY_R);
    let y = sky_channel(t, SKY_G);
    let z = sky_channel(t, SKY_B);
    Vec3 { x, y, z }
}

/// One channel of the gradient: `(1 - t) + t * horizon`, in [0, 1].
fn sky_channel(t: i64, horizon: i64) -> (c: i64)
    requires
        0 <= t <= ONE,
        0 <= horizon <= ONE,
    ensures
        c == tdiv((ONE - t) * ONE, ONE as int) + tdiv(t * horizon, ONE as int),
        0 <= c <= ONE,
{
    proof {
        assert(0 <= (ONE - t) * ONE <= (ONE as int) * (ONE as int)) by (nonlinear_arith)
            requires 0 <= t <= ONE as int, ONE == 65536;
        assert(0 <= t * horizon <= t * (ONE as int)) by (nonlinear_arith)
            requires 0 <= t, 0 <= horizon <= ONE as int;
        vstd::arithmetic::div_mod::lemma_div_by_multiple(ONE - t, ONE as int);
        assert((ONE - t) * ONE == ((ONE - t)) * (ONE as int));
        vstd::arithmetic::div_mod::lemma_div_pos_is_pos((ONE - t) * ONE, ONE as int);
        vstd::arithmetic::div_mod::lemma_div_pos_is_pos(t * horizon, ONE as int);
        lemma_tdiv_le(t * horizon, ONE as int, t as int);
        assert((t as int) * (ONE as int) >= t * horizon) by (nonlinear_arith)
            requires 0 <= horizon <= ONE as int, t >= 0;
    }
    let a = tdiv64((ONE - t) * ONE, ONE);
    let b = tdiv64(t * horizon, ONE);
    a + b
}

/// The channelwise product of two colors within [0, 1] stays within it.
fn channel_product(a: Vec3, b: Vec3) -> (c: Vec3)
    requires
        color_wf(a),
        color_wf(b),
    ensures
        c.x == tdiv(a.x * b.x, ONE as int),
        c.y == tdiv(a.y * b.y, ONE as int),
        c.z == tdiv(a.z * b.z, ONE as int),
        color_wf(c),
{
    proof {
        assert(0 <= a.x * b.x <= (ONE as int) * (ONE as int) && 0 <= a.y * b.y <= (ONE as int) * (
        ONE as int) && 0 <= a.z * b.z <= (ONE as int) * (ONE as int)) by (nonlinear_arith)
            requires
                0 <= a.x <= ONE as int,
                0 <= a.y <= ONE as int,
                0 <= a.z <= ONE as int,
                0 <= b.x <= ONE as int,
                0 <= b.y <= ONE as int,
                0 <= b.z <= ONE as int;
        lemma_tdiv_le(a.x * b.x, ONE as int, ONE as int);
        lemma_tdiv_le(a.y * b.y, ONE as int, ONE as int);
        lemma_tdiv_le(a.z * b.z, ONE as int, ONE as int);
        vstd::arithmetic::div_mod::lemma_div_pos_is_pos(a.x * b.x, ONE as int);
        vstd::arithmetic::div_mod::lemma_div_pos_is_pos(a.y * b.y, ONE as int);
        vstd::arithmetic::div_mod::lemma_div_pos_is_pos(a.z * b.z, ONE as int);
    }
    let r = a.mul(b);
    r
}

/// Gamma-2 encoding of an averaged channel: the square root at scale ONE.
pub fn gamma_encode(avg: i64) -> (g: i64)
    requires
        0 <= avg <= ONE,
    ensures
        g == sqrt_s((avg * ONE) as int),
        0 <= g <= ONE,
{
    let g = isqrt64(avg * ONE);
    proof {
        lemma_sqrt_le((avg * ONE) as int, ((ONE as int) * (ONE as int)) as int);
        assert(is_isqrt((ONE as int) * (ONE as int), ONE as int)) by (nonlinear_arith)
            requires ONE == 65536;
        lemma_sqrt((ONE as int) * (ONE as int));
        lemma_sqrt_unique((ONE as int) * (ONE as int), sqrt_s((ONE as int) * (ONE as int)),
            ONE as int);
    }
    g
}

/// The canonical 8-bit quantization: `floor(value * 255.99)` clamped.
pub open spec fn quantize_s(g: int) -> int {
    let q = tdiv(g * 25599, 6553600);
    if q < 0 {
        0
    } else if q > 255 {
        255
    } else {
        q
    }
}

/// Quantizes a gamma-encoded channel in [0, 1] to an 8-bit value.
pub fn quantize(g: i64) -> (q: u8)
    requires
        0 <= g <= ONE,
    ensures
        q == quantize_s(g as int),
{
    proof {
        assert(0 <= g * 25599 <= 256 * 6553600) by (nonlinear_arith)
            requires 0 <= g <= 65536;
        lemma_tdiv_le(g * 25599, 6553600, 256);
        vstd::arithmetic::div_mod::lemma_div_pos_is_pos(g * 25599, 6553600);
    }
    let q = tdiv64(g * 25599, 6553600);
    if q > 255 {
        255
    } else {
        q as u8
    }
}

/// Renders one image row: `samples` jittered rays per pixel, averaged,
/// gamma-encoded and quantized. The row's random stream comes only from
/// `seed`, so the row does not depend on when or where it is computed.
/// Returns the pixels left to right and the number of rays traced.
pub fn render_row(
    j: usize,
    width: usize,
    height: usize,
    samples: u32,
    cam: &Camera,
    world: &HitableList,
    seed: u64,
) -> (res: (Vec<(u8, u8, u8)>, i64))
    requires
        cam_wf(*cam),
        world.wf(),
        1 <= width <= 4096,
        1 <= height <= 4096,
        j < height,
        1 <= samples <= 65536,
    ensures
        res.0.len() == width,
        0 <= res.1 <= (width as int) * (samples as int) * 51,
{
    let mut rng = RngStream::from_seed(seed);
    let mut row: Vec<(u8, u8, u8)> = Vec::new();
    let mut rays: i64 = 0;
    let mut i: usize = 0;
    while i < width
        invariant
            cam_wf(*cam),
            world.wf(),
            1 <= width <= 4096,
            1 <= height <= 4096,
            j < height,
            1 <= samples <= 65536,
            i <= width,
            row.len() == i,
            0 <= rays <= (i as int) * (samples as int) * 51,
        decreases width - i,
    {
        let mut col = Vec3 { x: 0, y: 0, z: 0 };
        let mut s: u32 = 0;
        while s < samples
            invariant
                cam_wf(*cam),
                world.wf(),
                1 <= width <= 4096,
                1 <= height <= 4096,
                i < width,
                j < height,
                1 <= samples <= 65536,
                s <= samples,
                0 <= col.x <= (s as int) * (ONE as int),
                0 <= col.y <= (s as int) * (ONE as int),
                0 <= col.z <= (s as int) * (ONE as int),
                0 <= rays,
                rays <= ((i as int) * (samples as int) + s as int) * 51,
            decreases samples - s,
        {
            let ju = rng.gen_range_i64(0, ONE);
            let jv = rng.gen_range_i64(0, ONE);
            let nu: i64 = (i as i64) * ONE + ju;
            let nv: i64 = (j as i64) * ONE + jv;
            proof {
                assert(0 <= nu <= (ONE as int) * (width as int)) by (nonlinear_arith)
                    requires
                        0 <= i < width,
                        0 <= ju < ONE as int,
                        nu == (i as int) * (ONE as int) + ju,
                        ONE == 65536;
                assert(0 <= nv <= (ONE as int) * (height as int)) by (nonlinear_arith)
                    requires
                        0 <= j < height,
                        0 <= jv < ONE as int,
                        nv == (j as int) * (ONE as int) + jv,
                        ONE == 65536;
                lemma_tdiv_le(nu as int, width as int, ONE as int);
                lemma_tdiv_le(nv as int, height as int, ONE as int);
                vstd::arithmetic::div_mod::lemma_div_pos_is_pos(nu as int, width as int);
                vstd::arithmetic::div_mod::lemma_div_pos_is_pos(nv as int, height as int);
            }
            let u = tdiv64(nu, width as i64);
            let v = tdiv64(nv, height as i64);
            let ray = cam.get_ray(u, v, &mut rng);
            proof {
                assert(rays + 51 <= 0x7fff_ffff_ffff_ffff) by (nonlinear_arith)
                    requires
                        0 <= rays,
                        rays <= ((i as int) * (samples as int) + s as int) * 51,
                        0 <= i <= 4096,
                        1 <= samples <= 65536,
                        0 <= s <= 65536;
            }
            let ghost rays0 = rays;
            let c = color(&ray, world, 0, &mut rng, &mut rays);
            proof {
                assert(rays <= rays0 + 51);
                assert((((i as int) * (samples as int)) + s as int) * 51 + 51 == (((i as int) * (
                samples as int)) + (s + 1) as int) * 51) by (nonlinear_arith);
            }
            col = Vec3 { x: col.x + c.x, y: col.y + c.y, z: col.z + c.z };
            proof {
                assert((s as int) * (ONE as int) + ONE as int == ((s + 1) as int) * (ONE as int))
                    by (nonlinear_arith);
            }
            s = s + 1;
        }
        proof {
            lemma_tdiv_le(col.x as int, samples as int, ONE as int);
            lemma_tdiv_le(col.y as int, samples as int, ONE as int);
            lemma_tdiv_le(col.z as int, samples as int, ONE as int);
            assert((ONE as int) * (samples as int) >= (samples as int) * (ONE as int))
                by (nonlinear_arith);
            vstd::arithmetic::div_mod::lemma_div_pos_is_pos(col.x as int, samples as int);
            vstd::arithmetic::div_mod::lemma_div_pos_is_pos(col.y as int, samples as int);
            vstd::arithmetic::div_mod::lemma_div_pos_is_pos(col.z as int, samples as int);
        }
        let ax = tdiv64(col.x, samples as i64);
        let ay = tdiv64(col.y, samples as i64);
        let az = tdiv64(col.z, samples as i64);
        let pr = quantize(gamma_encode(ax));
        let pg = quantize(gamma_encode(ay));
        let pb = quantize(gamma_encode(az));
        row.push((pr, pg, pb));
        proof {
            assert(((i as int) * (samples as int) + samples as int) * 51 == ((i + 1) as int) * (
            samples as int) * 51) by (nonlinear_arith);
        }
        i = i + 1;
    }
    proof {
        assert((i as int) * (samples as int) * 51 <= (width as int) * (samples as int) * 51)
            by (nonlinear_arith)
            requires 0 <= i <= width, 1 <= samples;
    }
    (row, rays)
}

/// Renders the whole image, rows in output order (top of the image
/// first): the row at internal height `j` uses the seed `base_seed + j`,
/// so the image is a function of the scene, camera, sample count and
/// seed alone, whatever order or worker count computes the rows.
pub fn render(
    width: usize,
    height: usize,
    samples: u32,
    cam: &Camera,
    world: &HitableList,
    base_seed: u64,
) -> (res: (Vec<Vec<(u8, u8, u8)>>, i64))
    requires
        cam_wf(*cam),
        world.wf(),
        1 <= width <= 4096,
        1 <= height <= 4096,
        1 <= samples <= 65536,
        base_seed + height <= 0xffff_ffff_ffff_ffff,
    ensures
        res.0.len() == height,
        forall|k: int| 0 <= k < height ==> (#[trigger] res.0[k]@).len() == width,
        0 <= res.1,
{
    let mut rows: Vec<Vec<(u8, u8, u8)>> = Vec::new();
    let mut total: i64 = 0;
    let mut jj: usize = 0;
    while jj < height
        invariant
            cam_wf(*cam),
            world.wf(),
            1 <= width <= 4096,
            1 <= height <= 4096,
            1 <= samples <= 65536,
            base_seed + height <= 0xffff_ffff_ffff_ffff,
            jj <= height,
            rows.len() == jj,
            forall|k: int| 0 <= k < jj ==> (#[trigger] rows[k]@).len() == width,
            0 <= total <= (jj as int) * 0x1000_0000_0000,
        decreases height - jj,
    {
        let j = height - 1 - jj;
        let (row, cnt) = render_row(j, width, height, samples, cam, world, base_seed + (
        j as u64));
        proof {
            lemma_row_count_bound(width as int, samples as int, cnt as int);
            assert((jj as int) * 0x1000_0000_0000 + 0x1000_0000_0000 == ((jj + 1) as int)
                * 0x1000_0000_0000) by (nonlinear_arith);
        }
        rows.push(row);
        total = total + cnt;
        jj = jj + 1;
    }
    (rows, total)
}

/// A single row traces at most `width * samples * 51` rays, which is
/// within 2^44 for the accepted dimensions.
proof fn lemma_row_count_bound(width: int, samples: int, cnt: int)
    requires
        1 <= width <= 4096,
        1 <= samples <= 65536,
        0 <= cnt,
        cnt <= width * samples * 51,
    ensures
        cnt <= 0x1000_0000_0000,
{
    assert(width * samples * 51 <= 0x1000_0000_0000) by (nonlinear_arith)
        requires 1 <= width <= 4096, 1 <= samples <= 65536;
}

} // verus!
