//! Three-component vectors over fixed-point scalars.
//!
//! Componentwise sums and differences, `dot`, `cross` and `squared_length`
//! are exact integer operations (a dot of two scale-ONE vectors carries
//! scale ONE^2). `mul`, `div` and `scale` divide the result back down to the
//! scale of their left operand; `length` is the floor square root of the
//! squared length, so a scale-ONE vector has a scale-ONE length.

use vstd::prelude::*;
use crate::fixed::{
    tdiv, sqrt_s, is_isqrt, ONE, tdiv64, tdiv128, tdiv128_any, isqrt64, mul64,
    lemma_tdiv_le, lemma_sqrt, lemma_sqrt_le, lemma_sqrt_unique, lemma_tdiv_mul_le,
};
use crate::rng::RngStream;

verus! {

#[derive(Clone, Copy, Debug, PartialEq, Eq, Structural)]
pub struct Vec3 {
    pub x: i64,
    pub y: i64,
    pub z: i64,
}

/// Every component of `v` lies in `[-b, b]`.
pub open spec fn bounded(v: Vec3, b: int) -> bool {
    &&& -b <= v.x <= b
    &&& -b <= v.y <= b
    &&& -b <= v.z <= b
}

/// The exact inner product (scale ONE^2 for two scale-ONE vectors).
pub open spec fn dot_s(a: Vec3, b: Vec3) -> int {
    a.x * b.x + a.y * b.y + a.z * b.z
}

/// The exact squared length (scale ONE^2 for a scale-ONE vector).
pub open spec fn sq_s(v: Vec3) -> int {
    v.x * v.x + v.y * v.y + v.z * v.z
}

/// Components of the exact cross product (scale ONE^2).
pub open spec fn cross_sx(a: Vec3, b: Vec3) -> int {
    a.y * b.z - a.z * b.y
}

pub open spec fn cross_sy(a: Vec3, b: Vec3) -> int {
    -(a.x * b.z - a.z * b.x)
}

pub open spec fn cross_sz(a: Vec3, b: Vec3) -> int {
    a.x * b.y - a.y * b.x
}

/// Components of the normalized vector: `v * ONE / length(v)`.
pub open spec fn unit_cx(v: Vec3) -> int {
    tdiv(v.x * ONE, sqrt_s(sq_s(v)))
}

pub open spec fn unit_cy(v: Vec3) -> int {
    tdiv(v.y * ONE, sqrt_s(sq_s(v)))
}

pub open spec fn unit_cz(v: Vec3) -> int {
    tdiv(v.z * ONE, sqrt_s(sq_s(v)))
}

/// The normalized vector, assembled from its components.
pub open spec fn unit_v(v: Vec3) -> Vec3 {
    Vec3 { x: unit_cx(v) as i64, y: unit_cy(v) as i64, z: unit_cz(v) as i64 }
}

/// The componentwise negation.
pub open spec fn neg_v(v: Vec3) -> Vec3 {
    Vec3 { x: (-v.x) as i64, y: (-v.y) as i64, z: (-v.z) as i64 }
}

/// The componentwise difference.
pub open spec fn sub_v(a: Vec3, b: Vec3) -> Vec3 {
    Vec3 { x: (a.x - b.x) as i64, y: (a.y - b.y) as i64, z: (a.z - b.z) as i64 }
}

/// The exact cross product, assembled from its components.
pub open spec fn cross_v(a: Vec3, b: Vec3) -> Vec3 {
    Vec3 { x: cross_sx(a, b) as i64, y: cross_sy(a, b) as i64, z: cross_sz(a, b) as i64 }
}

/// The cross product of two scale-ONE vectors, divided back to scale ONE.
pub open spec fn cross_unit(a: Vec3, b: Vec3) -> Vec3 {
    Vec3 {
        x: tdiv(cross_sx(a, b), ONE as int) as i64,
        y: tdiv(cross_sy(a, b), ONE as int) as i64,
        z: tdiv(cross_sz(a, b), ONE as int) as i64,
    }
}

/// Components of the exact reflection numerator `v*ONE^2 - 2*dot(v,n)*n`,
/// at scale ONE^3 for a scale-ONE `v` and a unit `n`.
pub open spec fn reflect_sx(v: Vec3, n: Vec3) -> int {
    v.x * ONE * ONE - 2 * dot_s(v, n) * n.x
}

pub open spec fn reflect_sy(v: Vec3, n: Vec3) -> int {
    v.y * ONE * ONE - 2 * dot_s(v, n) * n.y
}

pub open spec fn reflect_sz(v: Vec3, n: Vec3) -> int {
    v.z * ONE * ONE - 2 * dot_s(v, n) * n.z
}

impl Vec3 {
    pub fn new(x: i64, y: i64, z: i64) -> (r: Vec3)
        ensures
            r == (Vec3 { x, y, z }),
    {
        Vec3 { x, y, z }
    }

    pub fn x(&self) -> (r: i64)
        ensures
            r == self.x,
    {
        self.x
    }

    pub fn y(&self) -> (r: i64)
        ensures
            r == self.y,
    {
        self.y
    }

    pub fn z(&self) -> (r: i64)
        ensures
            r == self.z,
    {
        self.z
    }

    pub fn r(&self) -> (r: i64)
        ensures
            r == self.x,
    {
        self.x
    }

    pub fn g(&self) -> (r: i64)
        ensures
            r == self.y,
    {
        self.y
    }

    pub fn b(&self) -> (r: i64)
        ensures
            r == self.z,
    {
        self.z
    }

    /// The exact squared length, scale ONE^2.
    pub fn squared_length(&self) -> (r: i64)
        requires
            bounded(*self, 0x4000_0000),
        ensures
            r == sq_s(*self),
            0 <= r,
    {
        proof {
            lemma_sq_bound(*self, 0x4000_0000);
        }
        self.x * self.x + self.y * self.y + self.z * self.z
    }

    /// The floor of the length: scale ONE for a scale-ONE vector.
    pub fn length(&self) -> (r: i64)
        requires
            bounded(*self, 0x4000_0000),
        ensures
            r == sqrt_s(sq_s(*self)),
            is_isqrt(sq_s(*self), r as int),
    {
        let q = self.squared_length();
        isqrt64(q)
    }

    /// Normalizes in place; see `unit_vector`.
    pub fn make_unit_vector(&mut self)
        requires
            bounded(*old(self), 0x4000_0000),
            sq_s(*old(self)) > 0,
        ensures
            final(self).x == unit_cx(*old(self)),
            final(self).y == unit_cy(*old(self)),
            final(self).z == unit_cz(*old(self)),
            bounded(*final(self), ONE as int),
    {
        *self = unit_vector(*self);
    }

    pub fn neg(self) -> (r: Vec3)
        requires
            self.x > i64::MIN,
            self.y > i64::MIN,
            self.z > i64::MIN,
        ensures
            r.x == -self.x,
            r.y == -self.y,
            r.z == -self.z,
    {
        Vec3 { x: -self.x, y: -self.y, z: -self.z }
    }

    pub fn add(self, v2: Vec3) -> (r: Vec3)
        requires
            i64::MIN <= self.x + v2.x <= i64::MAX,
            i64::MIN <= self.y + v2.y <= i64::MAX,
            i64::MIN <= self.z + v2.z <= i64::MAX,
        ensures
            r.x == self.x + v2.x,
            r.y == self.y + v2.y,
            r.z == self.z + v2.z,
    {
        Vec3 { x: self.x + v2.x, y: self.y + v2.y, z: self.z + v2.z }
    }

    pub fn sub(self, v2: Vec3) -> (r: Vec3)
        requires
            i64::MIN <= self.x - v2.x <= i64::MAX,
            i64::MIN <= self.y - v2.y <= i64::MAX,
            i64::MIN <= self.z - v2.z <= i64::MAX,
        ensures
            r.x == self.x - v2.x,
            r.y == self.y - v2.y,
            r.z == self.z - v2.z,
    {
        Vec3 { x: self.x - v2.x, y: self.y - v2.y, z: self.z - v2.z }
    }

    /// The componentwise fixed-point product: `r = self * v2 / ONE`.
    pub fn mul(self, v2: Vec3) -> (r: Vec3)
        requires
            bounded(self, 0x80_0000_0000),
            bounded(v2, 0x80_0000_0000),
        ensures
            r.x == tdiv(self.x * v2.x, ONE as int),
            r.y == tdiv(self.y * v2.y, ONE as int),
            r.z == tdiv(self.z * v2.z, ONE as int),
    {
        let x = fp_mul(self.x, v2.x);
        let y = fp_mul(self.y, v2.y);
        let z = fp_mul(self.z, v2.z);
        Vec3 { x, y, z }
    }

    /// The componentwise fixed-point quotient: `r = self * ONE / v2`.
    pub fn div(self, v2: Vec3) -> (r: Vec3)
        requires
            bounded(self, 0x80_0000_0000),
            v2.x != 0,
            v2.y != 0,
            v2.z != 0,
        ensures
            r.x == tdiv(self.x * ONE, v2.x as int),
            r.y == tdiv(self.y * ONE, v2.y as int),
            r.z == tdiv(self.z * ONE, v2.z as int),
    {
        let x = fp_div(self.x, v2.x);
        let y = fp_div(self.y, v2.y);
        let z = fp_div(self.z, v2.z);
        Vec3 { x, y, z }
    }

    /// The fixed-point scalar product: `r = self * t / ONE`.
    pub fn scale(self, t: i64) -> (r: Vec3)
        requires
            bounded(self, 0x80_0000_0000),
            -0x80_0000_0000 <= t <= 0x80_0000_0000,
        ensures
            r.x == tdiv(self.x * t, ONE as int),
            r.y == tdiv(self.y * t, ONE as int),
            r.z == tdiv(self.z * t, ONE as int),
    {
        let x = fp_mul(self.x, t);
        let y = fp_mul(self.y, t);
        let z = fp_mul(self.z, t);
        Vec3 { x, y, z }
    }

    pub fn add_assign(&mut self, v2: Vec3)
        requires
            i64::MIN <= old(self).x + v2.x <= i64::MAX,
            i64::MIN <= old(self).y + v2.y <= i64::MAX,
            i64::MIN <= old(self).z + v2.z <= i64::MAX,
        ensures
            final(self).x == old(self).x + v2.x,
            final(self).y == old(self).y + v2.y,
            final(self).z == old(self).z + v2.z,
    {
        self.x = self.x + v2.x;
        self.y = self.y + v2.y;
        self.z = self.z + v2.z;
    }

    pub fn sub_assign(&mut self, v2: Vec3)
        requires
            i64::MIN <= old(self).x - v2.x <= i64::MAX,
            i64::MIN <= old(self).y - v2.y <= i64::MAX,
            i64::MIN <= old(self).z - v2.z <= i64::MAX,
        ensures
            final(self).x == old(self).x - v2.x,
            final(self).y == old(self).y - v2.y,
            final(self).z == old(self).z - v2.z,
    {
        self.x = self.x - v2.x;
        self.y = self.y - v2.y;
        self.z = self.z - v2.z;
    }

    pub fn mul_assign(&mut self, v2: Vec3)
        requires
            bounded(*old(self), 0x80_0000_0000),
            bounded(v2, 0x80_0000_0000),
        ensures
            final(self).x == tdiv(old(self).x * v2.x, ONE as int),
            final(self).y == tdiv(old(self).y * v2.y, ONE as int),
            final(self).z == tdiv(old(self).z * v2.z, ONE as int),
    {
        *self = self.mul(v2);
    }

    pub fn div_assign(&mut self, v2: Vec3)
        requires
            bounded(*old(self), 0x80_0000_0000),
            v2.x != 0,
            v2.y != 0,
            v2.z != 0,
        ensures
            final(self).x == tdiv(old(self).x * ONE, v2.x as int),
            final(self).y == tdiv(old(self).y * ONE, v2.y as int),
            final(self).z == tdiv(old(self).z * ONE, v2.z as int),
    {
        *self = self.div(v2);
    }
}

/// One fixed-point scalar product: `a * b / ONE`, truncated.
fn fp_mul(a: i64, b: i64) -> (r: i64)
    requires
        -0x80_0000_0000 <= a <= 0x80_0000_0000,
        -0x80_0000_0000 <= b <= 0x80_0000_0000,
    ensures
        r == tdiv(a * b, ONE as int),
{
    let p = mul64(a, b);
    let q = tdiv128(p, ONE as i128);
    proof {
        assert(-0x80_0000_0000i128 * 0x80_0000_0000i128 <= a * b <= 0x80_0000_0000i128
            * 0x80_0000_0000i128) by (nonlinear_arith)
            requires
                -0x80_0000_0000 <= a <= 0x80_0000_0000,
                -0x80_0000_0000 <= b <= 0x80_0000_0000;
        lemma_tdiv_le(a * b, ONE as int, 0x80_0000_0000i128 * 0x80_0000_0000i128 / 65536);
    }
    q as i64
}

/// One fixed-point scalar quotient: `a * ONE / b`, truncated.
fn fp_div(a: i64, b: i64) -> (r: i64)
    requires
        -0x80_0000_0000 <= a <= 0x80_0000_0000,
        b != 0,
    ensures
        r == tdiv(a * ONE, b as int),
{
    let p = mul64(a, ONE);
    let q = tdiv128_any(p, b as i128);
    proof {
        let c = 0x80_0000_0000 * (ONE as int);
        assert(-c <= a * ONE <= c) by (nonlinear_arith)
            requires -0x80_0000_0000 <= a <= 0x80_0000_0000, ONE == 65536, c == 0x80_0000_0000 * (ONE as int);
        let bb = if b > 0 { b as int } else { -(b as int) };
        assert(c <= c * bb) by (nonlinear_arith)
            requires bb >= 1, c >= 0;
        if b > 0 {
            lemma_tdiv_le(a * ONE, bb, c);
        } else {
            crate::fixed::lemma_tdiv_neg_divisor(a * ONE, b as int);
            lemma_tdiv_le(a * ONE, bb, c);
        }
    }
    q as i64
}

/// Componentwise products of a vector bounded by `b` are bounded by `3*b*b`.
pub proof fn lemma_sq_bound(v: Vec3, b: int)
    requires
        bounded(v, b),
        b >= 0,
    ensures
        0 <= v.x * v.x <= b * b,
        0 <= v.y * v.y <= b * b,
        0 <= v.z * v.z <= b * b,
        0 <= sq_s(v) <= 3 * b * b,
{
    assert(0 <= v.x * v.x <= b * b && 0 <= v.y * v.y <= b * b && 0 <= v.z * v.z <= b * b)
        by (nonlinear_arith)
        requires -b <= v.x <= b, -b <= v.y <= b, -b <= v.z <= b, b >= 0;
    assert(3 * b * b == b * b + b * b + b * b) by (nonlinear_arith);
}

/// Each product in a dot of vectors bounded by `b1`, `b2` is within `b1*b2`.
pub proof fn lemma_dot_bound(a: Vec3, b: Vec3, b1: int, b2: int)
    requires
        bounded(a, b1),
        bounded(b, b2),
        b1 >= 0,
        b2 >= 0,
    ensures
        -(b1 * b2) <= a.x * b.x <= b1 * b2,
        -(b1 * b2) <= a.y * b.y <= b1 * b2,
        -(b1 * b2) <= a.z * b.z <= b1 * b2,
        -(3 * b1 * b2) <= dot_s(a, b) <= 3 * b1 * b2,
{
    assert(-(b1 * b2) <= a.x * b.x <= b1 * b2 && -(b1 * b2) <= a.y * b.y <= b1 * b2
        && -(b1 * b2) <= a.z * b.z <= b1 * b2) by (nonlinear_arith)
        requires
            -b1 <= a.x <= b1, -b1 <= a.y <= b1, -b1 <= a.z <= b1,
            -b2 <= b.x <= b2, -b2 <= b.y <= b2, -b2 <= b.z <= b2,
            b1 >= 0, b2 >= 0;
    assert(3 * b1 * b2 == b1 * b2 + b1 * b2 + b1 * b2) by (nonlinear_arith);
}

/// The exact inner product, scale ONE^2 for two scale-ONE vectors.
pub fn dot(v1: &Vec3, v2: &Vec3) -> (r: i64)
    requires
        bounded(*v1, 0x4000_0000),
        bounded(*v2, 0x4000_0000),
    ensures
        r == dot_s(*v1, *v2),
{
    proof {
        lemma_dot_bound(*v1, *v2, 0x4000_0000, 0x4000_0000);
    }
    v1.x * v2.x + v1.y * v2.y + v1.z * v2.z
}

/// The exact cross product, scale ONE^2 for two scale-ONE vectors.
pub fn cross(v1: &Vec3, v2: &Vec3) -> (r: Vec3)
    requires
        bounded(*v1, 0x4000_0000),
        bounded(*v2, 0x4000_0000),
    ensures
        r.x == cross_sx(*v1, *v2),
        r.y == cross_sy(*v1, *v2),
        r.z == cross_sz(*v1, *v2),
    {
    proof {
        lemma_dot_bound(*v1, *v2, 0x4000_0000, 0x4000_0000);
        assert(-(0x4000_0000i64 * 0x4000_0000i64) <= v1.y * v2.z <= 0x4000_0000i64 * 0x4000_0000i64
            && -(0x4000_0000i64 * 0x4000_0000i64) <= v1.z * v2.y <= 0x4000_0000i64 * 0x4000_0000i64
            && -(0x4000_0000i64 * 0x4000_0000i64) <= v1.x * v2.z <= 0x4000_0000i64 * 0x4000_0000i64
            && -(0x4000_0000i64 * 0x4000_0000i64) <= v1.z * v2.x <= 0x4000_0000i64 * 0x4000_0000i64
            && -(0x4000_0000i64 * 0x4000_0000i64) <= v1.x * v2.y <= 0x4000_0000i64 * 0x4000_0000i64
            && -(0x4000_0000i64 * 0x4000_0000i64) <= v1.y * v2.x <= 0x4000_0000i64 * 0x4000_0000i64)
            by (nonlinear_arith)
            requires
                -0x4000_0000 <= v1.x <= 0x4000_0000, -0x4000_0000 <= v1.y <= 0x4000_0000,
                -0x4000_0000 <= v1.z <= 0x4000_0000, -0x4000_0000 <= v2.x <= 0x4000_0000,
                -0x4000_0000 <= v2.y <= 0x4000_0000, -0x4000_0000 <= v2.z <= 0x4000_0000;
    }
    Vec3 {
        x: v1.y * v2.z - v1.z * v2.y,
        y: -(v1.x * v2.z - v1.z * v2.x),
        z: v1.x * v2.y - v1.y * v2.x,
    }
}

/// The normalized direction `v * ONE / length(v)`, a scale-ONE vector.
pub fn unit_vector(v: Vec3) -> (r: Vec3)
    requires
        bounded(v, 0x4000_0000),
        sq_s(v) > 0,
    ensures
        r.x == unit_cx(v),
        r.y == unit_cy(v),
        r.z == unit_cz(v),
        r == unit_v(v),
        bounded(r, ONE as int),
{
    let len = v.length();
    proof {
        lemma_unit_component_bounds(v);
    }
    let x = tdiv64_by_len(v.x, len);
    let y = tdiv64_by_len(v.y, len);
    let z = tdiv64_by_len(v.z, len);
    Vec3 { x, y, z }
}

/// `v.c * ONE / len` fits in an `i64` and within `[-ONE, ONE]` when
/// `len = sqrt_s(sq_s(v))` and `|v.c|^2 <= sq_s(v)`.
fn tdiv64_by_len(c: i64, len: i64) -> (r: i64)
    requires
        len >= 1,
        -(len as int) <= c <= len,
    ensures
        r == tdiv(c * ONE, len as int),
        -ONE <= r <= ONE,
{
    let p = mul64(c, ONE);
    let q = tdiv128(p, len as i128);
    proof {
        assert(-(ONE as int) * (len as int) <= c * ONE <= (ONE as int) * (len as int))
            by (nonlinear_arith)
            requires -(len as int) <= c <= len, ONE == 65536;
        lemma_tdiv_le(c * ONE, len as int, ONE as int);
    }
    q as i64
}

/// The components of a normalized vector never pass its length.
proof fn lemma_unit_component_bounds(v: Vec3)
    requires
        bounded(v, 0x4000_0000),
        sq_s(v) > 0,
    ensures
        ({
            let len = sqrt_s(sq_s(v));
            &&& len >= 1
            &&& -len <= v.x <= len
            &&& -len <= v.y <= len
            &&& -len <= v.z <= len
        }),
{
    lemma_sq_bound(v, 0x4000_0000);
    lemma_sqrt(sq_s(v));
    let len = sqrt_s(sq_s(v));
    assert(is_isqrt(sq_s(v), len));
    if len == 0 {
        assert((len + 1) * (len + 1) == 1) by (nonlinear_arith)
            requires len == 0;
        assert(false);
    }
    lemma_component_le_sqrt(v.x as int, sq_s(v), len);
    lemma_component_le_sqrt(v.y as int, sq_s(v), len);
    lemma_component_le_sqrt(v.z as int, sq_s(v), len);
}

/// If `c*c <= q` and `len` is the floor root of `q`, then `|c| <= len`.
pub proof fn lemma_component_le_sqrt(c: int, q: int, len: int)
    requires
        c * c <= q,
        is_isqrt(q, len),
    ensures
        -len <= c <= len,
{
    if c > len {
        assert((len + 1) * (len + 1) <= c * c) by (nonlinear_arith)
            requires 0 <= len, len + 1 <= c;
    }
    if c < -len {
        assert((len + 1) * (len + 1) <= c * c) by (nonlinear_arith)
            requires 0 <= len, c <= -(len + 1);
    }
}

/// The exact reflection numerator `v*ONE^2 - 2*dot(v,n)*n`, scale ONE^3.
pub fn reflect(v: &Vec3, n: &Vec3) -> (r: Vec3)
    requires
        bounded(*v, 4 * (ONE as int)),
        bounded(*n, 4 * (ONE as int)),
    ensures
        r.x == reflect_sx(*v, *n),
        r.y == reflect_sy(*v, *n),
        r.z == reflect_sz(*v, *n),
        bounded(r, 0x200_0000_0000_0000),
{
    let d = dot(v, n);
    proof {
        lemma_dot_bound(*v, *n, 4 * (ONE as int), 4 * (ONE as int));
        assert(ONE as int * (ONE as int) == 0x1_0000_0000) by (nonlinear_arith);
        assert(-0x4_0000i64 * 0x1_0000_0000i64 <= v.x * ONE * ONE <= 0x4_0000i64
            * 0x1_0000_0000i64
            && -0x4_0000i64 * 0x1_0000_0000i64 <= v.y * ONE * ONE <= 0x4_0000i64 * 0x1_0000_0000i64
            && -0x4_0000i64 * 0x1_0000_0000i64 <= v.z * ONE * ONE <= 0x4_0000i64 * 0x1_0000_0000i64)
            by (nonlinear_arith)
            requires
                -0x4_0000 <= v.x <= 0x4_0000,
                -0x4_0000 <= v.y <= 0x4_0000,
                -0x4_0000 <= v.z <= 0x4_0000,
                ONE == 65536;
        assert(-0x60_0000_0000i128 * 0x4_0000i128 <= 2 * dot_s(*v, *n) * n.x <= 0x60_0000_0000i128
            * 0x4_0000i128
            && -0x60_0000_0000i128 * 0x4_0000i128 <= 2 * dot_s(*v, *n) * n.y <= 0x60_0000_0000i128
            * 0x4_0000i128
            && -0x60_0000_0000i128 * 0x4_0000i128 <= 2 * dot_s(*v, *n) * n.z <= 0x60_0000_0000i128
            * 0x4_0000i128) by (nonlinear_arith)
            requires
                -0x30_0000_0000 <= dot_s(*v, *n) <= 0x30_0000_0000,
                -0x4_0000 <= n.x <= 0x4_0000,
                -0x4_0000 <= n.y <= 0x4_0000,
                -0x4_0000 <= n.z <= 0x4_0000;
    }
    let sx = crate::fixed::mul128(mul64(v.x, ONE), ONE as i128);
    let sy = crate::fixed::mul128(mul64(v.y, ONE), ONE as i128);
    let sz = crate::fixed::mul128(mul64(v.z, ONE), ONE as i128);
    let dx = crate::fixed::mul128(2 * (d as i128), n.x as i128);
    let dy = crate::fixed::mul128(2 * (d as i128), n.y as i128);
    let dz = crate::fixed::mul128(2 * (d as i128), n.z as i128);
    let rx = sx - dx;
    let ry = sy - dy;
    let rz = sz - dz;
    Vec3 { x: rx as i64, y: ry as i64, z: rz as i64 }
}

/// A Lambertian bounce target offset, drawn by rejection: a vector strictly
/// inside the unit ball (scale ONE). The draw is retried a bounded number of
/// times; the (practically unreachable) fallback is the center of the ball.
pub fn random_in_unit_sphere(rng: &mut RngStream) -> (r: Vec3)
    ensures
        sq_s(r) < ONE * ONE,
        bounded(r, ONE as int),
{
    let mut i: u32 = 0;
    while i < 10000
        invariant
            true,
        decreases 10000 - i,
    {
        let x = rng.gen_range_i64(-ONE, ONE);
        let y = rng.gen_range_i64(-ONE, ONE);
        let z = rng.gen_range_i64(-ONE, ONE);
        let p = Vec3 { x, y, z };
        proof {
            lemma_sq_bound(p, ONE as int);
        }
        let sq = p.squared_length();
        if sq < ONE * ONE {
            return p;
        }
        i = i + 1;
    }
    Vec3 { x: 0, y: 0, z: 0 }
}

/// A lens offset, drawn by rejection: a vector strictly inside the unit
/// disk of the z = 0 plane (scale ONE), with the same bounded retry.
pub fn random_in_unit_disk(rng: &mut RngStream) -> (r: Vec3)
    ensures
        sq_s(r) < ONE * ONE,
        bounded(r, ONE as int),
        r.z == 0,
{
    let mut i: u32 = 0;
    while i < 10000
        invariant
            true,
        decreases 10000 - i,
    {
        let x = rng.gen_range_i64(-ONE, ONE);
        let y = rng.gen_range_i64(-ONE, ONE);
        let p = Vec3 { x, y, z: 0 };
        proof {
            lemma_sq_bound(p, ONE as int);
        }
        let sq = p.squared_length();
        if sq < ONE * ONE {
            return p;
        }
        i = i + 1;
    }
    Vec3 { x: 0, y: 0, z: 0 }
}

/// The inner product of a vector with itself is its squared length.
pub proof fn lemma_dot_self_is_squared_length(v: Vec3)
    ensures
        dot_s(v, v) == sq_s(v),
{
}

/// The cross product of a vector with itself is the zero vector.
pub proof fn lemma_cross_self_is_zero(v: Vec3)
    ensures
        cross_sx(v, v) == 0,
        cross_sy(v, v) == 0,
        cross_sz(v, v) == 0,
{
}

/// Reflecting about any `n` scales the normal part of the inner product:
/// `dot(reflect(v, n), n) == dot(v, n) * (ONE^2 - 2 * |n|^2)`.
pub proof fn lemma_reflect_dot(v: Vec3, n: Vec3)
    ensures
        reflect_sx(v, n) * n.x + reflect_sy(v, n) * n.y + reflect_sz(v, n) * n.z
            == dot_s(v, n) * (ONE * ONE - 2 * sq_s(n)),
{
    let d = dot_s(v, n);
    let sqn = sq_s(n);
    assert(reflect_sx(v, n) * n.x == v.x * ONE * ONE * n.x - 2 * d * (n.x * n.x))
        by (nonlinear_arith)
        requires reflect_sx(v, n) == v.x * ONE * ONE - 2 * d * n.x;
    assert(reflect_sy(v, n) * n.y == v.y * ONE * ONE * n.y - 2 * d * (n.y * n.y))
        by (nonlinear_arith)
        requires reflect_sy(v, n) == v.y * ONE * ONE - 2 * d * n.y;
    assert(reflect_sz(v, n) * n.z == v.z * ONE * ONE * n.z - 2 * d * (n.z * n.z))
        by (nonlinear_arith)
        requires reflect_sz(v, n) == v.z * ONE * ONE - 2 * d * n.z;
    assert(v.x * ONE * ONE * n.x + v.y * ONE * ONE * n.y + v.z * ONE * ONE * n.z
        == ONE * ONE * d) by (nonlinear_arith)
        requires d == v.x * n.x + v.y * n.y + v.z * n.z;
    assert(2 * d * (n.x * n.x) + 2 * d * (n.y * n.y) + 2 * d * (n.z * n.z) == 2 * d * sqn)
        by (nonlinear_arith)
        requires sqn == n.x * n.x + n.y * n.y + n.z * n.z;
    assert(ONE * ONE * d - 2 * d * sqn == d * (ONE * ONE - 2 * sqn)) by (nonlinear_arith);
}

/// Reflecting about a unit `n` negates the normal part of the inner
/// product: `dot(reflect(v, n), n) == -dot(v, n)`, at matching scales.
pub proof fn lemma_reflect_unit_dot(v: Vec3, n: Vec3)
    requires
        sq_s(n) == ONE * ONE,
    ensures
        reflect_sx(v, n) * n.x + reflect_sy(v, n) * n.y + reflect_sz(v, n) * n.z
            == -dot_s(v, n) * (ONE * ONE),
{
    lemma_reflect_dot(v, n);
    assert(dot_s(v, n) * (ONE * ONE - 2 * (ONE * ONE)) == -dot_s(v, n) * (ONE * ONE))
        by (nonlinear_arith)
        requires ONE == 65536;
}

/// A normalized vector of length at least one has length one, up to the
/// truncation of one division per component:
/// `ONE^2 - 8*ONE <= |unit_vector(v)|^2 <= ONE^2 + 2*ONE`.
pub proof fn lemma_unit_vector_near_unit(v: Vec3)
    requires
        bounded(v, 0x4000_0000),
        sq_s(v) >= ONE * ONE,
    ensures
        unit_cx(v) * unit_cx(v) + unit_cy(v) * unit_cy(v) + unit_cz(v) * unit_cz(v)
            <= ONE * ONE + 2 * ONE,
        unit_cx(v) * unit_cx(v) + unit_cy(v) * unit_cy(v) + unit_cz(v) * unit_cz(v)
            >= ONE * ONE - 8 * ONE,
{
    let q = sq_s(v);
    let d = sqrt_s(q);
    lemma_sq_bound(v, 0x4000_0000);
    lemma_sqrt(q);
    assert(d >= ONE) by {
        lemma_sqrt_le((ONE * ONE) as int, q);
        assert(is_isqrt((ONE * ONE) as int, ONE as int)) by (nonlinear_arith)
            requires ONE == 65536;
        lemma_sqrt_unique((ONE * ONE) as int, sqrt_s((ONE * ONE) as int), ONE as int);
    }
    let ux = unit_cx(v);
    let uy = unit_cy(v);
    let uz = unit_cz(v);
    lemma_unit_sq_step(v.x as int, d);
    lemma_unit_sq_step(v.y as int, d);
    lemma_unit_sq_step(v.z as int, d);
    assert(ux * ux * (d * d) + uy * uy * (d * d) + uz * uz * (d * d)
        <= (ONE * ONE) * (v.x * v.x) + (ONE * ONE) * (v.y * v.y) + (ONE * ONE) * (v.z * v.z));
    assert((ux * ux + uy * uy + uz * uz) * (d * d) == ux * ux * (d * d) + uy * uy * (d * d)
        + uz * uz * (d * d)) by (nonlinear_arith);
    assert((ONE * ONE) * (v.x * v.x) + (ONE * ONE) * (v.y * v.y) + (ONE * ONE) * (v.z * v.z)
        == (ONE * ONE) * q) by (nonlinear_arith)
        requires q == v.x * v.x + v.y * v.y + v.z * v.z;
    assert(q <= d * d + 2 * d) by (nonlinear_arith)
        requires is_isqrt(q, d);
    assert((ONE * ONE) * q <= (ONE * ONE) * (d * d) + 2 * (ONE * ONE) * d) by (nonlinear_arith)
        requires q <= d * d + 2 * d;
    assert(2 * (ONE * ONE) * d <= 2 * ONE * (d * d)) by (nonlinear_arith)
        requires d >= ONE, ONE == 65536;
    assert((ux * ux + uy * uy + uz * uz) * (d * d) <= (ONE * ONE + 2 * ONE) * (d * d))
        by (nonlinear_arith)
        requires
            (ux * ux + uy * uy + uz * uz) * (d * d) <= (ONE * ONE) * (d * d) + 2 * ONE * (d * d);
    assert(ux * ux + uy * uy + uz * uz <= ONE * ONE + 2 * ONE) by (nonlinear_arith)
        requires
            (ux * ux + uy * uy + uz * uz) * (d * d) <= (ONE * ONE + 2 * ONE) * (d * d),
            d >= 1;
    let cax = if v.x >= 0 { v.x as int } else { -(v.x as int) };
    let cay = if v.y >= 0 { v.y as int } else { -(v.y as int) };
    let caz = if v.z >= 0 { v.z as int } else { -(v.z as int) };
    lemma_unit_sq_lower(v.x as int, d);
    lemma_unit_sq_lower(v.y as int, d);
    lemma_unit_sq_lower(v.z as int, d);
    assert(ux * ux * (d * d) + uy * uy * (d * d) + uz * uz * (d * d) >= (ONE * ONE) * q - 2 * (
    ONE as int) * ((cax + cay + caz) * d)) by (nonlinear_arith)
        requires
            ux * ux * (d * d) >= (ONE * ONE) * (v.x * v.x) - 2 * (ONE as int) * (cax * d),
            uy * uy * (d * d) >= (ONE * ONE) * (v.y * v.y) - 2 * (ONE as int) * (cay * d),
            uz * uz * (d * d) >= (ONE * ONE) * (v.z * v.z) - 2 * (ONE as int) * (caz * d),
            q == v.x * v.x + v.y * v.y + v.z * v.z;
    lemma_abs_sum_sq(cax, cay, caz);
    assert(cax * cax + cay * cay + caz * caz == q) by (nonlinear_arith)
        requires
            q == v.x * v.x + v.y * v.y + v.z * v.z,
            cax == (if v.x >= 0 { v.x as int } else { -(v.x as int) }),
            cay == (if v.y >= 0 { v.y as int } else { -(v.y as int) }),
            caz == (if v.z >= 0 { v.z as int } else { -(v.z as int) });
    assert(cax + cay + caz <= 2 * d + 2) by (nonlinear_arith)
        requires
            (cax + cay + caz) * (cax + cay + caz) <= 3 * q,
            q < (d + 1) * (d + 1),
            cax >= 0,
            cay >= 0,
            caz >= 0,
            d >= 1;
    assert((ONE * ONE) * q - 2 * (ONE as int) * ((cax + cay + caz) * d) >= (ONE * ONE) * (d * d)
        - 2 * (ONE as int) * ((2 * d + 2) * d)) by (nonlinear_arith)
        requires
            q >= d * d,
            0 <= cax + cay + caz <= 2 * d + 2,
            d >= 1,
            ONE == 65536;
    assert((ONE * ONE) * (d * d) - 2 * (ONE as int) * ((2 * d + 2) * d) >= (ONE * ONE - 8 * ONE)
        * (d * d)) by (nonlinear_arith)
        requires d >= 1, ONE == 65536;
    assert(ux * ux + uy * uy + uz * uz >= ONE * ONE - 8 * ONE) by (nonlinear_arith)
        requires
            (ux * ux + uy * uy + uz * uz) * (d * d) >= (ONE * ONE - 8 * ONE) * (d * d),
            d >= 1;
}

/// A square of sums never passes three times the sum of squares.
proof fn lemma_abs_sum_sq(a: int, b: int, c: int)
    ensures
        (a + b + c) * (a + b + c) <= 3 * (a * a + b * b + c * c),
{
    assert((a + b + c) * (a + b + c) + (a - b) * (a - b) + (b - c) * (b - c) + (a - c) * (a - c)
        == 3 * (a * a + b * b + c * c)) by (nonlinear_arith);
    assert((a - b) * (a - b) >= 0 && (b - c) * (b - c) >= 0 && (a - c) * (a - c) >= 0)
        by (nonlinear_arith);
}

/// One component of the normalization loses at most one unit of `d`:
/// `(c*ONE/d)^2 * d^2 >= ONE^2 * c^2 - 2*ONE*|c|*d`.
pub proof fn lemma_unit_sq_lower(c: int, d: int)
    requires
        d >= 1,
    ensures
        tdiv(c * ONE, d) * tdiv(c * ONE, d) * (d * d) >= (ONE * ONE) * (c * c) - 2 * (ONE as int)
            * ((if c >= 0 { c } else { -c }) * d),
{
    let t = tdiv(c * ONE, d);
    let ca = if c >= 0 { c } else { -c };
    assert(t * t * (d * d) == (t * d) * (t * d)) by (nonlinear_arith);
    if c >= 0 {
        assert(c * ONE >= 0) by (nonlinear_arith)
            requires c >= 0, ONE == 65536;
        vstd::arithmetic::div_mod::lemma_fundamental_div_mod(c * ONE, d);
        vstd::arithmetic::div_mod::lemma_div_pos_is_pos(c * ONE, d);
        assert(t * d > c * ONE - d && t * d <= c * ONE) by (nonlinear_arith)
            requires
                c * ONE == d * t + (c * ONE) % d,
                0 <= (c * ONE) % d < d;
        if c * ONE >= d {
            assert((t * d) * (t * d) >= (c * ONE - d) * (c * ONE - d)) by (nonlinear_arith)
                requires t * d > c * ONE - d >= 0;
            assert((c * ONE - d) * (c * ONE - d) >= (ONE * ONE) * (c * c) - 2 * (ONE as int) * (
            ca * d)) by (nonlinear_arith)
                requires ca == c, d >= 1;
        } else {
            assert((ONE * ONE) * (c * c) - 2 * (ONE as int) * (ca * d) <= 0) by (nonlinear_arith)
                requires ca == c, 0 <= c * ONE < d, ONE == 65536, c >= 0;
            assert((t * d) * (t * d) >= 0) by (nonlinear_arith);
        }
    } else {
        assert((-c) * ONE > 0) by (nonlinear_arith)
            requires c < 0, ONE == 65536;
        vstd::arithmetic::div_mod::lemma_fundamental_div_mod((-c) * ONE, d);
        vstd::arithmetic::div_mod::lemma_div_pos_is_pos((-c) * ONE, d);
        let t2 = ((-c) * ONE) / d;
        assert(t == -t2) by {
            assert(c * ONE < 0) by (nonlinear_arith)
                requires c < 0, ONE == 65536;
            assert(-(c * ONE) == (-c) * ONE) by (nonlinear_arith);
        }
        assert(t2 * d > (-c) * ONE - d && t2 * d <= (-c) * ONE) by (nonlinear_arith)
            requires
                (-c) * ONE == d * t2 + ((-c) * ONE) % d,
                0 <= ((-c) * ONE) % d < d;
        assert((t * d) * (t * d) == (t2 * d) * (t2 * d)) by (nonlinear_arith)
            requires t == -t2;
        if (-c) * ONE >= d {
            assert((t2 * d) * (t2 * d) >= ((-c) * ONE - d) * ((-c) * ONE - d)) by (nonlinear_arith)
                requires t2 * d > (-c) * ONE - d >= 0;
            assert(((-c) * ONE - d) * ((-c) * ONE - d) >= (ONE * ONE) * (c * c) - 2 * (ONE as int)
                * (ca * d)) by (nonlinear_arith)
                requires ca == -c, c < 0, d >= 1;
        } else {
            assert((ONE * ONE) * (c * c) - 2 * (ONE as int) * (ca * d) <= 0) by (nonlinear_arith)
                requires ca == -c, 0 <= (-c) * ONE < d, ONE == 65536, c < 0;
            assert((t * d) * (t * d) >= 0) by (nonlinear_arith);
        }
    }
}

/// One component of the normalization: `(c*ONE/d)^2 * d^2 <= ONE^2 * c^2`.
pub proof fn lemma_unit_sq_step(c: int, d: int)
    requires
        d >= 1,
    ensures
        tdiv(c * ONE, d) * tdiv(c * ONE, d) * (d * d) <= (ONE * ONE) * (c * c),
{
    lemma_tdiv_mul_le(c * ONE, d);
    let t = tdiv(c * ONE, d);
    assert(t * t * (d * d) == (t * d) * (t * d)) by (nonlinear_arith);
    if c * ONE >= 0 {
        assert((t * d) * (t * d) <= (c * ONE) * (c * ONE)) by (nonlinear_arith)
            requires 0 <= t * d <= c * ONE;
    } else {
        assert((t * d) * (t * d) <= (c * ONE) * (c * ONE)) by (nonlinear_arith)
            requires c * ONE <= t * d <= 0;
    }
    assert((c * ONE) * (c * ONE) == (ONE * ONE) * (c * c)) by (nonlinear_arith);
}

/// The inner product of the normalized `v` with `n`, scale ONE^2.
pub open spec fn udot(v: Vec3, n: Vec3) -> int {
    unit_cx(v) * n.x + unit_cy(v) * n.y + unit_cz(v) * n.z
}

/// The refraction discriminant `1 - ratio^2 * (1 - dt^2)`, scale ONE, where
/// `dt` is the inner product of the normalized `v` with `n`.
pub open spec fn refract_disc(v: Vec3, n: Vec3, ni_over_nt: int) -> int {
    ONE - tdiv(
        tdiv(ni_over_nt * ni_over_nt, ONE as int)
            * (ONE - tdiv(udot(v, n) * udot(v, n), ONE * ONE * ONE)),
        ONE as int,
    )
}

/// Components of the refracted direction
/// `ratio * (unit(v) - n * dt) - n * sqrt(disc)`, scale ONE.
pub open spec fn refract_cx(v: Vec3, n: Vec3, ni_over_nt: int) -> int {
    tdiv((unit_cx(v) - tdiv(n.x * tdiv(udot(v, n), ONE as int), ONE as int)) * ni_over_nt,
        ONE as int) - tdiv(n.x * sqrt_s(refract_disc(v, n, ni_over_nt) * ONE), ONE as int)
}

pub open spec fn refract_cy(v: Vec3, n: Vec3, ni_over_nt: int) -> int {
    tdiv((unit_cy(v) - tdiv(n.y * tdiv(udot(v, n), ONE as int), ONE as int)) * ni_over_nt,
        ONE as int) - tdiv(n.y * sqrt_s(refract_disc(v, n, ni_over_nt) * ONE), ONE as int)
}

pub open spec fn refract_cz(v: Vec3, n: Vec3, ni_over_nt: int) -> int {
    tdiv((unit_cz(v) - tdiv(n.z * tdiv(udot(v, n), ONE as int), ONE as int)) * ni_over_nt,
        ONE as int) - tdiv(n.z * sqrt_s(refract_disc(v, n, ni_over_nt) * ONE), ONE as int)
}

/// Snell refraction of `v` about the working normal `n`: succeeds exactly
/// when the discriminant is positive, and then writes the refracted
/// direction; on total internal reflection it leaves `refracted` unchanged.
pub fn refract(v: &Vec3, n: &Vec3, ni_over_nt: i64, refracted: &mut Vec3) -> (res: bool)
    requires
        bounded(*v, 0x4000_0000),
        sq_s(*v) > 0,
        bounded(*n, 4 * (ONE as int)),
        0 < ni_over_nt <= 16 * (ONE as int),
    ensures
        res == (refract_disc(*v, *n, ni_over_nt as int) > 0),
        res ==> final(refracted).x == refract_cx(*v, *n, ni_over_nt as int),
        res ==> final(refracted).y == refract_cy(*v, *n, ni_over_nt as int),
        res ==> final(refracted).z == refract_cz(*v, *n, ni_over_nt as int),
        res ==> bounded(*final(refracted), 0x1000_0000),
        !res ==> *final(refracted) == *old(refracted),
{
    let uv = unit_vector(*v);
    let dt = dot(&uv, n);
    proof {
        lemma_dot_bound(uv, *n, ONE as int, 4 * (ONE as int));
        assert(dt == udot(*v, *n));
        assert(-0xC_0000_0000i128 * 0xC_0000_0000i128 <= dt * dt
            <= 0xC_0000_0000i128 * 0xC_0000_0000i128) by (nonlinear_arith)
            requires -0xC_0000_0000 <= dt <= 0xC_0000_0000;
        assert(0xC_0000_0000i128 * 0xC_0000_0000i128 <= 0x90_0000i64 * ((ONE as int)
            * (ONE as int) * (ONE as int))) by (nonlinear_arith)
            requires ONE == 65536;
        assert(0x90_0000i64 * ((ONE as int) * (ONE as int) * (ONE as int))
            == 0x90_0000i64 * (ONE * ONE * ONE)) by (nonlinear_arith)
            requires ONE == 65536;
    }
    let one3: i64 = ONE * ONE * ONE;
    let dtq128 = tdiv128(mul64(dt, dt), one3 as i128);
    proof {
        lemma_tdiv_le(dt * dt, one3 as int, 0x90_0000);
    }
    let dtq = dtq128 as i64;
    let rr128 = tdiv128(mul64(ni_over_nt, ni_over_nt), ONE as i128);
    proof {
        assert(-0x10_0000i128 * 0x10_0000i128 <= ni_over_nt * ni_over_nt
            <= 0x10_0000i128 * 0x10_0000i128) by (nonlinear_arith)
            requires 0 < ni_over_nt <= 0x10_0000;
        assert(0x10_0000i128 * 0x10_0000i128 == 0x100_0000i64 * (ONE as int))
            by (nonlinear_arith)
            requires ONE == 65536;
        lemma_tdiv_le(ni_over_nt * ni_over_nt, ONE as int, 0x100_0000);
    }
    let rr = rr128 as i64;
    let inner: i64 = ONE - dtq;
    proof {
        assert(-0x100_0000i128 * 0xA0_0000i128 <= rr * inner
            <= 0x100_0000i128 * 0xA0_0000i128) by (nonlinear_arith)
            requires -0x100_0000 <= rr <= 0x100_0000, -0xA0_0000 <= inner <= 0xA0_0000;
        assert(0x100_0000i128 * 0xA0_0000i128 == 0xA000_0000i64 * (ONE as int))
            by (nonlinear_arith)
            requires ONE == 65536;
    }
    let d2 = crate::fixed::scale_down(mul64(rr, inner), 0xA000_0000);
    let disc: i64 = ONE - d2;
    proof {
        assert(disc == refract_disc(*v, *n, ni_over_nt as int));
    }
    if disc > 0 {
        let dtf = tdiv64(dt, ONE);
        proof {
            lemma_tdiv_le(dt as int, ONE as int, 0xC_0000);
            assert(0xC_0000i64 * (ONE as int) >= 0xC_0000_0000) by (nonlinear_arith)
                requires ONE == 65536;
        }
        let sqd = isqrt64(disc * ONE);
        proof {
            lemma_sqrt(disc * ONE);
            crate::fixed::lemma_sqrt_unique(disc * ONE, sqrt_s(disc * ONE), sqd as int);
            assert(sqd * sqd <= disc * ONE);
            assert(sqd <= 0x100_0000) by (nonlinear_arith)
                requires
                    sqd * sqd <= disc * ONE,
                    disc <= 0xA001_0000,
                    ONE == 65536,
                    sqd >= 0;
        }
        let rx = refract_component(uv.x, n.x, dtf, ni_over_nt, sqd);
        let ry = refract_component(uv.y, n.y, dtf, ni_over_nt, sqd);
        let rz = refract_component(uv.z, n.z, dtf, ni_over_nt, sqd);
        *refracted = Vec3 { x: rx, y: ry, z: rz };
        true
    } else {
        false
    }
}

/// One component of the refracted direction:
/// `(u - n*dtf/ONE) * ratio / ONE - n * sqd / ONE`.
fn refract_component(u: i64, nc: i64, dtf: i64, ratio: i64, sqd: i64) -> (r: i64)
    requires
        -(ONE as int) <= u <= ONE as int,
        -4 * (ONE as int) <= nc <= 4 * (ONE as int),
        -0xC_0000 <= dtf <= 0xC_0000,
        0 < ratio <= 16 * (ONE as int),
        0 <= sqd <= 0x100_0000,
    ensures
        r == tdiv((u - tdiv(nc * dtf, ONE as int)) * ratio, ONE as int)
            - tdiv(nc * sqd, ONE as int),
        -0x1000_0000 <= r <= 0x1000_0000,
{
    proof {
        assert(-0x4_0000i128 * 0xC_0000i128 <= nc * dtf <= 0x4_0000i128 * 0xC_0000i128)
            by (nonlinear_arith)
            requires -0x4_0000 <= nc <= 0x4_0000, -0xC_0000 <= dtf <= 0xC_0000;
        assert(0x4_0000i128 * 0xC_0000i128 == 0x30_0000i64 * (ONE as int)) by (nonlinear_arith)
            requires ONE == 65536;
    }
    let q = crate::fixed::scale_down(mul64(nc, dtf), 0x30_0000);
    let ix: i64 = u - q;
    proof {
        assert(-0x31_0000i128 * 0x10_0000i128 <= ix * ratio <= 0x31_0000i128 * 0x10_0000i128)
            by (nonlinear_arith)
            requires -0x31_0000 <= ix <= 0x31_0000, 0 < ratio <= 0x10_0000;
        assert(0x31_0000i128 * 0x10_0000i128 == 0x310_0000i64 * (ONE as int))
            by (nonlinear_arith)
            requires ONE == 65536;
    }
    let t1 = crate::fixed::scale_down(mul64(ix, ratio), 0x310_0000);
    proof {
        assert(-0x4_0000i128 * 0x100_0000i128 <= nc * sqd <= 0x4_0000i128 * 0x100_0000i128)
            by (nonlinear_arith)
            requires -0x4_0000 <= nc <= 0x4_0000, 0 <= sqd <= 0x100_0000;
        assert(0x4_0000i128 * 0x100_0000i128 == 0x400_0000i64 * (ONE as int))
            by (nonlinear_arith)
            requires ONE == 65536;
    }
    let t2 = crate::fixed::scale_down(mul64(nc, sqd), 0x400_0000);
    t1 - t2
}

/// The normalized components are themselves within [-ONE, ONE], so the
/// assembled `unit_v` carries them unchanged and its inner products
/// coincide with sums over the components.
pub proof fn lemma_unit_components_bounded(v: Vec3)
    requires
        bounded(v, 0x4000_0000),
        sq_s(v) > 0,
    ensures
        -(ONE as int) <= unit_cx(v) <= ONE as int,
        -(ONE as int) <= unit_cy(v) <= ONE as int,
        -(ONE as int) <= unit_cz(v) <= ONE as int,
        unit_v(v).x == unit_cx(v),
        unit_v(v).y == unit_cy(v),
        unit_v(v).z == unit_cz(v),
{
    lemma_unit_component_bounds(v);
    let d = sqrt_s(sq_s(v));
    assert(-(ONE as int) * d <= v.x * ONE <= (ONE as int) * d && -(ONE as int) * d <= v.y * ONE
        <= (ONE as int) * d && -(ONE as int) * d <= v.z * ONE <= (ONE as int) * d)
        by (nonlinear_arith)
        requires
            -d <= v.x <= d,
            -d <= v.y <= d,
            -d <= v.z <= d,
            ONE == 65536;
    lemma_tdiv_le(v.x * ONE, d, ONE as int);
    lemma_tdiv_le(v.y * ONE, d, ONE as int);
    lemma_tdiv_le(v.z * ONE, d, ONE as int);
}

/// The cross product is exactly orthogonal to both factors.
pub proof fn lemma_cross_perp(a: Vec3, b: Vec3)
    ensures
        cross_sx(a, b) * (a.x as int) + cross_sy(a, b) * (a.y as int) + cross_sz(a, b) * (
        a.z as int) == 0,
        cross_sx(a, b) * (b.x as int) + cross_sy(a, b) * (b.y as int) + cross_sz(a, b) * (
        b.z as int) == 0,
{
    assert((a.y * b.z - a.z * b.y) * a.x + (-(a.x * b.z - a.z * b.x)) * a.y + (a.x * b.y - a.y
        * b.x) * a.z == 0) by (nonlinear_arith);
    assert((a.y * b.z - a.z * b.y) * b.x + (-(a.x * b.z - a.z * b.x)) * b.y + (a.x * b.y - a.y
        * b.x) * b.z == 0) by (nonlinear_arith);
}

/// Dividing three summands by `b` before a weighted sum moves the sum by
/// less than one divisor per weight: the truncated inner product stays
/// within `3 * b * wb` of the exact one.
pub proof fn lemma_tdiv_dot_err(
    c1: int,
    c2: int,
    c3: int,
    w1: int,
    w2: int,
    w3: int,
    b: int,
    wb: int,
)
    requires
        b > 0,
        wb >= 0,
        -wb <= w1 <= wb,
        -wb <= w2 <= wb,
        -wb <= w3 <= wb,
    ensures
        (tdiv(c1, b) * w1 + tdiv(c2, b) * w2 + tdiv(c3, b) * w3) * b >= c1 * w1 + c2 * w2 + c3
            * w3 - 3 * (b * wb),
        (tdiv(c1, b) * w1 + tdiv(c2, b) * w2 + tdiv(c3, b) * w3) * b <= c1 * w1 + c2 * w2 + c3
            * w3 + 3 * (b * wb),
{
    crate::fixed::lemma_tdiv_err(c1, b);
    crate::fixed::lemma_tdiv_err(c2, b);
    crate::fixed::lemma_tdiv_err(c3, b);
    let t1 = tdiv(c1, b);
    let t2 = tdiv(c2, b);
    let t3 = tdiv(c3, b);
    lemma_weighted_err(c1, t1, w1, b, wb);
    lemma_weighted_err(c2, t2, w2, b, wb);
    lemma_weighted_err(c3, t3, w3, b, wb);
    assert((t1 * w1) * b == (t1 * b) * w1) by (nonlinear_arith);
    assert((t2 * w2) * b == (t2 * b) * w2) by (nonlinear_arith);
    assert((t3 * w3) * b == (t3 * b) * w3) by (nonlinear_arith);
    assert((t1 * w1 + t2 * w2 + t3 * w3) * b == (t1 * w1) * b + (t2 * w2) * b + (t3 * w3) * b)
        by (nonlinear_arith);
}

/// One weighted error term: `(t*b)*w` within `b*wb` of `c*w`.
proof fn lemma_weighted_err(c: int, t: int, w: int, b: int, wb: int)
    requires
        b > 0,
        wb >= 0,
        -wb <= w <= wb,
        c >= 0 ==> c - b < t * b <= c,
        c < 0 ==> c <= t * b < c + b,
    ensures
        c * w - b * wb <= (t * b) * w <= c * w + b * wb,
{
    let e = t * b - c;
    assert(-b < e && e < b);
    assert((t * b) * w == c * w + e * w) by (nonlinear_arith)
        requires t * b == c + e;
    assert(-(b * wb) <= e * w <= b * wb) by (nonlinear_arith)
        requires -b < e < b, -wb <= w <= wb, b > 0, wb >= 0;
}

} // verus!
