//! Fixed-point scalar arithmetic: truncating division and integer square root.
//!
//! A real number x is represented by the integer round(x * ONE). Products of
//! two fixed-point values carry scale ONE^2 until they are divided back down;
//! each function's contract says which scale its result carries.

use vstd::prelude::*;

verus! {

/// The fixed-point unit: this integer stands for the real number 1.
pub const ONE: i64 = 65536;

/// Truncating division (the semantics of Rust's `/` on signed integers),
/// as a mathematical function. Meaningful only for `b != 0`.
pub open spec fn tdiv(a: int, b: int) -> int {
    if a >= 0 {
        a / b
    } else {
        -((-a) / b)
    }
}

/// `r` is the floor of the square root of `n`.
pub open spec fn is_isqrt(n: int, r: int) -> bool {
    0 <= r && r * r <= n && n < (r + 1) * (r + 1)
}

/// The floor of the square root of `n` (meaningful for `n >= 0`).
pub open spec fn sqrt_s(n: int) -> int {
    choose|r: int| #[trigger] is_isqrt(n, r)
}

pub proof fn lemma_sqrt_exists(n: int)
    requires
        n >= 0,
    ensures
        exists|r: int| is_isqrt(n, r),
    decreases n,
{
    if n == 0 {
        assert(is_isqrt(0, 0));
    } else {
        lemma_sqrt_exists(n - 1);
        let r = choose|r: int| #[trigger] is_isqrt(n - 1, r);
        if n < (r + 1) * (r + 1) {
            assert(is_isqrt(n, r));
        } else {
            assert(n == (r + 1) * (r + 1));
            assert((r + 1) * (r + 1) < (r + 2) * (r + 2)) by (nonlinear_arith)
                requires r >= 0;
            assert(is_isqrt(n, r + 1));
        }
    }
}

pub proof fn lemma_sqrt_unique(n: int, r1: int, r2: int)
    requires
        is_isqrt(n, r1),
        is_isqrt(n, r2),
    ensures
        r1 == r2,
{
    if r1 < r2 {
        assert((r1 + 1) * (r1 + 1) <= r2 * r2) by (nonlinear_arith)
            requires 0 <= r1, 0 <= r2, r1 + 1 <= r2;
    }
    if r2 < r1 {
        assert((r2 + 1) * (r2 + 1) <= r1 * r1) by (nonlinear_arith)
            requires 0 <= r1, 0 <= r2, r2 + 1 <= r1;
    }
}

/// The defining properties of `sqrt_s`, usable whenever `n >= 0`.
pub proof fn lemma_sqrt(n: int)
    requires
        n >= 0,
    ensures
        is_isqrt(n, sqrt_s(n)),
{
    lemma_sqrt_exists(n);
}

/// The floor square root is monotone.
pub proof fn lemma_sqrt_le(n1: int, n2: int)
    requires
        0 <= n1 <= n2,
    ensures
        sqrt_s(n1) <= sqrt_s(n2),
{
    lemma_sqrt(n1);
    lemma_sqrt(n2);
    let r1 = sqrt_s(n1);
    let r2 = sqrt_s(n2);
    if r2 < r1 {
        assert((r2 + 1) * (r2 + 1) <= r1 * r1) by (nonlinear_arith)
            requires 0 <= r2, r2 + 1 <= r1;
    }
}

/// Truncating division of `i64` values by a positive divisor.
pub fn tdiv64(a: i64, b: i64) -> (r: i64)
    requires
        b > 0,
    ensures
        r == tdiv(a as int, b as int),
{
    proof {
        if a >= 0 {
            vstd::arithmetic::div_mod::lemma_div_pos_is_pos(a as int, b as int);
            vstd::arithmetic::div_mod::lemma_div_nonincreasing(a as int, b as int);
        } else {
            vstd::arithmetic::div_mod::lemma_div_pos_is_pos(-(a as int), b as int);
            vstd::arithmetic::div_mod::lemma_div_nonincreasing(-(a as int), b as int);
        }
    }
    a / b
}

/// Truncating division of `i128` values by a positive divisor.
pub fn tdiv128(a: i128, b: i128) -> (r: i128)
    requires
        b > 0,
    ensures
        r == tdiv(a as int, b as int),
{
    proof {
        if a >= 0 {
            vstd::arithmetic::div_mod::lemma_div_pos_is_pos(a as int, b as int);
            vstd::arithmetic::div_mod::lemma_div_nonincreasing(a as int, b as int);
        } else {
            vstd::arithmetic::div_mod::lemma_div_pos_is_pos(-(a as int), b as int);
            vstd::arithmetic::div_mod::lemma_div_nonincreasing(-(a as int), b as int);
        }
    }
    a / b
}

/// A truncating quotient with numerator bounded by `c * b` is bounded by `c`.
pub proof fn lemma_tdiv_le(a: int, b: int, c: int)
    requires
        b > 0,
        c >= 0,
        -(c * b) <= a <= c * b,
    ensures
        -c <= tdiv(a, b) <= c,
{
    if a >= 0 {
        vstd::arithmetic::div_mod::lemma_div_is_ordered(a, c * b, b);
        vstd::arithmetic::div_mod::lemma_div_pos_is_pos(a, b);
        assert((c * b) / b == c) by {
            vstd::arithmetic::div_mod::lemma_div_by_multiple(c, b);
        }
    } else {
        vstd::arithmetic::div_mod::lemma_div_is_ordered(-a, c * b, b);
        vstd::arithmetic::div_mod::lemma_div_pos_is_pos(-a, b);
        assert((c * b) / b == c) by {
            vstd::arithmetic::div_mod::lemma_div_by_multiple(c, b);
        }
    }
}

/// Truncating division by a positive divisor is monotone in the numerator.
pub proof fn lemma_tdiv_mono(a1: int, a2: int, b: int)
    requires
        b > 0,
        a1 <= a2,
    ensures
        tdiv(a1, b) <= tdiv(a2, b),
{
    if a1 >= 0 {
        vstd::arithmetic::div_mod::lemma_div_is_ordered(a1, a2, b);
    } else if a2 < 0 {
        vstd::arithmetic::div_mod::lemma_div_is_ordered(-a2, -a1, b);
    } else {
        vstd::arithmetic::div_mod::lemma_div_pos_is_pos(-a1, b);
        vstd::arithmetic::div_mod::lemma_div_pos_is_pos(a2, b);
    }
}

/// Widening product of two `i64` values, exact in `i128`.
pub fn mul64(a: i64, b: i64) -> (r: i128)
    ensures
        r == a * b,
{
    proof {
        assert(-0x8000_0000_0000_0000i128 * 0x8000_0000_0000_0000i128 <= a * b
            <= 0x8000_0000_0000_0000i128 * 0x8000_0000_0000_0000i128) by (nonlinear_arith)
            requires
                -0x8000_0000_0000_0000 <= a <= 0x7fff_ffff_ffff_ffff,
                -0x8000_0000_0000_0000 <= b <= 0x7fff_ffff_ffff_ffff;
    }
    (a as i128) * (b as i128)
}

/// Product of two mid-sized `i128` values, exact in `i128`.
pub fn mul128(a: i128, b: i128) -> (r: i128)
    requires
        -0x2000_0000_0000_0000 <= a <= 0x2000_0000_0000_0000,
        -0x8000_0000_0000_0000 <= b <= 0x8000_0000_0000_0000,
    ensures
        r == a * b,
{
    proof {
        assert(-0x1000_0000_0000_0000i128 * 0x4_0000_0000_0000_0000i128 <= a * b
            <= 0x1000_0000_0000_0000i128 * 0x4_0000_0000_0000_0000i128) by (nonlinear_arith)
            requires
                -0x2000_0000_0000_0000 <= a <= 0x2000_0000_0000_0000,
                -0x8000_0000_0000_0000 <= b <= 0x8000_0000_0000_0000;
    }
    a * b
}

/// Euclidean division negates when the divisor is negated (nonnegative numerator).
pub proof fn lemma_ediv_neg_divisor(a: int, b: int)
    requires
        a >= 0,
        b < 0,
    ensures
        a / b == -(a / (-b)),
{
    vstd::arithmetic::div_mod::lemma_fundamental_div_mod(a, b);
    vstd::arithmetic::div_mod::lemma_fundamental_div_mod(a, -b);
    let q1 = a / b;
    let r1 = a % b;
    let q2 = a / (-b);
    let r2 = a % (-b);
    assert(q1 == -q2) by (nonlinear_arith)
        requires
            a == b * q1 + r1,
            a == (-b) * q2 + r2,
            0 <= r1 < -b,
            0 <= r2 < -b,
            b < 0;
}

/// Truncating division negates when the divisor is negated.
pub proof fn lemma_tdiv_neg_divisor(a: int, b: int)
    requires
        b < 0,
    ensures
        tdiv(a, b) == -tdiv(a, -b),
{
    if a >= 0 {
        lemma_ediv_neg_divisor(a, b);
    } else {
        lemma_ediv_neg_divisor(-a, b);
    }
}

/// Truncating division of `i128` values by any nonzero divisor.
pub fn tdiv128_any(a: i128, b: i128) -> (r: i128)
    requires
        b != 0,
        a > i128::MIN,
        b > i128::MIN,
    ensures
        r == tdiv(a as int, b as int),
{
    if b > 0 {
        tdiv128(a, b)
    } else {
        let q = tdiv128(a, -b);
        proof {
            lemma_tdiv_neg_divisor(a as int, b as int);
        }
        -q
    }
}

/// The quotient times the divisor never passes the numerator.
pub proof fn lemma_tdiv_mul_le(a: int, b: int)
    requires
        b > 0,
    ensures
        a >= 0 ==> 0 <= tdiv(a, b) * b <= a,
        a < 0 ==> a <= tdiv(a, b) * b <= 0,
{
    if a >= 0 {
        vstd::arithmetic::div_mod::lemma_fundamental_div_mod(a, b);
        vstd::arithmetic::div_mod::lemma_div_pos_is_pos(a, b);
        assert(a == b * (a / b) + a % b);
        assert(tdiv(a, b) * b == b * (a / b)) by (nonlinear_arith)
            requires tdiv(a, b) == a / b;
        assert(0 <= tdiv(a, b) * b) by (nonlinear_arith)
            requires tdiv(a, b) >= 0, b > 0;
    } else {
        vstd::arithmetic::div_mod::lemma_fundamental_div_mod(-a, b);
        vstd::arithmetic::div_mod::lemma_div_pos_is_pos(-a, b);
        assert(-a == b * ((-a) / b) + (-a) % b);
        assert(tdiv(a, b) * b == -(b * ((-a) / b))) by (nonlinear_arith)
            requires tdiv(a, b) == -((-a) / b);
        assert(tdiv(a, b) * b <= 0) by (nonlinear_arith)
            requires tdiv(a, b) <= 0, b > 0;
    }
}

/// The quotient times the divisor lands within one divisor of the
/// numerator, on its own side of zero.
pub proof fn lemma_tdiv_err(a: int, b: int)
    requires
        b > 0,
    ensures
        a >= 0 ==> a - b < tdiv(a, b) * b <= a,
        a < 0 ==> a <= tdiv(a, b) * b < a + b,
{
    lemma_tdiv_mul_le(a, b);
    if a >= 0 {
        vstd::arithmetic::div_mod::lemma_fundamental_div_mod(a, b);
        assert(tdiv(a, b) * b == a - a % b) by (nonlinear_arith)
            requires a == b * tdiv(a, b) + a % b;
        assert(0 <= a % b < b) by {
            vstd::arithmetic::div_mod::lemma_mod_division_less_than_divisor(a, b);
        }
    } else {
        vstd::arithmetic::div_mod::lemma_fundamental_div_mod(-a, b);
        assert(tdiv(a, b) * b == a + (-a) % b) by (nonlinear_arith)
            requires -a == b * ((-a) / b) + (-a) % b, tdiv(a, b) == -((-a) / b);
        assert(0 <= (-a) % b < b) by {
            vstd::arithmetic::div_mod::lemma_mod_division_less_than_divisor(-a, b);
        }
    }
}

/// The floor of the square root of an `i64`, by binary search.
pub fn isqrt64(n: i64) -> (r: i64)
    requires
        n >= 0,
    ensures
        r == sqrt_s(n as int),
        is_isqrt(n as int, r as int),
{
    let mut lo: i64 = 0;
    let mut hi: i64 = 3037000500;
    proof {
        assert(0x7fff_ffff_ffff_ffff < 3037000500i64 * 3037000500i64) by (nonlinear_arith);
        assert(3037000499i64 * 3037000499i64 < 0x7fff_ffff_ffff_ffff) by (nonlinear_arith);
    }
    while hi - lo > 1
        invariant
            0 <= lo < hi <= 3037000500,
            (lo as int) * (lo as int) <= n as int,
            n < (hi as int) * (hi as int),
        decreases hi - lo,
    {
        let mid: i64 = lo + (hi - lo) / 2;
        assert(lo < mid < hi);
        proof {
            assert(mid * mid <= 3037000499i64 * 3037000499i64) by (nonlinear_arith)
                requires 0 < mid <= 3037000499i64;
            assert(3037000499i64 * 3037000499i64 < 0x7fff_ffff_ffff_ffff) by (nonlinear_arith);
        }
        let sq: i64 = mid * mid;
        if sq <= n {
            lo = mid;
        } else {
            hi = mid;
        }
    }
    proof {
        assert(is_isqrt(n as int, lo as int));
        lemma_sqrt(n as int);
        lemma_sqrt_unique(n as int, lo as int, sqrt_s(n as int));
    }
    lo
}

/// Divides a scale-ONE-too-high product back down, with its bound.
pub fn scale_down(p: i128, c: i64) -> (r: i64)
    requires
        c >= 0,
        -(c as int) * (ONE as int) <= p <= (c as int) * (ONE as int),
    ensures
        r == tdiv(p as int, ONE as int),
        -c <= r <= c,
{
    let q = tdiv128(p, ONE as i128);
    proof {
        lemma_tdiv_le(p as int, ONE as int, c as int);
    }
    q as i64
}

/// The floor of the square root of a nonnegative `i128` below 2^124.
pub fn isqrt128(n: i128) -> (r: i128)
    requires
        0 <= n < 0x1000_0000_0000_0000_0000_0000_0000_0000,
    ensures
        r == sqrt_s(n as int),
        is_isqrt(n as int, r as int),
        0 <= r <= 0x4000_0000_0000_0000,
{
    let mut lo: i128 = 0;
    let mut hi: i128 = 0x4000_0000_0000_0000;
    proof {
        assert(0x1000_0000_0000_0000_0000_0000_0000_0000i128
            <= 0x4000_0000_0000_0000i128 * 0x4000_0000_0000_0000i128) by (nonlinear_arith);
    }
    while hi - lo > 1
        invariant
            0 <= lo < hi <= 0x4000_0000_0000_0000,
            (lo as int) * (lo as int) <= n as int,
            n < (hi as int) * (hi as int),
        decreases hi - lo,
    {
        let mid: i128 = lo + (hi - lo) / 2;
        assert(lo < mid < hi);
        proof {
            assert(mid * mid <= 0x4000_0000_0000_0000i128 * 0x4000_0000_0000_0000i128)
                by (nonlinear_arith)
                requires 0 < mid <= 0x4000_0000_0000_0000i128;
        }
        let sq: i128 = mid * mid;
        if sq <= n {
            lo = mid;
        } else {
            hi = mid;
        }
    }
    proof {
        assert(is_isqrt(n as int, lo as int));
        lemma_sqrt(n as int);
        lemma_sqrt_unique(n as int, lo as int, sqrt_s(n as int));
    }
    lo
}

} // verus!
