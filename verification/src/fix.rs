//! Fixed-point scalar arithmetic.
//!
//! Every physical scalar (a coordinate, a velocity, an acceleration, a
//! spin rate) is an `i64` counting subunits, where one geometric unit is
//! `SCALE` subunits.  All operations are exact integer arithmetic; the
//! one rounding primitive is `tdiv`, division truncated toward zero,
//! which is what every division in the engine uses.

use vstd::prelude::*;

verus! {

/// Subunits per geometric unit.
pub const SCALE: i64 = 65536;

/// Division truncated toward zero (for a positive divisor), stated over
/// mathematical integers.  On non-negative dividends this is ordinary
/// Euclidean division; on negative ones the quotient is the negated
/// quotient of the magnitudes.
pub open spec fn tdiv(a: int, b: int) -> int {
    if a >= 0 {
        a / b
    } else {
        -((-a) / b)
    }
}

/// The magnitude of a truncated quotient is the floor-quotient of the
/// magnitudes.
pub proof fn lemma_tdiv_abs(a: int, b: int)
    requires
        b > 0,
    ensures
        vstd::math::abs(tdiv(a, b)) == vstd::math::abs(a) / (b as nat),
        a >= 0 ==> tdiv(a, b) >= 0,
        a <= 0 ==> tdiv(a, b) <= 0,
{
    if a >= 0 {
        vstd::arithmetic::div_mod::lemma_div_is_ordered(0, a, b);
    } else {
        vstd::arithmetic::div_mod::lemma_div_is_ordered(0, -a, b);
    }
}

/// A bound on the dividend gives the same bound, scaled down, on the
/// truncated quotient.
pub proof fn lemma_tdiv_bound(a: int, b: int, m: int)
    requires
        b > 0,
        m >= 0,
        vstd::math::abs(a) <= m * b,
    ensures
        vstd::math::abs(tdiv(a, b)) <= m,
{
    lemma_tdiv_abs(a, b);
    assert(vstd::math::abs(a) / (b as nat) <= m) by {
        vstd::arithmetic::div_mod::lemma_div_is_ordered(vstd::math::abs(a) as int, m * b, b);
        vstd::arithmetic::div_mod::lemma_div_by_multiple(m, b);
    }
}

/// A truncated quotient is no larger in magnitude than its dividend.
pub proof fn lemma_tdiv_shrinks(a: int, b: int)
    requires
        b >= 1,
    ensures
        vstd::math::abs(tdiv(a, b)) <= vstd::math::abs(a),
{
    lemma_tdiv_abs(a, b);
    vstd::arithmetic::div_mod::lemma_div_nonincreasing(vstd::math::abs(a) as int, b);
}

/// Exact product of two `i64` values, widened; never overflows.
pub fn mul_wide(a: i64, b: i64) -> (r: i128)
    ensures
        r == a as int * b as int,
        i128::MIN < r < i128::MAX,
{
    assert(-(0x8000_0000_0000_0000 * 0x8000_0000_0000_0000) < a as int * b as int <= 0x8000_0000_0000_0000
        * 0x8000_0000_0000_0000) by (nonlinear_arith)
        requires
            -0x8000_0000_0000_0000 <= (a as int) && (a as int) < 0x8000_0000_0000_0000,
            -0x8000_0000_0000_0000 <= (b as int) && (b as int) < 0x8000_0000_0000_0000,
    ;
    (a as i128) * (b as i128)
}

/// Truncated division of a widened value by a positive divisor.
pub fn div_wide(a: i128, b: i128) -> (r: i128)
    requires
        b > 0,
        a > i128::MIN,
    ensures
        r == tdiv(a as int, b as int),
{
    let neg = a < 0;
    let ua: u128 = if neg { (-a) as u128 } else { a as u128 };
    let ub: u128 = b as u128;
    let q: u128 = ua / ub;
    proof {
        if a >= 0 {
            vstd::arithmetic::div_mod::lemma_div_is_ordered(a as int, ua as int, ub as int);
            vstd::arithmetic::div_mod::lemma_div_nonincreasing(ua as int, ub as int);
        } else {
            vstd::arithmetic::div_mod::lemma_div_nonincreasing(ua as int, ub as int);
        }
    }
    if neg {
        -(q as i128)
    } else {
        q as i128
    }
}

/// `i128` value known to fit an `i64`, narrowed.
pub fn narrow(a: i128) -> (r: i64)
    requires
        i64::MIN <= a <= i64::MAX,
    ensures
        r == a,
{
    a as i64
}

/// Truncated `a * b / d` in one step, exact over the widened product.
pub fn mul_div(a: i64, b: i64, d: i64) -> (r: i64)
    requires
        d > 0,
        i64::MIN <= tdiv(a as int * b as int, d as int) <= i64::MAX,
    ensures
        r == tdiv(a as int * b as int, d as int),
{
    let p = mul_wide(a, b);
    let q = div_wide(p, d as i128);
    narrow(q)
}

/// The integer square root, `⌊√n⌋`, defined for non-negative arguments.
pub open spec fn sqrt_floor(n: int) -> int
    decreases n,
{
    if n < 1 {
        0
    } else {
        let s = sqrt_floor(n - 1);
        if (s + 1) * (s + 1) <= n {
            s + 1
        } else {
            s
        }
    }
}

/// `sqrt_floor` is the unique `r >= 0` with `r² <= n < (r+1)²`.
pub proof fn lemma_sqrt_floor(n: int)
    requires
        n >= 0,
    ensures
        0 <= sqrt_floor(n),
        sqrt_floor(n) * sqrt_floor(n) <= n,
        n < (sqrt_floor(n) + 1) * (sqrt_floor(n) + 1),
    decreases n,
{
    if n >= 1 {
        lemma_sqrt_floor(n - 1);
        let s = sqrt_floor(n - 1);
        if (s + 1) * (s + 1) <= n {
            assert(n < (s + 2) * (s + 2)) by (nonlinear_arith)
                requires
                    n - 1 < (s + 1) * (s + 1),
                    s >= 0;
        }
    }
}

pub proof fn lemma_sqrt_floor_unique(n: int, r: int)
    requires
        n >= 0,
        r >= 0,
        r * r <= n,
        n < (r + 1) * (r + 1),
    ensures
        r == sqrt_floor(n),
{
    lemma_sqrt_floor(n);
    let s = sqrt_floor(n);
    assert(r == s) by (nonlinear_arith)
        requires
            r >= 0,
            s >= 0,
            r * r <= n < (r + 1) * (r + 1),
            s * s <= n < (s + 1) * (s + 1);
}

/// Executable integer square root by bisection.
pub fn isqrt(n: u128) -> (r: u128)
    ensures
        r == sqrt_floor(n as int),
{
    let mut lo: u128 = 0;
    let mut hi: u128 = 0x1_0000_0000_0000_0000;
    assert(n < hi * hi) by (nonlinear_arith)
        requires
            hi == 0x1_0000_0000_0000_0000,
            n <= u128::MAX;
    while lo + 1 < hi
        invariant
            0 <= lo < hi <= 0x1_0000_0000_0000_0000,
            lo * lo <= n,
            n < hi * hi,
        decreases hi - lo,
    {
        let mid = lo + (hi - lo) / 2;
        assert(mid * mid <= u128::MAX) by (nonlinear_arith)
            requires
                mid < 0x1_0000_0000_0000_0000;
        if mid * mid <= n {
            lo = mid;
        } else {
            hi = mid;
        }
    }
    proof {
        lemma_sqrt_floor_unique(n as int, lo as int);
    }
    lo
}

} // verus!
