//! Saturating fixed-point scalars.
//!
//! A scalar is an `i64` counting steps of `1 / SCALE`. Every operation
//! computes its exact mathematical result in wider arithmetic, rounds a
//! quotient toward zero and then saturates at `-LIMIT` and `LIMIT`, so no
//! operation can overflow or leave the representable range.

use vstd::prelude::*;

verus! {

/// Raw steps in one unit: the scalar one.
pub const SCALE: i64 = 65536;

/// Largest magnitude of a scalar. Results beyond it saturate.
pub const LIMIT: i64 = 0x4000_0000_0000;

/// Whether `v` lies in the representable range.
pub open spec fn in_range(v: int) -> bool {
    -(LIMIT as int) <= v <= LIMIT as int
}

/// `v` saturated to the representable range.
pub open spec fn clamp(v: int) -> i64 {
    if v < -(LIMIT as int) {
        (-(LIMIT as int)) as i64
    } else if v > LIMIT as int {
        LIMIT
    } else {
        v as i64
    }
}

/// Quotient of `a` by a positive `b`, rounded toward zero.
pub open spec fn quot(a: int, b: int) -> int {
    if a >= 0 {
        a / b
    } else {
        -((-a) / b)
    }
}

/// Magnitude of `v`.
pub open spec fn abs_of(v: int) -> int {
    if v < 0 {
        -v
    } else {
        v
    }
}

/// `r` is the integer square root of `n`: the one natural number whose
/// square does not exceed `n` while the next square does.
pub open spec fn is_root(n: int, r: int) -> bool {
    0 <= r && r * r <= n < (r + 1) * (r + 1)
}

/// The integer square root of `n`, for `n >= 0`.
pub open spec fn spec_isqrt(n: int) -> int {
    choose|r: int| is_root(n, r)
}

/// Two integer square roots of one number are equal.
pub proof fn lemma_root_unique(n: int, r1: int, r2: int)
    requires
        is_root(n, r1),
        is_root(n, r2),
    ensures
        r1 == r2,
{
    if r1 < r2 {
        assert((r1 + 1) * (r1 + 1) <= r2 * r2) by (nonlinear_arith)
            requires
                0 <= r1,
                r1 + 1 <= r2,
        ;
    } else if r2 < r1 {
        assert((r2 + 1) * (r2 + 1) <= r1 * r1) by (nonlinear_arith)
            requires
                0 <= r2,
                r2 + 1 <= r1,
        ;
    }
}

/// Every natural number has an integer square root, and `spec_isqrt` is it.
pub proof fn lemma_isqrt_is_root(n: int)
    requires
        n >= 0,
    ensures
        is_root(n, spec_isqrt(n)),
    decreases n,
{
    if n == 0 {
        assert(is_root(0, 0));
    } else {
        lemma_isqrt_is_root(n - 1);
        let r = spec_isqrt(n - 1);
        if (r + 1) * (r + 1) <= n {
            assert(n < (r + 2) * (r + 2)) by (nonlinear_arith)
                requires
                    0 <= r,
                    n - 1 < (r + 1) * (r + 1),
            ;
            assert(is_root(n, r + 1));
        } else {
            assert(is_root(n, r));
        }
    }
}

/// A witness pins the integer square root down.
pub proof fn lemma_isqrt_eq(n: int, r: int)
    requires
        is_root(n, r),
    ensures
        spec_isqrt(n) == r,
{
    lemma_root_unique(n, r, spec_isqrt(n));
}

/// The integer square root never decreases as its argument grows.
pub proof fn lemma_isqrt_monotonic(a: int, b: int)
    requires
        0 <= a <= b,
    ensures
        spec_isqrt(a) <= spec_isqrt(b),
{
    lemma_isqrt_is_root(a);
    lemma_isqrt_is_root(b);
    let ra = spec_isqrt(a);
    let rb = spec_isqrt(b);
    if rb < ra {
        assert((rb + 1) * (rb + 1) <= ra * ra) by (nonlinear_arith)
            requires
                0 <= rb,
                rb + 1 <= ra,
        ;
    }
}

/// A quotient rounded toward zero has the sign of its numerator, or is zero,
/// and is no larger in magnitude. Negating the numerator negates it.
pub proof fn lemma_quot_sign(a: int, b: int)
    requires
        b > 0,
    ensures
        a >= 0 ==> 0 <= quot(a, b) <= a,
        a <= 0 ==> a <= quot(a, b) <= 0,
        quot(-a, b) == -quot(a, b),
{
    if a >= 0 {
        vstd::arithmetic::div_mod::lemma_div_pos_is_pos(a, b);
        vstd::arithmetic::div_mod::lemma_div_is_ordered_by_denominator(a, 1, b);
    } else {
        vstd::arithmetic::div_mod::lemma_div_pos_is_pos(-a, b);
        vstd::arithmetic::div_mod::lemma_div_is_ordered_by_denominator(-a, 1, b);
    }
}

/// Rounding toward zero never rounds up a quotient that is at least `k`:
/// if `a >= k * b` for a positive `b`, then `quot(a, b) >= k`.
pub proof fn lemma_quot_lower_bound(a: int, b: int, k: int)
    requires
        b > 0,
        k >= 0,
        a >= k * b,
    ensures
        quot(a, b) >= k,
{
    assert(k * b >= 0 && k * b == b * k) by (nonlinear_arith)
        requires
            k >= 0,
            b > 0,
    ;
    vstd::arithmetic::div_mod::lemma_div_is_ordered(k * b, a, b);
    vstd::arithmetic::div_mod::lemma_div_multiples_vanish(k, b);
}

/// A number whose square reaches the square of `r + 1` has an integer
/// square root above `r`.
pub proof fn lemma_isqrt_above(n: int, r: int)
    requires
        0 <= r,
        (r + 1) * (r + 1) <= n,
    ensures
        spec_isqrt(n) >= r + 1,
{
    assert(is_root((r + 1) * (r + 1), r + 1)) by (nonlinear_arith)
        requires
            0 <= r,
    ;
    lemma_isqrt_eq((r + 1) * (r + 1), r + 1);
    lemma_isqrt_monotonic((r + 1) * (r + 1), n);
}

/// Saturates a wide intermediate result.
pub fn saturate(v: i128) -> (r: i64)
    ensures
        r == clamp(v as int),
{
    if v < -(LIMIT as i128) {
        -LIMIT
    } else if v > LIMIT as i128 {
        LIMIT
    } else {
        v as i64
    }
}

/// Saturating sum.
pub fn fx_add(a: i64, b: i64) -> (r: i64)
    ensures
        r == clamp(a + b),
{
    saturate(a as i128 + b as i128)
}

/// Saturating difference.
pub fn fx_sub(a: i64, b: i64) -> (r: i64)
    ensures
        r == clamp(a - b),
{
    saturate(a as i128 - b as i128)
}

/// Exact product of two scalars, as a wide integer.
pub fn wide_mul(a: i64, b: i64) -> (p: i128)
    ensures
        p == a * b,
{
    assert(-0x8000_0000_0000_0000 * 0x8000_0000_0000_0000 <= (a as int) * (b as int)
        <= 0x8000_0000_0000_0000 * 0x8000_0000_0000_0000) by (nonlinear_arith)
        requires
            -0x8000_0000_0000_0000 <= a <= 0x8000_0000_0000_0000,
            -0x8000_0000_0000_0000 <= b <= 0x8000_0000_0000_0000,
    ;
    (a as i128) * (b as i128)
}

/// Saturating fixed-point product: `a * b / SCALE`, rounded toward zero.
pub fn fx_mul(a: i64, b: i64) -> (r: i64)
    ensures
        r == clamp(quot(a * b, SCALE as int)),
{
    saturate(wide_mul(a, b) / (SCALE as i128))
}

/// Saturating quotient of a scalar by a positive count, rounded toward zero.
pub fn fx_div_int(a: i64, n: u64) -> (r: i64)
    requires
        n > 0,
    ensures
        r == clamp(quot(a as int, n as int)),
{
    saturate((a as i128) / (n as i128))
}

/// Integer square root by bisection.
pub fn isqrt(n: u128) -> (r: u64)
    ensures
        r == spec_isqrt(n as int),
        is_root(n as int, r as int),
{
    let mut lo: u128 = 0;
    let mut hi: u128 = 0x1_0000_0000_0000_0000;
    while hi - lo > 1
        invariant
            lo < hi <= 0x1_0000_0000_0000_0000,
            lo * lo <= n,
            n < hi * hi,
        decreases hi - lo,
    {
        let mid: u128 = lo + (hi - lo) / 2;
        assert(mid * mid <= 0xffff_ffff_ffff_ffff * 0xffff_ffff_ffff_ffff) by (nonlinear_arith)
            requires
                0 <= mid <= 0xffff_ffff_ffff_ffff,
        ;
        if mid * mid <= n {
            lo = mid;
        } else {
            hi = mid;
        }
    }
    proof {
        lemma_isqrt_eq(n as int, lo as int);
    }
    lo as u64
}

} // verus!
