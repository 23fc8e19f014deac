//! Signed fixed-point arithmetic with 32 fractional bits.
//!
//! A raw integer `r` stands for the rational number `r / 2^32`.  Products and
//! quotients round toward negative infinity, square roots round down.

use vstd::arithmetic::div_mod::{lemma_fundamental_div_mod, lemma_fundamental_div_mod_converse};
use vstd::prelude::*;

verus! {

/// The fixed-point representation of 1.
pub const ONE: i64 = 0x1_0000_0000;

/// The fixed-point product of two raw values: `floor(a * b / 2^32)`.
pub open spec fn fx_mul_spec(a: int, b: int) -> int {
    (a * b) / (ONE as int)
}

/// The fixed-point quotient of two raw values: `floor(a * 2^32 / b)` for `b > 0`.
pub open spec fn fx_div_spec(a: int, b: int) -> int {
    (a * (ONE as int)) / b
}

/// `r` is the largest integer whose square does not exceed `n`.
pub open spec fn is_floor_sqrt(n: int, r: int) -> bool {
    0 <= r && r * r <= n < (r + 1) * (r + 1)
}

/// The integer square root of `n`, rounded down (meaningful for `n >= 0`).
pub open spec fn floor_sqrt(n: int) -> int {
    choose|r: int| is_floor_sqrt(n, r)
}

/// The fixed-point square root of a raw value: `floor(sqrt(a * 2^32))`.
pub open spec fn fx_sqrt_spec(a: int) -> int {
    floor_sqrt(a * (ONE as int))
}

/// A product is bounded by the product of the bounds of its factors.
pub proof fn lemma_mul_within(a: int, b: int, ma: int, mb: int)
    by (nonlinear_arith)
    requires
        -ma <= a <= ma,
        -mb <= b <= mb,
    ensures
        -(ma * mb) <= a * b <= ma * mb,
{
}

/// Squaring is strictly monotone on the non-negative integers.
pub proof fn lemma_square_monotone(r: int, s: int)
    by (nonlinear_arith)
    requires
        0 <= r < s,
    ensures
        (r + 1) * (r + 1) <= s * s,
{
}

/// There is at most one floor square root.
pub proof fn lemma_floor_sqrt_unique(n: int, r: int)
    requires
        is_floor_sqrt(n, r),
    ensures
        floor_sqrt(n) == r,
{
    let s = floor_sqrt(n);
    assert(is_floor_sqrt(n, s));
    if s < r {
        lemma_square_monotone(s, r);
    }
    if r < s {
        lemma_square_monotone(r, s);
    }
}

/// The fixed-point product is bounded by the scaled product of the bounds.
pub proof fn lemma_fx_mul_within(a: int, b: int, ma: int, mb: int)
    requires
        -ma <= a <= ma,
        -mb <= b <= mb,
    ensures
        (-(ma * mb)) / (ONE as int) <= fx_mul_spec(a, b) <= (ma * mb) / (ONE as int),
{
    lemma_mul_within(a, b, ma, mb);
}

/// The fixed-point product of two non-negative values is not negative.
pub proof fn lemma_fx_mul_nonnegative(a: int, b: int)
    requires
        a >= 0,
        b >= 0,
    ensures
        fx_mul_spec(a, b) >= 0,
{
    assert(a * b >= 0) by (nonlinear_arith)
        requires
            a >= 0,
            b >= 0,
    ;
}

/// A quotient lies between two bounds when the dividend lies between their
/// multiples of the divisor.
pub proof fn lemma_div_between(n: int, d: int, a: int, b: int)
    by (nonlinear_arith)
    requires
        d > 0,
        a * d <= n < b * d,
    ensures
        a <= n / d < b,
{
}

/// A floor square root is below every number whose square exceeds the radicand.
pub proof fn lemma_floor_sqrt_below(n: int, r: int, m: int)
    requires
        is_floor_sqrt(n, r),
        0 <= m,
        n < m * m,
    ensures
        r < m,
{
    if r >= m {
        assert(m * m <= r * r) by (nonlinear_arith)
            requires
                0 <= m <= r,
        ;
    }
}

/// A fixed-point quotient is bounded by `m` when the dividend is bounded by
/// `m` times the divisor.
pub proof fn lemma_fx_div_within(v: int, d: int, m: int)
    requires
        d > 0,
        -(m * d) <= v * ONE <= m * d,
    ensures
        -m <= fx_div_spec(v, d) <= m,
{
    assert((-m) * d == -(m * d) && (m + 1) * d == m * d + d) by (nonlinear_arith);
    lemma_div_between(v * ONE, d, -m, m + 1);
}

/// Every non-negative integer has a floor square root.
pub proof fn lemma_floor_sqrt_exists(n: int)
    requires
        n >= 0,
    ensures
        is_floor_sqrt(n, floor_sqrt(n)),
    decreases n,
{
    if n == 0 {
        assert(is_floor_sqrt(0, 0));
    } else {
        lemma_floor_sqrt_exists(n - 1);
        let r = floor_sqrt(n - 1);
        if n < (r + 1) * (r + 1) {
            assert(is_floor_sqrt(n, r));
        } else {
            assert((r + 2) * (r + 2) > (r + 1) * (r + 1)) by (nonlinear_arith)
                requires
                    r >= 0,
            ;
            assert(is_floor_sqrt(n, r + 1));
        }
    }
}

/// Quotient of `n` by a positive `d`, rounded toward negative infinity.
pub(crate) fn floor_div(n: i128, d: i128) -> (q: i128)
    requires
        d > 0,
        n > i128::MIN,
    ensures
        q == (n as int) / (d as int),
{
    if n >= 0 {
        n / d
    } else {
        let m: i128 = -n;
        let q: i128 = m / d;
        let r: i128 = m % d;
        proof {
            lemma_fundamental_div_mod(m as int, d as int);
            assert(d * q == q * d) by (nonlinear_arith);
        }
        if r == 0 {
            proof {
                assert((-q) * d == -(q * d)) by (nonlinear_arith);
                lemma_fundamental_div_mod_converse(n as int, d as int, -q as int, 0);
            }
            -q
        } else {
            proof {
                assert((-q - 1) * d == -(q * d) - d) by (nonlinear_arith);
                lemma_fundamental_div_mod_converse(n as int, d as int, -q - 1, d - r);
            }
            -q - 1
        }
    }
}

/// Fixed-point product of two raw values known to lie within `ma` and `mb`,
/// where the product of the bounds fits in 128 bits.
pub(crate) fn fx_mul_wide(a: i128, b: i128, Ghost(ma): Ghost<int>, Ghost(mb): Ghost<int>) -> (r:
    i128)
    requires
        -ma <= a <= ma,
        -mb <= b <= mb,
        ma * mb <= i128::MAX,
    ensures
        r == fx_mul_spec(a as int, b as int),
        (-(ma * mb)) / (ONE as int) <= r <= (ma * mb) / (ONE as int),
        a >= 0 && b >= 0 ==> r >= 0,
{
    proof {
        lemma_mul_within(a as int, b as int, ma, mb);
        if a >= 0 && b >= 0 {
            lemma_fx_mul_nonnegative(a as int, b as int);
        }
    }
    floor_div(a * b, 0x1_0000_0000)
}

/// Fixed-point product of two raw values known to lie within `ma` and `mb`,
/// where the product fits in 64 bits.
pub(crate) fn fx_mul(a: i64, b: i64, Ghost(ma): Ghost<int>, Ghost(mb): Ghost<int>) -> (r: i64)
    requires
        -ma <= a <= ma,
        -mb <= b <= mb,
        ma * mb <= 0x4000_0000_0000_0000_0000_0000,
    ensures
        r == fx_mul_spec(a as int, b as int),
        (-(ma * mb)) / (ONE as int) <= r <= (ma * mb) / (ONE as int),
        a >= 0 && b >= 0 ==> r >= 0,
{
    fx_mul_wide(a as i128, b as i128, Ghost(ma), Ghost(mb)) as i64
}

/// Fixed-point quotient of a raw value by a positive raw value.
pub(crate) fn fx_div(a: i128, b: i128) -> (r: i128)
    requires
        b > 0,
        -0x8000_0000_0000_0000_0000_0000 < a < 0x8000_0000_0000_0000_0000_0000,
    ensures
        r == fx_div_spec(a as int, b as int),
{
    floor_div(a * 0x1_0000_0000, b)
}

/// Integer square root, rounded down.
pub(crate) fn floor_sqrt_exec(n: u128) -> (r: u128)
    ensures
        r == floor_sqrt(n as int),
        is_floor_sqrt(n as int, r as int),
        r < 0x1_0000_0000_0000_0000,
{
    let mut lo: u128 = 0;
    let mut hi: u128 = 0x1_0000_0000_0000_0000;
    assert(0x1_0000_0000_0000_0000int * 0x1_0000_0000_0000_0000int
        == 0x1_0000_0000_0000_0000_0000_0000_0000_0000int);
    while hi - lo > 1
        invariant
            lo < hi <= 0x1_0000_0000_0000_0000,
            lo * lo <= n < hi * hi,
        decreases hi - lo,
    {
        let mid: u128 = lo + (hi - lo) / 2;
        proof {
            lemma_mul_within(mid as int, mid as int, 0xffff_ffff_ffff_ffff, 0xffff_ffff_ffff_ffff);
        }
        let sq: u128 = mid * mid;
        if sq <= n {
            lo = mid;
        } else {
            hi = mid;
        }
    }
    proof {
        assert(hi == lo + 1);
        lemma_floor_sqrt_unique(n as int, lo as int);
    }
    lo
}

/// Fixed-point square root of a non-negative raw value below 2^96.
pub(crate) fn fx_sqrt(a: i128) -> (r: i128)
    requires
        0 <= a < 0x1_0000_0000_0000_0000_0000_0000,
    ensures
        r == fx_sqrt_spec(a as int),
        is_floor_sqrt(a * (ONE as int), r as int),
        0 <= r < 0x1_0000_0000_0000_0000,
{
    let n: u128 = (a as u128) * 0x1_0000_0000u128;
    floor_sqrt_exec(n) as i128
}

} // verus!
