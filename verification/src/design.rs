//! Coefficients of the high-shelf filter from gain, slope, corner frequency
//! and sample rate.
//!
//! The design follows the usual shelving equations.  With `A` the linear
//! amplitude of half the gain, `w` the corner frequency as an angle and `S`
//! the slope,
//!
//! ```text
//! alpha = sin(w)/2 * sqrt((A + 1/A) * (1/S - 1) + 2)
//! beta  = 2 * sqrt(A) * alpha
//! b0 =      A * ((A + 1) + (A - 1) * cos(w) + beta)
//! b1 = -2 * A * ((A - 1) + (A + 1) * cos(w))
//! b2 =      A * ((A + 1) + (A - 1) * cos(w) - beta)
//! a0 =          (A + 1) - (A - 1) * cos(w) + beta
//! a1 =  2 *    ((A - 1) - (A + 1) * cos(w))
//! a2 =          (A + 1) - (A - 1) * cos(w) - beta
//! ```
//!
//! and the result is `b0/a0, b1/a0, b2/a0, a1/a0, a2/a0`.  Every operation is
//! a fixed-point operation of [`crate::fixed`]; sine, cosine and the power of
//! two are truncated power series.
//!
//! Values are held in 64 bits and products are formed in 128 bits.  That
//! sets the limits of the design: the amplitude and its reciprocal must each
//! be at most 2^30, `beta` must be at most 2^30, and every coefficient must
//! fit in 64 bits.  Within them every gain and every positive slope is
//! designed.

use crate::biquad::Coefficients;
use crate::error::Error;
use crate::fixed::{
    floor_div, fx_div, fx_div_spec, fx_mul, fx_mul_spec, fx_mul_wide, fx_sqrt, fx_sqrt_spec,
    lemma_div_between, lemma_floor_sqrt_below, lemma_floor_sqrt_exists, lemma_floor_sqrt_unique,
    lemma_fx_div_within, lemma_fx_mul_nonnegative, lemma_fx_mul_within, lemma_mul_within, ONE,
};
use crate::format::lemma_pow2_le;
use vstd::arithmetic::power2::{lemma2_to64, lemma2_to64_rest, lemma_pow2_pos, pow2};
use vstd::bits::{lemma_u64_shl_is_mul, lemma_u64_shr_is_div};
use vstd::prelude::*;

verus! {

/// The circle constant 2π in fixed point.
pub const TWO_PI: i64 = 26986075409;

/// The natural logarithm of 2 in fixed point.
pub const LN_2: i64 = 2977044472;

/// `log2(10) / 40` in fixed point: the binary logarithm of the amplitude per
/// decibel of gain.
pub const LOG2_10_OVER_40: i64 = 356689313;

/// A quarter of a turn, where a full turn is `2^32`.
pub const QUARTER_TURN: i64 = 0x4000_0000;

/// Half a turn: the phase of the Nyquist frequency.
pub const HALF_TURN: i64 = 0x8000_0000;

/// The smallest amplitude the arithmetic holds: 2^-30.  With it the
/// reciprocal of the amplitude is at most 2^30.
pub const AMPLITUDE_MIN: i64 = 4;

/// The largest amplitude the arithmetic holds: 2^30.  With it the product
/// of the amplitude and a sum of three values fits in 128 bits.
pub const AMPLITUDE_MAX: i64 = 0x4000_0000_0000_0000;

/// The largest `beta` the arithmetic holds: 2^30.
pub const BETA_MAX: i64 = 0x4000_0000_0000_0000;

/// The largest gain, in either direction, for which the design is proved to
/// exist whatever the other valid parameters: 48 dB.
pub const GAIN_DB_MODERATE: i64 = 0x30_0000_0000;

/// One step of an alternating power series: `1 - z * acc / d`.
pub open spec fn series_down(z: int, acc: int, d: int) -> int {
    ONE - fx_mul_spec(z, acc) / d
}

/// One step of a power series with positive terms: `1 + u * acc / d`.
pub open spec fn series_up(u: int, acc: int, d: int) -> int {
    ONE + fx_mul_spec(u, acc) / d
}

/// `sin(x) / x` as a function of `z = x * x`, up to the term in `x^14`.
pub open spec fn sine_series(z: int) -> int {
    let s7 = series_down(z, ONE as int, 210);
    let s6 = series_down(z, s7, 156);
    let s5 = series_down(z, s6, 110);
    let s4 = series_down(z, s5, 72);
    let s3 = series_down(z, s4, 42);
    let s2 = series_down(z, s3, 20);
    series_down(z, s2, 6)
}

/// `cos(x)` as a function of `z = x * x`, up to the term in `x^16`.
pub open spec fn cosine_series(z: int) -> int {
    let c8 = series_down(z, ONE as int, 240);
    let c7 = series_down(z, c8, 182);
    let c6 = series_down(z, c7, 132);
    let c5 = series_down(z, c6, 90);
    let c4 = series_down(z, c5, 56);
    let c3 = series_down(z, c4, 30);
    let c2 = series_down(z, c3, 12);
    series_down(z, c2, 2)
}

/// `exp(u)`, up to the term in `u^12`.
pub open spec fn exp_series(u: int) -> int {
    let e12 = series_up(u, ONE as int, 12);
    let e11 = series_up(u, e12, 11);
    let e10 = series_up(u, e11, 10);
    let e9 = series_up(u, e10, 9);
    let e8 = series_up(u, e9, 8);
    let e7 = series_up(u, e8, 7);
    let e6 = series_up(u, e7, 6);
    let e5 = series_up(u, e6, 5);
    let e4 = series_up(u, e5, 4);
    let e3 = series_up(u, e4, 3);
    let e2 = series_up(u, e3, 2);
    series_up(u, e2, 1)
}

/// The angle in radians of a phase below half a turn, folded into the first
/// quarter turn.
pub open spec fn folded_angle(turn: int) -> int {
    fx_mul_spec(
        TWO_PI as int,
        if turn <= QUARTER_TURN {
            turn
        } else {
            HALF_TURN - turn
        },
    )
}

/// The sine of a phase below half a turn.
pub open spec fn sine_spec(turn: int) -> int {
    let x = folded_angle(turn);
    fx_mul_spec(x, sine_series(fx_mul_spec(x, x)))
}

/// The cosine of a phase below half a turn.
pub open spec fn cosine_spec(turn: int) -> int {
    let x = folded_angle(turn);
    let c = cosine_series(fx_mul_spec(x, x));
    if turn <= QUARTER_TURN {
        c
    } else {
        -c
    }
}

/// The linear amplitude `10^(gain_db / 40)`.
pub open spec fn amplitude_spec(gain_db: int) -> int {
    let e = fx_mul_spec(gain_db, LOG2_10_OVER_40 as int);
    let n = e / (ONE as int);
    let m = exp_series(fx_mul_spec(e % (ONE as int), LN_2 as int));
    if n >= 0 {
        m * pow2(n as nat)
    } else {
        m / (pow2((-n) as nat) as int)
    }
}

/// The parameters lie in the domain of the design: a positive sample rate, a
/// corner frequency above zero and below half the sample rate, and a
/// positive slope.
pub open spec fn parameters_valid(sample_rate: int, shelf_slope: int, frequency: int) -> bool {
    &&& sample_rate > 0
    &&& shelf_slope > 0
    &&& 0 < frequency
    &&& 2 * frequency < sample_rate * ONE
}

/// The amplitude and its reciprocal can be held.
pub open spec fn amplitude_held(a: int) -> bool {
    AMPLITUDE_MIN <= a <= AMPLITUDE_MAX
}

/// `v` fits in the 64 bits of a coefficient.
pub open spec fn coefficient_held(v: int) -> bool {
    i64::MIN <= v <= i64::MAX
}

/// The quantity under the square root of `alpha`.
pub open spec fn radicand_spec(a: int, shelf_slope: int) -> int {
    fx_mul_spec(a + fx_div_spec(ONE as int, a), fx_div_spec(ONE as int, shelf_slope) - ONE) + 2
        * ONE
}

/// `beta = 2 * sqrt(A) * alpha`.
pub open spec fn beta_spec(a: int, sine: int, radicand: int) -> int {
    2 * fx_mul_spec(fx_sqrt_spec(a), fx_mul_spec(sine, fx_sqrt_spec(radicand)) / 2)
}

/// The six coefficients before they are divided by `a0`.
pub struct Prototype {
    pub b0: int,
    pub b1: int,
    pub b2: int,
    pub a0: int,
    pub a1: int,
    pub a2: int,
}

/// The shelving equations for amplitude `a`, cosine `c` and `beta`.
pub open spec fn prototype_spec(a: int, c: int, beta: int) -> Prototype {
    Prototype {
        b0: fx_mul_spec(a, (a + ONE) + fx_mul_spec(a - ONE, c) + beta),
        b1: -2 * fx_mul_spec(a, (a - ONE) + fx_mul_spec(a + ONE, c)),
        b2: fx_mul_spec(a, (a + ONE) + fx_mul_spec(a - ONE, c) - beta),
        a0: (a + ONE) - fx_mul_spec(a - ONE, c) + beta,
        a1: 2 * ((a - ONE) - fx_mul_spec(a + ONE, c)),
        a2: (a + ONE) - fx_mul_spec(a - ONE, c) - beta,
    }
}

/// The prototype divided by its `a0`, when `a0` is positive and every
/// quotient fits in a coefficient.
pub open spec fn normalized_spec(p: Prototype) -> Option<Coefficients> {
    let b0 = fx_div_spec(p.b0, p.a0);
    let b1 = fx_div_spec(p.b1, p.a0);
    let b2 = fx_div_spec(p.b2, p.a0);
    let a1 = fx_div_spec(p.a1, p.a0);
    let a2 = fx_div_spec(p.a2, p.a0);
    if p.a0 > 0 && coefficient_held(b0) && coefficient_held(b1) && coefficient_held(b2)
        && coefficient_held(a1) && coefficient_held(a2) {
        Some(
            Coefficients {
                b0: b0 as i64,
                b1: b1 as i64,
                b2: b2 as i64,
                a1: a1 as i64,
                a2: a2 as i64,
            },
        )
    } else {
        None
    }
}

/// The coefficients of the high-shelf filter, or `None` where the design
/// does not exist.  It exists for every positive sample rate, every corner
/// frequency above zero and below half the sample rate and every positive
/// slope, unless
///
/// * the square root in `alpha` has no real value, or
/// * the arithmetic cannot hold the amplitude, its reciprocal or `beta`, or
/// * a coefficient does not fit in 64 bits.
pub open spec fn design_spec(sample_rate: int, gain_db: int, shelf_slope: int, frequency: int)
    -> Option<Coefficients> {
    let turn = frequency / sample_rate;
    let a = amplitude_spec(gain_db);
    let radicand = radicand_spec(a, shelf_slope);
    let beta = beta_spec(a, sine_spec(turn), radicand);
    if !parameters_valid(sample_rate, shelf_slope, frequency) {
        None
    } else if !amplitude_held(a) {
        None
    } else if radicand < 0 {
        None
    } else if beta > BETA_MAX {
        None
    } else {
        normalized_spec(prototype_spec(a, cosine_spec(turn), beta))
    }
}

fn step_down(z: i64, acc: i64, d: i64) -> (r: i64)
    requires
        0 <= z <= 3 * ONE,
        0 <= acc <= ONE,
        d >= 2,
    ensures
        r == series_down(z as int, acc as int, d as int),
        -ONE <= r <= ONE,
        d >= 3 ==> 0 <= r,
{
    proof {
        lemma_series_down_bounds(z as int, acc as int, d as int);
    }
    ONE - fx_mul(z, acc, Ghost(0x3_0000_0000), Ghost(0x1_0000_0000)) / d
}

fn step_up(u: i64, acc: i64, d: i64) -> (r: i64)
    requires
        0 <= u <= LN_2,
        ONE <= acc <= 4 * ONE,
        d >= 1,
    ensures
        r == series_up(u as int, acc as int, d as int),
        ONE <= r <= 4 * ONE,
{
    proof {
        lemma_series_up_bounds(u as int, acc as int, d as int);
    }
    ONE + fx_mul(u, acc, Ghost(2977044472), Ghost(0x4_0000_0000)) / d
}

/// Sine and cosine of a phase below half a turn.
pub(crate) fn sine_cosine(turn: i64) -> (r: (i64, i64))
    requires
        0 <= turn < HALF_TURN,
    ensures
        r.0 == sine_spec(turn as int),
        r.1 == cosine_spec(turn as int),
        0 <= r.0 <= 2 * ONE,
        -ONE <= r.1 <= ONE,
{
    let folded: i64 = if turn <= QUARTER_TURN {
        turn
    } else {
        HALF_TURN - turn
    };
    let x: i64 = fx_mul(TWO_PI, folded, Ghost(26986075409), Ghost(0x4000_0000));
    let z: i64 = fx_mul(x, x, Ghost(6746518852), Ghost(6746518852));
    let s7: i64 = step_down(z, ONE, 210);
    let s6: i64 = step_down(z, s7, 156);
    let s5: i64 = step_down(z, s6, 110);
    let s4: i64 = step_down(z, s5, 72);
    let s3: i64 = step_down(z, s4, 42);
    let s2: i64 = step_down(z, s3, 20);
    let s1: i64 = step_down(z, s2, 6);
    let sine: i64 = fx_mul(x, s1, Ghost(6746518852), Ghost(0x1_0000_0000));
    let c8: i64 = step_down(z, ONE, 240);
    let c7: i64 = step_down(z, c8, 182);
    let c6: i64 = step_down(z, c7, 132);
    let c5: i64 = step_down(z, c6, 90);
    let c4: i64 = step_down(z, c5, 56);
    let c3: i64 = step_down(z, c4, 30);
    let c2: i64 = step_down(z, c3, 12);
    let c1: i64 = step_down(z, c2, 2);
    let cosine: i64 = if turn <= QUARTER_TURN {
        c1
    } else {
        -c1
    };
    (sine, cosine)
}

/// The linear amplitude `10^(gain_db / 40)`, where the arithmetic holds it.
pub(crate) fn amplitude(gain_db: i64) -> (r: Option<i64>)
    ensures
        r is Some <==> amplitude_held(amplitude_spec(gain_db as int)),
        r matches Some(a) ==> a == amplitude_spec(gain_db as int),
{
    let e: i64 = fx_mul(
        gain_db,
        LOG2_10_OVER_40,
        Ghost(0x8000_0000_0000_0000),
        Ghost(356689313),
    );
    let n: i128 = floor_div(e as i128, 0x1_0000_0000);
    let r: i64 = (e as i128 - n * 0x1_0000_0000i128) as i64;
    let u: i64 = fx_mul(r, LN_2, Ghost(0x1_0000_0000), Ghost(2977044472));
    let e12: i64 = step_up(u, ONE, 12);
    let e11: i64 = step_up(u, e12, 11);
    let e10: i64 = step_up(u, e11, 10);
    let e9: i64 = step_up(u, e10, 9);
    let e8: i64 = step_up(u, e9, 8);
    let e7: i64 = step_up(u, e8, 7);
    let e6: i64 = step_up(u, e7, 6);
    let e5: i64 = step_up(u, e6, 5);
    let e4: i64 = step_up(u, e5, 4);
    let e3: i64 = step_up(u, e4, 3);
    let e2: i64 = step_up(u, e3, 2);
    let m: i64 = step_up(u, e2, 1);
    proof {
        lemma2_to64();
        lemma2_to64_rest();
    }
    if n > 30 {
        proof {
            lemma_pow2_le(31, n as nat);
            assert(m * pow2(n as nat) > AMPLITUDE_MAX) by (nonlinear_arith)
                requires
                    m >= 0x1_0000_0000,
                    pow2(n as nat) >= 0x8000_0000,
            ;
        }
        None
    } else if n >= 0 {
        let k: u64 = n as u64;
        proof {
            lemma_pow2_le(k as nat, 30);
            lemma_pow2_pos(k as nat);
            lemma_u64_shl_is_mul(1, k);
            lemma_mul_within(m as int, pow2(k as nat) as int, 0x4_0000_0000, 0x4000_0000);
            assert(m * pow2(k as nat) >= m) by (nonlinear_arith)
                requires
                    m >= 0,
                    pow2(k as nat) >= 1,
            ;
        }
        let a: i128 = (m as i128) * ((1u64 << k) as i128);
        if a > AMPLITUDE_MAX as i128 {
            None
        } else {
            Some(a as i64)
        }
    } else if n < -34 {
        proof {
            let k = (-n) as nat;
            lemma_pow2_le(35, k);
            lemma_div_between(m as int, pow2(k) as int, 0, 1);
        }
        None
    } else {
        let k: u64 = (-n) as u64;
        proof {
            lemma_pow2_pos(k as nat);
            lemma_u64_shr_is_div(m as u64, k);
            assert((m as int) / (pow2(k as nat) as int) <= m) by (nonlinear_arith)
                requires
                    m >= 0,
                    pow2(k as nat) >= 1,
            ;
        }
        let a: i64 = ((m as u64) >> k) as i64;
        if a < AMPLITUDE_MIN {
            None
        } else {
            Some(a)
        }
    }
}

/// Divides a prototype coefficient by `a0` and checks that it fits.
fn normalize(v: i128, a0: i128) -> (r: Option<i64>)
    requires
        a0 > 0,
        -0x8000_0000_0000_0000_0000_0000 < v < 0x8000_0000_0000_0000_0000_0000,
    ensures
        coefficient_held(fx_div_spec(v as int, a0 as int)) <==> r is Some,
        r matches Some(q) ==> q == fx_div_spec(v as int, a0 as int),
{
    let q: i128 = fx_div(v, a0);
    if q < i64::MIN as i128 || q > i64::MAX as i128 {
        None
    } else {
        Some(q as i64)
    }
}

/// Designs the high-shelf filter for a stream of `sample_rate` frames per
/// second: `gain_db` decibels above the corner `frequency` in hertz, with
/// transition steepness `shelf_slope`.  The three are fixed-point values.
///
/// Fails where [`design_spec`] has no value.  It has one for every valid
/// rate, frequency and slope when the gain is zero, and when the gain is at
/// most 48 dB in either direction wherever the square root has a value, as
/// it has for every slope of at most 1 (see `lemma_zero_gain_exists`,
/// `lemma_design_exists` and `lemma_root_exists`).
pub fn design_high_shelf(sample_rate: u32, gain_db: i64, shelf_slope: i64, frequency: i64) -> (r:
    Result<Coefficients, Error>)
    ensures
        r is Ok <==> design_spec(
            sample_rate as int,
            gain_db as int,
            shelf_slope as int,
            frequency as int,
        ) is Some,
        r matches Ok(c) ==> Some(c) == design_spec(
            sample_rate as int,
            gain_db as int,
            shelf_slope as int,
            frequency as int,
        ),
{
    if sample_rate == 0 || shelf_slope <= 0 || frequency <= 0 || frequency >= (
    sample_rate as i64) * HALF_TURN {
        return Err(Error::InvalidArgs);
    }
    proof {
        lemma_div_between(frequency as int, sample_rate as int, 0, HALF_TURN as int);
    }
    let turn: i64 = frequency / (sample_rate as i64);
    let (sine, cosine) = sine_cosine(turn);
    let a: i128 = match amplitude(gain_db) {
        Some(a) => a as i128,
        None => {
            return Err(Error::InvalidArgs);
        },
    };
    proof {
        lemma_div_between(0x1_0000_0000_0000_0000, a as int, 4, 0x4000_0000_0000_0001);
        lemma_div_between(
            0x1_0000_0000_0000_0000,
            shelf_slope as int,
            0,
            0x1_0000_0000_0000_0001,
        );
    }
    let inv_a: i128 = fx_div(0x1_0000_0000, a);
    let inv_s: i128 = fx_div(0x1_0000_0000, shelf_slope as i128);
    let radicand: i128 = fx_mul_wide(
        a + inv_a,
        inv_s - 0x1_0000_0000,
        Ghost(0x8000_0000_0000_0000),
        Ghost(0xffff_ffff_0000_0000),
    ) + 0x2_0000_0000;
    if radicand < 0 {
        return Err(Error::InvalidArgs);
    }
    let root: i128 = fx_sqrt(radicand);
    let sqrt_a: i128 = fx_sqrt(a);
    proof {
        lemma_floor_sqrt_below(a * ONE, sqrt_a as int, 0x8000_0000_0001);
    }
    let alpha: i128 = fx_mul_wide(
        sine as i128,
        root,
        Ghost(0x2_0000_0000),
        Ghost(0x1_0000_0000_0000_0000),
    ) / 2;
    let beta: i128 = 2 * fx_mul_wide(
        sqrt_a,
        alpha,
        Ghost(0x8000_0000_0000),
        Ghost(0x1_0000_0000_0000_0000),
    );
    if beta > BETA_MAX as i128 {
        return Err(Error::InvalidArgs);
    }
    let minus_c: i128 = fx_mul_wide(
        a - 0x1_0000_0000,
        cosine as i128,
        Ghost(0x4000_0000_0000_0000),
        Ghost(0x1_0000_0000),
    );
    let plus_c: i128 = fx_mul_wide(
        a + 0x1_0000_0000,
        cosine as i128,
        Ghost(0x4000_0001_0000_0000),
        Ghost(0x1_0000_0000),
    );
    let b0: i128 = fx_mul_wide(
        a,
        (a + 0x1_0000_0000) + minus_c + beta,
        Ghost(0x4000_0000_0000_0000),
        Ghost(0x1_0000_0000_0000_0000),
    );
    let b1: i128 = -2 * fx_mul_wide(
        a,
        (a - 0x1_0000_0000) + plus_c,
        Ghost(0x4000_0000_0000_0000),
        Ghost(0x8000_0002_0000_0000),
    );
    let b2: i128 = fx_mul_wide(
        a,
        (a + 0x1_0000_0000) + minus_c - beta,
        Ghost(0x4000_0000_0000_0000),
        Ghost(0x1_0000_0000_0000_0000),
    );
    let a0: i128 = (a + 0x1_0000_0000) - minus_c + beta;
    let a1: i128 = 2 * ((a - 0x1_0000_0000) - plus_c);
    let a2: i128 = (a + 0x1_0000_0000) - minus_c - beta;
    proof {
        lemma_denominator_positive(
            sample_rate as int,
            gain_db as int,
            shelf_slope as int,
            frequency as int,
        );
    }
    let n0: Option<i64> = normalize(b0, a0);
    let n1: Option<i64> = normalize(b1, a0);
    let n2: Option<i64> = normalize(b2, a0);
    let m1: Option<i64> = normalize(a1, a0);
    let m2: Option<i64> = normalize(a2, a0);
    match (n0, n1, n2, m1, m2) {
        (Some(b0), Some(b1), Some(b2), Some(a1), Some(a2)) => Ok(
            Coefficients { b0, b1, b2, a1, a2 },
        ),
        _ => Err(Error::InvalidArgs),
    }
}

/// A gain of zero decibels is the amplitude 1.
pub proof fn lemma_amplitude_of_zero()
    ensures
        amplitude_spec(0) == ONE,
{
    lemma2_to64();
    assert(fx_mul_spec(0, LOG2_10_OVER_40 as int) == 0);
    assert(fx_mul_spec(0, LN_2 as int) == 0);
    assert(fx_mul_spec(0, ONE as int) == 0);
    assert(series_up(0, ONE as int, 12) == ONE);
    assert(series_up(0, ONE as int, 11) == ONE);
    assert(series_up(0, ONE as int, 10) == ONE);
    assert(series_up(0, ONE as int, 9) == ONE);
    assert(series_up(0, ONE as int, 8) == ONE);
    assert(series_up(0, ONE as int, 7) == ONE);
    assert(series_up(0, ONE as int, 6) == ONE);
    assert(series_up(0, ONE as int, 5) == ONE);
    assert(series_up(0, ONE as int, 4) == ONE);
    assert(series_up(0, ONE as int, 3) == ONE);
    assert(series_up(0, ONE as int, 2) == ONE);
    assert(series_up(0, ONE as int, 1) == ONE);
    assert(exp_series(0) == ONE);
    let e = fx_mul_spec(0, LOG2_10_OVER_40 as int);
    let n = e / (ONE as int);
    let m = exp_series(fx_mul_spec(e % (ONE as int), LN_2 as int));
    assert(n == 0);
    assert(e % (ONE as int) == 0);
    assert(m == ONE);
    assert(pow2(0) == 1);
    assert(m * pow2(n as nat) == ONE) by (nonlinear_arith)
        requires
            m == ONE,
            pow2(n as nat) == 1,
    ;
}

/// With the amplitude 1 the numerator of the prototype equals its
/// denominator.
pub proof fn lemma_unit_amplitude_prototype(c: int, beta: int)
    ensures
        ({
            let p = prototype_spec(ONE as int, c, beta);
            p.b0 == p.a0 && p.b1 == p.a1 && p.b2 == p.a2
        }),
{
    assert(fx_mul_spec(0, c) == 0) by {
        assert(0 * c == 0);
    }
    let t = fx_mul_spec(2 * ONE, c);
    assert(fx_mul_spec(ONE as int, t) == t);
    assert(fx_mul_spec(ONE as int, 2 * ONE + beta) == 2 * ONE + beta);
    assert(fx_mul_spec(ONE as int, 2 * ONE - beta) == 2 * ONE - beta);
}

/// A design for zero gain has a flat response: its numerator equals its
/// denominator.
pub proof fn lemma_zero_gain_design(sample_rate: int, shelf_slope: int, frequency: int)
    ensures
        design_spec(sample_rate, 0, shelf_slope, frequency) matches Some(c) ==> c.flat(),
{
    if design_spec(sample_rate, 0, shelf_slope, frequency) is Some {
        lemma_amplitude_of_zero();
        let turn = frequency / sample_rate;
        let radicand = radicand_spec(ONE as int, shelf_slope);
        let beta = beta_spec(ONE as int, sine_spec(turn), radicand);
        let p = prototype_spec(ONE as int, cosine_spec(turn), beta);
        lemma_unit_amplitude_prototype(cosine_spec(turn), beta);
        assert(normalized_spec(p) is Some);
        vstd::arithmetic::div_mod::lemma_div_multiples_vanish(ONE as int, p.a0);
        assert(p.a0 * ONE == p.a0 * (ONE as int));
        assert(fx_div_spec(p.b0, p.a0) == ONE);
    }
}

/// One step of an alternating series stays between -1 and 1, and above 0
/// from the second term on.
pub proof fn lemma_series_down_bounds(z: int, acc: int, d: int)
    requires
        0 <= z <= 3 * ONE,
        0 <= acc <= ONE,
        d >= 2,
    ensures
        -ONE <= series_down(z, acc, d) <= ONE,
        d >= 3 ==> 0 <= series_down(z, acc, d),
{
    lemma_fx_mul_within(z, acc, 0x3_0000_0000, 0x1_0000_0000);
    lemma_fx_mul_nonnegative(z, acc);
    let t = fx_mul_spec(z, acc);
    lemma_div_between(t, d, 0, 0x2_0000_0001);
    if d >= 3 {
        lemma_div_between(t, d, 0, 0x1_0000_0001);
    }
}

/// One step of the exponential series stays between 1 and 4.
pub proof fn lemma_series_up_bounds(u: int, acc: int, d: int)
    requires
        0 <= u <= LN_2,
        ONE <= acc <= 4 * ONE,
        d >= 1,
    ensures
        ONE <= series_up(u, acc, d) <= 4 * ONE,
{
    lemma_fx_mul_within(u, acc, 2977044472, 0x4_0000_0000);
    lemma_fx_mul_nonnegative(u, acc);
    lemma_div_between(fx_mul_spec(u, acc), d, 0, 0x3_0000_0001);
}

/// Below half a turn the sine is not negative and the cosine lies between
/// -1 and 1.
pub proof fn lemma_trig_bounds(turn: int)
    requires
        0 <= turn < HALF_TURN,
    ensures
        0 <= sine_spec(turn) <= 2 * ONE,
        -ONE <= cosine_spec(turn) <= ONE,
{
    let folded = if turn <= QUARTER_TURN {
        turn
    } else {
        HALF_TURN - turn
    };
    lemma_fx_mul_within(TWO_PI as int, folded, 26986075409, 0x4000_0000);
    lemma_fx_mul_nonnegative(TWO_PI as int, folded);
    let x = folded_angle(turn);
    lemma_fx_mul_within(x, x, 6746518852, 6746518852);
    lemma_fx_mul_nonnegative(x, x);
    let z = fx_mul_spec(x, x);
    lemma_series_down_bounds(z, ONE as int, 210);
    let s7 = series_down(z, ONE as int, 210);
    lemma_series_down_bounds(z, s7, 156);
    let s6 = series_down(z, s7, 156);
    lemma_series_down_bounds(z, s6, 110);
    let s5 = series_down(z, s6, 110);
    lemma_series_down_bounds(z, s5, 72);
    let s4 = series_down(z, s5, 72);
    lemma_series_down_bounds(z, s4, 42);
    let s3 = series_down(z, s4, 42);
    lemma_series_down_bounds(z, s3, 20);
    let s2 = series_down(z, s3, 20);
    lemma_series_down_bounds(z, s2, 6);
    let s1 = series_down(z, s2, 6);
    lemma_fx_mul_within(x, s1, 6746518852, 0x1_0000_0000);
    lemma_fx_mul_nonnegative(x, s1);
    lemma_series_down_bounds(z, ONE as int, 240);
    let c8 = series_down(z, ONE as int, 240);
    lemma_series_down_bounds(z, c8, 182);
    let c7 = series_down(z, c8, 182);
    lemma_series_down_bounds(z, c7, 132);
    let c6 = series_down(z, c7, 132);
    lemma_series_down_bounds(z, c6, 90);
    let c5 = series_down(z, c6, 90);
    lemma_series_down_bounds(z, c5, 56);
    let c4 = series_down(z, c5, 56);
    lemma_series_down_bounds(z, c4, 30);
    let c3 = series_down(z, c4, 30);
    lemma_series_down_bounds(z, c3, 12);
    let c2 = series_down(z, c3, 12);
    lemma_series_down_bounds(z, c2, 2);
}

/// The exponential series of an argument up to `ln 2` lies between 1 and 4.
pub proof fn lemma_exp_series_bounds(u: int)
    requires
        0 <= u <= LN_2,
    ensures
        ONE <= exp_series(u) <= 4 * ONE,
{
    lemma_series_up_bounds(u, ONE as int, 12);
    let e12 = series_up(u, ONE as int, 12);
    lemma_series_up_bounds(u, e12, 11);
    let e11 = series_up(u, e12, 11);
    lemma_series_up_bounds(u, e11, 10);
    let e10 = series_up(u, e11, 10);
    lemma_series_up_bounds(u, e10, 9);
    let e9 = series_up(u, e10, 9);
    lemma_series_up_bounds(u, e9, 8);
    let e8 = series_up(u, e9, 8);
    lemma_series_up_bounds(u, e8, 7);
    let e7 = series_up(u, e8, 7);
    lemma_series_up_bounds(u, e7, 6);
    let e6 = series_up(u, e7, 6);
    lemma_series_up_bounds(u, e6, 5);
    let e5 = series_up(u, e6, 5);
    lemma_series_up_bounds(u, e5, 4);
    let e4 = series_up(u, e5, 4);
    lemma_series_up_bounds(u, e4, 3);
    let e3 = series_up(u, e4, 3);
    lemma_series_up_bounds(u, e3, 2);
    let e2 = series_up(u, e3, 2);
    lemma_series_up_bounds(u, e2, 1);
}

/// A gain of at most `limit` in either direction, where the binary
/// logarithm of the amplitude then stays below `k`, gives an amplitude
/// between `2^-k` and `2^(k+1)`.
pub proof fn lemma_amplitude_within(gain_db: int, limit: int, k: nat)
    requires
        -limit <= gain_db <= limit,
        0 <= limit,
        1 <= k <= 8,
        limit * LOG2_10_OVER_40 < k * ONE * ONE,
    ensures
        ONE <= amplitude_spec(gain_db) * pow2(k),
        amplitude_spec(gain_db) <= 2 * ONE * pow2(k),
{
    lemma_fx_mul_within(gain_db, LOG2_10_OVER_40 as int, limit, 356689313);
    let e = fx_mul_spec(gain_db, LOG2_10_OVER_40 as int);
    let n = e / (ONE as int);
    let r = e % (ONE as int);
    assert(-k <= n < k);
    lemma_fx_mul_within(r, LN_2 as int, 0x1_0000_0000, 2977044472);
    lemma_fx_mul_nonnegative(r, LN_2 as int);
    let u = fx_mul_spec(r, LN_2 as int);
    lemma_exp_series_bounds(u);
    let m = exp_series(u);
    lemma2_to64();
    lemma_pow2_pos(k);
    if n >= 0 {
        let j = n as nat;
        lemma_pow2_le(j, (k - 1) as nat);
        lemma_pow2_pos(j);
        vstd::arithmetic::power2::lemma_pow2_unfold(k);
        assert(m * pow2(j) <= 2 * ONE * pow2(k) && ONE <= m * pow2(j) * pow2(k))
            by (nonlinear_arith)
            requires
                ONE <= m <= 4 * ONE,
                1 <= pow2(j) <= pow2((k - 1) as nat),
                pow2(k) == 2 * pow2((k - 1) as nat),
                pow2(k) >= 1,
        ;
    } else {
        let j = (-n) as nat;
        lemma_pow2_le(j, k);
        lemma_pow2_pos(j);
        let p = pow2(j) as int;
        let t = pow2((32 - j) as nat) as int;
        vstd::arithmetic::power2::lemma_pow2_adds(j, (32 - j) as nat);
        assert(t * p == ONE) by (nonlinear_arith)
            requires
                p * t == ONE,
        ;
        assert((4 * ONE + 1) * p > 4 * ONE) by (nonlinear_arith)
            requires
                p >= 1,
        ;
        lemma_div_between(m, p, t, 4 * ONE + 1);
        let q = m / p;
        vstd::arithmetic::power2::lemma_pow2_unfold(k);
        lemma_pow2_pos((k - 1) as nat);
        assert(q <= 2 * ONE * pow2(k) && ONE <= q * pow2(k)) by (nonlinear_arith)
            requires
                t <= q <= 4 * ONE,
                t * p == ONE,
                1 <= p <= pow2(k),
                pow2(k) >= 2,
        ;
    }
}

/// `beta` is not negative.
pub proof fn lemma_beta_nonnegative(a: int, sine: int, radicand: int)
    requires
        a >= 0,
        sine >= 0,
        radicand >= 0,
    ensures
        beta_spec(a, sine, radicand) >= 0,
{
    assert(a * ONE >= 0 && radicand * ONE >= 0);
    lemma_floor_sqrt_exists(a * ONE);
    lemma_floor_sqrt_exists(radicand * ONE);
    lemma_fx_mul_nonnegative(sine, fx_sqrt_spec(radicand));
    lemma_fx_mul_nonnegative(fx_sqrt_spec(a), fx_mul_spec(sine, fx_sqrt_spec(radicand)) / 2);
}

/// The denominator `a0` of the prototype is at least twice the smaller of
/// the amplitude and 1.
pub proof fn lemma_prototype_denominator(a: int, c: int, beta: int)
    requires
        a >= 0,
        -ONE <= c <= ONE,
        beta >= 0,
    ensures
        prototype_spec(a, c, beta).a0 >= 2 * a || prototype_spec(a, c, beta).a0 >= 2 * ONE,
{
    let m = if a >= ONE {
        a - ONE
    } else {
        ONE - a
    };
    lemma_fx_mul_within(a - ONE, c, m, 0x1_0000_0000);
}

/// Wherever the parameters are valid, the amplitude can be held and the
/// square root exists, the denominator `a0` of the prototype is positive:
/// the division by it is always defined.
pub proof fn lemma_denominator_positive(
    sample_rate: int,
    gain_db: int,
    shelf_slope: int,
    frequency: int,
)
    requires
        parameters_valid(sample_rate, shelf_slope, frequency),
        amplitude_held(amplitude_spec(gain_db)),
        radicand_spec(amplitude_spec(gain_db), shelf_slope) >= 0,
    ensures
        ({
            let turn = frequency / sample_rate;
            let a = amplitude_spec(gain_db);
            prototype_spec(
                a,
                cosine_spec(turn),
                beta_spec(a, sine_spec(turn), radicand_spec(a, shelf_slope)),
            ).a0 > 0
        }),
{
    let turn = frequency / sample_rate;
    let a = amplitude_spec(gain_db);
    lemma_div_between(frequency, sample_rate, 0, HALF_TURN as int);
    lemma_trig_bounds(turn);
    let beta = beta_spec(a, sine_spec(turn), radicand_spec(a, shelf_slope));
    lemma_beta_nonnegative(a, sine_spec(turn), radicand_spec(a, shelf_slope));
    lemma_prototype_denominator(a, cosine_spec(turn), beta);
}

/// For a gain of zero decibels the design exists for every positive sample
/// rate, every corner frequency above zero and below half the sample rate
/// and every positive slope.
pub proof fn lemma_zero_gain_exists(sample_rate: int, shelf_slope: int, frequency: int)
    requires
        parameters_valid(sample_rate, shelf_slope, frequency),
    ensures
        design_spec(sample_rate, 0, shelf_slope, frequency) is Some,
{
    lemma_amplitude_of_zero();
    let turn = frequency / sample_rate;
    lemma_div_between(frequency, sample_rate, 0, HALF_TURN as int);
    lemma_trig_bounds(turn);
    let s = sine_spec(turn);
    let c = cosine_spec(turn);
    let inv_s = fx_div_spec(ONE as int, shelf_slope);
    lemma_div_between(0x1_0000_0000_0000_0000, shelf_slope, 0, 0x1_0000_0000_0000_0001);
    assert(fx_div_spec(ONE as int, ONE as int) == ONE);
    let radicand = radicand_spec(ONE as int, shelf_slope);
    assert(fx_mul_spec(2 * ONE, inv_s - ONE) == 2 * (inv_s - ONE));
    assert(radicand == 2 * inv_s);
    let root = fx_sqrt_spec(radicand);
    lemma_floor_sqrt_exists(radicand * ONE);
    lemma_floor_sqrt_below(radicand * ONE, root, 0x2_0000_0000_0000);
    lemma_floor_sqrt_unique(ONE * ONE, ONE as int);
    lemma_fx_mul_within(s, root, 0x2_0000_0000, 0x2_0000_0000_0000);
    lemma_fx_mul_nonnegative(s, root);
    let alpha = fx_mul_spec(s, root) / 2;
    assert(fx_mul_spec(ONE as int, alpha) == alpha);
    let beta = beta_spec(ONE as int, s, radicand);
    assert(beta == 2 * alpha);
    let p = prototype_spec(ONE as int, c, beta);
    lemma_unit_amplitude_prototype(c, beta);
    assert(fx_mul_spec(0, c) == 0) by {
        assert(0 * c == 0);
    }
    assert(fx_mul_spec(2 * ONE, c) == 2 * c);
    assert(p.a0 == 2 * ONE + beta);
    assert(p.a1 == -4 * c);
    assert(p.a2 == 2 * ONE - beta);
    lemma_fx_div_within(p.a0, p.a0, 0x1_0000_0000);
    lemma_fx_div_within(p.a1, p.a0, 0x2_0000_0000);
    lemma_fx_div_within(p.a2, p.a0, 0x1_0000_0000);
}

/// With a positive amplitude and a slope of at most 1 the square root in
/// `alpha` has a value.
pub proof fn lemma_root_exists(a: int, shelf_slope: int)
    requires
        a > 0,
        0 < shelf_slope <= ONE,
    ensures
        radicand_spec(a, shelf_slope) >= 2 * ONE,
{
    lemma_div_between(0x1_0000_0000_0000_0000, a, 0, 0x1_0000_0000_0000_0001);
    lemma_div_between(0x1_0000_0000_0000_0000, shelf_slope, ONE as int, 0x1_0000_0000_0000_0001);
    lemma_fx_mul_nonnegative(
        a + fx_div_spec(ONE as int, a),
        fx_div_spec(ONE as int, shelf_slope) - ONE,
    );
}

/// For valid parameters with a gain of at most 48 dB in either direction
/// the design exists wherever the square root has a value: the arithmetic
/// holds every quantity and every coefficient fits.
pub proof fn lemma_design_exists(sample_rate: int, gain_db: int, shelf_slope: int, frequency: int)
    requires
        parameters_valid(sample_rate, shelf_slope, frequency),
        -GAIN_DB_MODERATE <= gain_db <= GAIN_DB_MODERATE,
        radicand_spec(amplitude_spec(gain_db), shelf_slope) >= 0,
    ensures
        design_spec(sample_rate, gain_db, shelf_slope, frequency) is Some,
{
    let turn = frequency / sample_rate;
    lemma_div_between(frequency, sample_rate, 0, HALF_TURN as int);
    lemma_trig_bounds(turn);
    let s = sine_spec(turn);
    let c = cosine_spec(turn);
    lemma_amplitude_within(gain_db, GAIN_DB_MODERATE as int, 4);
    lemma2_to64();
    let a = amplitude_spec(gain_db);
    assert(ONE <= a * 16 && a <= 32 * ONE) by (nonlinear_arith)
        requires
            ONE <= a * pow2(4),
            a <= 2 * ONE * pow2(4),
            pow2(4) == 16,
    ;
    lemma_div_between(0x1_0000_0000_0000_0000, a, 0, 0x10_0000_0001);
    lemma_div_between(0x1_0000_0000_0000_0000, shelf_slope, 0, 0x1_0000_0000_0000_0001);
    let inv_a = fx_div_spec(ONE as int, a);
    let inv_s = fx_div_spec(ONE as int, shelf_slope);
    lemma_fx_mul_within(a + inv_a, inv_s - ONE, 0x40_0000_0000, 0x1_0000_0000_0000_0000);
    let radicand = radicand_spec(a, shelf_slope);
    assert(0 <= radicand < 0x80_0000_0000_0000_0000);
    let root = fx_sqrt_spec(radicand);
    let sqrt_a = fx_sqrt_spec(a);
    lemma_floor_sqrt_exists(radicand * ONE);
    lemma_floor_sqrt_below(radicand * ONE, root, 0x10_0000_0000_0000);
    lemma_floor_sqrt_exists(a * ONE);
    lemma_floor_sqrt_below(a * ONE, sqrt_a, 0x8_0000_0000);
    lemma_fx_mul_within(s, root, 0x2_0000_0000, 0x10_0000_0000_0000);
    lemma_fx_mul_nonnegative(s, root);
    let alpha = fx_mul_spec(s, root) / 2;
    lemma_fx_mul_within(sqrt_a, alpha, 0x8_0000_0000, 0x10_0000_0000_0000);
    let beta = beta_spec(a, s, radicand);
    lemma_beta_nonnegative(a, s, radicand);
    assert(0 <= beta <= BETA_MAX);
    let p = prototype_spec(a, c, beta);
    let far = if a >= ONE {
        a - ONE
    } else {
        ONE - a
    };
    lemma_fx_mul_within(a - ONE, c, far, 0x1_0000_0000);
    lemma_fx_mul_within(a + ONE, c, a + ONE, 0x1_0000_0000);
    let minus_c = fx_mul_spec(a - ONE, c);
    let plus_c = fx_mul_spec(a + ONE, c);
    let bound = 64 * ONE + beta;
    lemma_fx_mul_within(a, (a + ONE) + minus_c + beta, 0x20_0000_0000, bound);
    lemma_fx_mul_within(a, (a - ONE) + plus_c, 0x20_0000_0000, bound);
    lemma_fx_mul_within(a, (a + ONE) + minus_c - beta, 0x20_0000_0000, bound);
    assert(p.a0 >= 0x2000_0000 + beta);
    assert(-32 * bound <= p.b0 <= 32 * bound);
    assert(-64 * bound <= p.b1 <= 64 * bound);
    assert(-32 * bound <= p.b2 <= 32 * bound);
    assert(-128 * ONE <= p.a1 <= 128 * ONE);
    assert(-bound <= p.a2 <= bound);
    lemma_fx_div_within(p.b0, p.a0, 0x8000_0000_0000);
    lemma_fx_div_within(p.b1, p.a0, 0x8000_0000_0000);
    lemma_fx_div_within(p.b2, p.a0, 0x8000_0000_0000);
    lemma_fx_div_within(p.a1, p.a0, 0x8000_0000_0000);
    lemma_fx_div_within(p.a2, p.a0, 0x8000_0000_0000);
}

} // verus!
