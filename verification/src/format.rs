//! PCM sample formats and their conversion to and from fixed-point signal values.
//!
//! A stored sample is a raw 32-bit word whose meaning depends on the format.
//! A signal value is a fixed-point number (see [`crate::fixed`]) in which full
//! scale is `ONE`; it never exceeds [`SIGNAL_MAX`] in magnitude.

use crate::fixed::{lemma_div_between, ONE};
use vstd::arithmetic::power2::{lemma2_to64, lemma_pow2_pos, lemma_pow2_strictly_increases, pow2};
use vstd::bits::{lemma_u64_shl_is_mul, lemma_u64_shr_is_div};
use vstd::prelude::*;

verus! {

/// Largest magnitude of a signal value: 32768 times full scale.
pub const SIGNAL_MAX: i64 = 0x8000_0000_0000;

/// How the samples of a buffer are stored.
#[derive(Clone, Copy, Debug, PartialEq, Eq, Structural)]
pub enum Format {
    /// Unsigned 8-bit integers; 128 is silence.
    U8,
    /// Signed 16-bit integers.
    S16,
    /// Signed 24-bit integers.
    S24,
    /// Signed 32-bit integers.
    S32,
    /// IEEE 754 single precision, carried as its bit pattern.
    F32,
}

/// `v` limited to the interval from `lo` to `hi`.
pub open spec fn clamp(v: int, lo: int, hi: int) -> int {
    if v < lo {
        lo
    } else if v > hi {
        hi
    } else {
        v
    }
}

/// The number of binary digits of `n` after the leading one.
pub open spec fn floor_log2(n: int) -> int
    decreases n,
{
    if n <= 1 {
        0
    } else {
        1 + floor_log2(n / 2)
    }
}

/// The 32-bit pattern held by a word: its value modulo 2^32.
pub open spec fn word_bits(w: int) -> int {
    if w < 0 {
        w + 0x1_0000_0000
    } else {
        w
    }
}

/// The word that holds a 32-bit pattern.
pub open spec fn bits_word(bits: int) -> int {
    if bits >= 0x8000_0000 {
        bits - 0x1_0000_0000
    } else {
        bits
    }
}

/// The sign bit of a single-precision bit pattern.
pub open spec fn f32_sign(bits: int) -> int {
    bits / 0x8000_0000
}

/// The biased exponent of a single-precision bit pattern.
pub open spec fn f32_exponent(bits: int) -> int {
    (bits / 0x80_0000) % 256
}

/// The fraction field of a single-precision bit pattern.
pub open spec fn f32_fraction(bits: int) -> int {
    bits % 0x80_0000
}

/// The magnitude of the number with biased exponent `e` and fraction `m`,
/// scaled by 2^32, rounded toward zero and limited to `SIGNAL_MAX`.
/// Infinities saturate; a NaN counts as zero.
pub open spec fn f32_magnitude(e: int, m: int) -> int {
    if e == 255 {
        if m == 0 {
            SIGNAL_MAX as int
        } else {
            0
        }
    } else if e >= 142 {
        SIGNAL_MAX as int
    } else if e >= 118 {
        (m + 0x80_0000) * pow2((e - 118) as nat)
    } else if e >= 1 {
        (m + 0x80_0000) / (pow2((118 - e) as nat) as int)
    } else {
        0
    }
}

/// The signal value of a single-precision bit pattern.
pub open spec fn f32_to_fixed_spec(bits: int) -> int {
    let mag = f32_magnitude(f32_exponent(bits), f32_fraction(bits));
    if f32_sign(bits) == 1 {
        -mag
    } else {
        mag
    }
}

/// The 24-bit significand that represents `mag` with leading bit `p`,
/// rounded toward zero.
pub open spec fn f32_significand(mag: int, p: int) -> int {
    if p >= 23 {
        mag / (pow2((p - 23) as nat) as int)
    } else {
        mag * pow2((23 - p) as nat)
    }
}

/// The single-precision bit pattern nearest to a signal value `v` among those
/// not larger in magnitude.
pub open spec fn fixed_to_f32_spec(v: int) -> int {
    if v == 0 {
        0
    } else {
        let mag = if v < 0 {
            -v
        } else {
            v
        };
        let p = floor_log2(mag);
        let sign: int = if v < 0 {
            0x8000_0000
        } else {
            0
        };
        sign + (p + 95) * 0x80_0000 + (f32_significand(mag, p) - 0x80_0000)
    }
}

/// `pow2` does not decrease.
pub proof fn lemma_pow2_le(a: nat, b: nat)
    requires
        a <= b,
    ensures
        pow2(a) <= pow2(b),
{
    if a < b {
        lemma_pow2_strictly_increases(a, b);
    }
}

/// `floor_log2(n)` is the position of the leading one of `n`.
pub proof fn lemma_floor_log2_bounds(n: int)
    requires
        n >= 1,
    ensures
        floor_log2(n) >= 0,
        pow2(floor_log2(n) as nat) <= n < pow2((floor_log2(n) + 1) as nat),
    decreases n,
{
    lemma2_to64();
    if n > 1 {
        lemma_floor_log2_bounds(n / 2);
        let p = floor_log2(n / 2);
        vstd::arithmetic::power2::lemma_pow2_unfold((p + 1) as nat);
        vstd::arithmetic::power2::lemma_pow2_unfold((p + 2) as nat);
    }
}

impl Format {
    /// The number of bytes one stored sample takes.
    pub open spec fn spec_size_in_bytes(self) -> usize {
        match self {
            Format::U8 => 1,
            Format::S16 => 2,
            Format::S24 => 3,
            Format::S32 => 4,
            Format::F32 => 4,
        }
    }

    /// The number of bytes one stored sample takes.
    #[verifier::when_used_as_spec(spec_size_in_bytes)]
    pub fn size_in_bytes(self) -> (n: usize)
        ensures
            n == self.spec_size_in_bytes(),
    {
        match self {
            Format::U8 => 1,
            Format::S16 => 2,
            Format::S24 => 3,
            Format::S32 => 4,
            Format::F32 => 4,
        }
    }

    /// The smallest word the format stores.
    pub open spec fn min_word(self) -> int {
        match self {
            Format::U8 => 0,
            Format::S16 => -0x8000,
            Format::S24 => -0x80_0000,
            Format::S32 => -0x8000_0000,
            Format::F32 => -0x8000_0000,
        }
    }

    /// The largest word the format stores.
    pub open spec fn max_word(self) -> int {
        match self {
            Format::U8 => 0xff,
            Format::S16 => 0x7fff,
            Format::S24 => 0x7f_ffff,
            Format::S32 => 0x7fff_ffff,
            Format::F32 => 0x7fff_ffff,
        }
    }

    /// The signal value of a stored word.  Integer formats scale so that the
    /// most negative word is minus full scale; words outside the format's
    /// range count as the nearest word inside it.
    pub open spec fn decode_spec(self, w: int) -> int {
        let c = clamp(w, self.min_word(), self.max_word());
        match self {
            Format::U8 => (c - 128) * 0x200_0000,
            Format::S16 => c * 0x2_0000,
            Format::S24 => c * 0x200,
            Format::S32 => c * 2,
            Format::F32 => f32_to_fixed_spec(word_bits(c)),
        }
    }

    /// The stored word for a signal value.  Integer formats saturate at full
    /// scale and round toward negative infinity; single precision saturates
    /// at `SIGNAL_MAX` and rounds toward zero.
    pub open spec fn encode_spec(self, v: int) -> int {
        let c = clamp(v, -(ONE as int), ONE - 1);
        match self {
            Format::U8 => c / 0x200_0000 + 128,
            Format::S16 => c / 0x2_0000,
            Format::S24 => c / 0x200,
            Format::S32 => c / 2,
            Format::F32 => bits_word(
                fixed_to_f32_spec(clamp(v, -(SIGNAL_MAX as int), SIGNAL_MAX as int)),
            ),
        }
    }

    /// Converts a stored word to its signal value.
    pub fn decode(self, w: i32) -> (v: i64)
        ensures
            v == self.decode_spec(w as int),
            -SIGNAL_MAX <= v <= SIGNAL_MAX,
    {
        match self {
            Format::U8 => {
                let c: i64 = if w < 0 {
                    0
                } else if w > 0xff {
                    0xff
                } else {
                    w as i64
                };
                (c - 128) * 0x200_0000
            },
            Format::S16 => {
                let c: i64 = if w < -0x8000 {
                    -0x8000
                } else if w > 0x7fff {
                    0x7fff
                } else {
                    w as i64
                };
                c * 0x2_0000
            },
            Format::S24 => {
                let c: i64 = if w < -0x80_0000 {
                    -0x80_0000
                } else if w > 0x7f_ffff {
                    0x7f_ffff
                } else {
                    w as i64
                };
                c * 0x200
            },
            Format::S32 => (w as i64) * 2,
            Format::F32 => {
                let bits: u32 = if w < 0 {
                    (w as i64 + 0x1_0000_0000) as u32
                } else {
                    w as u32
                };
                f32_to_fixed(bits)
            },
        }
    }

    /// Converts a signal value to the word that stores it.
    pub fn encode(self, v: i64) -> (w: i32)
        ensures
            w == self.encode_spec(v as int),
            self.min_word() <= w <= self.max_word(),
    {
        let c: i64 = if v < -ONE {
            -ONE
        } else if v > ONE - 1 {
            ONE - 1
        } else {
            v
        };
        match self {
            Format::U8 => ((c + ONE) / 0x200_0000) as i32,
            Format::S16 => ((c + ONE) / 0x2_0000 - 0x8000) as i32,
            Format::S24 => ((c + ONE) / 0x200 - 0x80_0000) as i32,
            Format::S32 => ((c + ONE) / 2 - 0x8000_0000) as i32,
            Format::F32 => {
                let s: i64 = if v < -SIGNAL_MAX {
                    -SIGNAL_MAX
                } else if v > SIGNAL_MAX {
                    SIGNAL_MAX
                } else {
                    v
                };
                let bits: u32 = fixed_to_f32(s);
                if bits >= 0x8000_0000 {
                    (bits as i64 - 0x1_0000_0000) as i32
                } else {
                    bits as i32
                }
            },
        }
    }
}

/// Converts a single-precision bit pattern to its signal value.
fn f32_to_fixed(bits: u32) -> (v: i64)
    ensures
        v == f32_to_fixed_spec(bits as int),
        -SIGNAL_MAX <= v <= SIGNAL_MAX,
{
    let negative: bool = bits >= 0x8000_0000;
    let e: u32 = (bits / 0x80_0000) % 256;
    let m: u32 = bits % 0x80_0000;
    let sig: u64 = (m as u64) + 0x80_0000;
    let mag: u64 = if e == 255 {
        if m == 0 {
            SIGNAL_MAX as u64
        } else {
            0
        }
    } else if e >= 142 {
        SIGNAL_MAX as u64
    } else if e >= 118 {
        let k: u64 = (e - 118) as u64;
        proof {
            lemma2_to64();
            lemma_pow2_le(k as nat, 23);
            crate::fixed::lemma_mul_within(sig as int, pow2(k as nat) as int, 0xff_ffff, 0x80_0000);
            lemma_u64_shl_is_mul(sig, k);
        }
        sig << k
    } else if e >= 95 {
        let k: u64 = (118 - e) as u64;
        proof {
            lemma_u64_shr_is_div(sig, k);
        }
        sig >> k
    } else {
        proof {
            if e >= 1 {
                let k = (118 - e) as nat;
                lemma2_to64();
                lemma_pow2_le(24, k);
                lemma_div_between(sig as int, pow2(k) as int, 0, 1);
            }
        }
        0
    };
    proof {
        lemma_pow2_pos((118 - e) as nat);
    }
    if negative {
        -(mag as i64)
    } else {
        mag as i64
    }
}

/// Converts a signal value to the single-precision bit pattern nearest to it
/// among those not larger in magnitude.
fn fixed_to_f32(v: i64) -> (bits: u32)
    requires
        -SIGNAL_MAX <= v <= SIGNAL_MAX,
    ensures
        bits == fixed_to_f32_spec(v as int),
{
    if v == 0 {
        return 0;
    }
    let negative: bool = v < 0;
    let mag: u64 = if negative {
        (-v) as u64
    } else {
        v as u64
    };
    let mut p: u64 = 0;
    let mut t: u64 = mag;
    proof {
        lemma_floor_log2_bounds(mag as int);
        lemma2_to64();
        vstd::arithmetic::power2::lemma2_to64_rest();
        if floor_log2(mag as int) > 47 {
            lemma_pow2_le(48, floor_log2(mag as int) as nat);
        }
    }
    while t > 1
        invariant
            1 <= t <= mag,
            floor_log2(mag as int) == p + floor_log2(t as int),
            p + floor_log2(t as int) <= 47,
            mag <= 0x8000_0000_0000,
        decreases t,
    {
        proof {
            lemma_floor_log2_bounds((t / 2) as int);
        }
        t = t / 2;
        p = p + 1;
    }
    proof {
        lemma_floor_log2_bounds(mag as int);
        lemma2_to64();
    }
    let sig: u64 = if p >= 23 {
        let k: u64 = p - 23;
        proof {
            vstd::arithmetic::power2::lemma_pow2_adds(23, k as nat);
            vstd::arithmetic::power2::lemma_pow2_adds(24, k as nat);
            vstd::arithmetic::power2::lemma_pow2_adds(1, p as nat);
            lemma_pow2_pos(k as nat);
            lemma_div_between(mag as int, pow2(k as nat) as int, 0x80_0000, 0x100_0000);
            lemma_u64_shr_is_div(mag, k);
        }
        mag >> k
    } else {
        let k: u64 = 23 - p;
        proof {
            vstd::arithmetic::power2::lemma_pow2_adds(p as nat, k as nat);
            vstd::arithmetic::power2::lemma_pow2_adds((p + 1) as nat, k as nat);
            lemma_pow2_pos(k as nat);
            assert(0x80_0000 <= mag * pow2(k as nat) < 0x100_0000) by (nonlinear_arith)
                requires
                    pow2(p as nat) <= mag < pow2((p + 1) as nat),
                    pow2(p as nat) * pow2(k as nat) == 0x80_0000,
                    pow2((p + 1) as nat) * pow2(k as nat) == 0x100_0000,
                    pow2(k as nat) > 0,
            ;
            lemma_u64_shl_is_mul(mag, k);
        }
        mag << k
    };
    let sign: u32 = if negative {
        0x8000_0000
    } else {
        0
    };
    sign + ((p + 95) as u32) * 0x80_0000 + ((sig - 0x80_0000) as u32)
}

/// The magnitude of a single-precision number never exceeds `SIGNAL_MAX`.
pub proof fn lemma_f32_magnitude_in_range(e: int, m: int)
    requires
        0 <= e <= 255,
        0 <= m < 0x80_0000,
    ensures
        0 <= f32_magnitude(e, m) <= SIGNAL_MAX,
{
    lemma2_to64();
    if e < 255 && e < 142 {
        if e >= 118 {
            let k = (e - 118) as nat;
            lemma_pow2_le(k, 23);
            lemma_pow2_pos(k);
            crate::fixed::lemma_mul_within(m + 0x80_0000, pow2(k) as int, 0xff_ffff, 0x80_0000);
            assert((m + 0x80_0000) * pow2(k) >= 0) by (nonlinear_arith)
                requires
                    m >= 0,
                    pow2(k) > 0,
            ;
        } else if e >= 1 {
            let k = (118 - e) as nat;
            lemma_pow2_pos(k);
            lemma_div_between(m + 0x80_0000, pow2(k) as int, 0, 0x100_0000);
        }
    }
}

/// Every stored word decodes to a signal value.
pub proof fn lemma_decode_in_range(f: Format, w: int)
    ensures
        -SIGNAL_MAX <= f.decode_spec(w) <= SIGNAL_MAX,
{
    if f == Format::F32 {
        let bits = word_bits(clamp(w, f.min_word(), f.max_word()));
        lemma_f32_magnitude_in_range(f32_exponent(bits), f32_fraction(bits));
    }
}

/// A signal value has a single-precision bit pattern: 32 bits, with a
/// finite exponent.
pub proof fn lemma_fixed_to_f32_in_range(v: int)
    requires
        -SIGNAL_MAX <= v <= SIGNAL_MAX,
    ensures
        0 <= fixed_to_f32_spec(v) < 0x1_0000_0000,
{
    if v != 0 {
        let mag = if v < 0 {
            -v
        } else {
            v
        };
        let p = floor_log2(mag);
        lemma_floor_log2_bounds(mag);
        lemma2_to64();
        vstd::arithmetic::power2::lemma2_to64_rest();
        if p > 47 {
            lemma_pow2_le(48, p as nat);
        }
        if p >= 23 {
            let k = (p - 23) as nat;
            vstd::arithmetic::power2::lemma_pow2_adds(23, k);
            vstd::arithmetic::power2::lemma_pow2_adds(24, k);
            lemma_pow2_pos(k);
            lemma_div_between(mag, pow2(k) as int, 0x80_0000, 0x100_0000);
        } else {
            let k = (23 - p) as nat;
            vstd::arithmetic::power2::lemma_pow2_adds(p as nat, k);
            vstd::arithmetic::power2::lemma_pow2_adds((p + 1) as nat, k);
            lemma_pow2_pos(k);
            assert(0x80_0000 <= mag * pow2(k) < 0x100_0000) by (nonlinear_arith)
                requires
                    pow2(p as nat) <= mag < pow2((p + 1) as nat),
                    pow2(p as nat) * pow2(k) == 0x80_0000,
                    pow2((p + 1) as nat) * pow2(k) == 0x100_0000,
                    pow2(k) > 0,
            ;
        }
    }
}

/// Every signal value is stored as a word of the format.
pub proof fn lemma_encode_in_range(f: Format, v: int)
    ensures
        f.min_word() <= f.encode_spec(v) <= f.max_word(),
{
    if f == Format::F32 {
        lemma_fixed_to_f32_in_range(clamp(v, -(SIGNAL_MAX as int), SIGNAL_MAX as int));
    }
}

/// In the integer formats, storing the signal value of a word of the
/// format gives the word back.
pub proof fn lemma_integer_round_trip(f: Format, w: int)
    requires
        f != Format::F32,
        f.min_word() <= w <= f.max_word(),
    ensures
        f.encode_spec(f.decode_spec(w)) == w,
{
}

/// The position of the leading one is the only `p` with `2^p <= n < 2^(p+1)`.
pub proof fn lemma_floor_log2_unique(n: int, p: nat)
    requires
        pow2(p) <= n < pow2(p + 1),
    ensures
        floor_log2(n) == p,
    decreases p,
{
    lemma2_to64();
    if p == 0 {
        assert(n == 1);
    } else {
        vstd::arithmetic::power2::lemma_pow2_unfold(p);
        vstd::arithmetic::power2::lemma_pow2_unfold(p + 1);
        lemma_pow2_pos((p - 1) as nat);
        lemma_floor_log2_unique(n / 2, (p - 1) as nat);
    }
}

/// A single whose magnitude lies between 2^-9 and 2^15 is its own signal
/// value's stored form: decoding and encoding gives the same bits.
pub proof fn lemma_single_round_trip(bits: int)
    requires
        0 <= bits < 0x1_0000_0000,
        118 <= f32_exponent(bits) <= 141,
    ensures
        fixed_to_f32_spec(f32_to_fixed_spec(bits)) == bits,
{
    let e = f32_exponent(bits);
    let m = f32_fraction(bits);
    let sig = m + 0x80_0000;
    let k = (e - 118) as nat;
    let mag = sig * pow2(k);
    lemma2_to64();
    lemma_pow2_pos(k);
    vstd::arithmetic::power2::lemma_pow2_adds(23, k);
    vstd::arithmetic::power2::lemma_pow2_adds(24, k);
    assert(pow2(23 + k) <= mag < pow2(24 + k)) by (nonlinear_arith)
        requires
            mag == sig * pow2(k),
            0x80_0000 <= sig < 0x100_0000,
            pow2(23 + k) == 0x80_0000 * pow2(k),
            pow2(24 + k) == 0x100_0000 * pow2(k),
            pow2(k) > 0,
    ;
    lemma_floor_log2_unique(mag as int, 23 + k);
    vstd::arithmetic::div_mod::lemma_div_multiples_vanish(sig, pow2(k) as int);
    assert(mag == pow2(k) * sig) by (nonlinear_arith)
        requires
            mag == sig * pow2(k),
    ;
    assert(f32_significand(mag as int, (23 + k) as int) == sig);
    assert(mag > 0);
}

/// Storing the signal value of a single and reading it back gives that
/// signal value again, whatever the single.
pub proof fn lemma_single_is_stable(bits: int)
    requires
        0 <= bits < 0x1_0000_0000,
    ensures
        f32_to_fixed_spec(fixed_to_f32_spec(f32_to_fixed_spec(bits))) == f32_to_fixed_spec(bits),
{
    let e = f32_exponent(bits);
    let m = f32_fraction(bits);
    let sig = m + 0x80_0000;
    let mag = f32_magnitude(e, m);
    let v = f32_to_fixed_spec(bits);
    let sign: int = if v < 0 {
        0x8000_0000
    } else {
        0
    };
    lemma2_to64();
    vstd::arithmetic::power2::lemma2_to64_rest();
    lemma_f32_magnitude_in_range(e, m);
    if v == 0 {
        assert(f32_exponent(0) == 0);
    } else if 118 <= e <= 141 {
        lemma_single_round_trip(bits);
    } else if e >= 142 {
        assert(mag == SIGNAL_MAX);
        lemma_floor_log2_unique(SIGNAL_MAX as int, 47);
        assert(f32_significand(SIGNAL_MAX as int, 47) == 0x80_0000) by {
            let d = pow2(24) as int;
            assert(d == 0x100_0000);
            assert(0x8000_0000_0000int / d == 0x80_0000);
        }
        let stored = fixed_to_f32_spec(v);
        assert(stored == sign + 142 * 0x80_0000);
        assert(f32_exponent(stored) == 142);
    } else {
        let k = (118 - e) as nat;
        lemma_pow2_pos(k);
        if k >= 24 {
            lemma_pow2_le(24, k);
            lemma_div_between(sig, pow2(k) as int, 0, 1);
        }
        assert(1 <= k <= 23);
        let low = pow2((23 - k) as nat) as int;
        let high = pow2((24 - k) as nat) as int;
        vstd::arithmetic::power2::lemma_pow2_adds((23 - k) as nat, k);
        vstd::arithmetic::power2::lemma_pow2_adds((24 - k) as nat, k);
        lemma_div_between(sig, pow2(k) as int, low, high);
        lemma_floor_log2_unique(mag, (23 - k) as nat);
        let grown = mag * pow2(k);
        assert(0x80_0000 <= grown < 0x100_0000) by (nonlinear_arith)
            requires
                low <= mag < high,
                low * pow2(k) == 0x80_0000,
                high * pow2(k) == 0x100_0000,
                pow2(k) > 0,
                grown == mag * pow2(k),
        ;
        assert(f32_significand(mag, 23 - k) == grown);
        let stored = fixed_to_f32_spec(v);
        assert(stored == sign + e * 0x80_0000 + (grown - 0x80_0000));
        assert(f32_exponent(stored) == e);
        assert(f32_fraction(stored) == grown - 0x80_0000);
        vstd::arithmetic::div_mod::lemma_div_multiples_vanish(mag, pow2(k) as int);
        assert(grown == pow2(k) * mag) by (nonlinear_arith)
            requires
                grown == mag * pow2(k),
        ;
    }
}

/// Storing a signal value that came from a stored word and reading it back
/// gives that signal value again: what a format stores of a word it can
/// read loses nothing.
pub proof fn lemma_decode_is_stable(f: Format, w: int)
    ensures
        f.decode_spec(f.encode_spec(f.decode_spec(w))) == f.decode_spec(w),
{
    if f == Format::F32 {
        let bits = word_bits(clamp(w, f.min_word(), f.max_word()));
        lemma_single_is_stable(bits);
        lemma_decode_in_range(f, w);
        lemma_fixed_to_f32_in_range(f.decode_spec(w));
    }
}

} // verus!
