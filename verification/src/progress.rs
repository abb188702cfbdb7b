//! The progress transform, on IEEE-754 single-precision bit patterns.
//!
//! A progress value below 10000 passes through untouched. From 10000 upwards
//! it is shifted down by 10000 and clamped to the range from 0 to 160.
//! Every difference that survives the clamp is exactly representable, so the
//! transform is pure integer work on the encoding and never rounds.

use vstd::prelude::*;
use vstd::arithmetic::power2::{
    lemma2_to64, lemma_pow2_adds, lemma_pow2_pos, lemma_pow2_strictly_increases,
    lemma_pow2_unfold, pow2,
};

verus! {

/// Encoding of 10000.0, the value from which progress is rescaled.
pub const THRESHOLD_BITS: u32 = 0x461C_4000;

/// Encoding of 10160.0, the first value that rescales to the ceiling.
pub const LIMIT_BITS: u32 = 0x461E_C000;

/// Encoding of 160.0, the largest rescaled progress.
pub const CEILING_BITS: u32 = 0x4320_0000;

/// Encoding of positive infinity, the largest pattern that is an ordered value.
pub const INFINITY_BITS: u32 = 0x7F80_0000;

/// Weight of the implicit leading bit of a normal significand.
pub const HIDDEN_BIT: u32 = 0x80_0000;

/// Whether the sign bit of the encoding is set.
pub open spec fn sign_bit(bits: u32) -> bool {
    bits >= 0x8000_0000
}

/// The biased exponent field, from 0 to 255.
pub open spec fn exponent(bits: u32) -> int {
    (bits as int / 0x80_0000) % 256
}

/// The 23-bit fraction field.
pub open spec fn fraction(bits: u32) -> int {
    bits as int % 0x80_0000
}

/// Whether the encoding is a NaN, which compares below nothing and above nothing.
pub open spec fn is_nan(bits: u32) -> bool {
    exponent(bits) == 255 && fraction(bits) != 0
}

/// Whether the encoding is a finite number.
pub open spec fn is_finite(bits: u32) -> bool {
    exponent(bits) < 255
}

/// The absolute value of the encoded number in units of 2^-149, the weight of
/// the last fraction bit of a subnormal. An infinity is given the magnitude
/// that exponent 255 would have if it were ordinary, which is above every
/// finite magnitude.
pub open spec fn magnitude(bits: u32) -> int {
    if exponent(bits) == 0 {
        fraction(bits)
    } else {
        (0x80_0000 + fraction(bits)) * pow2((exponent(bits) - 1) as nat)
    }
}

/// The encoded number in units of 2^-149.
pub open spec fn scaled_value(bits: u32) -> int {
    if sign_bit(bits) {
        -magnitude(bits)
    } else {
        magnitude(bits)
    }
}

/// 10000 in units of 2^-149.
pub open spec fn threshold() -> int {
    10000 * (pow2(149) as int)
}

/// 160 in units of 2^-149.
pub open spec fn ceiling() -> int {
    160 * (pow2(149) as int)
}

/// `v` limited to the range from `lo` to `hi`.
pub open spec fn clamp(v: int, lo: int, hi: int) -> int {
    if v < lo {
        lo
    } else if v > hi {
        hi
    } else {
        v
    }
}

/// The transform on exact values: identity below the threshold, otherwise the
/// distance from the threshold, clamped to the range from zero to the ceiling.
pub open spec fn rescaled(v: int) -> int {
    if v < threshold() {
        v
    } else {
        clamp(v - threshold(), 0, ceiling())
    }
}

/// The three fields of an encoding make up its pattern, and each stays in its
/// range.
proof fn lemma_fields(bits: u32)
    ensures
        0 <= fraction(bits) < 0x80_0000,
        0 <= exponent(bits) < 256,
        !sign_bit(bits) ==> bits as int == exponent(bits) * 0x80_0000 + fraction(bits),
        sign_bit(bits) ==> bits as int == 0x8000_0000 + exponent(bits) * 0x80_0000 + fraction(
            bits,
        ),
        magnitude(bits) >= 0,
{
    let e = exponent(bits);
    if e > 0 {
        lemma_pow2_pos((e - 1) as nat);
        assert((0x80_0000 + fraction(bits)) * pow2((e - 1) as nat) >= 0) by (nonlinear_arith)
            requires
                fraction(bits) >= 0,
                pow2((e - 1) as nat) > 0,
        ;
    }
}

/// Among encodings without the sign bit, a larger pattern is a larger magnitude.
proof fn lemma_magnitude_increases(a: u32, b: u32)
    requires
        a < b,
        !sign_bit(b),
    ensures
        magnitude(a) < magnitude(b),
{
    lemma_fields(a);
    lemma_fields(b);
    let ea = exponent(a);
    let eb = exponent(b);
    let fa = fraction(a);
    let fb = fraction(b);
    if ea == eb {
        if ea > 0 {
            let p = pow2((ea - 1) as nat);
            lemma_pow2_pos((ea - 1) as nat);
            assert((0x80_0000 + fa) * p < (0x80_0000 + fb) * p) by (nonlinear_arith)
                requires
                    fa < fb,
                    p > 0,
            ;
        }
    } else {
        assert(ea < eb);
        let q = pow2((eb - 1) as nat);
        lemma_pow2_pos((eb - 1) as nat);
        assert(0x80_0000 * q <= (0x80_0000 + fb) * q) by (nonlinear_arith)
            requires
                fb >= 0,
                q > 0,
        ;
        if ea == 0 {
            assert(0x80_0000 * 1 <= 0x80_0000 * q) by (nonlinear_arith)
                requires
                    q >= 1,
            ;
        } else {
            let p = pow2((ea - 1) as nat);
            lemma_pow2_pos((ea - 1) as nat);
            lemma_pow2_unfold(ea as nat);
            if ea < eb - 1 {
                lemma_pow2_strictly_increases(ea as nat, (eb - 1) as nat);
            }
            assert(2 * p <= q);
            assert((0x80_0000 + fa) * p < 0x80_0000 * q) by (nonlinear_arith)
                requires
                    fa < 0x80_0000,
                    p > 0,
                    2 * p <= q,
            ;
        }
    }
}

/// The encodings of 10000, 10160 and 160 stand for the values that the
/// threshold and the ceiling name.
pub proof fn lemma_landmarks()
    ensures
        magnitude(THRESHOLD_BITS) == threshold(),
        magnitude(LIMIT_BITS) == threshold() + ceiling(),
        magnitude(CEILING_BITS) == ceiling(),
        threshold() > 0,
        ceiling() > 0,
{
    lemma2_to64();
    lemma_pow2_adds(10, 139);
    lemma_pow2_adds(16, 133);
    lemma_pow2_pos(139);
    lemma_pow2_pos(133);
    let p = pow2(139);
    let q = pow2(133);
    assert(exponent(THRESHOLD_BITS) == 140 && fraction(THRESHOLD_BITS) == 0x1C_4000);
    assert(exponent(LIMIT_BITS) == 140 && fraction(LIMIT_BITS) == 0x1E_C000);
    assert(exponent(CEILING_BITS) == 134 && fraction(CEILING_BITS) == 0x20_0000);
    assert(pow2(149) == 1024 * p);
    assert(pow2(149) == 65536 * q);
    assert(10000 * (1024 * p) == 10240000 * p) by (nonlinear_arith);
    assert(160 * (1024 * p) == 163840 * p) by (nonlinear_arith);
    assert(160 * (65536 * q) == 10485760 * q) by (nonlinear_arith);
    assert(10240000 * p + 163840 * p == 10403840 * p) by (nonlinear_arith);
    assert(10240000 * p > 0) by (nonlinear_arith)
        requires
            p > 0,
    ;
    assert(163840 * p > 0) by (nonlinear_arith)
        requires
            p > 0,
    ;
}

/// An encoding is an ordered value at or above the threshold exactly when its
/// pattern lies between those of 10000.0 and positive infinity.
proof fn lemma_threshold_test(bits: u32)
    ensures
        (THRESHOLD_BITS <= bits <= INFINITY_BITS) <==> (!is_nan(bits) && scaled_value(bits)
            >= threshold()),
{
    lemma_fields(bits);
    lemma_landmarks();
    if bits < THRESHOLD_BITS {
        lemma_magnitude_increases(bits, THRESHOLD_BITS);
    } else if bits <= INFINITY_BITS {
        if bits > THRESHOLD_BITS {
            lemma_magnitude_increases(THRESHOLD_BITS, bits);
        }
    }
}

/// Whether `out` is the rescaling of `bits`: a value that is not a number, or
/// that lies below the threshold, is kept bit for bit; any other becomes the
/// finite, non-negative encoding of its clamped distance from the threshold.
pub open spec fn rescales_to(bits: u32, out: u32) -> bool {
    &&& !is_nan(bits) ==> scaled_value(out) == rescaled(scaled_value(bits))
    &&& is_nan(bits) || scaled_value(bits) < threshold() ==> out == bits
    &&& !is_nan(bits) && scaled_value(bits) >= threshold() ==> is_finite(out) && !sign_bit(out)
}

/// Adjusts a progress value for the original drawing routine: a value below
/// 10000, or one that is not a number, is handed on as it came; any other
/// becomes its distance from 10000, limited to the range from 0 to 160.
pub fn rescale_progress(bits: u32) -> (out: u32)
    ensures
        rescales_to(bits, out),
{
    proof {
        lemma_threshold_test(bits);
        lemma_landmarks();
        lemma_fields(bits);
    }
    if bits < THRESHOLD_BITS || bits > INFINITY_BITS {
        return bits;
    }
    if bits >= LIMIT_BITS {
        proof {
            if bits > LIMIT_BITS {
                lemma_magnitude_increases(LIMIT_BITS, bits);
            }
            assert(exponent(CEILING_BITS) == 134);
        }
        return CEILING_BITS;
    }
    let steps: u32 = bits - THRESHOLD_BITS;
    proof {
        lemma_magnitude_increases(bits, LIMIT_BITS);
        assert(exponent(bits) == 140);
        assert(fraction(bits) == 0x1C_4000 + steps);
        assert((0x80_0000 + fraction(bits)) * pow2(139) - 10240000 * pow2(139) == steps * pow2(
            139,
        )) by (nonlinear_arith)
            requires
                fraction(bits) == 0x1C_4000 + steps,
        ;
        assert(exponent(THRESHOLD_BITS) == 140 && fraction(THRESHOLD_BITS) == 0x1C_4000);
        assert(scaled_value(bits) - threshold() == steps * pow2(139));
    }
    if steps == 0 {
        assert(exponent(0u32) == 0 && fraction(0u32) == 0);
        return 0;
    }
    let mut significand: u32 = steps;
    let mut exp: u32 = 140;
    proof {
        lemma2_to64();
        assert(pow2((140 - exp) as nat) == 1);
        assert(steps as int * 1 == steps as int);
    }
    while significand < HIDDEN_BIT
        invariant
            0 < significand < 0x100_0000,
            117 <= exp <= 140,
            steps >= 1,
            significand as int == steps as int * pow2((140 - exp) as nat),
        decreases exp,
    {
        proof {
            lemma2_to64();
            if exp == 117 {
                assert(steps as int * pow2(23) >= 0x80_0000) by (nonlinear_arith)
                    requires
                        steps >= 1,
                        pow2(23) == 0x80_0000,
                ;
            }
            lemma_pow2_unfold((140 - exp + 1) as nat);
            assert(steps as int * (2 * pow2((140 - exp) as nat)) == 2 * (steps as int * pow2(
                (140 - exp) as nat,
            ))) by (nonlinear_arith);
        }
        significand = significand * 2;
        exp = exp - 1;
    }
    let out: u32 = exp * HIDDEN_BIT + (significand - HIDDEN_BIT);
    proof {
        assert(exponent(out) == exp);
        assert(fraction(out) == significand - 0x80_0000);
        lemma_pow2_adds((140 - exp) as nat, (exp - 1) as nat);
        assert(steps as int * pow2((140 - exp) as nat) * pow2((exp - 1) as nat) == steps as int
            * (pow2((140 - exp) as nat) * pow2((exp - 1) as nat))) by (nonlinear_arith);
        assert(magnitude(out) == steps * pow2(139));
    }
    out
}

/// Two encodings without the sign bit that stand for the same value are the
/// same pattern.
pub proof fn lemma_value_names_one_pattern(a: u32, b: u32)
    requires
        !sign_bit(a),
        !sign_bit(b),
        scaled_value(a) == scaled_value(b),
    ensures
        a == b,
{
    if a < b {
        lemma_magnitude_increases(a, b);
    } else if b < a {
        lemma_magnitude_increases(b, a);
    }
}

/// Rescaling is a function: an input has exactly one rescaling.
pub proof fn lemma_rescaling_is_unique(bits: u32, first: u32, second: u32)
    requires
        rescales_to(bits, first),
        rescales_to(bits, second),
    ensures
        first == second,
{
    if !is_nan(bits) && scaled_value(bits) >= threshold() {
        lemma_value_names_one_pattern(first, second);
    }
}

/// A rescaled progress never leaves the range from below the threshold: it is
/// either the input itself or a value from 0 to 160.
pub proof fn lemma_rescaled_range(bits: u32, out: u32)
    requires
        rescales_to(bits, out),
        !is_nan(bits),
    ensures
        scaled_value(out) == scaled_value(bits) || 0 <= scaled_value(out) <= ceiling(),
        scaled_value(out) < threshold(),
{
    lemma_landmarks();
    lemma2_to64();
    assert(160 * (pow2(149) as int) < 10000 * (pow2(149) as int)) by (nonlinear_arith)
        requires
            pow2(149) > 0,
    ;
}

} // verus!
