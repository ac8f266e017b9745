//! Single-precision binary floating point on bit patterns.
//!
//! A number is held as the 32 bits of its IEEE 754 binary32 encoding: one sign
//! bit, eight exponent bits, twenty-three fraction bits. Its mathematical
//! value is an integer multiple of 2^-149, the smallest positive value of the
//! format; the model below counts in that unit, so every finite number is an
//! `int` and no rational arithmetic is needed.

use vstd::prelude::*;
use vstd::arithmetic::power2::{
    pow2, lemma_pow2_pos, lemma_pow2_unfold, lemma_pow2_strictly_increases, lemma2_to64,
};
use vstd::arithmetic::mul::lemma_mul_strict_inequality;

verus! {

/// The bit that carries the sign.
pub const SIGN_BIT: u32 = 0x8000_0000;

/// Positive zero.
pub const ZERO: u32 = 0;

/// Negative zero.
pub const NEG_ZERO: u32 = 0x8000_0000;

/// One half.
pub const ONE_HALF: u32 = 0x3f00_0000;

/// One.
pub const ONE: u32 = 0x3f80_0000;

/// Minus one.
pub const NEG_ONE: u32 = 0xbf80_0000;

/// One hundred.
pub const HUNDRED: u32 = 0x42c8_0000;

/// Positive infinity.
pub const INFINITY: u32 = 0x7f80_0000;

/// The not-a-number that every invalid operation returns.
pub const QUIET_NAN: u32 = 0x7fc0_0000;

/// The sign bit is set. This holds of negative zero and of some NaNs too.
pub open spec fn is_negative(x: u32) -> bool {
    x >= 0x8000_0000
}

/// The encoding without its sign bit.
pub open spec fn abs_bits(x: u32) -> nat {
    if x >= 0x8000_0000 {
        (x - 0x8000_0000) as nat
    } else {
        x as nat
    }
}

/// Not a number: all exponent bits set and a fraction that is not zero.
pub open spec fn is_nan(x: u32) -> bool {
    abs_bits(x) > 0x7f80_0000
}

/// Positive or negative infinity.
pub open spec fn is_infinite(x: u32) -> bool {
    abs_bits(x) == 0x7f80_0000
}

/// Zero, subnormal or normal.
pub open spec fn is_finite(x: u32) -> bool {
    abs_bits(x) < 0x7f80_0000
}

/// Positive or negative zero.
pub open spec fn is_zero(x: u32) -> bool {
    abs_bits(x) == 0
}

/// The eight exponent bits.
pub open spec fn exponent_field(x: u32) -> nat {
    abs_bits(x) / 0x80_0000
}

/// The twenty-three fraction bits.
pub open spec fn fraction_field(x: u32) -> nat {
    abs_bits(x) % 0x80_0000
}

/// The integer significand: the fraction, with the hidden leading bit where
/// the number is normal.
pub open spec fn significand(x: u32) -> nat {
    if exponent_field(x) == 0 {
        fraction_field(x)
    } else {
        0x80_0000 + fraction_field(x)
    }
}

/// The power of two by which the significand is multiplied, counted from the
/// subnormal range.
pub open spec fn scale(x: u32) -> nat {
    if exponent_field(x) == 0 {
        0
    } else {
        (exponent_field(x) - 1) as nat
    }
}

/// The absolute value of a finite number, in units of 2^-149.
pub open spec fn magnitude(x: u32) -> nat {
    significand(x) * pow2(scale(x))
}

/// The value of a finite number, in units of 2^-149.
pub open spec fn value(x: u32) -> int {
    if is_negative(x) {
        -(magnitude(x) as int)
    } else {
        magnitude(x) as int
    }
}

/// The place of a number that is not NaN in the order of the format: the
/// encoding read as sign and magnitude. Both zeros share a place, and the
/// infinities stand at the two ends.
pub open spec fn rank(x: u32) -> int {
    if is_negative(x) {
        -(abs_bits(x) as int)
    } else {
        abs_bits(x) as int
    }
}

/// The same number with the opposite sign bit.
pub open spec fn negate_spec(x: u32) -> u32 {
    if x >= 0x8000_0000 {
        (x - 0x8000_0000) as u32
    } else {
        (x + 0x8000_0000) as u32
    }
}

/// The magnitude of `x` under the sign bit of `sign`.
pub open spec fn copy_sign_spec(x: u32, sign: u32) -> u32 {
    if is_negative(sign) {
        (abs_bits(x) + 0x8000_0000) as u32
    } else {
        abs_bits(x) as u32
    }
}

/// The larger of two numbers. A NaN gives way to the other argument; of two
/// zeros of either sign the first is returned.
pub open spec fn maximum_spec(a: u32, b: u32) -> u32 {
    if is_nan(a) {
        b
    } else if is_nan(b) {
        a
    } else if rank(a) < rank(b) {
        b
    } else {
        a
    }
}

/// Among finite numbers, the larger encoding without its sign bit has the
/// larger magnitude.
pub proof fn lemma_magnitude_increases(x: u32, y: u32)
    requires
        is_finite(x),
        is_finite(y),
        abs_bits(x) < abs_bits(y),
    ensures
        magnitude(x) < magnitude(y),
{
    lemma2_to64();
    let ex = exponent_field(x);
    let ey = exponent_field(y);
    let px = pow2(scale(x));
    let py = pow2(scale(y));
    lemma_pow2_pos(scale(x));
    lemma_pow2_pos(scale(y));
    if ex == ey {
        lemma_mul_strict_inequality(significand(x) as int, significand(y) as int, px as int);
    } else {
        if ex > 0 {
            lemma_pow2_unfold(scale(x) + 1);
            if scale(x) + 1 < scale(y) {
                lemma_pow2_strictly_increases(scale(x) + 1, scale(y));
            }
        }
        assert(magnitude(x) < magnitude(y)) by (nonlinear_arith)
            requires
                magnitude(x) == significand(x) * px,
                magnitude(y) == significand(y) * py,
                significand(y) >= 0x80_0000,
                ex == 0 ==> significand(x) < 0x80_0000 && px <= py,
                ex > 0 ==> significand(x) < 0x100_0000 && 2 * px <= py,
                px >= 1,
        ;
    }
}

/// Of the finite numbers, the two zeros alone have no magnitude.
pub proof fn lemma_magnitude_of_zero(x: u32)
    requires
        is_finite(x),
    ensures
        (magnitude(x) == 0) == is_zero(x),
{
    let zero: u32 = 0;
    assert(magnitude(zero) == 0) by (nonlinear_arith)
        requires
            magnitude(zero) == significand(zero) * pow2(scale(zero)),
            significand(zero) == 0,
    ;
    if abs_bits(x) > 0 {
        lemma_magnitude_increases(zero, x);
    } else {
        assert(magnitude(x) == 0) by (nonlinear_arith)
            requires
                magnitude(x) == significand(x) * pow2(scale(x)),
                significand(x) == 0,
        ;
    }
}

/// The order of finite numbers by value is the order of their encodings read
/// as sign and magnitude.
pub proof fn lemma_rank_orders_values(a: u32, b: u32)
    requires
        is_finite(a),
        is_finite(b),
    ensures
        (rank(a) < rank(b)) == (value(a) < value(b)),
        (rank(a) == rank(b)) == (value(a) == value(b)),
{
    if abs_bits(a) < abs_bits(b) {
        lemma_magnitude_increases(a, b);
    }
    if abs_bits(b) < abs_bits(a) {
        lemma_magnitude_increases(b, a);
    }
    lemma_magnitude_of_zero(b);
}

/// Flips the sign bit, of NaN and infinity too.
#[verifier::when_used_as_spec(negate_spec)]
pub fn negate(x: u32) -> (r: u32)
    ensures
        r == negate_spec(x),
{
    if x >= SIGN_BIT {
        x - SIGN_BIT
    } else {
        x + SIGN_BIT
    }
}

/// Gives `x` the sign bit of `sign` and leaves its other bits as they are.
#[verifier::when_used_as_spec(copy_sign_spec)]
pub fn copy_sign(x: u32, sign: u32) -> (r: u32)
    ensures
        r == copy_sign_spec(x, sign),
{
    let abs: u32 = if x >= SIGN_BIT {
        x - SIGN_BIT
    } else {
        x
    };
    if sign >= SIGN_BIT {
        abs + SIGN_BIT
    } else {
        abs
    }
}

/// The larger of `a` and `b`, where a NaN counts as missing.
#[verifier::when_used_as_spec(maximum_spec)]
pub fn maximum(a: u32, b: u32) -> (r: u32)
    ensures
        r == maximum_spec(a, b),
{
    let abs_a: u32 = if a >= SIGN_BIT {
        a - SIGN_BIT
    } else {
        a
    };
    let abs_b: u32 = if b >= SIGN_BIT {
        b - SIGN_BIT
    } else {
        b
    };
    if abs_a > INFINITY {
        b
    } else if abs_b > INFINITY {
        a
    } else {
        let a_below_b: bool = if a >= SIGN_BIT {
            if b >= SIGN_BIT {
                abs_a > abs_b
            } else {
                abs_a > 0 || abs_b > 0
            }
        } else {
            b < SIGN_BIT && abs_a < abs_b
        };
        if a_below_b {
            b
        } else {
            a
        }
    }
}

/// Splits an encoding into its integer significand and the power of two that
/// multiplies it: of a finite number, the two factors of its magnitude.
pub fn unpack(x: u32) -> (parts: (u32, i32))
    ensures
        parts.0 == significand(x),
        parts.1 == scale(x),
        parts.0 < 0x100_0000,
        0 <= parts.1 <= 254,
        is_finite(x) ==> parts.1 <= 253,
        parts.1 > 0 ==> parts.0 >= 0x80_0000,
{
    let abs: u32 = if x >= SIGN_BIT {
        x - SIGN_BIT
    } else {
        x
    };
    let e: u32 = abs / 0x80_0000;
    let f: u32 = abs % 0x80_0000;
    if e == 0 {
        (f, 0)
    } else {
        (0x80_0000 + f, (e - 1) as i32)
    }
}

} // verus!
