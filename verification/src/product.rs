//! Multiplication of single-precision numbers.

use vstd::prelude::*;
use vstd::arithmetic::power2::{pow2, lemma_pow2_adds, lemma2_to64};
use crate::binary32::{
    SIGN_BIT, INFINITY, QUIET_NAN, NEG_ONE, ONE_HALF, HUNDRED, is_negative, is_nan, is_infinite,
    is_finite, is_zero, magnitude, negate_spec, unpack,
};
use crate::rounding::{
    rounded, round_to_format, lemma_rounded_magnitude_scaled, lemma_rounded_zero,
    lemma_rounded_exact,
};

verus! {

/// The product of two numbers: the exact product of their values, rounded to
/// the nearest number of the format, ties to even. Infinity times zero is
/// invalid, and so is any product with a NaN.
pub open spec fn product_spec(a: u32, b: u32) -> u32 {
    let negative = is_negative(a) != is_negative(b);
    if is_nan(a) || is_nan(b) {
        QUIET_NAN
    } else if is_infinite(a) || is_infinite(b) {
        if is_zero(a) || is_zero(b) {
            QUIET_NAN
        } else if negative {
            0xff80_0000u32
        } else {
            INFINITY
        }
    } else {
        rounded(negative, magnitude(a) * magnitude(b), -149)
    }
}

/// Neither factor is NaN, and the two are not zero and infinity.
pub open spec fn is_valid_product(a: u32, b: u32) -> bool {
    &&& !is_nan(a)
    &&& !is_nan(b)
    &&& !(is_infinite(a) && is_zero(b))
    &&& !(is_zero(a) && is_infinite(b))
}

/// The product with a finite number whose magnitude is `c * 2^i` units is
/// the rounding of `c` times the other magnitude, `149 - i` binary places
/// down.
proof fn lemma_product_by_scaled_integer(v: u32, b: u32, c: nat, i: nat)
    requires
        is_finite(v),
        is_finite(b),
        magnitude(b) == c * pow2(i),
    ensures
        product_spec(v, b) == rounded(
            is_negative(v) != is_negative(b),
            magnitude(v) * c,
            i - 149,
        ),
{
    let m = magnitude(v) * c;
    assert(magnitude(v) * magnitude(b) == m * pow2(i)) by (nonlinear_arith)
        requires
            magnitude(b) == c * pow2(i),
            m == magnitude(v) * c,
    ;
    if m > 0 {
        lemma_rounded_magnitude_scaled(m, i, i - 149);
    } else {
        assert(m * pow2(i) == 0) by (nonlinear_arith)
            requires
                m == 0,
        ;
        lemma_rounded_zero(-149);
        lemma_rounded_zero(i - 149);
    }
}

/// The product with minus one is the number under the opposite sign bit:
/// negation is exact.
pub proof fn lemma_product_by_minus_one(x: u32)
    requires
        !is_nan(x),
    ensures
        product_spec(x, NEG_ONE) == negate_spec(x),
{
    lemma2_to64();
    lemma_pow2_adds(23, 126);
    if is_finite(x) {
        lemma_product_by_scaled_integer(x, NEG_ONE, 1, 149);
        let y = negate_spec(x);
        lemma_rounded_exact(y);
    }
}

/// The product with one half is the number nearest to half the value: it is
/// what a division by two returns.
pub proof fn lemma_product_by_half(x: u32)
    requires
        is_finite(x),
    ensures
        product_spec(x, ONE_HALF) == rounded(is_negative(x), magnitude(x), -1),
{
    lemma2_to64();
    lemma_pow2_adds(23, 125);
    lemma_product_by_scaled_integer(x, ONE_HALF, 1, 148);
}

/// The product with a hundred is the number nearest to a hundred times the
/// value.
pub proof fn lemma_product_by_hundred(x: u32)
    requires
        is_finite(x),
    ensures
        product_spec(x, HUNDRED) == rounded(is_negative(x), 100 * magnitude(x), 0),
{
    lemma2_to64();
    lemma_pow2_adds(17, 132);
    assert(magnitude(HUNDRED) == 100 * pow2(149)) by (nonlinear_arith)
        requires
            magnitude(HUNDRED) == 0xc8_0000 * pow2(132),
            pow2(149) == 0x2_0000 * pow2(132),
    ;
    lemma_product_by_scaled_integer(x, HUNDRED, 100, 149);
}

/// Multiplies two numbers.
#[verifier::when_used_as_spec(product_spec)]
pub fn product(a: u32, b: u32) -> (r: u32)
    ensures
        r == product_spec(a, b),
        is_valid_product(a, b) ==> !is_nan(r) && is_negative(r) == (is_negative(a) != is_negative(
            b,
        )),
{
    let negative: bool = (a >= SIGN_BIT) != (b >= SIGN_BIT);
    let abs_a: u32 = if a >= SIGN_BIT {
        a - SIGN_BIT
    } else {
        a
    };
    let abs_b: u32 = if b >= SIGN_BIT {
        b - SIGN_BIT
    } else {
        b
    };
    if abs_a > INFINITY || abs_b > INFINITY {
        return QUIET_NAN;
    }
    if abs_a == INFINITY || abs_b == INFINITY {
        if abs_a == 0 || abs_b == 0 {
            return QUIET_NAN;
        }
        return if negative {
            SIGN_BIT + INFINITY
        } else {
            INFINITY
        };
    }
    let parts_a: (u32, i32) = unpack(a);
    let parts_b: (u32, i32) = unpack(b);
    let ma: u64 = parts_a.0 as u64;
    let mb: u64 = parts_b.0 as u64;
    assert(ma * mb < 0x1_0000_0000_0000) by (nonlinear_arith)
        requires
            ma < 0x100_0000,
            mb < 0x100_0000,
    ;
    let m: u64 = ma * mb;
    let shift: i32 = parts_a.1 + parts_b.1;
    proof {
        let pa = pow2(parts_a.1 as nat);
        let pb = pow2(parts_b.1 as nat);
        lemma_pow2_adds(parts_a.1 as nat, parts_b.1 as nat);
        assert(magnitude(a) * magnitude(b) == m * pow2(shift as nat)) by (nonlinear_arith)
            requires
                magnitude(a) == ma * pa,
                magnitude(b) == mb * pb,
                m == ma * mb,
                pow2(shift as nat) == pa * pb,
        ;
        if m > 0 {
            lemma_rounded_magnitude_scaled(m as nat, shift as nat, shift - 149);
        } else {
            assert(m * pow2(shift as nat) == 0) by (nonlinear_arith)
                requires
                    m == 0,
            ;
            lemma_rounded_zero(-149);
            lemma_rounded_zero(shift - 149);
        }
    }
    round_to_format(negative, m, shift - 149)
}

} // verus!
