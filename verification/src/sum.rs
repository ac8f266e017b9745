//! Addition and subtraction of single-precision numbers.

use vstd::prelude::*;
use vstd::arithmetic::power2::{
    pow2, lemma_pow2_pos, lemma_pow2_adds, lemma_pow2_unfold, lemma_pow2_strictly_increases,
    lemma2_to64, lemma2_to64_rest,
};
use vstd::arithmetic::div_mod::lemma_fundamental_div_mod_converse;
use vstd::arithmetic::mul::lemma_mul_strict_inequality;
use vstd::bits::lemma_u64_shl_is_mul;
use crate::binary32::{
    SIGN_BIT, INFINITY, QUIET_NAN, ZERO, NEG_ZERO, is_negative, is_nan, is_infinite, is_finite,
    magnitude, value, scale, negate, negate_spec, unpack, lemma_magnitude_of_zero,
};
use crate::rounding::{
    rounded, rounded_magnitude, round_to_format, lemma_rounded_magnitude_scaled,
    lemma_bit_length_unique, lemma_encode_magnitude, lemma_encode_parts,
    lemma_rounded_is_number,
};

verus! {

/// The sum of two finite numbers: the exact sum of their values, rounded to
/// the nearest number of the format, ties to even. An exact zero is positive
/// unless both terms are negative.
pub open spec fn finite_sum(a: u32, b: u32) -> u32 {
    let s = value(a) + value(b);
    if s == 0 {
        if is_negative(a) && is_negative(b) {
            NEG_ZERO
        } else {
            ZERO
        }
    } else if s < 0 {
        rounded(true, (-s) as nat, 0)
    } else {
        rounded(false, s as nat, 0)
    }
}

/// The sum of two numbers. Infinities of opposite sign have no sum, and
/// neither has anything with a NaN; an infinity absorbs a finite term.
pub open spec fn sum_spec(a: u32, b: u32) -> u32 {
    if is_nan(a) || is_nan(b) {
        QUIET_NAN
    } else if is_infinite(a) {
        if is_infinite(b) && is_negative(a) != is_negative(b) {
            QUIET_NAN
        } else {
            a
        }
    } else if is_infinite(b) {
        b
    } else {
        finite_sum(a, b)
    }
}

/// Neither term is NaN, and the two are not infinities of opposite sign.
pub open spec fn is_valid_sum(a: u32, b: u32) -> bool {
    &&& !is_nan(a)
    &&& !is_nan(b)
    &&& !(is_infinite(a) && is_infinite(b) && is_negative(a) != is_negative(b))
}

/// The difference of two numbers: the sum of the first and the negated second.
pub open spec fn difference_spec(a: u32, b: u32) -> u32 {
    sum_spec(a, negate_spec(b))
}

/// A sum is negative zero only where both terms are.
pub proof fn lemma_sum_negative_zero(a: u32, b: u32)
    requires
        sum_spec(a, b) == NEG_ZERO,
    ensures
        a == NEG_ZERO,
        b == NEG_ZERO,
{
    let s = value(a) + value(b);
    if s < 0 {
        lemma_rounded_is_number(true, (-s) as nat, 0);
    } else if s > 0 {
        lemma_rounded_is_number(false, s as nat, 0);
    } else {
        lemma_magnitude_of_zero(a);
        lemma_magnitude_of_zero(b);
    }
}

/// The difference of two finite numbers is negative where the first is the
/// smaller, and where positive zero is taken from negative zero.
pub proof fn lemma_difference_sign(a: u32, b: u32)
    requires
        is_finite(a),
        is_finite(b),
    ensures
        !is_nan(difference_spec(a, b)),
        is_negative(difference_spec(a, b)) == (value(a) < value(b) || (a == NEG_ZERO && b
            == ZERO)),
{
    let nb = negate_spec(b);
    lemma_magnitude_of_zero(a);
    lemma_magnitude_of_zero(b);
    let s = value(a) + value(nb);
    if s < 0 {
        lemma_rounded_is_number(true, (-s) as nat, 0);
    } else if s > 0 {
        lemma_rounded_is_number(false, s as nat, 0);
    }
}

/// A term below a quarter of the last place of `mh * 2^kh` is lost in rounding,
/// whether it is added or taken away.
proof fn lemma_far_term(mh: nat, kh: nat, b: nat, adding: bool)
    requires
        0x80_0000 <= mh < 0x100_0000,
        kh >= 2,
        b < pow2((kh - 2) as nat),
    ensures
        b < mh * pow2(kh),
        rounded_magnitude(
            if adding {
                mh * pow2(kh) + b
            } else {
                (mh * pow2(kh) - b) as nat
            },
            0,
        ) == mh * pow2(kh),
{
    lemma2_to64();
    let p = pow2((kh - 2) as nat);
    lemma_pow2_unfold((kh - 1) as nat);
    let a = mh * pow2(kh);
    lemma_pow2_adds(23, kh);
    lemma_pow2_adds(24, kh);
    lemma_pow2_adds(23, (kh - 1) as nat);
    lemma_pow2_adds(24, (kh - 1) as nat);
    assert(b < a) by (nonlinear_arith)
        requires
            a == mh * (4 * p),
            mh >= 0x80_0000,
            b < p,
            p > 0,
    ;
    if adding || b == 0 {
        let n: nat = a + b;
        assert(0x80_0000 * (4 * p) <= n < 0x100_0000 * (4 * p)) by (nonlinear_arith)
            requires
                n == mh * (4 * p) + b,
                0x80_0000 <= mh < 0x100_0000,
                0 <= b < p,
        ;
        lemma_bit_length_unique(n, 24 + kh);
        lemma_fundamental_div_mod_converse(n as int, (4 * p) as int, mh as int, b as int);
    } else if mh > 0x80_0000 {
        let n: nat = (a - b) as nat;
        let r: int = 4 * p - b;
        assert(0x80_0000 * (4 * p) <= n < 0x100_0000 * (4 * p) && n == (mh - 1) * (4 * p) + r)
            by (nonlinear_arith)
            requires
                n == mh * (4 * p) - b,
                r == 4 * p - b,
                0x80_0000 < mh < 0x100_0000,
                0 < b < p,
        ;
        lemma_bit_length_unique(n, 24 + kh);
        lemma_fundamental_div_mod_converse(n as int, (4 * p) as int, mh - 1, r);
    } else {
        let n: nat = (a - b) as nat;
        let r: int = 2 * p - b;
        assert(0x80_0000 * (2 * p) <= n < 0x80_0000 * (4 * p) && n == 0xff_ffff * (2 * p) + r)
            by (nonlinear_arith)
            requires
                n == 0x80_0000 * (4 * p) - b,
                r == 2 * p - b,
                0 < b < p,
        ;
        lemma_bit_length_unique(n, 23 + kh);
        lemma_fundamental_div_mod_converse(n as int, (2 * p) as int, 0xff_ffff, r);
    }
}

/// Adds two finite numbers, the first of which has the larger power of two.
fn sum_aligned(high: u32, low: u32) -> (r: u32)
    requires
        is_finite(high),
        is_finite(low),
        scale(high) >= scale(low),
    ensures
        r == finite_sum(high, low),
        !is_nan(r),
{
    let neg_h: bool = high >= SIGN_BIT;
    let neg_l: bool = low >= SIGN_BIT;
    let parts_h: (u32, i32) = unpack(high);
    let parts_l: (u32, i32) = unpack(low);
    let mh: u64 = parts_h.0 as u64;
    let ml: u64 = parts_l.0 as u64;
    let kl: i32 = parts_l.1;
    let gap: i32 = parts_h.1 - kl;
    proof {
        lemma2_to64();
        lemma2_to64_rest();
        lemma_pow2_pos(kl as nat);
        lemma_pow2_adds(gap as nat, kl as nat);
    }
    if gap > 36 {
        proof {
            let kh = parts_h.1 as nat;
            let b = magnitude(low);
            lemma_pow2_adds(24, kl as nat);
            lemma_mul_strict_inequality(ml as int, 0x100_0000, pow2(kl as nat) as int);
            lemma_pow2_strictly_increases((24 + kl) as nat, (kh - 2) as nat);
            lemma_far_term(mh as nat, kh, b, neg_h == neg_l);
            lemma_encode_magnitude(high);
        }
        return high;
    }
    proof {
        lemma_mul_strict_inequality(mh as int, 0x100_0000, pow2(gap as nat) as int);
        assert(mh * pow2(gap as nat) < 0x1000_0000_0000_0000) by (nonlinear_arith)
            requires
                mh * pow2(gap as nat) < 0x100_0000 * pow2(gap as nat),
                pow2(gap as nat) * 0x100_0000 <= pow2(36) * 0x100_0000,
                pow2(36) == 0x10_0000_0000,
        ;
        lemma_u64_shl_is_mul(mh, gap as u64);
    }
    let x: u64 = mh << (gap as u64);
    let ghost unit = pow2(kl as nat);
    assert(magnitude(high) == x * unit) by (nonlinear_arith)
        requires
            magnitude(high) == mh * pow2(parts_h.1 as nat),
            pow2(parts_h.1 as nat) == pow2(gap as nat) * unit,
            x == mh * pow2(gap as nat),
    ;
    if neg_h == neg_l {
        let m: u64 = x + ml;
        proof {
            assert(magnitude(high) + magnitude(low) == m * unit) by (nonlinear_arith)
                requires
                    magnitude(high) == x * unit,
                    magnitude(low) == ml * unit,
                    m == x + ml,
            ;
            if m > 0 {
                assert(m * unit > 0) by (nonlinear_arith)
                    requires
                        m > 0,
                        unit > 0,
                ;
                lemma_rounded_magnitude_scaled(m as nat, kl as nat, kl as int);
            } else {
                assert(m * unit == 0) by (nonlinear_arith)
                    requires
                        m == 0,
                ;
                lemma_encode_parts(neg_h, 0, 0);
            }
        }
        round_to_format(neg_h, m, kl)
    } else if x > ml {
        let m: u64 = x - ml;
        proof {
            assert(magnitude(high) - magnitude(low) == m * unit && m * unit > 0) by (nonlinear_arith)
                requires
                    magnitude(high) == x * unit,
                    magnitude(low) == ml * unit,
                    m == x - ml,
                    m > 0,
                    unit > 0,
            ;
            lemma_rounded_magnitude_scaled(m as nat, kl as nat, kl as int);
        }
        round_to_format(neg_h, m, kl)
    } else if x < ml {
        let m: u64 = ml - x;
        proof {
            assert(magnitude(low) - magnitude(high) == m * unit && m * unit > 0) by (nonlinear_arith)
                requires
                    magnitude(high) == x * unit,
                    magnitude(low) == ml * unit,
                    m == ml - x,
                    m > 0,
                    unit > 0,
            ;
            lemma_rounded_magnitude_scaled(m as nat, kl as nat, kl as int);
        }
        round_to_format(neg_l, m, kl)
    } else {
        ZERO
    }
}

/// Adds two numbers.
#[verifier::when_used_as_spec(sum_spec)]
pub fn sum(a: u32, b: u32) -> (r: u32)
    ensures
        r == sum_spec(a, b),
        is_valid_sum(a, b) ==> !is_nan(r),
{
    let abs_a: u32 = if a >= SIGN_BIT {
        a - SIGN_BIT
    } else {
        a
    };
    let abs_b: u32 = if b >= SIGN_BIT {
        b - SIGN_BIT
    } else {
        b
    };
    if abs_a > INFINITY || abs_b > INFINITY {
        return QUIET_NAN;
    }
    if abs_a == INFINITY {
        if abs_b == INFINITY && (a >= SIGN_BIT) != (b >= SIGN_BIT) {
            return QUIET_NAN;
        }
        return a;
    }
    if abs_b == INFINITY {
        return b;
    }
    if abs_a / 0x80_0000 >= abs_b / 0x80_0000 {
        sum_aligned(a, b)
    } else {
        sum_aligned(b, a)
    }
}

/// Subtracts the second number from the first.
#[verifier::when_used_as_spec(difference_spec)]
pub fn difference(a: u32, b: u32) -> (r: u32)
    ensures
        r == difference_spec(a, b),
        is_valid_sum(a, negate_spec(b)) ==> !is_nan(r),
{
    sum(a, negate(b))
}

} // verus!
