//! Rounding of an exact result to the nearest single-precision number, ties
//! to the even significand.

use vstd::prelude::*;
use vstd::arithmetic::power2::{
    pow2, lemma_pow2_pos, lemma_pow2_adds, lemma_pow2_unfold, lemma_pow2_strictly_increases,
    lemma2_to64,
};
use vstd::arithmetic::div_mod::{
    lemma_fundamental_div_mod, lemma_fundamental_div_mod_converse, lemma_small_mod,
    lemma_basic_div, lemma_truncate_middle, lemma_div_multiples_vanish_quotient,
};
use vstd::arithmetic::mul::{
    lemma_mul_inequality, lemma_mul_strict_inequality, lemma_mul_is_associative,
    lemma_mul_is_commutative, lemma_mul_equality_converse,
};
use vstd::bits::{lemma_u64_shl_is_mul, lemma_u64_pow2_no_overflow};
use crate::binary32::{
    SIGN_BIT, INFINITY, is_negative, abs_bits, is_finite, is_nan, exponent_field,
    fraction_field, significand, scale, magnitude,
};

verus! {

/// The number of binary digits of `n`, none for zero.
pub open spec fn bit_length(n: nat) -> nat
    decreases n,
{
    if n == 0 {
        0
    } else {
        1 + bit_length(n / 2)
    }
}

/// The integer nearest to `n / d`; halfway between two integers, the even one.
pub open spec fn nearest_even(n: nat, d: nat) -> nat
    recommends
        d > 0,
{
    let q = n / d;
    let r = n % d;
    if 2 * r > d || (2 * r == d && q % 2 == 1) {
        q + 1
    } else {
        q
    }
}

/// How many low bits of `m` the format cannot hold when the exact result is
/// `m * 2^k` units: those beyond twenty-four significant bits, and those below
/// the unit.
pub open spec fn dropped_bits(m: nat, k: int) -> nat {
    let beyond = bit_length(m) as int - 24;
    if beyond >= -k && beyond >= 0 {
        beyond as nat
    } else if -k >= 0 {
        (-k) as nat
    } else {
        0
    }
}

/// The magnitude, in units of 2^-149, of the number nearest to `m * 2^k`
/// units, as if the exponent had no upper limit.
pub open spec fn rounded_magnitude(m: nat, k: int) -> nat {
    let j = dropped_bits(m, k);
    nearest_even(m, pow2(j)) * pow2((j + k) as nat)
}

/// The encoding of the number with the given sign and magnitude; infinity
/// where the magnitude is beyond the largest finite number.
pub open spec fn encode(negative: bool, mag: nat) -> u32 {
    if mag >= pow2(277) {
        if negative {
            0xff80_0000u32
        } else {
            0x7f80_0000u32
        }
    } else {
        choose|x: u32| is_finite(x) && is_negative(x) == negative && magnitude(x) == mag
    }
}

/// The exact result `m * 2^k` units, rounded to the format.
pub open spec fn rounded(negative: bool, m: nat, k: int) -> u32 {
    encode(negative, rounded_magnitude(m, k))
}

/// A number of `t` digits lies between two neighbouring powers of two.
pub proof fn lemma_bit_length_bounds(n: nat)
    requires
        n > 0,
    ensures
        bit_length(n) >= 1,
        pow2((bit_length(n) - 1) as nat) <= n < pow2(bit_length(n)),
    decreases n,
{
    lemma2_to64();
    if n == 1 {
        assert(bit_length(1) == 1 + bit_length(0));
    } else {
        lemma_bit_length_bounds(n / 2);
        let t = bit_length(n / 2);
        lemma_pow2_unfold(t);
        lemma_pow2_unfold(t + 1);
    }
}

/// The number of digits is fixed by the neighbouring powers of two.
pub proof fn lemma_bit_length_unique(n: nat, t: nat)
    requires
        t >= 1,
        pow2((t - 1) as nat) <= n < pow2(t),
    ensures
        bit_length(n) == t,
{
    lemma_pow2_pos((t - 1) as nat);
    lemma_bit_length_bounds(n);
    let b = bit_length(n);
    if b < t {
        if b < t - 1 {
            lemma_pow2_strictly_increases(b, (t - 1) as nat);
        }
    }
    if b > t {
        if b - 1 > t {
            lemma_pow2_strictly_increases(t, (b - 1) as nat);
        }
    }
}

/// A number below `2^t` has at most `t` digits.
pub proof fn lemma_bit_length_at_most(n: nat, t: nat)
    requires
        n < pow2(t),
    ensures
        bit_length(n) <= t,
{
    if n > 0 {
        lemma_bit_length_bounds(n);
        let b = bit_length(n);
        if b > t {
            if b - 1 > t {
                lemma_pow2_strictly_increases(t, (b - 1) as nat);
            }
        }
    }
}

/// Multiplying by `2^i` appends `i` digits.
pub proof fn lemma_bit_length_scaled(n: nat, i: nat)
    requires
        n > 0,
    ensures
        bit_length(n * pow2(i)) == bit_length(n) + i,
{
    lemma_bit_length_bounds(n);
    let b = bit_length(n);
    lemma_pow2_adds((b - 1) as nat, i);
    lemma_pow2_adds(b, i);
    lemma_pow2_pos(i);
    lemma_mul_inequality(pow2((b - 1) as nat) as int, n as int, pow2(i) as int);
    lemma_mul_strict_inequality(n as int, pow2(b) as int, pow2(i) as int);
    lemma_bit_length_unique(n * pow2(i), b + i);
}

/// Rounding a quotient depends on the ratio alone.
pub proof fn lemma_nearest_even_scaled(n: nat, d: nat, c: nat)
    requires
        d > 0,
        c > 0,
    ensures
        nearest_even(n * c, d * c) == nearest_even(n, d),
{
    lemma_div_multiples_vanish_quotient(c as int, n as int, d as int);
    lemma_truncate_middle(n as int, c as int, d as int);
    lemma_mul_is_commutative(n as int, c as int);
    lemma_mul_is_commutative(d as int, c as int);
    let r = n % d;
    assert((2 * (c * r) > d * c) == (2 * r > d)) by (nonlinear_arith)
        requires
            c > 0,
    ;
    assert((2 * (c * r) == d * c) == (2 * r == d)) by (nonlinear_arith)
        requires
            c > 0,
    ;
}

/// The rounded magnitude depends on the exact value alone, not on how it is
/// split into an integer and a power of two.
pub proof fn lemma_rounded_magnitude_scaled(m: nat, i: nat, k: int)
    requires
        m > 0,
    ensures
        rounded_magnitude(m * pow2(i), k - i) == rounded_magnitude(m, k),
{
    let mi = m * pow2(i);
    lemma_pow2_pos(i);
    lemma_bit_length_scaled(m, i);
    let b = bit_length(m) as int;
    let j = dropped_bits(m, k);
    let ji = dropped_bits(mi, k - i);
    if b - 24 >= 0 || -k >= 0 {
        lemma_pow2_adds(j, i);
        lemma_pow2_pos(j);
        lemma_nearest_even_scaled(m, pow2(j), pow2(i));
    } else {
        lemma2_to64();
        let t = (i - ji) as nat;
        lemma_pow2_adds(t, ji);
        lemma_mul_is_associative(m as int, pow2(t) as int, pow2(ji) as int);
        let u = m * pow2(t);
        lemma_fundamental_div_mod_converse(mi as int, pow2(ji) as int, u as int, 0);
        let rest = (ji + (k - i)) as nat;
        lemma_pow2_adds(t, rest);
        lemma_mul_is_associative(m as int, pow2(t) as int, pow2(rest) as int);
    }
}

/// Nothing rounds to nothing.
pub proof fn lemma_rounded_zero(k: int)
    ensures
        rounded_magnitude(0, k) == 0,
{
    let j = dropped_bits(0, k);
    lemma_pow2_pos(j);
    assert(rounded_magnitude(0, k) == 0) by (nonlinear_arith)
        requires
            rounded_magnitude(0, k) == 0 * pow2((j + k) as nat),
    ;
}

/// A subnormal number's magnitude is its fraction; a normal number's has its
/// exponent field and twenty-three digits.
pub proof fn lemma_magnitude_bit_length(x: u32)
    requires
        is_finite(x),
    ensures
        exponent_field(x) == 0 ==> magnitude(x) == fraction_field(x) && bit_length(magnitude(x))
            <= 23,
        exponent_field(x) > 0 ==> bit_length(magnitude(x)) == 23 + exponent_field(x),
{
    lemma2_to64();
    if exponent_field(x) == 0 {
        assert(magnitude(x) == fraction_field(x) * 1);
        lemma_bit_length_at_most(magnitude(x), 23);
    } else {
        lemma_bit_length_unique(significand(x), 24);
        lemma_bit_length_scaled(significand(x), scale(x));
    }
}

/// Two finite numbers of one magnitude differ at most in sign.
pub proof fn lemma_magnitude_injective(x: u32, y: u32)
    requires
        is_finite(x),
        is_finite(y),
        magnitude(x) == magnitude(y),
    ensures
        abs_bits(x) == abs_bits(y),
{
    lemma_magnitude_bit_length(x);
    lemma_magnitude_bit_length(y);
    if exponent_field(x) > 0 {
        lemma_mul_is_commutative(significand(x) as int, pow2(scale(x)) as int);
        lemma_mul_is_commutative(significand(y) as int, pow2(scale(y)) as int);
        lemma_mul_equality_converse(
            pow2(scale(x)) as int,
            significand(x) as int,
            significand(y) as int,
        );
    }
}

/// The encoding of a rounded magnitude, from its significand `q` and its power
/// of two `e`: the two packed side by side, or infinity where that would
/// reach the exponent field of all ones.
pub proof fn lemma_encode_parts(negative: bool, q: nat, e: nat)
    requires
        q <= 0x100_0000,
        e == 0 || q >= 0x80_0000,
    ensures
        encode(negative, q * pow2(e)) == (if e * 0x80_0000 + q >= 0x7f80_0000 {
            if negative {
                0xff80_0000u32
            } else {
                0x7f80_0000u32
            }
        } else if negative {
            (0x8000_0000 + e * 0x80_0000 + q) as u32
        } else {
            (e * 0x80_0000 + q) as u32
        }),
    decreases q,
{
    lemma2_to64();
    if q == 0x100_0000 {
        lemma_pow2_unfold(e + 1);
        assert(q * pow2(e) == 0x80_0000 * pow2(e + 1)) by (nonlinear_arith)
            requires
                q == 0x100_0000,
                pow2(e + 1) == 2 * pow2(e),
        ;
        lemma_encode_parts(negative, 0x80_0000, e + 1);
    } else {
        let mag = q * pow2(e);
        let abs = e * 0x80_0000 + q;
        if q >= 0x80_0000 && e >= 254 {
            if e > 254 {
                lemma_pow2_strictly_increases(254, e);
            }
            lemma_pow2_adds(23, 254);
            lemma_mul_inequality(0x80_0000, q as int, pow2(e) as int);
            lemma_mul_is_commutative(pow2(254) as int, 0x80_0000);
        } else {
            let x: u32 = if negative {
                (0x8000_0000 + abs) as u32
            } else {
                abs as u32
            };
            if q >= 0x80_0000 {
                if e < 253 {
                    lemma_pow2_strictly_increases(e, 253);
                }
                lemma_pow2_adds(24, 253);
                lemma_pow2_pos(e);
                lemma_mul_strict_inequality(q as int, 0x100_0000, pow2(e) as int);
            } else {
                lemma_pow2_strictly_increases(23, 277);
            }
            let c = choose|c: u32| is_finite(c) && is_negative(c) == negative && magnitude(c) == mag;
            assert(is_finite(x) && is_negative(x) == negative && magnitude(x) == mag);
            lemma_magnitude_injective(c, x);
        }
    }
}

/// Encoding a finite number's sign and magnitude gives the number back.
pub proof fn lemma_encode_magnitude(x: u32)
    requires
        is_finite(x),
    ensures
        encode(is_negative(x), magnitude(x)) == x,
{
    if exponent_field(x) == 0 {
        lemma_encode_parts(is_negative(x), fraction_field(x), 0);
    } else {
        lemma_encode_parts(is_negative(x), significand(x), scale(x));
    }
}

/// A number of the format is its own rounding.
pub proof fn lemma_rounded_exact(x: u32)
    requires
        is_finite(x),
    ensures
        rounded_magnitude(magnitude(x), 0) == magnitude(x),
        rounded(is_negative(x), magnitude(x), 0) == x,
{
    lemma2_to64();
    lemma_magnitude_bit_length(x);
    if exponent_field(x) > 0 {
        let p = pow2(scale(x));
        lemma_fundamental_div_mod_converse(magnitude(x) as int, p as int, significand(x) as int, 0);
    }
    lemma_encode_magnitude(x);
}

/// The rounded magnitude of `m * 2^k` units, where `m` already has twenty-four
/// digits or `k` is not positive, as a significand and a power of two that
/// the format can hold.
proof fn lemma_rounded_parts_aligned(m: nat, k: int) -> (parts: (nat, nat))
    requires
        m > 0,
        k <= 0 || bit_length(m) >= 24,
    ensures
        rounded_magnitude(m, k) == parts.0 * pow2(parts.1),
        parts.0 <= 0x100_0000,
        parts.1 == 0 || parts.0 >= 0x80_0000,
        k >= 0 ==> parts.0 > 0,
{
    lemma2_to64();
    lemma_bit_length_bounds(m);
    let b = bit_length(m);
    let j = dropped_bits(m, k);
    let d = pow2(j);
    lemma_pow2_adds(24, j);
    if b < 24 + j {
        lemma_pow2_strictly_increases(b, 24 + j);
    }
    let q = m / d;
    let r = m % d;
    lemma_fundamental_div_mod(m as int, d as int);
    assert(q < 0x100_0000) by (nonlinear_arith)
        requires
            m == d * q + r,
            0 <= r < d,
            m < 0x100_0000 * d,
    ;
    if j == b - 24 {
        lemma_pow2_adds(23, j);
        assert(q >= 0x80_0000) by (nonlinear_arith)
            requires
                m == d * q + r,
                0 <= r < d,
                m >= 0x80_0000 * d,
        ;
    } else if k >= 0 {
        assert(q == m) by (nonlinear_arith)
            requires
                m == d * q + r,
                0 <= r < d,
                d == 1,
        ;
    }
    (nearest_even(m, d), (j + k) as nat)
}

/// The rounded magnitude as a significand of at most twenty-four digits and a
/// power of two: a magnitude that the format holds, or one beyond its largest.
/// An integer number of units that is not zero does not round to zero.
pub proof fn lemma_rounded_parts(m: nat, k: int) -> (parts: (nat, nat))
    ensures
        rounded_magnitude(m, k) == parts.0 * pow2(parts.1),
        parts.0 <= 0x100_0000,
        parts.1 == 0 || parts.0 >= 0x80_0000,
        m > 0 && k >= 0 ==> parts.0 > 0,
{
    if m == 0 {
        lemma_rounded_zero(k);
        (0, 0)
    } else if bit_length(m) < 24 && k > 0 {
        let room = (24 - bit_length(m)) as nat;
        let i: nat = if k < room {
            k as nat
        } else {
            room
        };
        lemma_bit_length_scaled(m, i);
        lemma_rounded_magnitude_scaled(m, i, k);
        assert(m * pow2(i) > 0) by (nonlinear_arith)
            requires
                m > 0,
                pow2(i) > 0,
        ;
        lemma_rounded_parts_aligned(m * pow2(i), k - i)
    } else {
        lemma_rounded_parts_aligned(m, k)
    }
}

/// A rounding is never NaN and has the sign asked for; that of an integer
/// number of units other than zero is not zero.
pub proof fn lemma_rounded_is_number(negative: bool, m: nat, k: int)
    ensures
        !is_nan(rounded(negative, m, k)),
        is_negative(rounded(negative, m, k)) == negative,
        m > 0 && k >= 0 ==> abs_bits(rounded(negative, m, k)) > 0,
{
    let parts = lemma_rounded_parts(m, k);
    lemma_encode_parts(negative, parts.0, parts.1);
}

/// How far apart two magnitudes are.
pub open spec fn distance(a: nat, b: nat) -> nat {
    if a >= b {
        (a - b) as nat
    } else {
        (b - a) as nat
    }
}

/// No number of the format is nearer to the exact result `m * 2^k` units than
/// its rounding. Where `k` is negative the exact result is no whole number of
/// units, so all three are counted in the finer unit of which `2^-k` make one.
pub proof fn lemma_rounding_is_nearest(m: nat, k: int, x: u32)
    requires
        is_finite(x),
    ensures
        ({
            let t: nat = if k < 0 {
                (-k) as nat
            } else {
                0
            };
            let exact = m * pow2((k + t) as nat);
            distance(rounded_magnitude(m, k) * pow2(t), exact) <= distance(
                magnitude(x) * pow2(t),
                exact,
            )
        }),
{
    lemma2_to64();
    let t: nat = if k < 0 {
        (-k) as nat
    } else {
        0
    };
    let u = pow2((k + t) as nat);
    let exact = m * u;
    let c = magnitude(x) * pow2(t);
    let j = dropped_bits(m, k);
    let d = pow2(j);
    lemma_pow2_pos(j);
    lemma_pow2_pos((k + t) as nat);
    let q = m / d;
    let r0 = m % d;
    lemma_fundamental_div_mod(m as int, d as int);
    let q1 = nearest_even(m, d);
    let g = d * u;
    let gexp = (j + k + t) as nat;
    lemma_pow2_adds(j, (k + t) as nat);
    lemma_pow2_adds((j + k) as nat, t);
    let r_scaled = rounded_magnitude(m, k) * pow2(t);
    assert(r_scaled == q1 * g) by (nonlinear_arith)
        requires
            r_scaled == (q1 * pow2((j + k) as nat)) * pow2(t),
            g == pow2((j + k) as nat) * pow2(t),
    ;
    let lo = q * g;
    let a = r0 * u;
    assert(exact == lo + a) by (nonlinear_arith)
        requires
            exact == m * u,
            m == d * q + r0,
            g == d * u,
            lo == q * g,
            a == r0 * u,
    ;
    assert(0 <= a < g && (r0 == 0 ==> a == 0) && (2 * r0 <= d ==> 2 * a <= g) && (2 * r0 >= d
        ==> 2 * a >= g)) by (nonlinear_arith)
        requires
            a == r0 * u,
            g == d * u,
            u > 0,
            0 <= r0 < d,
    ;
    assert((q + 1) * g == lo + g && (q1 == q ==> q1 * g == lo) && (q1 == q + 1 ==> q1 * g == lo
        + g)) by (nonlinear_arith)
        requires
            lo == q * g,
    ;
    if j > 0 || k < 0 {
        let sig = significand(x);
        let h = scale(x) + t;
        lemma_pow2_adds(scale(x), t);
        lemma_pow2_pos(h);
        assert(c == sig * pow2(h)) by (nonlinear_arith)
            requires
                c == (sig * pow2(scale(x))) * pow2(t),
                pow2(h) == pow2(scale(x)) * pow2(t),
        ;
        if h >= gexp {
            let n = sig * pow2((h - gexp) as nat);
            lemma_pow2_adds((h - gexp) as nat, gexp);
            assert(c == n * g) by (nonlinear_arith)
                requires
                    c == sig * pow2(h),
                    pow2(h) == pow2((h - gexp) as nat) * g,
                    n == sig * pow2((h - gexp) as nat),
            ;
            assert(c <= lo || c >= lo + g) by (nonlinear_arith)
                requires
                    c == n * g,
                    lo == q * g,
                    g > 0,
            ;
        } else {
            lemma_bit_length_bounds(m);
            lemma_pow2_adds(23, j);
            assert(q >= 0x80_0000) by (nonlinear_arith)
                requires
                    m == d * q + r0,
                    0 <= r0 < d,
                    m >= 0x80_0000 * d,
            ;
            lemma_pow2_unfold(gexp);
            if h < gexp - 1 {
                lemma_pow2_strictly_increases(h, (gexp - 1) as nat);
            }
            let below = pow2((gexp - 1) as nat);
            assert(c <= lo) by (nonlinear_arith)
                requires
                    c == sig * pow2(h),
                    sig < 0x100_0000,
                    0 < pow2(h) <= below,
                    g == 2 * below,
                    lo == q * g,
                    q >= 0x80_0000,
            ;
        }
    }
}

/// Counts the binary digits of `m`.
pub fn bit_length_u64(m: u64) -> (len: u32)
    ensures
        len == bit_length(m as nat),
        len <= 64,
{
    proof {
        lemma2_to64();
        lemma_bit_length_at_most(m as nat, 64);
    }
    let mut x: u64 = m;
    let mut len: u32 = 0;
    while x > 0
        invariant
            bit_length(m as nat) == len + bit_length(x as nat),
            bit_length(m as nat) <= 64,
        decreases x,
    {
        x = x / 2;
        len = len + 1;
    }
    len
}

/// An integer number of units that is not zero rounds to no less than the
/// power of two it is counted in.
pub proof fn lemma_rounded_at_least(m: nat, k: nat)
    requires
        m > 0,
    ensures
        rounded_magnitude(m, k as int) >= pow2(k),
{
    lemma2_to64();
    lemma_bit_length_bounds(m);
    let j = dropped_bits(m, k as int);
    let d = pow2(j);
    lemma_pow2_pos(j);
    if j > 0 && j < bit_length(m) - 1 {
        lemma_pow2_strictly_increases(j, (bit_length(m) - 1) as nat);
    }
    let q = m / d;
    let r = m % d;
    lemma_fundamental_div_mod(m as int, d as int);
    assert(q >= 1) by (nonlinear_arith)
        requires
            m == d * q + r,
            0 <= r < d,
            d <= m,
    ;
    lemma_pow2_adds(j, k);
    assert(nearest_even(m, d) * pow2(j + k) >= pow2(k)) by (nonlinear_arith)
        requires
            nearest_even(m, d) >= 1,
            pow2(j + k) == d * pow2(k),
            d >= 1,
    ;
}

/// Rounds the exact result `m * 2^k` units to the nearest number of the
/// format, ties to even, and gives it the sign asked for. A result beyond the
/// largest finite number becomes infinity.
pub fn round_to_format(negative: bool, m: u64, k: i32) -> (r: u32)
    ensures
        r == rounded(negative, m as nat, k as int),
        !is_nan(r),
        is_negative(r) == negative,
{
    let sign: u32 = if negative {
        SIGN_BIT
    } else {
        0
    };
    proof {
        lemma2_to64();
    }
    if m == 0 {
        proof {
            lemma_rounded_zero(k as int);
            lemma_encode_parts(negative, 0, 0);
        }
        return sign;
    }
    if k > 400 {
        proof {
            lemma_rounded_at_least(m as nat, k as nat);
            lemma_pow2_strictly_increases(277, k as nat);
        }
        return sign + INFINITY;
    }
    let len0: u32 = bit_length_u64(m);
    proof {
        lemma_bit_length_bounds(m as nat);
    }
    let mut mm: u64 = m;
    let mut kk: i32 = k;
    let mut len: u32 = len0;
    if len < 24 && k > 0 {
        let room: u32 = 24 - len;
        let s: u32 = if (k as u32) < room {
            k as u32
        } else {
            room
        };
        proof {
            lemma_pow2_adds(len as nat, s as nat);
            lemma_mul_strict_inequality(m as int, pow2(len as nat) as int, pow2(s as nat) as int);
            lemma_u64_shl_is_mul(m, s as u64);
            lemma_bit_length_scaled(m as nat, s as nat);
            lemma_rounded_magnitude_scaled(m as nat, s as nat, k as int);
        }
        mm = m << (s as u64);
        kk = k - s as i32;
        len = len + s;
    }
    let beyond: i32 = len as i32 - 24;
    let below: i64 = -(kk as i64);
    let j: i64 = if beyond as i64 >= below && beyond >= 0 {
        beyond as i64
    } else if below >= 0 {
        below
    } else {
        0
    };
    if j >= 64 {
        let q2: u32 = if j == 64 && mm > 0x8000_0000_0000_0000 {
            1
        } else {
            0
        };
        proof {
            if j > 64 {
                lemma_pow2_unfold(65);
                if j > 65 {
                    lemma_pow2_strictly_increases(65, j as nat);
                }
            }
            lemma_basic_div(mm as int, pow2(j as nat) as int);
            lemma_small_mod(mm as nat, pow2(j as nat));
            lemma_encode_parts(negative, q2 as nat, 0);
        }
        return sign + q2;
    }
    proof {
        lemma_u64_pow2_no_overflow(j as nat);
        lemma_u64_shl_is_mul(1, j as u64);
        lemma_bit_length_bounds(mm as nat);
        lemma_pow2_adds(24, j as nat);
        if (len as int) < 24 + j {
            lemma_pow2_strictly_increases(len as nat, (24 + j) as nat);
        }
        if j == beyond {
            lemma_pow2_adds(23, j as nat);
        }
    }
    let d: u64 = 1u64 << (j as u64);
    assert(d == pow2(j as nat));
    let q: u64 = mm / d;
    let rem: u64 = mm % d;
    proof {
        lemma_fundamental_div_mod(mm as int, d as int);
        assert(q < 0x100_0000) by (nonlinear_arith)
            requires
                mm == d * q + rem,
                0 <= rem < d,
                mm < 0x100_0000 * d,
        ;
        if j == beyond {
            assert(q >= 0x80_0000) by (nonlinear_arith)
                requires
                    mm == d * q + rem,
                    0 <= rem < d,
                    mm >= 0x80_0000 * d,
            ;
        }
    }
    let rest: u64 = d - rem;
    let up: bool = rem > rest || (rem == rest && q % 2 == 1);
    let q2: u64 = if up {
        q + 1
    } else {
        q
    };
    let e: i64 = j + kk as i64;
    proof {
        lemma_encode_parts(negative, q2 as nat, e as nat);
    }
    let abs: u64 = (e as u64) * 0x80_0000 + q2;
    if abs >= 0x7f80_0000 {
        sign + INFINITY
    } else {
        sign + abs as u32
    }
}

} // verus!
