//! Square root of single-precision numbers.

use vstd::prelude::*;
use vstd::arithmetic::power2::{
    pow2, lemma_pow2_pos, lemma_pow2_adds, lemma_pow2_unfold, lemma_pow2_strictly_increases,
    lemma2_to64,
};
use vstd::arithmetic::div_mod::{lemma_fundamental_div_mod, lemma_fundamental_div_mod_converse};
use vstd::arithmetic::mul::{lemma_mul_inequality, lemma_mul_strict_inequality};
use vstd::bits::lemma_u64_shl_is_mul;
use crate::binary32::{
    SIGN_BIT, INFINITY, QUIET_NAN, is_negative, is_nan, is_infinite, is_finite, is_zero,
    magnitude, significand, scale, unpack,
};
use crate::rounding::{
    bit_length, bit_length_u64, encode, lemma_bit_length_bounds, lemma_bit_length_unique,
    lemma_bit_length_at_most, lemma_encode_parts,
};

verus! {

/// `r` is the largest integer whose square is at most `n`.
pub open spec fn is_floor_root(n: nat, r: nat) -> bool {
    r * r <= n < (r + 1) * (r + 1)
}

/// The largest integer whose square is at most `n`.
pub open spec fn floor_root(n: nat) -> nat {
    choose|r: nat| is_floor_root(n, r)
}

/// The magnitude, in units of 2^-149, of the number nearest to the square root
/// of a number of magnitude `mag`.
///
/// The square of the root, counted in squares of the unit, is
/// `x = mag * 2^149`. Its integer root `s` has more digits than the format
/// holds; `q` keeps the leading twenty-four. The real root lies above the
/// midpoint between `q` and `q + 1` exactly when `4 * x` exceeds the square
/// of twice that midpoint, and on it when the two are equal: then the even
/// one of `q` and `q + 1` is taken.
pub open spec fn root_magnitude(mag: nat) -> nat {
    let x = mag * pow2(149);
    let s = floor_root(x);
    let j: nat = if bit_length(s) > 24 {
        (bit_length(s) - 24) as nat
    } else {
        0
    };
    let q = s / pow2(j);
    let mid = (2 * q + 1) * pow2(j);
    if 4 * x > mid * mid || (4 * x == mid * mid && q % 2 == 1) {
        (q + 1) * pow2(j)
    } else {
        q * pow2(j)
    }
}

/// The square root of a number, rounded to the nearest number of the format.
/// A zero of either sign is its own root; other negative numbers have none.
pub open spec fn square_root_spec(a: u32) -> u32 {
    if is_nan(a) {
        QUIET_NAN
    } else if is_zero(a) {
        a
    } else if is_negative(a) {
        QUIET_NAN
    } else if is_infinite(a) {
        a
    } else {
        encode(false, root_magnitude(magnitude(a)))
    }
}

/// Every number has an integer root.
pub proof fn lemma_floor_root(n: nat)
    ensures
        floor_root(n) * floor_root(n) <= n < (floor_root(n) + 1) * (floor_root(n) + 1),
    decreases n,
{
    if n == 0 {
        let z: nat = 0;
        assert(z * z <= n < (z + 1) * (z + 1)) by (nonlinear_arith)
            requires
                n == 0,
                z == 0,
        ;
        assert(is_floor_root(n, z));
    } else {
        lemma_floor_root((n - 1) as nat);
        let r = floor_root((n - 1) as nat);
        if (r + 1) * (r + 1) <= n {
            let r1: nat = r + 1;
            assert(n < (r1 + 1) * (r1 + 1)) by (nonlinear_arith)
                requires
                    n <= (r + 1) * (r + 1),
                    r1 == r + 1,
            ;
            assert(is_floor_root(n, r1));
        } else {
            assert(is_floor_root(n, r));
        }
    }
}

/// Only one integer is the integer root.
pub proof fn lemma_floor_root_unique(n: nat, r: nat)
    requires
        r * r <= n < (r + 1) * (r + 1),
    ensures
        floor_root(n) == r,
{
    lemma_floor_root(n);
    let f = floor_root(n);
    if f < r {
        assert((f + 1) * (f + 1) <= r * r) by (nonlinear_arith)
            requires
                0 <= f + 1 <= r,
        ;
    }
    if f > r {
        assert((r + 1) * (r + 1) <= f * f) by (nonlinear_arith)
            requires
                0 <= r + 1 <= f,
        ;
    }
}

/// The integer root of `n * p^2` begins with the integer root of `n`.
proof fn lemma_root_scaled(n: nat, s: nat, p: nat, big: nat)
    requires
        p > 0,
        s * s <= n < (s + 1) * (s + 1),
        big * big <= n * (p * p) < (big + 1) * (big + 1),
    ensures
        s * p <= big < (s + 1) * p,
{
    let lo = s * p;
    let hi = (s + 1) * p;
    assert(lo * lo == (s * s) * (p * p)) by (nonlinear_arith)
        requires
            lo == s * p,
    ;
    assert(hi * hi == ((s + 1) * (s + 1)) * (p * p)) by (nonlinear_arith)
        requires
            hi == (s + 1) * p,
    ;
    assert((s * s) * (p * p) <= n * (p * p)) by (nonlinear_arith)
        requires
            s * s <= n,
    ;
    assert(((s + 1) * (s + 1)) * (p * p) > n * (p * p)) by (nonlinear_arith)
        requires
            (s + 1) * (s + 1) > n,
            p > 0,
    ;
    if big < lo {
        assert((big + 1) * (big + 1) <= lo * lo) by (nonlinear_arith)
            requires
                0 <= big + 1 <= lo,
        ;
    }
    if big >= hi {
        assert(hi * hi <= big * big) by (nonlinear_arith)
            requires
                0 <= hi <= big,
        ;
    }
}

/// The rounded root, from the integer root `s` of a fifty-digit even number
/// `n` that differs from the square of the exact root by the factor `4^e`.
proof fn lemma_root_magnitude(mag: nat, n: nat, e: nat, s: nat)
    requires
        mag * pow2(149) == n * (pow2(e) * pow2(e)),
        0x1_0000_0000_0000 <= n < 0x4_0000_0000_0000,
        n % 2 == 0,
        s * s <= n < (s + 1) * (s + 1),
    ensures
        0x100_0000 <= s < 0x200_0000,
        root_magnitude(mag) == ((s + 1) / 2) * pow2(e + 1),
{
    lemma2_to64();
    assert(s < 0x200_0000) by (nonlinear_arith)
        requires
            s * s <= n,
            n < 0x4_0000_0000_0000,
    ;
    assert(s >= 0x100_0000) by (nonlinear_arith)
        requires
            n < (s + 1) * (s + 1),
            n >= 0x1_0000_0000_0000,
    ;
    let p = pow2(e);
    lemma_pow2_pos(e);
    lemma_pow2_unfold(e + 1);
    let x = mag * pow2(149);
    let big = floor_root(x);
    lemma_floor_root(x);
    lemma_root_scaled(n, s, p, big);
    lemma_pow2_adds(24, e);
    lemma_pow2_adds(25, e);
    lemma_mul_inequality(0x100_0000, s as int, p as int);
    lemma_mul_inequality((s + 1) as int, 0x200_0000, p as int);
    lemma_bit_length_unique(big, 25 + e);
    let j: nat = e + 1;
    let h = s / 2;
    let r: int = big - h * (2 * p);
    assert(0 <= r < 2 * p && big == h * (2 * p) + r) by (nonlinear_arith)
        requires
            r == big - h * (2 * p),
            s * p <= big < (s + 1) * p,
            2 * h <= s <= 2 * h + 1,
            p > 0,
    ;
    lemma_fundamental_div_mod_converse(big as int, (2 * p) as int, h as int, r);
    let mid = (2 * h + 1) * pow2(j);
    let odd = (2 * h + 1) * (2 * h + 1);
    assert(mid * mid == 4 * (odd * (p * p))) by (nonlinear_arith)
        requires
            mid == (2 * h + 1) * (2 * p),
            odd == (2 * h + 1) * (2 * h + 1),
    ;
    assert(odd == 2 * (2 * h * h + 2 * h) + 1) by (nonlinear_arith)
        requires
            odd == (2 * h + 1) * (2 * h + 1),
    ;
    if s == 2 * h {
        assert(n * (p * p) < odd * (p * p)) by (nonlinear_arith)
            requires
                n < odd,
                p > 0,
        ;
    } else {
        assert(n * (p * p) > odd * (p * p)) by (nonlinear_arith)
            requires
                n > odd,
                p > 0,
        ;
    }
}

/// No number of the format is nearer to the exact square root than the
/// rounded root: halfway between the rounded root and a smaller number lies
/// at or below the exact root, halfway to a larger number at or above it.
/// Both are stated of the squares, which are integers: of twice the halfway
/// point, and of twice the root of `mag * 2^149`.
pub proof fn lemma_root_is_nearest(mag: nat, x: u32)
    requires
        mag > 0,
        is_finite(x),
    ensures
        ({
            let r = root_magnitude(mag);
            let c = magnitude(x);
            let four_squares = 4 * (mag * pow2(149));
            &&& c < r ==> (c + r) * (c + r) <= four_squares
            &&& c > r ==> (c + r) * (c + r) >= four_squares
        }),
{
    lemma2_to64();
    let sq = mag * pow2(149);
    lemma_pow2_pos(74);
    lemma_pow2_adds(74, 74);
    lemma_pow2_adds(148, 1);
    let p74 = pow2(74);
    assert(sq >= 2 * (p74 * p74)) by (nonlinear_arith)
        requires
            sq == mag * pow2(149),
            mag >= 1,
            pow2(149) == (p74 * p74) * 2,
    ;
    let s = floor_root(sq);
    lemma_floor_root(sq);
    if s < p74 {
        assert((s + 1) * (s + 1) <= p74 * p74) by (nonlinear_arith)
            requires
                0 <= s + 1 <= p74,
        ;
    }
    assert(s >= p74);
    lemma_bit_length_bounds(s);
    let b = bit_length(s);
    if b < 75 {
        if b < 74 {
            lemma_pow2_strictly_increases(b, 74);
        }
    }
    let j = (b - 24) as nat;
    let p = pow2(j);
    lemma_pow2_adds(23, j);
    lemma_pow2_adds(24, j);
    let q = s / p;
    let r0 = s % p;
    lemma_fundamental_div_mod(s as int, p as int);
    assert(0x80_0000 <= q < 0x100_0000) by (nonlinear_arith)
        requires
            s == p * q + r0,
            0 <= r0 < p,
            0x80_0000 * p <= s < 0x100_0000 * p,
    ;
    let lo = q * p;
    let hi = (q + 1) * p;
    let mid = (2 * q + 1) * p;
    assert(lo <= s < hi && hi == lo + p && mid == lo + hi) by (nonlinear_arith)
        requires
            s == p * q + r0,
            0 <= r0 < p,
            lo == q * p,
            hi == (q + 1) * p,
            mid == (2 * q + 1) * p,
    ;
    assert(lo * lo <= sq) by (nonlinear_arith)
        requires
            0 <= lo <= s,
            s * s <= sq,
    ;
    assert(hi * hi > sq) by (nonlinear_arith)
        requires
            0 <= s + 1 <= hi,
            sq < (s + 1) * (s + 1),
    ;
    let c = magnitude(x);
    let sig = significand(x);
    let sc = scale(x);
    lemma_pow2_pos(sc);
    if sc >= j {
        let n = sig * pow2((sc - j) as nat);
        lemma_pow2_adds((sc - j) as nat, j);
        assert(c == n * p) by (nonlinear_arith)
            requires
                c == sig * pow2(sc),
                pow2(sc) == pow2((sc - j) as nat) * p,
                n == sig * pow2((sc - j) as nat),
        ;
        assert(c <= lo || c >= hi) by (nonlinear_arith)
            requires
                c == n * p,
                lo == q * p,
                hi == (q + 1) * p,
                p > 0,
        ;
    } else {
        lemma_pow2_unfold(j);
        if sc < j - 1 {
            lemma_pow2_strictly_increases(sc, (j - 1) as nat);
        }
        let below = pow2((j - 1) as nat);
        assert(c <= lo) by (nonlinear_arith)
            requires
                c == sig * pow2(sc),
                sig < 0x100_0000,
                0 < pow2(sc) <= below,
                p == 2 * below,
                lo == q * p,
                q >= 0x80_0000,
        ;
    }
    let r = root_magnitude(mag);
    if c < r {
        if r == lo {
            assert((c + r) * (c + r) <= 4 * sq) by (nonlinear_arith)
                requires
                    0 <= c < r,
                    r * r <= sq,
            ;
        } else {
            assert((c + r) * (c + r) <= mid * mid) by (nonlinear_arith)
                requires
                    0 <= c + r <= mid,
            ;
        }
    }
    if c > r {
        if r == lo {
            assert((c + r) * (c + r) >= mid * mid) by (nonlinear_arith)
                requires
                    0 <= mid <= c + r,
            ;
        } else {
            assert((c + r) * (c + r) >= 4 * sq) by (nonlinear_arith)
                requires
                    0 <= r < c,
                    r * r > sq,
            ;
        }
    }
}

/// The largest integer whose square is at most `n`, found one binary digit at
/// a time from the top.
pub fn integer_root(n: u64) -> (s: u64)
    ensures
        s * s <= n < (s + 1) * (s + 1),
        s == floor_root(n as nat),
{
    proof {
        lemma2_to64();
    }
    let mut s: u64 = 0;
    let mut i: u32 = 32;
    while i > 0
        invariant
            i <= 32,
            s + pow2(i as nat) <= 0x1_0000_0000,
            s * s <= n < (s + pow2(i as nat)) * (s + pow2(i as nat)),
        decreases i,
    {
        i = i - 1;
        proof {
            lemma_pow2_unfold((i + 1) as nat);
            lemma_u64_shl_is_mul(1, i as u64);
        }
        let h: u64 = 1u64 << (i as u64);
        let t: u64 = s + h;
        assert(t * t <= 0xffff_ffff_ffff_ffff) by (nonlinear_arith)
            requires
                t <= 0xffff_ffff,
        ;
        if t * t <= n {
            s = t;
        }
    }
    proof {
        lemma_floor_root_unique(n as nat, s as nat);
    }
    s
}

/// Takes the square root of a number.
#[verifier::when_used_as_spec(square_root_spec)]
pub fn square_root(a: u32) -> (r: u32)
    ensures
        r == square_root_spec(a),
        !is_nan(a) && (is_zero(a) || !is_negative(a)) ==> !is_nan(r) && is_negative(r)
            == is_negative(a),
{
    let abs: u32 = if a >= SIGN_BIT {
        a - SIGN_BIT
    } else {
        a
    };
    if abs > INFINITY {
        return QUIET_NAN;
    }
    if abs == 0 {
        return a;
    }
    if a >= SIGN_BIT {
        return QUIET_NAN;
    }
    if abs == INFINITY {
        return a;
    }
    let parts: (u32, i32) = unpack(a);
    let m: u64 = parts.0 as u64;
    let k: i32 = parts.1;
    let len: u32 = bit_length_u64(m);
    proof {
        lemma2_to64();
        lemma_bit_length_bounds(m as nat);
        lemma_bit_length_at_most(m as nat, 24);
    }
    let lift: u32 = 24 - len;
    proof {
        lemma_pow2_adds((len - 1) as nat, lift as nat);
        lemma_pow2_adds(len as nat, lift as nat);
        lemma_mul_inequality(
            pow2((len - 1) as nat) as int,
            m as int,
            pow2(lift as nat) as int,
        );
        lemma_mul_strict_inequality(m as int, pow2(len as nat) as int, pow2(lift as nat) as int);
        lemma_u64_shl_is_mul(m, lift as u64);
    }
    let m1: u64 = m << (lift as u64);
    let total: i32 = 149 + k - lift as i32;
    let pad: u32 = if total % 2 == 1 {
        25
    } else {
        26
    };
    proof {
        lemma_u64_shl_is_mul(m1, pad as u64);
    }
    let n: u64 = m1 << (pad as u64);
    let e: i32 = (total - pad as i32) / 2;
    let s: u64 = integer_root(n);
    proof {
        let pe = pow2(e as nat);
        let pl = pow2(lift as nat);
        let pk = pow2(k as nat);
        lemma_pow2_adds(e as nat, e as nat);
        lemma_pow2_adds(pad as nat, (2 * e) as nat);
        lemma_pow2_adds((pad + 2 * e) as nat, lift as nat);
        lemma_pow2_adds(k as nat, 149);
        assert(magnitude(a) * pow2(149) == n * (pe * pe)) by (nonlinear_arith)
            requires
                magnitude(a) == m * pk,
                m1 == m * pl,
                n == m1 * pow2(pad as nat),
                pow2((2 * e) as nat) == pe * pe,
                pow2((pad + 2 * e) as nat) == pow2(pad as nat) * pow2((2 * e) as nat),
                pow2((k + 149) as nat) == pow2((pad + 2 * e) as nat) * pl,
                pow2((k + 149) as nat) == pk * pow2(149),
                pl > 0,
        ;
        lemma_root_magnitude(magnitude(a), n as nat, e as nat, s as nat);
        lemma_encode_parts(false, ((s + 1) / 2) as nat, (e + 1) as nat);
    }
    let q: u64 = (s + 1) / 2;
    let bits: u64 = (e + 1) as u64 * 0x80_0000 + q;
    bits as u32
}

} // verus!
