//! Scaling a binary32 value by an integer power of two.
use crate::binary32::{
    copysign, exponent_field, fraction_field, from_fields, is_finite, is_infinite, is_nan, is_normal,
    is_zero,
    sign_field, signed_infinity, signed_zero, significand, uword_is_finite, uword_is_subnormal,
    uword_is_zero, EXPONENT_MASK, FRACTION_MASK, IMPLICIT_BIT, LARGEST_EXP, MAGNITUDE_MASK,
    QUIET_BIT, SIGN_MASK,
};
use crate::laws::{
    nearest_subnormal, scaled_below_smallest_is_zero, scaled_subnormal_is_nearest, scaled_by_zero_is_identity, scaled_infinity_is_itself,
    scaled_nan_is_nan, scaled_normal_moves_exponent, scaled_past_largest_is_infinity,
    scaled_zero_is_itself,
};
use crate::rounding::{round_half_even, round_shift};
use vstd::arithmetic::power2::{lemma_pow2_strictly_increases, lemma_pow2_unfold, pow2, lemma2_to64};
use vstd::prelude::*;

verus! {

/// Beyond this shift in either direction every nonzero finite input
/// saturates; testing it first keeps the exponent sum inside `i32`.
pub const OVERFLOW_INT: i32 = 50000;

/// The smallest exponent, in the biased scale of normal values, at which a
/// result can round to a nonzero value: -23 puts the leading significand bit
/// at 2^-150, half the smallest subnormal. Anything below rounds to zero.
pub const SMALLEST_EXP: i32 = -23;

/// `m * 2^(e - 150)` rewritten with a significand of 24 bits: `m` is doubled
/// and `e` lowered until bit 23 of `m` is set. Zero is left as it is.
pub open spec fn normalized(m: nat, e: int) -> (nat, int)
    decreases 0x100_0000 - m,
{
    if m == 0 || m >= 0x80_0000 {
        (m, e)
    } else {
        normalized(2 * m, e - 1)
    }
}

/// The significand of a nonzero finite `x`, shifted up to 24 bits.
pub open spec fn norm_significand(x: u32) -> nat {
    normalized(significand(x), if exponent_field(x) == 0 { 1 } else { exponent_field(x) as int }).0
}

/// The biased exponent of a nonzero finite `x` once its significand has 24
/// bits: the exponent field of a normal `x`, and 0 or below for a subnormal.
pub open spec fn norm_exponent(x: u32) -> int {
    normalized(significand(x), if exponent_field(x) == 0 { 1 } else { exponent_field(x) as int }).1
}

/// The binary32 pattern of `x * 2^n`.
///
/// Zero and infinity are returned as they are; a NaN is returned quiet.
/// Otherwise `x` is `m * 2^(k - 150)` with a 24-bit significand `m` and
/// `k = norm_exponent(x) + n`: above 254 the result is infinity; from 1 to 254
/// it is exact, with `k` as its exponent field; from -23 to 0 it is
/// `m / 2^(1 - k)` units of 2^-149 rounded to nearest, ties to even, which
/// is a subnormal, zero, or the smallest normal; below -23 the value is under
/// half the smallest subnormal and the result is zero. The sign is that of `x`.
pub open spec fn scaled(x: u32, n: int) -> u32 {
    if is_zero(x) || is_infinite(x) {
        x
    } else if is_nan(x) {
        x | QUIET_BIT
    } else {
        let m = norm_significand(x);
        let k = norm_exponent(x) + n;
        if k > LARGEST_EXP {
            signed_infinity(x)
        } else if k >= 1 {
            from_fields(sign_field(x), k as u32, (m - IMPLICIT_BIT) as u32)
        } else if k >= SMALLEST_EXP {
            (sign_field(x) << 31) | (round_half_even(m, (1 - k) as nat) as u32)
        } else {
            signed_zero(x)
        }
    }
}

/// What normalising does: a 24-bit significand, the value kept, and the
/// exponent lowered by one for each doubling, at most 23 times.
pub proof fn lemma_normalized(m: nat, e: int)
    requires
        0 < m < 0x100_0000,
    ensures
        0x80_0000 <= normalized(m, e).0 < 0x100_0000,
        normalized(m, e).1 <= e,
        normalized(m, e).0 == m * pow2((e - normalized(m, e).1) as nat),
        m >= 0x80_0000 ==> normalized(m, e).1 == e,
        m < 0x80_0000 ==> normalized(m, e).1 < e,
        e - normalized(m, e).1 <= 23,
    decreases 0x100_0000 - m,
{
    let (m2, e2) = normalized(m, e);
    let d = (e - e2) as nat;
    if m < 0x80_0000 {
        lemma_normalized(2 * m, e - 1);
        assert(normalized(m, e) == normalized(2 * m, e - 1));
        lemma_pow2_unfold(d);
        let p = pow2((d - 1) as nat);
        assert(m2 == (2 * m) * p);
        assert((2 * m) * p == m * (2 * p)) by (nonlinear_arith);
        assert(m2 == m * pow2(d));
    } else {
        lemma2_to64();
        assert(d == 0);
        assert(m2 == m * pow2(d));
    }
    if d > 23 {
        lemma_pow2_strictly_increases(23, d);
        lemma2_to64();
        assert(m * pow2(d) >= pow2(d)) by (nonlinear_arith)
            requires
                m >= 1,
        ;
    }
}

/// The 24-bit significand and the biased exponent of the nonzero subnormal
/// fraction `frac`.
fn normalize_subnormal(frac: u32) -> (r: (u32, i32))
    requires
        0 < frac < 0x80_0000,
    ensures
        r.0 == normalized(frac as nat, 1).0,
        r.1 == normalized(frac as nat, 1).1,
        0x80_0000 <= r.0 < 0x100_0000,
        SMALLEST_EXP <= r.1 <= 0,
{
    proof {
        lemma_normalized(frac as nat, 1);
    }
    let mut m: u32 = frac;
    let mut e: i32 = 1;
    while m < IMPLICIT_BIT
        invariant
            0 < m < 0x100_0000,
            normalized(m as nat, e as int) == normalized(frac as nat, 1),
            normalized(frac as nat, 1).1 <= e <= 1,
            normalized(frac as nat, 1).1 >= SMALLEST_EXP,
        decreases 0x100_0000 - m,
    {
        m = m * 2;
        e = e - 1;
        proof {
            lemma_normalized(m as nat, e as int);
        }
    }
    (m, e)
}

/// `x * 2^n` for the binary32 pattern `x`.
///
/// Zero and infinity come back unchanged and a NaN comes back quiet. A
/// finite nonzero `x` keeps its sign: its exponent moves by `n` exactly while
/// the result stays normal; in the subnormal range the result is rounded to
/// nearest, ties to even, so that at most half the smallest subnormal gives
/// zero; past the largest exponent it is infinity.
pub fn scalbnf(x: u32, n: i32) -> (r: u32)
    ensures
        r == scaled(x, n as int),
        is_zero(x) ==> r == x,
        is_finite(x) && n == 0 ==> r == x,
        is_nan(x) ==> is_nan(r),
        is_infinite(x) ==> r == x,
        is_normal(x) && 1 <= exponent_field(x) + n <= LARGEST_EXP ==> {
            &&& sign_field(r) == sign_field(x)
            &&& exponent_field(r) == exponent_field(x) + n
            &&& fraction_field(r) == fraction_field(x)
        },
        !is_zero(x) && !is_nan(x) && norm_exponent(x) + n > LARGEST_EXP ==> r == signed_infinity(
            x,
        ),
        is_finite(x) && !is_zero(x) && norm_exponent(x) + n < SMALLEST_EXP ==> r == signed_zero(x),
        is_finite(x) && !is_zero(x) && SMALLEST_EXP <= norm_exponent(x) + n <= 0
            ==> nearest_subnormal(x, n as int, r),
{
    proof {
        let n = n as int;
        if is_zero(x) {
            scaled_zero_is_itself(x, n);
        }
        if is_finite(x) && n == 0 {
            scaled_by_zero_is_identity(x);
        }
        if is_nan(x) {
            scaled_nan_is_nan(x, n);
        }
        if is_infinite(x) {
            scaled_infinity_is_itself(x, n);
        }
        if is_normal(x) && 1 <= exponent_field(x) + n <= LARGEST_EXP {
            scaled_normal_moves_exponent(x, n);
        }
        if !is_zero(x) && !is_nan(x) && norm_exponent(x) + n > LARGEST_EXP {
            scaled_past_largest_is_infinity(x, n);
        }
        if is_finite(x) && !is_zero(x) && norm_exponent(x) + n < SMALLEST_EXP {
            scaled_below_smallest_is_zero(x, n);
        }
        if is_finite(x) && !is_zero(x) && SMALLEST_EXP <= norm_exponent(x) + n <= 0 {
            scaled_subnormal_is_nearest(x, n);
        }
    }
    let mut ix: u32 = x;
    let hx: u32 = ix & MAGNITUDE_MASK;
    proof {
        assert(hx >> 31 == 0 && hx >> 23 < 256 && (hx >> 23) == (x >> 23) & 0xff
            && (hx >> 23) & 0xff == (x >> 23) & 0xff
            && hx & 0x7f_ffff == x & 0x7f_ffff && x & 0x7f_ffff < 0x80_0000
            && (hx < 0x80_0000 ==> hx == x & 0x7f_ffff)
            && ((hx >> 23) & 0xff == 0 ==> hx < 0x80_0000)) by (bit_vector)
            requires
                hx == x & 0x7fff_ffff,
        ;
        assert((0x7f80_0000u32 >> 23) & 0xff == 255 && 0x7f80_0000u32 & 0x7f_ffff == 0
            && (0u32 >> 23) & 0xff == 0 && 0u32 & 0x7f_ffff == 0) by (bit_vector);
    }
    let mut k: i32 = (hx >> 23) as i32;
    if uword_is_zero(hx) {
        return x;
    }
    if !uword_is_finite(hx) {
        assert(hx > 0x7f80_0000 <==> (x >> 23) & 0xff == 255 && x & 0x7f_ffff != 0) by (bit_vector)
            requires
                hx == x & 0x7fff_ffff,
                (x >> 23) & 0xff >= 255,
        ;
        // doubling: an infinity stays, a NaN is made quiet
        if hx > EXPONENT_MASK {
            return x | QUIET_BIT;
        }
        return x;
    }
    let ghost m = norm_significand(x);
    proof {
        lemma_normalized(significand(x), if exponent_field(x) == 0 { 1 } else { exponent_field(x) as int });
    }
    if uword_is_subnormal(hx) {
        // bring the significand up to 24 bits; k becomes the exponent it
        // would have as a normal value, 0 or below
        let (m1, e) = normalize_subnormal(hx);
        ix = (x & SIGN_MASK) | (m1 & FRACTION_MASK);
        assert(ix >> 31 == x >> 31 && ix & 0x7f_ffff == m1 - 0x80_0000) by (bit_vector)
            requires
                ix == (x & 0x8000_0000) | (m1 & 0x7f_ffff),
                0x80_0000 <= m1 < 0x100_0000,
        ;
        k = e;
        if n < -OVERFLOW_INT {
            // underflow
            return copysign(0, ix);
        }
    }
    assert(sign_field(ix) == sign_field(x) && fraction_field(ix) == m - IMPLICIT_BIT);
    assert(k == norm_exponent(x));
    if n > OVERFLOW_INT {
        // overflow, tested before the sum so that it cannot wrap
        return copysign(EXPONENT_MASK, ix);
    }
    k = k + n;
    if k > LARGEST_EXP {
        // overflow
        return copysign(EXPONENT_MASK, ix);
    }
    if k > 0 {
        // normal result: only the exponent field changes
        let ku: u32 = k as u32;
        let r = (ix & 0x807f_ffff) | (ku << 23);
        assert(r == ((ix >> 31) << 31) | (ku << 23) | (ix & 0x7f_ffff)) by (bit_vector)
            requires
                r == (ix & 0x807f_ffff) | (ku << 23),
                ku < 256,
        ;
        return r;
    }
    if k < SMALLEST_EXP {
        // underflow
        return copysign(0, ix);
    }
    // subnormal result: shift the 24-bit significand into the fraction field
    let q = round_shift((ix & FRACTION_MASK) | IMPLICIT_BIT, (1 - k) as u32);
    assert((ix & 0x7f_ffff) | 0x80_0000 == (ix & 0x7f_ffff) + 0x80_0000
        && ix & 0x8000_0000 == (ix >> 31) << 31) by (bit_vector);
    (ix & SIGN_MASK) | q
}

} // verus!
