//! Properties of scaling, proved of the model `scaled` that `scalbnf` meets.
use crate::binary32::{
    exponent_field, fraction_field, from_fields, is_finite, is_infinite, is_nan, is_normal,
    is_zero, lemma_fields_compose, lemma_from_fields, sign_field, signed_infinity, signed_zero,
    significand, IMPLICIT_BIT, LARGEST_EXP, QUIET_BIT,
};
use crate::rounding::{
    round_half_even, round_half_even_bound, round_half_even_exact, round_half_even_is_nearest,
};
use crate::scale::{lemma_normalized, norm_exponent, norm_significand, scaled, SMALLEST_EXP};
use vstd::arithmetic::power2::pow2;
use vstd::prelude::*;

verus! {

/// Zero of either sign, scaled by any power of two, is itself.
pub proof fn scaled_zero_is_itself(x: u32, n: int)
    requires
        is_zero(x),
    ensures
        scaled(x, n) == x,
{
}

/// An infinity of either sign, scaled by any power of two, is itself.
pub proof fn scaled_infinity_is_itself(x: u32, n: int)
    requires
        is_infinite(x),
    ensures
        scaled(x, n) == x,
{
}

/// A NaN scaled by any power of two is a NaN.
pub proof fn scaled_nan_is_nan(x: u32, n: int)
    requires
        is_nan(x),
    ensures
        is_nan(scaled(x, n)),
{
    assert(((x >> 23) & 0xff == 255 && x & 0x7f_ffff != 0) ==> (((x | 0x40_0000) >> 23) & 0xff
        == 255 && (x | 0x40_0000) & 0x7f_ffff != 0)) by (bit_vector);
}

/// Scaling a finite value by 2^0 gives back the same pattern.
pub proof fn scaled_by_zero_is_identity(x: u32)
    requires
        is_finite(x),
    ensures
        scaled(x, 0) == x,
{
    lemma_fields_compose(x);
    if !is_zero(x) {
        let e0: int = if exponent_field(x) == 0 { 1 } else { exponent_field(x) as int };
        lemma_normalized(significand(x), e0);
        if exponent_field(x) == 0 {
            let k = norm_exponent(x);
            round_half_even_exact(significand(x), (1 - k) as nat);
            let f = fraction_field(x);
            assert((x >> 23) & 0xff == 0 ==> x == ((x >> 31) << 31) | (x & 0x7f_ffff))
                by (bit_vector);
            assert(x == (sign_field(x) << 31) | f);
        }
    }
}

/// A normal value whose exponent, moved by `n`, stays among the normal
/// exponents keeps its sign and fraction and has its exponent moved by `n`:
/// the result is exact.
pub proof fn scaled_normal_moves_exponent(x: u32, n: int)
    requires
        is_normal(x),
        1 <= exponent_field(x) + n <= LARGEST_EXP,
    ensures
        sign_field(scaled(x, n)) == sign_field(x),
        exponent_field(scaled(x, n)) == exponent_field(x) + n,
        fraction_field(scaled(x, n)) == fraction_field(x),
{
    lemma_fields_compose(x);
    lemma_normalized(significand(x), exponent_field(x) as int);
    assert(norm_significand(x) - IMPLICIT_BIT == fraction_field(x));
    lemma_from_fields(sign_field(x), (exponent_field(x) + n) as u32, fraction_field(x));
}

/// A value other than zero and NaN whose exponent, moved by `n`, passes the
/// largest finite exponent becomes infinity of its sign.
pub proof fn scaled_past_largest_is_infinity(x: u32, n: int)
    requires
        !is_zero(x),
        !is_nan(x),
        norm_exponent(x) + n > LARGEST_EXP,
    ensures
        scaled(x, n) == signed_infinity(x),
{
    lemma_fields_compose(x);
}

/// A finite nonzero value whose leading bit, moved by `n`, falls below 2^-150,
/// half the smallest subnormal, becomes zero of its sign.
pub proof fn scaled_below_smallest_is_zero(x: u32, n: int)
    requires
        is_finite(x),
        !is_zero(x),
        norm_exponent(x) + n < SMALLEST_EXP,
    ensures
        scaled(x, n) == signed_zero(x),
{
}

/// The exponent from which a finite `x` is normalised: its exponent field,
/// or 1 for a subnormal.
pub open spec fn base_exponent(x: u32) -> int {
    if exponent_field(x) == 0 {
        1
    } else {
        exponent_field(x) as int
    }
}

/// `r` has the sign of `x`, and its magnitude, `u` units of 2^-149, is
/// within half a unit of the exact `|x| * 2^n`, for a result in the
/// subnormal range: counted in units of 2^-149 / 2^s, with
/// `s = 1 - (norm_exponent(x) + n)`, the exact value is
/// `significand(x) * 2^(base_exponent(x) - norm_exponent(x))` and lies within
/// half of 2^s of `u * 2^s`.
pub open spec fn nearest_subnormal(x: u32, n: int, r: u32) -> bool {
    let u = (r & 0x7fff_ffff) as int;
    let s = (1 - (norm_exponent(x) + n)) as nat;
    let exact = significand(x) * pow2((base_exponent(x) - norm_exponent(x)) as nat);
    &&& sign_field(r) == sign_field(x)
    &&& 2 * (u * pow2(s) - exact) <= pow2(s)
    &&& 2 * (exact - u * pow2(s)) <= pow2(s)
}

/// A result in the subnormal range is correctly rounded: it is the pattern of
/// sign of `x` nearest to the exact `x * 2^n`.
pub proof fn scaled_subnormal_is_nearest(x: u32, n: int)
    requires
        is_finite(x),
        !is_zero(x),
        SMALLEST_EXP <= norm_exponent(x) + n <= 0,
    ensures
        nearest_subnormal(x, n, scaled(x, n)),
{
    lemma_fields_compose(x);
    lemma_normalized(significand(x), base_exponent(x));
    let m = norm_significand(x);
    let s = (1 - (norm_exponent(x) + n)) as nat;
    round_half_even_bound(m, s);
    round_half_even_is_nearest(m, s);
    let q = round_half_even(m, s);
    let q32 = q as u32;
    let sx = sign_field(x);
    assert(((sx << 31) | q32) & 0x7fff_ffff == q32 && ((sx << 31) | q32) >> 31 == sx)
        by (bit_vector)
        requires
            sx <= 1,
            q32 <= 0x80_0000,
    ;
}

} // verus!
