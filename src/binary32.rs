//! The binary32 bit pattern: its fields, its classes, and the small
//! predicates and the copy-sign operation that work on it.
use vstd::prelude::*;

verus! {

/// The sign bit.
pub const SIGN_MASK: u32 = 0x8000_0000;

/// Every bit but the sign bit.
pub const MAGNITUDE_MASK: u32 = 0x7fff_ffff;

/// The 8-bit biased exponent field; on its own, the pattern of +Infinity.
pub const EXPONENT_MASK: u32 = 0x7f80_0000;

/// The 23-bit fraction field.
pub const FRACTION_MASK: u32 = 0x007f_ffff;

/// The leading significand bit that a normal value leaves implicit.
pub const IMPLICIT_BIT: u32 = 0x0080_0000;

/// The top fraction bit, set in every quiet NaN.
pub const QUIET_BIT: u32 = 0x0040_0000;

/// The largest biased exponent of a finite value.
pub const LARGEST_EXP: i32 = 254;

/// The sign field: 1 for a negative pattern, 0 otherwise.
pub open spec fn sign_field(x: u32) -> u32 {
    x >> 31
}

/// The biased exponent field, 0 to 255.
pub open spec fn exponent_field(x: u32) -> u32 {
    (x >> 23) & 0xff
}

/// The fraction field, below 2^23.
pub open spec fn fraction_field(x: u32) -> u32 {
    x & 0x7f_ffff
}

/// The pattern with the given sign, biased exponent and fraction fields.
pub open spec fn from_fields(s: u32, e: u32, f: u32) -> u32 {
    (s << 31) | (e << 23) | f
}

pub open spec fn is_zero(x: u32) -> bool {
    exponent_field(x) == 0 && fraction_field(x) == 0
}

pub open spec fn is_subnormal(x: u32) -> bool {
    exponent_field(x) == 0 && fraction_field(x) != 0
}

pub open spec fn is_normal(x: u32) -> bool {
    1 <= exponent_field(x) <= 254
}

pub open spec fn is_finite(x: u32) -> bool {
    exponent_field(x) < 255
}

pub open spec fn is_infinite(x: u32) -> bool {
    exponent_field(x) == 255 && fraction_field(x) == 0
}

pub open spec fn is_nan(x: u32) -> bool {
    exponent_field(x) == 255 && fraction_field(x) != 0
}

/// Zero with the sign of `x`.
pub open spec fn signed_zero(x: u32) -> u32 {
    from_fields(sign_field(x), 0, 0)
}

/// Infinity with the sign of `x`.
pub open spec fn signed_infinity(x: u32) -> u32 {
    from_fields(sign_field(x), 255, 0)
}

/// The integer significand of a finite `x`: the fraction, with the implicit
/// leading bit added when `x` is normal. Its magnitude is this times
/// 2^(e - 150), where e is the exponent field, or 1 for a subnormal.
pub open spec fn significand(x: u32) -> nat {
    if exponent_field(x) == 0 {
        fraction_field(x) as nat
    } else {
        (fraction_field(x) + IMPLICIT_BIT) as nat
    }
}

/// Each field of a composed pattern reads back as it was given.
pub proof fn lemma_from_fields(s: u32, e: u32, f: u32)
    by (bit_vector)
    requires
        s <= 1,
        e <= 255,
        f < 0x80_0000,
    ensures
        sign_field(from_fields(s, e, f)) == s,
        exponent_field(from_fields(s, e, f)) == e,
        fraction_field(from_fields(s, e, f)) == f,
{
}

/// A pattern is composed of its own fields.
pub proof fn lemma_fields_compose(x: u32)
    by (bit_vector)
    ensures
        x == from_fields(sign_field(x), exponent_field(x), fraction_field(x)),
        sign_field(x) <= 1,
        exponent_field(x) <= 255,
        fraction_field(x) < 0x80_0000,
{
}

/// Whether the magnitude pattern `hx` (sign bit clear) is zero.
pub fn uword_is_zero(hx: u32) -> (r: bool)
    requires
        sign_field(hx) == 0,
    ensures
        r == is_zero(hx),
{
    proof {
        assert(hx >> 31 == 0 ==> (hx == 0 <==> ((hx >> 23) & 0xff == 0 && hx & 0x7f_ffff == 0)))
            by (bit_vector);
    }
    hx == 0
}

/// Whether the magnitude pattern `hx` (sign bit clear) is finite, that is,
/// neither infinite nor NaN.
pub fn uword_is_finite(hx: u32) -> (r: bool)
    requires
        sign_field(hx) == 0,
    ensures
        r == is_finite(hx),
{
    proof {
        assert(hx >> 31 == 0 ==> (hx < 0x7f80_0000 <==> (hx >> 23) & 0xff < 255)) by (bit_vector);
    }
    hx < EXPONENT_MASK
}

/// Whether the magnitude pattern `hx` (sign bit clear) has a zero exponent
/// field: a subnormal value, or zero.
pub fn uword_is_subnormal(hx: u32) -> (r: bool)
    requires
        sign_field(hx) == 0,
    ensures
        r == (exponent_field(hx) == 0),
        r == (is_subnormal(hx) || is_zero(hx)),
{
    proof {
        assert(hx >> 31 == 0 ==> (hx < 0x0080_0000 <==> (hx >> 23) & 0xff == 0)) by (bit_vector);
    }
    hx < IMPLICIT_BIT
}

/// The magnitude of `mag` with the sign of `sgn`.
pub fn copysign(mag: u32, sgn: u32) -> (r: u32)
    ensures
        r == from_fields(sign_field(sgn), exponent_field(mag), fraction_field(mag)),
        sign_field(r) == sign_field(sgn),
        exponent_field(r) == exponent_field(mag),
        fraction_field(r) == fraction_field(mag),
{
    let r = (mag & MAGNITUDE_MASK) | (sgn & SIGN_MASK);
    proof {
        assert(r == (mag & 0x7fff_ffff) | (sgn & 0x8000_0000) ==> {
            &&& r == ((sgn >> 31) << 31) | (((mag >> 23) & 0xff) << 23) | (mag & 0x7f_ffff)
            &&& r >> 31 == sgn >> 31
            &&& (r >> 23) & 0xff == (mag >> 23) & 0xff
            &&& r & 0x7f_ffff == mag & 0x7f_ffff
        }) by (bit_vector);
    }
    r
}

} // verus!
