//! Division by a power of two, rounded to nearest with ties to even: the
//! rounding that a binary32 result in the subnormal range receives.
use vstd::arithmetic::div_mod::lemma_fundamental_div_mod;
use vstd::arithmetic::power2::{lemma_pow2_pos, lemma_pow2_unfold, pow2};
use vstd::bits::{lemma_u32_pow2_no_overflow, lemma_u32_shl_is_mul};
use vstd::prelude::*;

verus! {

/// m / 2^s rounded to the nearest integer; a tie goes to the even one.
pub open spec fn round_half_even(m: nat, s: nat) -> nat {
    let p = pow2(s);
    let q = m / p;
    let rem = m % p;
    if 2 * rem > p || (2 * rem == p && q % 2 == 1) {
        q + 1
    } else {
        q
    }
}

/// `m` shifted right by `s` bits, rounded to nearest with ties to even.
pub fn round_shift(m: u32, s: u32) -> (r: u32)
    requires
        1 <= s < 32,
    ensures
        r == round_half_even(m as nat, s as nat),
{
    proof {
        lemma_u32_pow2_no_overflow(s as nat);
        lemma_u32_shl_is_mul(1, s);
        lemma_pow2_unfold(s as nat);
        lemma_pow2_pos((s - 1) as nat);
    }
    let p: u32 = 1u32 << s;
    let q: u32 = m / p;
    proof {
        lemma_fundamental_div_mod(m as int, p as int);
        assert(2 * q <= p * q) by (nonlinear_arith)
            requires
                p >= 2,
        ;
    }
    let rem: u32 = m % p;
    let half: u32 = p / 2;
    if rem > half || (rem == half && q % 2 == 1) {
        q + 1
    } else {
        q
    }
}

/// The rounded quotient is a nearest multiple: `r * 2^s` lies within half of
/// 2^s of `m`.
pub proof fn round_half_even_is_nearest(m: nat, s: nat)
    requires
        s >= 1,
    ensures
        ({
            let r = round_half_even(m, s) as int;
            let p = pow2(s) as int;
            2 * (r * p - m) <= p && 2 * (m - r * p) <= p
        }),
{
    let p = pow2(s) as int;
    lemma_pow2_pos(s);
    lemma_pow2_unfold(s);
    lemma_fundamental_div_mod(m as int, p);
    let q = m as int / p;
    let rem = m as int % p;
    assert((q + 1) * p == q * p + p) by (nonlinear_arith);
    assert(p * q == q * p) by (nonlinear_arith);
}

/// Rounding up adds at most one to the quotient, which is at most half of `m`.
pub proof fn round_half_even_bound(m: nat, s: nat)
    requires
        s >= 1,
    ensures
        2 * round_half_even(m, s) <= m + 2,
{
    let p = pow2(s) as int;
    lemma_pow2_pos((s - 1) as nat);
    lemma_pow2_unfold(s);
    lemma_fundamental_div_mod(m as int, p);
    let q = m as int / p;
    assert(2 * q <= p * q) by (nonlinear_arith)
        requires
            p >= 2,
            q >= 0,
    ;
}

/// Rounding is exact on multiples of 2^s.
pub proof fn round_half_even_exact(a: nat, s: nat)
    ensures
        round_half_even(a * pow2(s), s) == a,
{
    let p = pow2(s);
    lemma_pow2_pos(s);
    vstd::arithmetic::div_mod::lemma_div_multiples_vanish(a as int, p as int);
    vstd::arithmetic::div_mod::lemma_mod_multiples_basic(a as int, p as int);
    assert(a * p == p * a) by (nonlinear_arith);
}

} // verus!
