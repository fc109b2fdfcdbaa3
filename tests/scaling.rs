use scalbn::binary32::{copysign, uword_is_finite, uword_is_subnormal, uword_is_zero};
use scalbn::rounding::round_shift;
use scalbn::scale::scalbnf;

fn scale(x: f32, n: i32) -> f32 {
    f32::from_bits(scalbnf(x.to_bits(), n))
}

fn same(a: f32, b: f32) -> bool {
    a.to_bits() == b.to_bits()
}

const SHIFTS: [i32; 11] = [i32::MIN, -50001, -1000, -149, -1, 0, 1, 149, 1000, 50001, i32::MAX];

#[test]
fn concrete_vectors() {
    assert!(same(scale(1.0, 1), 2.0));
    assert!(same(scale(1.0, -1), 0.5));
    assert!(same(scale(1.5, 10), 1536.0));
    let tiny = f32::from_bits(1);
    assert_eq!(scale(tiny, 1).to_bits(), 2);
    assert_eq!(scale(tiny, 1), tiny * 2.0);
    assert!(same(scale(1.0, 1000), f32::INFINITY));
    assert!(same(scale(1.0, -1000), 0.0));
}

#[test]
fn zero_keeps_its_sign() {
    for n in SHIFTS {
        assert!(same(scale(0.0, n), 0.0));
        assert!(same(scale(-0.0, n), -0.0));
    }
}

#[test]
fn shift_by_zero_is_identity() {
    let xs: [u32; 8] = [1, 0x0000_0003, 0x007f_ffff, 0x0080_0000, 0x3f80_0000, 0x7f7f_ffff, 0x8000_0001, 0xc2f6_e979];
    for b in xs {
        assert_eq!(scalbnf(b, 0), b);
    }
}

#[test]
fn nan_stays_nan() {
    for n in SHIFTS {
        assert!(scale(f32::NAN, n).is_nan());
        assert!(scale(-f32::NAN, n).is_nan());
        assert!(f32::from_bits(scalbnf(0x7f80_0001, n)).is_nan());
    }
    // a signalling NaN comes back quiet, with its payload
    assert_eq!(scalbnf(0x7f80_0001, 3), 0x7fc0_0001);
}

#[test]
fn infinity_keeps_its_sign() {
    for n in SHIFTS {
        assert!(same(scale(f32::INFINITY, n), f32::INFINITY));
        assert!(same(scale(f32::NEG_INFINITY, n), f32::NEG_INFINITY));
    }
}

#[test]
fn normal_exponent_moves_exactly() {
    let x: f32 = -3.25;
    let r = scale(x, 20);
    assert!(same(r, -3_407_872.0));
    assert_eq!(r.to_bits() & 0x807f_ffff, x.to_bits() & 0x807f_ffff);
    assert_eq!((r.to_bits() >> 23) & 0xff, ((x.to_bits() >> 23) & 0xff) + 20);
    // from the smallest normal exponent to the largest
    assert_eq!(scalbnf(0x0080_0000, 253), 0x7f00_0000);
    assert_eq!(scalbnf(0x7f7f_ffff, -253), 0x00ff_ffff);
}

#[test]
fn large_shift_overflows_to_signed_infinity() {
    assert!(same(scale(-1.0, 128), f32::NEG_INFINITY));
    assert!(same(scale(1.0, 127), 1.7014118e38));
    assert!(same(scale(1.0, 128), f32::INFINITY));
    assert!(same(scale(f32::MAX, 1), f32::INFINITY));
    assert!(same(scale(f32::from_bits(1), i32::MAX), f32::INFINITY));
    assert!(same(scale(-f32::from_bits(1), 50001), f32::NEG_INFINITY));
    assert!(same(scale(-2.5, i32::MAX), f32::NEG_INFINITY));
}

#[test]
fn small_shift_underflows_to_signed_zero() {
    assert!(same(scale(-1.0, -200), -0.0));
    assert!(same(scale(1.0, -150), 0.0));
    assert!(same(scale(f32::MAX, i32::MIN), 0.0));
    assert!(same(scale(-f32::from_bits(1), i32::MIN), -0.0));
    assert!(same(scale(f32::from_bits(1), -50001), 0.0));
    assert!(same(scale(f32::from_bits(1), -1), 0.0));
    // exactly half the smallest subnormal: a tie, to the even zero
    assert_eq!(scalbnf(0x3f80_0000, -150), 0);
    assert_eq!(scalbnf(0xbf80_0000, -150), 0x8000_0000);
    // just under half the smallest subnormal
    assert_eq!(scalbnf(0x3fff_ffff, -151), 0);
}

#[test]
fn subnormal_results_round_half_to_even() {
    assert_eq!(scalbnf(3, -1), 2);
    assert_eq!(scalbnf(5, -1), 2);
    assert_eq!(scalbnf(7, -1), 4);
    assert_eq!(scalbnf(0x8000_0007, -1), 0x8000_0004);
    assert_eq!(scalbnf(0x3f80_0000, -149), 1);
    assert_eq!(scalbnf(0x3fc0_0000, -149), 2);
    // between half the smallest subnormal and the smallest: rounds up to it
    assert_eq!(scalbnf(0x00c0_0000, -24), 1);
    assert_eq!(scalbnf(0x80c0_0000, -24), 0x8000_0001);
    assert_eq!(scalbnf(0x3f40_0000, -149), 1);
    assert_eq!(scalbnf(0x3f80_0001, -150), 1);
    // rounding up into the smallest normal
    assert_eq!(scalbnf(0x00ff_ffff, -1), 0x0080_0000);
    // a subnormal input grows into the normal range
    assert_eq!(scalbnf(0x0000_0001, 23), 0x0080_0000);
    assert_eq!(scalbnf(0x0040_0000, 1), 0x0080_0000);
}

#[test]
fn agrees_with_hardware_arithmetic() {
    let mut state: u64 = 0x9e37_79b9_7f4a_7c15;
    for _ in 0..200_000 {
        state = state.wrapping_mul(6_364_136_223_846_793_005).wrapping_add(1_442_695_040_888_963_407);
        let bits = (state >> 32) as u32;
        let n = ((state >> 8) % 601) as i32 - 300;
        let x = f32::from_bits(bits);
        if x.is_nan() {
            continue;
        }
        let exact = x as f64 * 2f64.powi(n);
        let expected = exact as f32;
        assert_eq!(scalbnf(bits, n), expected.to_bits(), "x = {:#x}, n = {}", bits, n);
    }
}

#[test]
fn bit_predicates() {
    assert!(uword_is_zero(0));
    assert!(!uword_is_zero(1));
    assert!(uword_is_finite(0x7f7f_ffff));
    assert!(!uword_is_finite(0x7f80_0000));
    assert!(!uword_is_finite(0x7fc0_0000));
    assert!(uword_is_subnormal(0x007f_ffff));
    assert!(uword_is_subnormal(0));
    assert!(!uword_is_subnormal(0x0080_0000));
}

#[test]
fn copysign_takes_sign_only() {
    assert_eq!(copysign(0x3f80_0000, 0x8000_0000), 0xbf80_0000);
    assert_eq!(copysign(0xbf80_0000, 0x4000_0000), 0x3f80_0000);
    assert_eq!(copysign(0x7f80_0000, 0xc000_0000), 0xff80_0000);
}

#[test]
fn round_shift_values() {
    assert_eq!(round_shift(0x0080_0000, 23), 1);
    assert_eq!(round_shift(0x00c0_0000, 24), 1);
    assert_eq!(round_shift(0x0040_0000, 23), 0);
    assert_eq!(round_shift(0x00ff_ffff, 1), 0x0080_0000);
    assert_eq!(round_shift(10, 2), 2);
    assert_eq!(round_shift(11, 2), 3);
    assert_eq!(round_shift(14, 2), 4);
}
