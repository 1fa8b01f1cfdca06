use bitfloat::fenv::{FloatingPointEnv, RoundingMode};
use bitfloat::floats::{Float, FloatParameters};
use bitfloat::ops::AddSub;

fn menv(mode: RoundingMode) -> FloatingPointEnv {
    FloatingPointEnv { rounding_mode: mode, flush_subnormals_to_zero: false }
}

fn upat(f: &Float) -> u64 {
    let p = f.params().clone();
    let mut v: u64 = 0;
    let sig = f.significand_bits();
    for i in 0..sig.len() {
        if sig[i] {
            v |= 1u64 << i;
        }
    }
    v |= f.exponent_bits_integer() << p.sig_bits;
    if f.sign() {
        v |= 1u64 << (p.sig_bits + p.exp_bits);
    }
    v
}

fn f32v(bits: u64) -> Float {
    Float::from_u64_pattern(&FloatParameters::binary32(), bits)
}

#[test]
fn halfway_ties_go_to_the_even_significand() {
    // 1.0 + 2^-24 sits exactly between 1.0 and the next value up
    let p = FloatParameters::binary32();
    let one = f32v(0x3F800000);
    let half_ulp = f32v(0x33800000);
    let (r, exc) = AddSub(false).execute(&menv(RoundingMode::TiesToEven), &one, &half_ulp, &p);
    assert_eq!(upat(&r), 0x3F800000);
    assert!(exc.inexact);
    assert!(!exc.underflow && !exc.overflow);
}

#[test]
fn halfway_ties_to_away_round_up_in_magnitude() {
    let p = FloatParameters::binary32();
    let one = f32v(0x3F800000);
    let half_ulp = f32v(0x33800000);
    let (r, exc) = AddSub(false).execute(&menv(RoundingMode::TiesToAway), &one, &half_ulp, &p);
    assert_eq!(upat(&r), 0x3F800001);
    assert!(exc.inexact);
}

#[test]
fn toward_positive_rounds_up() {
    let p = FloatParameters::binary32();
    let one = f32v(0x3F800000);
    let half_ulp = f32v(0x33800000);
    let (r, _) = AddSub(false).execute(&menv(RoundingMode::TowardPositive), &one, &half_ulp, &p);
    assert_eq!(upat(&r), 0x3F800001);
}

#[test]
fn toward_negative_and_toward_zero_truncate_a_positive_result() {
    let p = FloatParameters::binary32();
    let one = f32v(0x3F800000);
    let half_ulp = f32v(0x33800000);
    let (r1, _) = AddSub(false).execute(&menv(RoundingMode::TowardNegative), &one, &half_ulp, &p);
    assert_eq!(upat(&r1), 0x3F800000);
    let (r2, _) = AddSub(false).execute(&menv(RoundingMode::TowardZero), &one, &half_ulp, &p);
    assert_eq!(upat(&r2), 0x3F800000);
}

#[test]
fn directed_modes_respect_a_negative_result() {
    let p = FloatParameters::binary32();
    let mone = f32v(0xBF800000);
    let half_ulp = f32v(0xB3800000);
    // exact result -(1 + 2^-24)
    let (r1, _) = AddSub(false).execute(&menv(RoundingMode::TowardNegative), &mone, &half_ulp, &p);
    assert_eq!(upat(&r1), 0xBF800001);
    let (r2, _) = AddSub(false).execute(&menv(RoundingMode::TowardPositive), &mone, &half_ulp, &p);
    assert_eq!(upat(&r2), 0xBF800000);
    let (r3, _) = AddSub(false).execute(&menv(RoundingMode::TowardZero), &mone, &half_ulp, &p);
    assert_eq!(upat(&r3), 0xBF800000);
}

#[test]
fn an_uneven_tie_rounds_to_the_odd_neighbor_up() {
    // (1 + 2^-23) + 2^-24: the tie sits between an odd and an even
    // significand, so ties-to-even moves up
    let p = FloatParameters::binary32();
    let a = f32v(0x3F800001);
    let half_ulp = f32v(0x33800000);
    let (r, _) = AddSub(false).execute(&menv(RoundingMode::TiesToEven), &a, &half_ulp, &p);
    assert_eq!(upat(&r), 0x3F800002);
}

#[test]
fn inexact_is_not_raised_for_exact_sums() {
    let p = FloatParameters::binary32();
    let a = f32v(0x3F800000);
    let b = f32v(0x40000000);
    for mode in [
        RoundingMode::TiesToEven,
        RoundingMode::TiesToAway,
        RoundingMode::TowardPositive,
        RoundingMode::TowardNegative,
        RoundingMode::TowardZero,
    ] {
        let (r, exc) = AddSub(false).execute(&menv(mode), &a, &b, &p);
        assert_eq!(upat(&r), 0x40400000, "1 + 2 must be 3 under {:?}", mode);
        assert!(!exc.inexact);
        assert!(!exc.underflow && !exc.overflow && !exc.invalid_operation);
    }
}

#[test]
fn a_sliver_above_a_value_rounds_by_direction() {
    // 1.0 + 2^-30: well below half an ulp of 1.0
    let p = FloatParameters::binary32();
    let one = f32v(0x3F800000);
    let sliver = f32v(0x30800000);
    let (r1, e1) = AddSub(false).execute(&menv(RoundingMode::TiesToEven), &one, &sliver, &p);
    assert_eq!(upat(&r1), 0x3F800000);
    assert!(e1.inexact);
    let (r2, _) = AddSub(false).execute(&menv(RoundingMode::TowardPositive), &one, &sliver, &p);
    assert_eq!(upat(&r2), 0x3F800001);
}

#[test]
fn subtraction_flag_flips_the_second_operand() {
    let p = FloatParameters::binary32();
    let three = f32v(0x40400000);
    let one = f32v(0x3F800000);
    let (r, exc) = AddSub(true).execute(&menv(RoundingMode::TiesToEven), &three, &one, &p);
    assert_eq!(upat(&r), 0x40000000);
    assert!(!exc.inexact);
}
