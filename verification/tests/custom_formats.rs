use bitfloat::fenv::{FloatingPointEnv, RoundingMode};
use bitfloat::floats::{Float, FloatClass, FloatParameters};
use bitfloat::ops::AddSub;
use bitfloat::str_conv::float_to_exact_str;

fn tenv() -> FloatingPointEnv {
    FloatingPointEnv { rounding_mode: RoundingMode::TiesToEven, flush_subnormals_to_zero: false }
}

fn word_of(f: &Float) -> u64 {
    let p = f.params().clone();
    let mut v: u64 = 0;
    let sig = f.significand_bits();
    for i in 0..sig.len() {
        if sig[i] {
            v |= 1u64 << i;
        }
    }
    v |= f.exponent_bits_integer() << p.sig_bits;
    if f.sign() {
        v |= 1u64 << (p.sig_bits + p.exp_bits);
    }
    v
}

// an IEEE binary16-like layout: 5 exponent bits biased by 15, 10 stored
// significand bits
fn half() -> FloatParameters {
    FloatParameters { exp_bits: 5, exp_bias: 15, sig_bits: 10 }
}

#[test]
fn half_precision_one_plus_one_is_two() {
    let p = half();
    assert!(p.validate().is_ok());
    let one = Float::parse("0x3C00", &p).unwrap();
    assert_eq!(one.classify(), FloatClass::PositiveNormal);
    assert_eq!(float_to_exact_str(&one), "1");
    let (r, exc) = AddSub(false).execute(&tenv(), &one, &one, &p);
    assert_eq!(word_of(&r), 0x4000);
    assert_eq!(float_to_exact_str(&r), "2");
    assert!(!exc.inexact && !exc.overflow && !exc.underflow && !exc.invalid_operation);
}

#[test]
fn half_precision_rounds_a_discarded_bit() {
    let p = half();
    // 2048 + 1: the unit is below half precision's 11-bit significand
    let big = Float::parse("0x6800", &p).unwrap(); // 2^11
    let one = Float::parse("0x3C00", &p).unwrap();
    assert_eq!(float_to_exact_str(&big), "2048");
    let (r, exc) = AddSub(false).execute(&tenv(), &big, &one, &p);
    // the exact 2049 sits halfway and ties back to the even 2048
    assert_eq!(word_of(&r), 0x6800);
    assert!(exc.inexact);
}

#[test]
fn half_precision_overflow_boundary() {
    let p = half();
    let max = Float::parse("0x7BFF", &p).unwrap();
    assert_eq!(float_to_exact_str(&max), "65504");
    let (r, exc) = AddSub(false).execute(&tenv(), &max, &max, &p);
    assert_eq!(r.classify(), FloatClass::PositiveInf);
    assert!(exc.overflow && exc.inexact);
}

#[test]
fn one_bit_exponent_field_has_no_normals() {
    // with a one-bit exponent field, every pattern is zero, subnormal,
    // infinite or NaN; min_exp exceeds max_exp
    let p = FloatParameters { exp_bits: 1, exp_bias: 0, sig_bits: 3 };
    assert!(p.validate().is_ok());
    assert_eq!(p.min_exp(), 1);
    assert_eq!(p.max_exp(), 0);
    let a = Float::parse("0b00100", &p).unwrap();
    assert_eq!(a.classify(), FloatClass::PositiveSubnormal);
    assert_eq!(a.exponent_logical(), 1);
    // the pattern denotes 4 * 2^(1 - 3), exactly one
    assert_eq!(float_to_exact_str(&a), "1");
    // one plus one cannot be represented: every nonzero sum at or above
    // 2^min_exp overflows straight to infinity
    let (r, exc) = AddSub(false).execute(&tenv(), &a, &a, &p);
    assert_eq!(r.classify(), FloatClass::PositiveInf);
    assert!(exc.overflow && exc.inexact);
}

#[test]
fn wide_significand_format_keeps_exact_sums() {
    // an asymmetric layout: 3 exponent bits, 40 significand bits
    let p = FloatParameters { exp_bits: 3, exp_bias: 3, sig_bits: 40 };
    assert!(p.validate().is_ok());
    let mut one = String::from("0b");
    one.push_str("011");
    one.push_str(&"0".repeat(40));
    let f = Float::parse(&one, &p).unwrap();
    assert_eq!(f.classify(), FloatClass::PositiveNormal);
    assert_eq!(float_to_exact_str(&f), "1");
    let (r, exc) = AddSub(false).execute(&tenv(), &f, &f, &p);
    assert_eq!(float_to_exact_str(&r), "2");
    assert!(!exc.inexact);
}
