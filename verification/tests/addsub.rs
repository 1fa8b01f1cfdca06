use bitfloat::fenv::{FloatingPointEnv, RoundingMode};
use bitfloat::floats::{Float, FloatClass, FloatParameters};
use bitfloat::ops::{AddSub, Exception};
use bitfloat::str_conv::float_to_exact_str;

fn env(mode: RoundingMode) -> FloatingPointEnv {
    FloatingPointEnv { rounding_mode: mode, flush_subnormals_to_zero: false }
}

fn no_flags() -> Exception {
    Exception {
        invalid_operation: false,
        division_by_zero: false,
        overflow: false,
        underflow: false,
        inexact: false,
    }
}

fn bits_of(f: &Float) -> u64 {
    let p = f.params().clone();
    let mut v: u64 = 0;
    let sig = f.significand_bits();
    for i in 0..sig.len() {
        if sig[i] {
            v |= 1u64 << i;
        }
    }
    v |= f.exponent_bits_integer() << p.sig_bits;
    if f.sign() {
        v |= 1u64 << (p.sig_bits + p.exp_bits);
    }
    v
}

// the binary32-equivalent layout built from explicit widths
fn custom32() -> FloatParameters {
    FloatParameters { exp_bits: 8, exp_bias: 127, sig_bits: 23 }
}

fn cf(bits: u64) -> Float {
    Float::from_u64_pattern(&custom32(), bits)
}

#[test]
fn one_plus_one_is_exactly_two() {
    let p = custom32();
    let one = cf("1.0".parse::<f32>().unwrap().to_bits() as u64);
    let (r, exc) = AddSub(false).execute(&env(RoundingMode::TiesToEven), &one, &one, &p);
    assert_eq!(float_to_exact_str(&r), "2");
    assert_eq!(bits_of(&r) as u32, "2.0".parse::<f32>().unwrap().to_bits());
    assert_eq!(exc, no_flags());
}

#[test]
fn infinity_plus_finite_is_infinity() {
    let p = custom32();
    let inf = Float::parse("0x7F800000", &p).unwrap();
    let one = cf(0x3F800000);
    let (r, exc) = AddSub(false).execute(&env(RoundingMode::TiesToEven), &inf, &one, &p);
    assert_eq!(r.classify(), FloatClass::PositiveInf);
    assert_eq!(exc, no_flags());
}

#[test]
fn nan_operand_propagates_with_invalid_flag() {
    let p = custom32();
    let qnan = Float::parse("0x7FC00000", &p).unwrap();
    let one = cf(0x3F800000);
    let (r, exc) = AddSub(false).execute(&env(RoundingMode::TiesToEven), &qnan, &one, &p);
    assert!(r.classify().nan());
    assert!(exc.invalid_operation);
    assert!(!exc.overflow && !exc.underflow && !exc.inexact && !exc.division_by_zero);
}

#[test]
fn signalling_nan_also_propagates() {
    let p = custom32();
    let snan = cf(0x7F800001);
    let one = cf(0x3F800000);
    let (r, exc) = AddSub(false).execute(&env(RoundingMode::TiesToEven), &snan, &one, &p);
    assert!(r.classify().nan());
    assert!(exc.invalid_operation);
}

#[test]
fn infinity_minus_infinity_is_invalid() {
    let p = custom32();
    let inf = cf(0x7F800000);
    let (r, exc) = AddSub(true).execute(&env(RoundingMode::TiesToEven), &inf, &inf, &p);
    assert!(r.classify().nan());
    assert!(exc.invalid_operation);
}

#[test]
fn negative_infinity_plus_finite_keeps_its_sign() {
    let p = custom32();
    let ninf = cf(0xFF800000);
    let one = cf(0x3F800000);
    let (r, exc) = AddSub(false).execute(&env(RoundingMode::TiesToEven), &ninf, &one, &p);
    assert_eq!(r.classify(), FloatClass::NegativeInf);
    assert_eq!(exc, no_flags());
}

#[test]
fn an_infinite_operand_fixes_the_result_with_its_own_sign() {
    // the infinite operand's sign carries through, whichever side it sits on
    let p = custom32();
    let inf = cf(0x7F800000);
    let one = cf(0x3F800000);
    let (r, exc) = AddSub(true).execute(&env(RoundingMode::TiesToEven), &one, &inf, &p);
    assert!(r.classify().inf());
    assert!(!r.sign());
    assert_eq!(exc, no_flags());
}

#[test]
fn same_signed_infinities_add_to_themselves() {
    let p = custom32();
    let inf = cf(0x7F800000);
    let (r, exc) = AddSub(false).execute(&env(RoundingMode::TiesToEven), &inf, &inf, &p);
    assert_eq!(r.classify(), FloatClass::PositiveInf);
    assert_eq!(exc, no_flags());
}

#[test]
fn largest_finite_plus_itself_overflows_to_infinity() {
    let p = custom32();
    let max = cf(0x7F7FFFFF);
    let (r, exc) = AddSub(false).execute(&env(RoundingMode::TiesToEven), &max, &max, &p);
    assert_eq!(r.classify(), FloatClass::PositiveInf);
    assert!(exc.overflow);
    assert!(exc.inexact);
    assert!(!exc.invalid_operation && !exc.underflow);
}

#[test]
fn tiny_difference_encodes_as_exact_subnormal() {
    let p = custom32();
    // the smallest normal minus the value one quantum above it
    let a = cf(0x00800000);
    let b = cf(0x00800001);
    let (r, exc) = AddSub(true).execute(&env(RoundingMode::TiesToEven), &a, &b, &p);
    assert_eq!(r.classify(), FloatClass::NegativeSubnormal);
    assert_eq!(bits_of(&r), 0x80000001);
    assert_eq!(exc, no_flags());
}

#[test]
fn subnormal_sum_carries_into_smallest_normal() {
    let p = custom32();
    let a = cf(0x00400000);
    let (r, exc) = AddSub(false).execute(&env(RoundingMode::TiesToEven), &a, &a, &p);
    assert_eq!(bits_of(&r), 0x00800000);
    assert_eq!(r.classify(), FloatClass::PositiveNormal);
    assert_eq!(exc, no_flags());
}

#[test]
fn addition_is_commutative_on_patterns() {
    let p = custom32();
    let cases = [
        (0x3F800000u64, 0x40490FDBu64),
        (0x00000001, 0x3F800000),
        (0xBF800000, 0x3F800000),
        (0x00800001, 0x80800000),
    ];
    for (x, y) in cases {
        let a = cf(x);
        let b = cf(y);
        let (r1, e1) = AddSub(false).execute(&env(RoundingMode::TiesToEven), &a, &b, &p);
        let (r2, e2) = AddSub(false).execute(&env(RoundingMode::TiesToEven), &b, &a, &p);
        assert_eq!(bits_of(&r1), bits_of(&r2));
        assert_eq!(e1, e2);
    }
}

#[test]
fn adding_positive_zero_returns_the_operand() {
    let p = custom32();
    let zero = cf(0x00000000);
    for bits in [0x3F800000u64, 0x00000001, 0xC0490FDB, 0x00800000] {
        let a = cf(bits);
        let (r, exc) = AddSub(false).execute(&env(RoundingMode::TiesToEven), &a, &zero, &p);
        assert_eq!(bits_of(&r), bits);
        assert_eq!(exc, no_flags());
    }
}

#[test]
fn equal_magnitudes_cancel_to_positive_zero() {
    let p = custom32();
    let a = cf(0x40490FDB);
    let b = cf(0xC0490FDB);
    let (r, exc) = AddSub(false).execute(&env(RoundingMode::TiesToEven), &a, &b, &p);
    assert_eq!(r.classify(), FloatClass::PositiveZero);
    assert_eq!(exc, no_flags());
    // under the mode that rounds toward negative, the exact zero is negative
    let (rn, excn) = AddSub(false).execute(&env(RoundingMode::TowardNegative), &a, &b, &p);
    assert_eq!(rn.classify(), FloatClass::NegativeZero);
    assert_eq!(excn, no_flags());
}

#[test]
fn zero_operand_signs_follow_ieee() {
    let p = custom32();
    let pz = cf(0x00000000);
    let nz = cf(0x80000000);
    let te = env(RoundingMode::TiesToEven);
    let (r1, _) = AddSub(false).execute(&te, &pz, &pz, &p);
    assert_eq!(r1.classify(), FloatClass::PositiveZero);
    let (r2, _) = AddSub(false).execute(&te, &nz, &nz, &p);
    assert_eq!(r2.classify(), FloatClass::NegativeZero);
    let (r3, _) = AddSub(false).execute(&te, &pz, &nz, &p);
    assert_eq!(r3.classify(), FloatClass::PositiveZero);
    let (r4, _) = AddSub(false).execute(&env(RoundingMode::TowardNegative), &pz, &nz, &p);
    assert_eq!(r4.classify(), FloatClass::NegativeZero);
}

#[test]
fn explain_variant_agrees_with_execute() {
    let p = custom32();
    let cases = [
        (0x3F800000u64, 0x3F800000u64, false),
        (0x7F800000, 0x3F800000, false),
        (0x7F7FFFFF, 0x7F7FFFFF, false),
        (0x00800000, 0x00800001, true),
        (0x40490FDB, 0xC0490FDB, false),
    ];
    for (x, y, sub) in cases {
        let a = cf(x);
        let b = cf(y);
        let (r1, e1) = AddSub(sub).execute(&env(RoundingMode::TiesToEven), &a, &b, &p);
        let (r2, e2, trace) = AddSub(sub).execute_explain(&env(RoundingMode::TiesToEven), &a, &b, &p);
        assert_eq!(bits_of(&r1), bits_of(&r2));
        assert_eq!(e1, e2);
        assert!(trace.len() >= 2);
    }
}

#[test]
fn output_format_may_differ_from_the_operands() {
    // a small binary64 value forced into binary32 collapses to zero with
    // underflow and inexact
    let p64 = FloatParameters::binary64();
    let p32 = FloatParameters::binary32();
    let tiny = Float::from_u64_pattern(&p64, 1e-300f64.to_bits());
    let zero = Float::zero(&p64);
    let (r, exc) = AddSub(false).execute(&env(RoundingMode::TiesToEven), &tiny, &zero, &p32);
    assert_eq!(r.classify(), FloatClass::PositiveZero);
    assert!(exc.underflow);
    assert!(exc.inexact);
}

#[test]
fn num_params_is_two() {
    assert_eq!(AddSub(false).num_params(), 2);
    assert_eq!(AddSub(true).num_params(), 2);
}

#[test]
fn exception_union_accumulates_flags() {
    let a = Exception { invalid_operation: true, ..Exception::none() };
    let b = Exception { inexact: true, ..Exception::none() };
    let u = a.union(b);
    assert!(u.invalid_operation && u.inexact);
    assert!(!u.overflow && !u.underflow && !u.division_by_zero);
    assert_eq!(Exception::default(), Exception::none());
}
