use bitfloat::floats::{Float, FloatClass, FloatParameters};

fn f32_pattern(bits: u64) -> Float {
    Float::from_u64_pattern(&FloatParameters::binary32(), bits)
}

#[test]
fn classify_covers_all_ten_classes() {
    assert_eq!(f32_pattern(0x7F800000).classify(), FloatClass::PositiveInf);
    assert_eq!(f32_pattern(0xFF800000).classify(), FloatClass::NegativeInf);
    assert_eq!(f32_pattern(0x3F800000).classify(), FloatClass::PositiveNormal);
    assert_eq!(f32_pattern(0xBF800000).classify(), FloatClass::NegativeNormal);
    assert_eq!(f32_pattern(0x00000001).classify(), FloatClass::PositiveSubnormal);
    assert_eq!(f32_pattern(0x807FFFFF).classify(), FloatClass::NegativeSubnormal);
    assert_eq!(f32_pattern(0x00000000).classify(), FloatClass::PositiveZero);
    assert_eq!(f32_pattern(0x80000000).classify(), FloatClass::NegativeZero);
    assert_eq!(f32_pattern(0x7FC00000).classify(), FloatClass::QuietNaN);
    assert_eq!(f32_pattern(0x7F800001).classify(), FloatClass::SignallingNaN);
}

#[test]
fn class_predicates_partition() {
    for bits in [
        0x7F800000u64,
        0xFF800000,
        0x3F800000,
        0xBF800000,
        0x00000001,
        0x807FFFFF,
        0x00000000,
        0x80000000,
        0x7FC00000,
        0x7F800001,
        0x40490FDB,
        0x00800000,
    ] {
        let c = f32_pattern(bits).classify();
        let count = [c.zero(), c.subnormal(), c.normal(), c.inf(), c.nan()]
            .iter()
            .filter(|&&x| x)
            .count();
        assert_eq!(count, 1);
        assert_eq!(c.finite(), c.zero() || c.subnormal() || c.normal());
        if c.nan() {
            assert!(!c.positive() && !c.negative());
        } else {
            assert!(c.positive() != c.negative());
        }
    }
}

#[test]
fn all_ones_significand_top_bit_is_quiet_nan() {
    // the canonical NaN constructor sets every bit, so the top significand
    // bit is set and the pattern must classify quiet
    let nan = Float::nan(&FloatParameters::binary32());
    assert_eq!(nan.classify(), FloatClass::QuietNaN);
    assert!(nan.classify().nan());
}

#[test]
fn flush_subnormals_collapses_only_subnormals() {
    let sub = f32_pattern(0x80000001);
    let flushed = sub.flush_subnormals();
    assert_eq!(flushed.classify(), FloatClass::NegativeZero);
    assert!(flushed.sign());
    let normal = f32_pattern(0x3F800000);
    let kept = normal.flush_subnormals();
    assert_eq!(kept.classify(), FloatClass::PositiveNormal);
    assert_eq!(kept.exponent_bits_integer(), 127);
}

#[test]
fn logical_exponent_pins_subnormals_to_min_exp() {
    let sub = f32_pattern(0x00000001);
    assert_eq!(sub.exponent_logical(), -126);
    let zero = f32_pattern(0x00000000);
    assert_eq!(zero.exponent_logical(), -126);
    let one = f32_pattern(0x3F800000);
    assert_eq!(one.exponent_logical(), 0);
    let two = f32_pattern(0x40000000);
    assert_eq!(two.exponent_logical(), 1);
}

#[test]
fn logical_significand_carries_the_implicit_bit() {
    let one = f32_pattern(0x3F800000);
    let sig = one.significand_logical();
    assert_eq!(sig.len(), 24);
    assert!(sig[23]);
    assert!(sig[..23].iter().all(|&b| !b));
    let sub = f32_pattern(0x00000001);
    let ssig = sub.significand_logical();
    assert_eq!(ssig.len(), 24);
    assert!(!ssig[23]);
    assert!(ssig[0]);
}
