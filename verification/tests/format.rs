use bitfloat::floats::{ConfigurationError, FloatParameters};

#[test]
fn parse_recognizes_ieee_names() {
    assert_eq!(
        FloatParameters::parse("float"),
        Some(FloatParameters { exp_bits: 8, exp_bias: 127, sig_bits: 23 })
    );
    assert_eq!(
        FloatParameters::parse("f32"),
        Some(FloatParameters { exp_bits: 8, exp_bias: 127, sig_bits: 23 })
    );
    assert_eq!(
        FloatParameters::parse("double"),
        Some(FloatParameters { exp_bits: 11, exp_bias: 1023, sig_bits: 52 })
    );
    assert_eq!(
        FloatParameters::parse("f64"),
        Some(FloatParameters { exp_bits: 11, exp_bias: 1023, sig_bits: 52 })
    );
}

#[test]
fn parse_rejects_other_names() {
    assert_eq!(FloatParameters::parse("half"), None);
    assert_eq!(FloatParameters::parse(""), None);
    assert_eq!(FloatParameters::parse("FLOAT"), None);
    assert_eq!(FloatParameters::parse("f128"), None);
}

#[test]
fn validate_accepts_ieee_formats() {
    assert!(FloatParameters::binary32().validate().is_ok());
    assert!(FloatParameters::binary64().validate().is_ok());
    let custom = FloatParameters { exp_bits: 5, exp_bias: 15, sig_bits: 10 };
    assert!(custom.validate().is_ok());
}

#[test]
fn validate_rejects_zero_exponent_width() {
    let p = FloatParameters { exp_bits: 0, exp_bias: 0, sig_bits: 23 };
    assert_eq!(p.validate(), Err(ConfigurationError::ExponentWidthZero));
}

#[test]
fn validate_rejects_wide_exponent() {
    let p = FloatParameters { exp_bits: 64, exp_bias: 127, sig_bits: 23 };
    assert_eq!(p.validate(), Err(ConfigurationError::ExponentWidthTooLarge));
}

#[test]
fn validate_rejects_large_bias() {
    let p = FloatParameters { exp_bits: 8, exp_bias: 256, sig_bits: 23 };
    assert_eq!(p.validate(), Err(ConfigurationError::ExponentBiasTooLarge));
    let ok = FloatParameters { exp_bits: 8, exp_bias: 255, sig_bits: 23 };
    assert!(ok.validate().is_ok());
}

#[test]
fn validate_rejects_zero_significand_width() {
    let p = FloatParameters { exp_bits: 8, exp_bias: 127, sig_bits: 0 };
    assert_eq!(p.validate(), Err(ConfigurationError::SignificandWidthZero));
}

#[test]
fn validate_rejects_huge_significand_width() {
    let p = FloatParameters { exp_bits: 8, exp_bias: 127, sig_bits: 1usize << 63 };
    assert_eq!(p.validate(), Err(ConfigurationError::SignificandWidthTooLarge));
}

#[test]
fn derived_quantities_match_ieee() {
    let f32p = FloatParameters::binary32();
    assert_eq!(f32p.total_length(), 32);
    assert_eq!(f32p.max_exp(), 127);
    assert_eq!(f32p.min_exp(), -126);
    let f64p = FloatParameters::binary64();
    assert_eq!(f64p.total_length(), 64);
    assert_eq!(f64p.max_exp(), 1023);
    assert_eq!(f64p.min_exp(), -1022);
}
