use bitfloat::floats::{Float, FloatParameters, FloatParseError};

fn pattern_of(f: &Float) -> u64 {
    let p = f.params().clone();
    let mut v: u64 = 0;
    let sig = f.significand_bits();
    for i in 0..sig.len() {
        if sig[i] {
            v |= 1u64 << i;
        }
    }
    v |= f.exponent_bits_integer() << p.sig_bits;
    if f.sign() {
        v |= 1u64 << (p.sig_bits + p.exp_bits);
    }
    v
}

#[test]
fn hex_literal_decodes_to_bits() {
    let p = FloatParameters::binary32();
    let f = Float::parse("0x3F800000", &p).unwrap();
    assert_eq!(pattern_of(&f), 0x3F800000);
    assert!(!f.sign());
    assert_eq!(f.exponent_bits_integer(), 127);
    let g = Float::parse("0xbf800000", &p).unwrap();
    assert_eq!(pattern_of(&g), 0xBF800000);
    assert!(g.sign());
}

#[test]
fn hex_literal_is_zero_padded_on_top() {
    let p = FloatParameters::binary32();
    let f = Float::parse("0x1", &p).unwrap();
    assert_eq!(pattern_of(&f), 1);
    let g = Float::parse("0x", &p).unwrap();
    assert_eq!(pattern_of(&g), 0);
}

#[test]
fn binary_literal_decodes_rightmost_char_as_bit_zero() {
    let p = FloatParameters::binary32();
    let f = Float::parse("0b101", &p).unwrap();
    assert_eq!(pattern_of(&f), 5);
}

#[test]
fn invalid_hex_digit_is_an_error() {
    let p = FloatParameters::binary32();
    assert_eq!(Float::parse("0x12G4", &p).unwrap_err(), FloatParseError::InvalidHexDigit);
}

#[test]
fn invalid_binary_digit_is_an_error() {
    let p = FloatParameters::binary32();
    assert_eq!(Float::parse("0b102", &p).unwrap_err(), FloatParseError::InvalidBinaryDigit);
}

#[test]
fn too_many_bits_is_an_error_not_a_truncation() {
    let p = FloatParameters::binary32();
    // nine hex digits encode 36 bits, more than the 32-bit layout holds
    assert_eq!(Float::parse("0x012345678", &p).unwrap_err(), FloatParseError::TooLong);
    let mut long_bits = String::from("0b");
    for _ in 0..33 {
        long_bits.push('0');
    }
    assert_eq!(Float::parse(&long_bits, &p).unwrap_err(), FloatParseError::TooLong);
}

#[test]
fn decimal_literals_have_no_parser_in_the_library() {
    let p = FloatParameters::binary32();
    assert_eq!(Float::parse("1.0", &p).unwrap_err(), FloatParseError::NoParser);
    let custom = FloatParameters { exp_bits: 5, exp_bias: 15, sig_bits: 10 };
    assert_eq!(Float::parse("3.25", &custom).unwrap_err(), FloatParseError::NoParser);
}

#[test]
fn host_pattern_injection_matches_hex_parse() {
    // the front end reads decimal literals with the host parser and hands
    // the pattern in; the result must agree with the hex form of the bits
    let p = FloatParameters::binary32();
    let host = "1.5".parse::<f32>().unwrap().to_bits();
    let f = Float::from_u64_pattern(&p, host as u64);
    let g = Float::parse("0x3FC00000", &p).unwrap();
    assert_eq!(pattern_of(&f), pattern_of(&g));
}

#[test]
fn from_parts_assembles_the_ieee_pattern() {
    let p = FloatParameters::binary32();
    let sig = vec![false; 23];
    let f = Float::from_parts(&p, false, 0, &sig);
    assert_eq!(pattern_of(&f), 0x3F800000);
}

#[test]
fn decode_then_encode_reproduces_the_pattern() {
    let p = FloatParameters::binary32();
    // a normal (pi), a subnormal, and both signed zeros
    for bits in [0x40490FDBu64, 0x00000001, 0x00000000, 0x80000000, 0x80000001, 0x007FFFFF] {
        let f = Float::from_u64_pattern(&p, bits);
        let exp = f.exponent_bits_integer() as i64 - p.exp_bias as i64;
        let g = Float::from_parts(&p, f.sign(), exp, &f.significand_bits());
        assert_eq!(pattern_of(&g), bits);
    }
}

#[test]
fn constructors_produce_canonical_patterns() {
    let p = FloatParameters::binary32();
    assert_eq!(pattern_of(&Float::zero(&p)), 0x00000000);
    assert_eq!(pattern_of(&Float::signed_zero(&p, true)), 0x80000000);
    assert_eq!(pattern_of(&Float::inf(&p, false)), 0x7F800000);
    assert_eq!(pattern_of(&Float::inf(&p, true)), 0xFF800000);
    assert_eq!(pattern_of(&Float::nan(&p)), 0xFFFFFFFF);
}
