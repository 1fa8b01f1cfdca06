use bitfloat::floats::{Float, FloatParameters};
use bitfloat::str_conv::float_to_exact_str;
use bitfloat::render::{bit2char, int_length};

fn f32_value(x: f32) -> Float {
    Float::from_u64_pattern(&FloatParameters::binary32(), x.to_bits() as u64)
}

#[test]
fn whole_numbers_print_without_a_point() {
    assert_eq!(float_to_exact_str(&f32_value(1.0)), "1");
    assert_eq!(float_to_exact_str(&f32_value(2.0)), "2");
    assert_eq!(float_to_exact_str(&f32_value(3.0)), "3");
    assert_eq!(float_to_exact_str(&f32_value(8388608.0)), "8388608");
    assert_eq!(float_to_exact_str(&f32_value(-7.0)), "-7");
}

#[test]
fn fractions_print_exactly() {
    assert_eq!(float_to_exact_str(&f32_value(0.5)), ".5");
    assert_eq!(float_to_exact_str(&f32_value(1.5)), "1.5");
    assert_eq!(float_to_exact_str(&f32_value(0.25)), ".25");
    assert_eq!(float_to_exact_str(&f32_value(-2.75)), "-2.75");
}

#[test]
fn tenth_prints_its_exact_binary_value() {
    // the binary32 nearest to one tenth, written out in full
    assert_eq!(float_to_exact_str(&f32_value(0.1)), ".100000001490116119384765625");
}

#[test]
fn signed_zeros_print_with_their_sign() {
    assert_eq!(float_to_exact_str(&f32_value(0.0)), "0");
    assert_eq!(float_to_exact_str(&f32_value(-0.0)), "-0");
}

#[test]
fn exact_decimal_reparses_to_the_same_pattern() {
    // re-parsing the exact decimal with the host parser restores the bits,
    // for integral and fractional values, normals and subnormals
    let p = FloatParameters::binary32();
    for bits in [
        0x3F800000u64, // 1.0
        0x3DCCCCCDu64, // nearest to 0.1
        0x40490FDBu64, // nearest to pi
        0x00000001u64, // smallest subnormal
        0x007FFFFFu64, // largest subnormal
        0x00800000u64, // smallest normal
        0x7F7FFFFFu64, // largest finite
        0xC2280000u64, // -42.0
        0x80000000u64, // -0.0
    ] {
        let f = Float::from_u64_pattern(&p, bits);
        let s = float_to_exact_str(&f);
        let back = s.parse::<f32>().unwrap();
        assert_eq!(back.to_bits() as u64, bits, "round trip failed for {}", s);
    }
}

#[test]
fn exact_decimal_reparses_for_binary64() {
    let p = FloatParameters::binary64();
    for bits in [
        0x3FF0000000000000u64, // 1.0
        0x3FB999999999999Au64, // nearest to 0.1
        0x0000000000000001u64, // smallest subnormal
        0x7FEFFFFFFFFFFFFFu64, // largest finite
    ] {
        let f = Float::from_u64_pattern(&p, bits);
        let s = float_to_exact_str(&f);
        let back = s.parse::<f64>().unwrap();
        assert_eq!(back.to_bits(), bits, "round trip failed for {}", s);
    }
}

#[test]
fn bit2char_renders_bits() {
    assert_eq!(bit2char(true), '1');
    assert_eq!(bit2char(false), '0');
}

#[test]
fn int_length_counts_decimal_digits() {
    assert_eq!(int_length(0), 1);
    assert_eq!(int_length(9), 1);
    assert_eq!(int_length(10), 2);
    assert_eq!(int_length(12345), 5);
    assert_eq!(int_length(1000000), 7);
}
