//! Unbounded-precision arithmetic on bit vectors, carried out by the
//! `num-bigint` crate behind exact contracts.
//!
//! Values cross the boundary as `Vec<bool>` bit vectors (least-significant
//! bit first); each wrapper converts them to or from `num-bigint`'s base-2
//! digit form one bit at a time and makes a single arithmetic call.
use vstd::prelude::*;
use crate::bits::bits_value;

verus! {

/// The character of one decimal digit.
pub open spec fn dec_digit_char(d: nat) -> char {
    if d == 0 {
        '0'
    } else if d == 1 {
        '1'
    } else if d == 2 {
        '2'
    } else if d == 3 {
        '3'
    } else if d == 4 {
        '4'
    } else if d == 5 {
        '5'
    } else if d == 6 {
        '6'
    } else if d == 7 {
        '7'
    } else if d == 8 {
        '8'
    } else {
        '9'
    }
}

/// The decimal digits of a positive number, most significant first.
pub open spec fn dec_digits_rec(n: nat) -> Seq<char>
    decreases n,
{
    if n == 0 {
        Seq::empty()
    } else {
        dec_digits_rec(n / 10) + seq![dec_digit_char(n % 10)]
    }
}

/// The decimal rendering of `n`: its digits without leading zeros, and
/// `"0"` for zero.
pub open spec fn dec_digits(n: nat) -> Seq<char> {
    if n == 0 {
        seq!['0']
    } else {
        dec_digits_rec(n)
    }
}

/// Relies on `BigUint` addition (`Add for BigUint`): the sum of the two
/// operands, exactly.
#[verifier::external_body]
pub(crate) fn big_add(a: &Vec<bool>, b: &Vec<bool>) -> (r: Vec<bool>)
    ensures
        bits_value(r@) == bits_value(a@) + bits_value(b@),
{
    let au = num_bigint::BigUint::from_radix_le(
        &a.iter().map(|&x| x as u8).collect::<Vec<u8>>(),
        2,
    ).unwrap();
    let bu = num_bigint::BigUint::from_radix_le(
        &b.iter().map(|&x| x as u8).collect::<Vec<u8>>(),
        2,
    ).unwrap();
    (au + bu).to_radix_le(2).into_iter().map(|d| d != 0).collect()
}

/// Relies on `BigInt` subtraction (`Sub for BigInt`), its `sign` and its
/// `magnitude`: whether `a < b`, and the absolute difference `|a - b|`.
#[verifier::external_body]
pub(crate) fn big_sub_abs(a: &Vec<bool>, b: &Vec<bool>) -> (r: (bool, Vec<bool>))
    ensures
        r.0 == (bits_value(a@) < bits_value(b@)),
        bits_value(r.1@) + (if r.0 {
            bits_value(a@)
        } else {
            bits_value(b@)
        }) == (if r.0 {
            bits_value(b@)
        } else {
            bits_value(a@)
        }),
{
    let au = num_bigint::BigInt::from(
        num_bigint::BigUint::from_radix_le(&a.iter().map(|&x| x as u8).collect::<Vec<u8>>(), 2)
            .unwrap(),
    );
    let bu = num_bigint::BigInt::from(
        num_bigint::BigUint::from_radix_le(&b.iter().map(|&x| x as u8).collect::<Vec<u8>>(), 2)
            .unwrap(),
    );
    let d = au - bu;
    let neg = d.sign() == num_bigint::Sign::Minus;
    (neg, d.magnitude().to_radix_le(2).into_iter().map(|x| x != 0).collect())
}

/// Relies on `BigUint` multiplication by a scalar (`Mul<u32> for BigUint`):
/// ten times the operand, exactly.
#[verifier::external_body]
pub(crate) fn big_mul10(a: &Vec<bool>) -> (r: Vec<bool>)
    ensures
        bits_value(r@) == 10 * bits_value(a@),
{
    let au = num_bigint::BigUint::from_radix_le(
        &a.iter().map(|&x| x as u8).collect::<Vec<u8>>(),
        2,
    ).unwrap();
    (au * 10u32).to_radix_le(2).into_iter().map(|d| d != 0).collect()
}

/// Relies on `BigUint::to_str_radix` with radix 10: the decimal digits of
/// the operand, most significant first, no leading zeros, `"0"` for zero.
#[verifier::external_body]
pub(crate) fn big_to_dec_chars(a: &Vec<bool>) -> (r: Vec<char>)
    ensures
        r@ == dec_digits(bits_value(a@)),
{
    let au = num_bigint::BigUint::from_radix_le(
        &a.iter().map(|&x| x as u8).collect::<Vec<u8>>(),
        2,
    ).unwrap();
    au.to_str_radix(10).chars().collect()
}

/// Relies on `String`'s `FromIterator<char>`: the string holding exactly
/// these characters.
#[verifier::external_body]
pub(crate) fn chars_to_string(v: &Vec<char>) -> (r: String)
    ensures
        r@ == v@,
{
    v.iter().collect()
}

} // verus!
