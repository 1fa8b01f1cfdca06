//! Small text helpers the presentation layer builds on.
use vstd::prelude::*;
use crate::bignum::{dec_digits, dec_digits_rec};

verus! {

/// The character of one bit.
pub fn bit2char(bit: bool) -> (r: char)
    ensures
        r == (if bit {
            '1'
        } else {
            '0'
        }),
{
    if bit {
        '1'
    } else {
        '0'
    }
}

/// The number of characters in the decimal rendering of `x`.
pub fn int_length(x: usize) -> (r: usize)
    ensures
        r == dec_digits(x as nat).len(),
{
    if x == 0 {
        proof {
            assert(dec_digits(0).len() == 1);
        }
        return 1;
    }
    let mut cur: usize = x;
    let mut digits: usize = 0;
    while cur > 0
        invariant
            digits + cur <= x,
            dec_digits_rec(x as nat).len() == dec_digits_rec(cur as nat).len() + digits,
        decreases cur,
    {
        proof {
            assert(dec_digits_rec(cur as nat).len() == dec_digits_rec((cur / 10) as nat).len()
                + 1);
            assert(cur / 10 + 1 <= cur);
        }
        cur = cur / 10;
        digits = digits + 1;
    }
    proof {
        assert(dec_digits_rec(0nat).len() == 0);
    }
    digits
}

} // verus!
