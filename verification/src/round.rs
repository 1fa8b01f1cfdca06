//! Rounding an unbounded magnitude down by a power of two, under each of
//! the five rounding modes.
use vstd::prelude::*;
use vstd::arithmetic::power2::*;
use vstd::arithmetic::div_mod::{
    lemma_basic_div_specific_divisor, lemma_fundamental_div_mod_converse, lemma_small_mod,
};
use crate::bits::{
    bits_value, copy_range, increment_bits, lemma_bits_value_bound, lemma_bits_value_split,
    lemma_bits_value_zero, lemma_range_quant_equiv, range_any_true, seq_any_true,
};
use crate::fenv::RoundingMode;

verus! {

/// `m / pow2(d)` rounded as `mode` asks, with `neg` the sign the quotient
/// carries. This is the one mathematical definition every rounding decision
/// of the crate reduces to.
pub open spec fn round_div(mode: RoundingMode, neg: bool, m: nat, d: nat) -> nat {
    let q = m / pow2(d);
    let r = m % pow2(d);
    if r == 0 {
        q
    } else {
        match mode {
            RoundingMode::TiesToEven => if 2 * r > pow2(d) {
                q + 1
            } else if 2 * r < pow2(d) {
                q
            } else if q % 2 == 1 {
                q + 1
            } else {
                q
            },
            RoundingMode::TiesToAway => if 2 * r >= pow2(d) {
                q + 1
            } else {
                q
            },
            RoundingMode::TowardPositive => if neg {
                q
            } else {
                q + 1
            },
            RoundingMode::TowardNegative => if neg {
                q + 1
            } else {
                q
            },
            RoundingMode::TowardZero => q,
        }
    }
}

/// Rounding never adds more than one to the truncated quotient.
pub proof fn lemma_round_div_le(mode: RoundingMode, neg: bool, m: nat, d: nat)
    ensures
        m / pow2(d) <= round_div(mode, neg, m, d) <= m / pow2(d) + 1,
{
}

/// A magnitude below half of the quantum rounds to zero, except under the
/// directed mode that points away from it, which rounds to one quantum.
pub proof fn lemma_round_div_tiny(mode: RoundingMode, neg: bool, m: nat, d: nat)
    requires
        m > 0,
        2 * m < pow2(d),
    ensures
        round_div(mode, neg, m, d) == (if (mode == RoundingMode::TowardPositive && !neg) || (mode
            == RoundingMode::TowardNegative && neg) {
            1nat
        } else {
            0nat
        }),
{
    lemma_pow2_pos(d);
    lemma_basic_div_specific_divisor(pow2(d) as int);
    assert(m / pow2(d) == 0);
    lemma_small_mod(m, pow2(d));
}

/// Shifts a magnitude right by `d` bits, rounding the discarded part as
/// `mode` asks; also reports whether anything nonzero was discarded.
pub fn round_shift(m: &Vec<bool>, d: usize, mode: RoundingMode, neg: bool) -> (res: (
    Vec<bool>,
    bool,
))
    requires
        d <= m@.len(),
    ensures
        bits_value(res.0@) == round_div(mode, neg, bits_value(m@), d as nat),
        res.1 == (bits_value(m@) % pow2(d as nat) != 0),
        res.0@.len() <= m@.len() - d + 1,
{
    let n = m.len();
    if d == 0 {
        proof {
            assert(pow2(0) == 1) by {
                lemma2_to64();
            }
            assert(bits_value(m@) % 1 == 0) by (nonlinear_arith);
            assert(bits_value(m@) / 1 == bits_value(m@)) by (nonlinear_arith);
        }
        let out = copy_range(m, 0, n);
        proof {
            assert(out@ =~= m@);
        }
        return (out, false);
    }
    let q = copy_range(m, d, n);
    let rb = m[d - 1];
    let sticky = range_any_true(m, 0, d - 1);
    let inexact = rb || sticky;
    let ghost v = bits_value(m@);
    let ghost qv = bits_value(q@);
    let ghost low = bits_value(m@.subrange(0, d as int));
    let ghost low1 = bits_value(m@.subrange(0, d - 1));
    proof {
        lemma_pow2_pos(d as nat);
        lemma_pow2_pos((d - 1) as nat);
        lemma_bits_value_split(m@, d as int);
        lemma_bits_value_bound(m@.subrange(0, d as int));
        assert(q@ == m@.subrange(d as int, m@.len() as int));
        assert(v == low + pow2(d as nat) * qv);
        assert(pow2(d as nat) * qv == qv * pow2(d as nat)) by (nonlinear_arith);
        lemma_fundamental_div_mod_converse(
            v as int,
            pow2(d as nat) as int,
            qv as int,
            low as int,
        );
        assert(v / pow2(d as nat) == qv && v % pow2(d as nat) == low);
        // split the low part at its own top bit, the round bit
        lemma_bits_value_split(m@.subrange(0, d as int), d - 1);
        assert(m@.subrange(0, d as int).subrange(0, d - 1) =~= m@.subrange(0, d - 1));
        let top = m@.subrange(0, d as int).subrange(d - 1, d as int);
        assert(top =~= seq![m@[d - 1]]);
        assert(top.skip(1) =~= Seq::<bool>::empty());
        assert(top[0] == rb);
        assert(bits_value(Seq::<bool>::empty()) == 0);
        assert(bits_value(top) == (if rb {
            1nat
        } else {
            0nat
        }));
        assert(low == low1 + pow2((d - 1) as nat) * (if rb {
            1nat
        } else {
            0nat
        }));
        // the sticky bit is exactly "the part below the round bit is nonzero"
        lemma_range_quant_equiv(m@, 0, d - 1);
        lemma_bits_value_zero(m@.subrange(0, d - 1));
        assert(sticky == (low1 != 0));
        lemma_bits_value_bound(m@.subrange(0, d - 1));
        assert(pow2(d as nat) == 2 * pow2((d - 1) as nat)) by {
            lemma_pow2_adds(1, (d - 1) as nat);
            lemma2_to64();
        }
        assert(inexact == (low != 0));
        // how twice the discarded part compares against the quantum
        if rb {
            assert(2 * low == 2 * low1 + pow2(d as nat));
            assert(low1 == 0 ==> 2 * low == pow2(d as nat));
            assert(low1 != 0 ==> 2 * low > pow2(d as nat));
        } else {
            assert(low == low1);
            assert(2 * low < pow2(d as nat));
        }
        // parity of the truncated quotient is its lowest bit
        if q@.len() == 0 {
            assert(qv == 0);
            assert(qv % 2 == 0);
        } else {
            assert(qv == (if q@[0] {
                1nat
            } else {
                0nat
            }) + 2 * bits_value(q@.skip(1)));
            assert((2 * bits_value(q@.skip(1))) % 2 == 0) by (nonlinear_arith);
            assert((1 + 2 * bits_value(q@.skip(1))) % 2 == 1) by (nonlinear_arith);
        }
    }
    let q_odd = q.len() > 0 && q[0];
    let up: bool = match mode {
        RoundingMode::TiesToEven => rb && (sticky || q_odd),
        RoundingMode::TiesToAway => rb,
        RoundingMode::TowardPositive => inexact && !neg,
        RoundingMode::TowardNegative => inexact && neg,
        RoundingMode::TowardZero => false,
    };
    if up {
        let out = increment_bits(&q);
        (out, inexact)
    } else {
        (q, inexact)
    }
}

} // verus!
