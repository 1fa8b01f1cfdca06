//! Laws the library satisfies, each proved once and for all formats.
use vstd::prelude::*;
use vstd::arithmetic::power2::*;
use crate::bits::{
    bitlen, bits_value, lemma_bitlen_le, lemma_bits_value_bound, lemma_bits_value_injective,
    lemma_bits_value_zero, nat_to_bits, seq_any_true,
};
use crate::fenv::RoundingMode;
use crate::floats::{lemma_finite_ranges, Float, FloatClass, FloatParameters};
use crate::ops::{
    add_sub_spec, exact_sum, signed_num, spec_round_to_format, sum_scale, ulp_exp, Exception,
};

verus! {

/// Decoding a pattern into its sign, raw unbiased exponent and stored
/// significand, then reassembling those parts with `from_parts`, reproduces
/// the original bit pattern, for every finite class and signed zero.
pub proof fn lemma_decode_encode_round_trip(f: &Float)
    requires
        f.wf(),
        f.spec_classify().spec_finite(),
    ensures
        Float::spec_from_parts_bits(
            f.spec_params(),
            f.spec_sign(),
            bits_value(f.spec_exp_field()) - f.spec_params().exp_bias,
            f.spec_sig_field(),
        ) == f.spec_bits(),
{
    lemma_bits_value_injective(f.spec_exp_field());
    assert(f.spec_bits() =~= f.spec_sig_field() + f.spec_exp_field() + seq![f.spec_sign()]);
    assert(Float::spec_from_parts_bits(
        f.spec_params(),
        f.spec_sign(),
        bits_value(f.spec_exp_field()) - f.spec_params().exp_bias,
        f.spec_sig_field(),
    ) == f.spec_sig_field() + nat_to_bits(
        bits_value(f.spec_exp_field()),
        f.spec_params().exp_bits as nat,
    ) + seq![f.spec_sign()]);
}

/// Classification is total and exclusive: every pattern falls in exactly
/// one of the five categories (zero, subnormal, normal, infinite, NaN), and
/// every non-NaN class is exactly one of positive and negative.
pub proof fn lemma_classify_exclusive(f: &Float)
    requires
        f.wf(),
    ensures
        ({
            let c = f.spec_classify();
            &&& (if c.spec_zero() {
                1int
            } else {
                0int
            }) + (if c.spec_subnormal() {
                1int
            } else {
                0int
            }) + (if c.spec_normal() {
                1int
            } else {
                0int
            }) + (if c.spec_inf() {
                1int
            } else {
                0int
            }) + (if c.spec_nan() {
                1int
            } else {
                0int
            }) == 1
            &&& !c.spec_nan() ==> (c.spec_positive() != c.spec_negative())
            &&& c.spec_nan() ==> (!c.spec_positive() && !c.spec_negative())
        }),
{
}

/// Addition is commutative: swapping the operands changes neither the
/// result pattern nor the flags, for finite operands under any one mode.
pub proof fn lemma_add_commutes(mode: RoundingMode, a: Float, b: Float, out: FloatParameters)
    requires
        a.wf(),
        b.wf(),
        a.spec_classify().spec_finite(),
        b.spec_classify().spec_finite(),
    ensures
        add_sub_spec(false, mode, a, b, out) == add_sub_spec(false, mode, b, a, out),
{
    assert(sum_scale(a, b) == sum_scale(b, a));
    let pa = pow2((ulp_exp(a) - sum_scale(a, b)) as nat);
    let pb = pow2((ulp_exp(b) - sum_scale(a, b)) as nat);
    assert(1 * (signed_num(b) * pb) == signed_num(b) * pb) by (nonlinear_arith);
    assert(1 * (signed_num(a) * pa) == signed_num(a) * pa) by (nonlinear_arith);
    assert(1 * signed_num(b) * pb == 1 * (signed_num(b) * pb)) by (nonlinear_arith);
    assert(1 * signed_num(a) * pa == 1 * (signed_num(a) * pa)) by (nonlinear_arith);
    assert(exact_sum(a, b, false) == exact_sum(b, a, false));
}

/// Adding a finite nonzero value to its own negation yields positive zero
/// with no flags under ties-to-even (the sign convention for an exact zero
/// sum gives negative zero only under the mode that rounds toward negative).
pub proof fn lemma_add_opposite_is_positive_zero(a: Float, b: Float, out: FloatParameters)
    requires
        a.wf(),
        b.wf(),
        a.spec_params() == b.spec_params(),
        a.spec_classify().spec_finite(),
        !a.spec_classify().spec_zero(),
        b.spec_sig_field() == a.spec_sig_field(),
        b.spec_exp_field() == a.spec_exp_field(),
        b.spec_sign() == !a.spec_sign(),
    ensures
        add_sub_spec(false, RoundingMode::TiesToEven, a, b, out) == (
            Float::spec_zero_bits(out, false),
            Exception::spec_none(),
        ),
{
    lemma_mirror_class(a, b);
    assert(signed_num(b) == -signed_num(a));
    assert(sum_scale(a, b) == ulp_exp(a));
    let pa = pow2((ulp_exp(a) - sum_scale(a, b)) as nat);
    assert(pa == pow2(0));
    assert(pow2(0) == 1) by {
        lemma2_to64();
    }
    let sn = signed_num(a);
    assert(1 * ((-sn) * pa) == (-sn) * pa) by (nonlinear_arith);
    assert(1 * (-sn) * pa == 1 * ((-sn) * pa)) by (nonlinear_arith);
    assert(sn * pa + (-sn) * pa == 0) by (nonlinear_arith);
    assert(exact_sum(a, b, false) == 0);
}

/// Two patterns that differ only in their sign bit mirror each other's
/// class, and share one logical significand and exponent.
pub proof fn lemma_mirror_class(a: Float, b: Float)
    requires
        a.wf(),
        b.wf(),
        a.spec_params() == b.spec_params(),
        b.spec_sig_field() == a.spec_sig_field(),
        b.spec_exp_field() == a.spec_exp_field(),
    ensures
        b.spec_classify().spec_finite() == a.spec_classify().spec_finite(),
        b.spec_classify().spec_zero() == a.spec_classify().spec_zero(),
        b.spec_classify().spec_normal() == a.spec_classify().spec_normal(),
        b.spec_classify().spec_subnormal() == a.spec_classify().spec_subnormal(),
        b.spec_classify().spec_inf() == a.spec_classify().spec_inf(),
        b.spec_classify().spec_nan() == a.spec_classify().spec_nan(),
        b.spec_logical_sig() == a.spec_logical_sig(),
        b.spec_exp_logical() == a.spec_exp_logical(),
{
}

/// Adding the largest finite value of a format to itself overflows: the
/// result is positive infinity with the overflow and inexact flags, under
/// every rounding mode.
pub proof fn lemma_overflow_boundary(mode: RoundingMode, a: Float)
    requires
        a.wf(),
        a.spec_params().exp_bits >= 2,
        !a.spec_sign(),
        bits_value(a.spec_exp_field()) == pow2(a.spec_params().exp_bits as nat) - 2,
        bits_value(a.spec_sig_field()) == pow2(a.spec_params().sig_bits as nat) - 1,
    ensures
        add_sub_spec(false, mode, a, a, a.spec_params()) == (
            Float::spec_inf_bits(a.spec_params(), false),
            Exception {
                invalid_operation: false,
                division_by_zero: false,
                overflow: true,
                underflow: false,
                inexact: true,
            },
        ),
{
    let q = a.spec_params();
    let w = q.exp_bits as nat;
    let p = q.sig_bits as nat;
    assert(pow2(w) >= 4 && pow2(p) >= 2 && pow2(1) == 2) by {
        lemma2_to64();
        if w > 2 {
            lemma_pow2_strictly_increases(2, w);
        }
        if p > 1 {
            lemma_pow2_strictly_increases(1, p);
        }
    }
    // the pattern is the largest positive normal
    assert(!crate::bits::seq_all_true(a.spec_exp_field())) by {
        crate::bits::lemma_bits_value_ones(a.spec_exp_field());
    }
    assert(seq_any_true(a.spec_exp_field())) by {
        lemma_bits_value_zero(a.spec_exp_field());
        if !seq_any_true(a.spec_exp_field()) {
            assert(forall|i: int| 0 <= i < a.spec_exp_field().len() ==> !a.spec_exp_field()[i]);
        }
    }
    assert(a.spec_classify() == FloatClass::PositiveNormal);
    assert(a.spec_exp_logical() == q.spec_max_exp());
    let la = a.spec_logical_sig();
    assert(la == pow2((p + 1) as nat) - 1) by {
        lemma_pow2_adds(1, p);
    }
    // the exact sum is 2 * la at the operand's own scale
    assert(sum_scale(a, a) == ulp_exp(a));
    let pa = pow2((ulp_exp(a) - sum_scale(a, a)) as nat);
    assert(pa == pow2(0));
    assert(pow2(0) == 1) by {
        lemma2_to64();
    }
    let sn = signed_num(a);
    assert(sn == la as int);
    assert(1 * (sn * pa) == sn * pa) by (nonlinear_arith);
    assert(1 * sn * pa == 1 * (sn * pa)) by (nonlinear_arith);
    assert(sn * pa == sn) by (nonlinear_arith)
        requires
            pa == 1,
    ;
    let s = exact_sum(a, a, false);
    assert(s == 2 * la);
    let m = (2 * la) as nat;
    // m = 2^(p+2) - 2 takes p + 2 bits
    assert(pow2((p + 2) as nat) == 2 * pow2((p + 1) as nat) && pow2((p + 1) as nat) == 2 * pow2(
        p,
    )) by {
        lemma_pow2_adds(1, (p + 1) as nat);
        lemma_pow2_adds(1, p);
        lemma2_to64();
    }
    assert(m == pow2((p + 2) as nat) - 2);
    assert(bitlen(m) == p + 2) by {
        lemma_bitlen_le(m, (p + 2) as nat);
        lemma_bitlen_le(m, (p + 1) as nat);
    }
    let g = sum_scale(a, a);
    assert(g == q.spec_max_exp() - p);
    let e = g + bitlen(m) - 1;
    assert(e == q.spec_max_exp() + 1);
    assert(e >= q.spec_min_exp());
    let t = e - p;
    assert(g < t);
    // halving is exact here: the rounded significand is la again
    assert(m % pow2(1) == 0 && m / pow2(1) == la) by {
        vstd::arithmetic::div_mod::lemma_fundamental_div_mod_converse(
            m as int,
            pow2(1) as int,
            la as int,
            0,
        );
    }
    assert(crate::round::round_div(mode, false, m, (t - g) as nat) == la);
    let n0 = la;
    assert(n0 != pow2((p + 1) as nat));
    assert(n0 >= pow2(p));
    assert(bitlen(n0) == p + 1) by {
        lemma_bitlen_le(n0, (p + 1) as nat);
        lemma_bitlen_le(n0, p);
    }
    assert(t + bitlen(n0) - 1 == q.spec_max_exp() + 1);
    assert(t + bitlen(n0) - 1 > q.spec_max_exp());
}

/// Subtracting two values of one format whose exact difference is nonzero
/// and smaller in magnitude than the smallest normal yields that difference
/// exactly, encoded as a subnormal (a zero exponent field), with no flags:
/// never a silent zero and never a normal value.
pub proof fn lemma_subnormal_difference(mode: RoundingMode, a: Float, b: Float)
    requires
        a.wf(),
        b.wf(),
        a.spec_params() == b.spec_params(),
        a.spec_classify().spec_finite(),
        b.spec_classify().spec_finite(),
        exact_sum(a, b, true) != 0,
        // the exact difference is below the smallest normal, stated at the
        // subnormal quantum 2^(min_exp - sig_bits)
        (if exact_sum(a, b, true) < 0 {
            -exact_sum(a, b, true)
        } else {
            exact_sum(a, b, true)
        }) * pow2((sum_scale(a, b) - a.spec_params().spec_min_exp()
            + a.spec_params().sig_bits) as nat) < pow2(a.spec_params().sig_bits as nat),
    ensures
        add_sub_spec(true, mode, a, b, a.spec_params()) == (
            Float::spec_from_parts_bits(
                a.spec_params(),
                exact_sum(a, b, true) < 0,
                a.spec_params().spec_min_exp() - 1,
                nat_to_bits(
                    ((if exact_sum(a, b, true) < 0 {
                        -exact_sum(a, b, true)
                    } else {
                        exact_sum(a, b, true)
                    }) * pow2((sum_scale(a, b) - a.spec_params().spec_min_exp()
                        + a.spec_params().sig_bits) as nat)) as nat,
                    a.spec_params().sig_bits as nat,
                ),
            ),
            Exception::spec_none(),
        ),
{
    let q = a.spec_params();
    let p = q.sig_bits as nat;
    let s = exact_sum(a, b, true);
    let g = sum_scale(a, b);
    let m = (if s < 0 {
        -s
    } else {
        s
    }) as nat;
    let tq = q.spec_min_exp() - p;
    lemma_finite_ranges(&a);
    lemma_finite_ranges(&b);
    assert(ulp_exp(a) >= tq && ulp_exp(b) >= tq);
    assert(g >= tq);
    let sh = (g - tq) as nat;
    let n0 = m * pow2(sh);
    assert(n0 < pow2(p));
    crate::bits::lemma_bitlen_bounds(m);
    let bl = bitlen(m);
    let e = g + bl - 1;
    // the difference sits below the smallest normal, so its top bit sits
    // below min_exp
    lemma_pow2_pos(sh);
    assert(pow2((bl - 1) as nat) * pow2(sh) <= m * pow2(sh)) by (nonlinear_arith)
        requires
            pow2((bl - 1) as nat) <= m,
            pow2(sh) > 0,
    ;
    lemma_pow2_adds((bl - 1) as nat, sh);
    assert(pow2(((bl - 1) + sh) as nat) <= n0);
    assert(pow2(((e - tq)) as nat) <= n0);
    assert(e - tq < p) by {
        if e - tq >= p {
            if (e - tq) as nat > p {
                lemma_pow2_strictly_increases(p, (e - tq) as nat);
            }
            assert(pow2(p) <= pow2((e - tq) as nat));
        }
    }
    assert(e < q.spec_min_exp());
    // the rounding spec takes the subnormal path with an exact shift
    assert(m > 0);
    assert(n0 > 0) by (nonlinear_arith)
        requires
            n0 == m * pow2(sh),
            m > 0,
            pow2(sh) > 0,
    ;
    assert(pow2(p) < pow2((p + 1) as nat)) by {
        lemma_pow2_strictly_increases(p, (p + 1) as nat);
    }
    assert(n0 != pow2((p + 1) as nat));
    assert(bitlen(n0) <= p) by {
        lemma_bitlen_le(n0, p);
    }
    assert(pow2(q.exp_bits as nat) >= 2) by {
        lemma2_to64();
        if q.exp_bits > 1 {
            lemma_pow2_strictly_increases(1, q.exp_bits as nat);
        }
    }
    assert(tq + p + bitlen(n0) - 1 - p <= q.spec_max_exp());
    assert(n0 < pow2(p));
}

/// Adding positive zero to a finite nonzero value of the output format
/// returns its pattern unchanged with no flags, under every rounding mode.
pub proof fn lemma_add_zero_identity(mode: RoundingMode, a: Float, z: Float)
    requires
        a.wf(),
        z.wf(),
        a.spec_params() == z.spec_params(),
        a.spec_classify().spec_finite(),
        !a.spec_classify().spec_zero(),
        z.spec_classify() == FloatClass::PositiveZero,
    ensures
        add_sub_spec(false, mode, a, z, a.spec_params()) == (
            a.spec_bits(),
            Exception::spec_none(),
        ),
{
    let q = a.spec_params();
    let p = q.sig_bits as nat;
    let w = q.exp_bits as nat;
    lemma_finite_ranges(&a);
    lemma_finite_ranges(&z);
    assert(pow2(0) == 1 && pow2(w) >= 2 && pow2(p) >= 2) by {
        lemma2_to64();
        if w > 1 {
            lemma_pow2_strictly_increases(1, w);
        }
        if p > 1 {
            lemma_pow2_strictly_increases(1, p);
        }
    }
    // the zero operand contributes nothing to the exact sum
    assert(z.spec_logical_sig() == 0);
    assert(signed_num(z) == 0);
    let tq = q.spec_min_exp() - p;
    assert(bits_value(z.spec_exp_field()) == 0) by {
        lemma_bits_value_zero(z.spec_exp_field());
    }
    assert(ulp_exp(z) == tq);
    assert(ulp_exp(a) >= tq);
    let g = sum_scale(a, z);
    assert(g == tq);
    let sh = (ulp_exp(a) - g) as nat;
    let pz = pow2((ulp_exp(z) - g) as nat);
    assert(1 * (0 * pz) == 0 && 1 * 0 * pz == 1 * (0 * pz) && 0 * pz == 0) by (nonlinear_arith);
    let sn = signed_num(a);
    let s = exact_sum(a, z, false);
    assert(s == sn * pow2(sh));
    lemma_pow2_pos(sh);
    // the operand's significand is positive
    let la = a.spec_logical_sig();
    assert(la > 0) by {
        if !a.spec_classify().spec_normal() {
            assert(seq_any_true(a.spec_sig_field()));
            lemma_bits_value_zero(a.spec_sig_field());
        }
        lemma_pow2_pos(p);
    }
    assert(s != 0 && (s < 0) == a.spec_sign()) by (nonlinear_arith)
        requires
            s == sn * pow2(sh),
            sn == (if a.spec_sign() {
                -(la as int)
            } else {
                la as int
            }),
            la > 0,
            pow2(sh) > 0,
    ;
    let m = (if s < 0 {
        -s
    } else {
        s
    }) as nat;
    assert(m == la * pow2(sh)) by (nonlinear_arith)
        requires
            s == sn * pow2(sh),
            sn == (if a.spec_sign() {
                -(la as int)
            } else {
                la as int
            }),
            m == (if s < 0 {
                -s
            } else {
                s
            }),
            la > 0,
            pow2(sh) > 0,
    ;
    crate::bits::lemma_bitlen_shift(la, sh);
    let bl = bitlen(m);
    assert(bl == bitlen(la) + sh);
    lemma_bits_value_bound(a.spec_sig_field());
    if a.spec_classify().spec_normal() {
        // the top bit of the logical significand makes its length exact
        assert(la >= pow2(p) && la < pow2((p + 1) as nat)) by {
            lemma_pow2_adds(1, p);
            lemma2_to64();
        }
        assert(bitlen(la) == p + 1) by {
            lemma_bitlen_le(la, (p + 1) as nat);
            lemma_bitlen_le(la, p);
        }
        assert(seq_any_true(a.spec_exp_field()));
        assert(bits_value(a.spec_exp_field()) != 0) by {
            lemma_bits_value_zero(a.spec_exp_field());
        }
        assert(a.spec_exp_logical() == bits_value(a.spec_exp_field()) - q.exp_bias);
        let e = g + bl - 1;
        assert(e == a.spec_exp_logical());
        assert(e >= q.spec_min_exp());
        let t = e - p;
        assert(t == ulp_exp(a) && t - g == sh);
        let n0 = if g >= t {
            m * pow2((g - t) as nat)
        } else {
            crate::round::round_div(mode, s < 0, m, (t - g) as nat)
        };
        if g >= t {
            assert(sh == 0);
            assert(m * pow2(0) == m) by (nonlinear_arith)
                requires
                    pow2(0) == 1,
            ;
            assert(n0 == la);
        } else {
            assert(m == la * pow2(sh) + 0);
            vstd::arithmetic::div_mod::lemma_fundamental_div_mod_converse(
                m as int,
                pow2(sh) as int,
                la as int,
                0,
            );
            assert(m % pow2(sh) == 0 && m / pow2(sh) == la);
            assert(n0 == la);
        }
        assert(!(t > g && m % pow2((t - g) as nat) != 0));
        assert(n0 != pow2((p + 1) as nat));
        assert(t + bitlen(n0) - 1 == e);
        assert(e <= q.spec_max_exp());
        assert(n0 >= pow2(p));
        // the encoded parts are the original fields
        assert((la - pow2(p)) as nat == bits_value(a.spec_sig_field()));
        lemma_bits_value_injective(a.spec_sig_field());
        lemma_bits_value_injective(a.spec_exp_field());
        assert((e + q.exp_bias) as nat == bits_value(a.spec_exp_field()));
        assert(a.spec_bits() =~= a.spec_sig_field() + a.spec_exp_field() + seq![a.spec_sign()]);
        assert(add_sub_spec(false, mode, a, z, q).0 == a.spec_bits());
    } else {
        // a subnormal operand sits at the quantum already
        assert(a.spec_classify().spec_subnormal());
        assert(!seq_any_true(a.spec_exp_field()));
        assert(bits_value(a.spec_exp_field()) == 0) by {
            lemma_bits_value_zero(a.spec_exp_field());
        }
        assert(a.spec_exp_logical() == q.spec_min_exp());
        assert(ulp_exp(a) == tq);
        assert(sh == 0);
        assert(m * pow2(0) == m && la * pow2(0) == la) by (nonlinear_arith)
            requires
                pow2(0) == 1,
        ;
        assert(m == la);
        assert(la < pow2(p));
        assert(bitlen(la) <= p) by {
            lemma_bitlen_le(la, p);
        }
        let e = g + bl - 1;
        assert(e < q.spec_min_exp());
        let t = q.spec_min_exp() - p;
        assert(g >= t);
        assert(m * pow2((g - t) as nat) == m) by (nonlinear_arith)
            requires
                pow2(0) == 1,
                (g - t) as nat == 0,
        ;
        let n0 = m;
        assert(n0 < pow2(p) && pow2(p) < pow2((p + 1) as nat)) by {
            lemma_pow2_strictly_increases(p, (p + 1) as nat);
        }
        assert(n0 != pow2((p + 1) as nat));
        assert(t + bitlen(n0) - 1 <= q.spec_min_exp() - 1);
        assert(q.spec_min_exp() - 1 <= q.spec_max_exp());
        lemma_bits_value_injective(a.spec_sig_field());
        lemma_bits_value_injective(a.spec_exp_field());
        assert(nat_to_bits(n0, p) == a.spec_sig_field());
        assert((q.spec_min_exp() - 1 + q.exp_bias) as nat == 0);
        assert(nat_to_bits(0, w) == a.spec_exp_field());
        assert(a.spec_bits() =~= a.spec_sig_field() + a.spec_exp_field() + seq![a.spec_sign()]);
        assert(add_sub_spec(false, mode, a, z, q).0 == a.spec_bits());
    }
}

/// The pattern that `lemma_subnormal_difference` pins down indeed classifies
/// as a subnormal: a tiny exact difference is never silently a zero and
/// never silently a normal value.
pub proof fn lemma_subnormal_difference_class(mode: RoundingMode, a: Float, b: Float, r: &Float)
    requires
        a.wf(),
        b.wf(),
        a.spec_params() == b.spec_params(),
        a.spec_classify().spec_finite(),
        b.spec_classify().spec_finite(),
        exact_sum(a, b, true) != 0,
        (if exact_sum(a, b, true) < 0 {
            -exact_sum(a, b, true)
        } else {
            exact_sum(a, b, true)
        }) * pow2((sum_scale(a, b) - a.spec_params().spec_min_exp()
            + a.spec_params().sig_bits) as nat) < pow2(a.spec_params().sig_bits as nat),
        r.wf(),
        r.spec_params() == a.spec_params(),
        r.spec_bits() == add_sub_spec(true, mode, a, b, a.spec_params()).0,
    ensures
        r.spec_classify().spec_subnormal(),
{
    lemma_subnormal_difference(mode, a, b);
    let q = a.spec_params();
    let p = q.sig_bits as nat;
    let w = q.exp_bits as nat;
    let s = exact_sum(a, b, true);
    let m = (if s < 0 {
        -s
    } else {
        s
    }) as nat;
    let sh = (sum_scale(a, b) - q.spec_min_exp() + p) as nat;
    let n0 = m * pow2(sh);
    let sig = nat_to_bits(n0, p);
    let ef = nat_to_bits(((q.spec_min_exp() - 1) + q.exp_bias) as nat, w);
    crate::bits::lemma_nat_to_bits_len(n0, p);
    crate::bits::lemma_nat_to_bits_len(0nat, w);
    assert(r.spec_bits() == sig + ef + seq![s < 0]);
    assert(r.spec_sig_field() =~= sig);
    assert(r.spec_exp_field() =~= ef);
    // the exponent field holds zero, so every bit of it is clear
    assert(((q.spec_min_exp() - 1) + q.exp_bias) as nat == 0);
    lemma_pow2_pos(w);
    crate::bits::lemma_nat_to_bits_value(0nat, w);
    lemma_bits_value_zero(ef);
    assert(!seq_any_true(ef));
    assert(!crate::bits::seq_all_true(ef)) by {
        assert(!ef[0]);
    }
    // the significand field holds the nonzero difference
    lemma_pow2_pos(sh);
    assert(m > 0);
    assert(n0 > 0) by (nonlinear_arith)
        requires
            n0 == m * pow2(sh),
            m > 0,
            pow2(sh) > 0,
    ;
    crate::bits::lemma_nat_to_bits_value(n0, p);
    lemma_bits_value_zero(sig);
    assert(seq_any_true(sig)) by {
        if !seq_any_true(sig) {
            assert(forall|i: int| 0 <= i < sig.len() ==> !sig[i]);
        }
    }
}

} // verus!
