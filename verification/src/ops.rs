//! Addition and subtraction with IEEE exception-flag semantics.
//!
//! The contract of `execute` reduces the whole operation to one spec-level
//! statement, `add_sub_spec`: after NaN and infinity dispatch, the exact sum
//! of the operands is formed as an integer `s` at a common power-of-two
//! scale `g`, and `s * 2^g` is rounded into the destination format by
//! `spec_round_to_format`, whose rounding decisions all reduce to
//! `round_div`.
use vstd::prelude::*;
use vstd::arithmetic::power2::*;
use vstd::arithmetic::div_mod::lemma_multiply_divide_lt;
use crate::bits::{
    bitlen, bits_value, copy_range, lemma_bitlen_bounds, lemma_bitlen_le, lemma_bits_value_bound,
    lemma_bits_value_injective, lemma_bits_value_split, nat_to_bits, pad_high, shl_bits,
    trim_high_zeros,
};
use crate::bignum::{big_add, big_sub_abs};
use crate::fenv::{FloatingPointEnv, RoundingMode};
use crate::floats::{lemma_finite_ranges, Float, FloatClass, FloatParameters};
use crate::round::{lemma_round_div_le, lemma_round_div_tiny, round_div, round_shift};

verus! {

/// The IEEE exception flags an operation can raise. They accumulate over an
/// operation and come back beside every result; they are never thrown.
#[derive(Copy, Clone, Debug, PartialEq, Eq, Structural)]
pub struct Exception {
    pub invalid_operation: bool,
    pub division_by_zero: bool,
    pub overflow: bool,
    pub underflow: bool,
    pub inexact: bool,
}

impl Exception {
    /// No flag raised.
    pub open spec fn spec_none() -> Exception {
        Exception {
            invalid_operation: false,
            division_by_zero: false,
            overflow: false,
            underflow: false,
            inexact: false,
        }
    }

    /// Only the invalid-operation flag.
    pub open spec fn spec_invalid() -> Exception {
        Exception {
            invalid_operation: true,
            division_by_zero: false,
            overflow: false,
            underflow: false,
            inexact: false,
        }
    }

    /// The empty flag set.
    pub fn none() -> (r: Exception)
        ensures
            r == Self::spec_none(),
    {
        Exception {
            invalid_operation: false,
            division_by_zero: false,
            overflow: false,
            underflow: false,
            inexact: false,
        }
    }

    pub open spec fn spec_union(self, o: Exception) -> Exception {
        Exception {
            invalid_operation: self.invalid_operation || o.invalid_operation,
            division_by_zero: self.division_by_zero || o.division_by_zero,
            overflow: self.overflow || o.overflow,
            underflow: self.underflow || o.underflow,
            inexact: self.inexact || o.inexact,
        }
    }

    /// The union of two flag sets.
    pub fn union(self, o: Exception) -> (r: Exception)
        ensures
            r == self.spec_union(o),
    {
        Exception {
            invalid_operation: self.invalid_operation || o.invalid_operation,
            division_by_zero: self.division_by_zero || o.division_by_zero,
            overflow: self.overflow || o.overflow,
            underflow: self.underflow || o.underflow,
            inexact: self.inexact || o.inexact,
        }
    }
}

impl Default for Exception {
    /// The empty flag set.
    fn default() -> (r: Exception)
        ensures
            r == Exception::spec_none(),
    {
        Exception::none()
    }
}

/// One step of the derivation narrative `execute_explain` emits. The steps
/// mirror the algorithm: classification, the simplifications for NaN and
/// infinite operands, alignment and exact combination of the finite
/// significands, and the rounding decision.
pub enum TraceStep {
    /// The classes of the two operands.
    Classified { a: FloatClass, b: FloatClass },
    /// An operand is a NaN; the result is NaN.
    NanOperand,
    /// The operation simplifies to infinity minus infinity; the result is
    /// NaN.
    InfMinusInf,
    /// An infinite operand fixes the result.
    InfResult { sign: bool },
    /// Both operands are finite; whether they effectively differ in sign.
    BothFinite { effective_subtract: bool },
    /// The aligned significands (low bit first) and their exact combination.
    Aligned { a_mag: Vec<bool>, b_mag: Vec<bool>, sum_negative: bool, sum_mag: Vec<bool> },
    /// The exact result is zero.
    ExactZero { sign: bool },
    /// The rounded result is too small for the format and collapses to zero.
    RoundedToZero { sign: bool },
    /// The result exceeds the format's largest exponent.
    Overflowed { exponent: i128 },
    /// The result is encoded as a subnormal, its exponent field zero.
    EncodedSubnormal,
    /// The result is encoded as a normal value with this logical exponent.
    EncodedNormal { exponent: i64 },
}

/// The addition (`AddSub(false)`) or subtraction (`AddSub(true)`) operation.
pub struct AddSub(pub bool);

/// The signed logical significand of a finite value.
pub open spec fn signed_num(f: Float) -> int {
    if f.spec_sign() {
        -(f.spec_logical_sig() as int)
    } else {
        f.spec_logical_sig() as int
    }
}

/// The weight of the lowest significand bit: the value of a finite `f` is
/// `signed_num(f) * 2^ulp_exp(f)`.
pub open spec fn ulp_exp(f: Float) -> int {
    f.spec_exp_logical() - f.spec_params().sig_bits
}

/// The common scale two finite operands are aligned to.
pub open spec fn sum_scale(a: Float, b: Float) -> int {
    if ulp_exp(a) <= ulp_exp(b) {
        ulp_exp(a)
    } else {
        ulp_exp(b)
    }
}

/// The exact sum (or difference) of two finite operands, as the integer `s`
/// with value `s * 2^sum_scale(a, b)`. Alignment by shifting loses nothing.
pub open spec fn exact_sum(a: Float, b: Float, subtract: bool) -> int {
    signed_num(a) * pow2((ulp_exp(a) - sum_scale(a, b)) as nat) + (if subtract {
        -1
    } else {
        1
    }) * signed_num(b) * pow2((ulp_exp(b) - sum_scale(a, b)) as nat)
}

/// Encodes the exact value `s * 2^g` into format `q` under `mode`: the
/// result's bits and the flags raised. `zero_sign` is the sign bit an exact
/// zero result carries.
///
/// For a nonzero `s` of magnitude `m`, the quantum exponent `t` is chosen so
/// that the rounded significand has at most `sig_bits + 1` bits and the
/// exponent stays at or above `min_exp`; `m` is scaled to that quantum
/// exactly (shifting up) or by `round_div` (rounding down by `2^(t-g)`). A
/// rounded significand that carries into `2^(sig_bits + 1)` moves up one
/// exponent. The result overflows to infinity (with the overflow and
/// inexact flags) when its exponent exceeds `max_exp`; it is encoded with a
/// zero exponent field when its significand stays below `2^sig_bits`, with
/// the underflow flag when inexact; the inexact flag is raised exactly when
/// rounding discarded a nonzero part.
pub open spec fn spec_round_to_format(
    mode: RoundingMode,
    s: int,
    g: int,
    zero_sign: bool,
    q: FloatParameters,
) -> (Seq<bool>, Exception) {
    let p = q.sig_bits as nat;
    if s == 0 {
        (Float::spec_zero_bits(q, zero_sign), Exception::spec_none())
    } else {
        let neg = s < 0;
        let m = (if s < 0 {
            -s
        } else {
            s
        }) as nat;
        let e = g + bitlen(m) - 1;
        let t = (if e >= q.spec_min_exp() {
            e
        } else {
            q.spec_min_exp()
        }) - p;
        let inexact = t > g && m % pow2((t - g) as nat) != 0;
        let n0 = if g >= t {
            m * pow2((g - t) as nat)
        } else {
            round_div(mode, neg, m, (t - g) as nat)
        };
        let n = if n0 == pow2((p + 1) as nat) {
            pow2(p)
        } else {
            n0
        };
        let t2 = if n0 == pow2((p + 1) as nat) {
            t + 1
        } else {
            t
        };
        spec_encode_final(neg, n, t2, inexact, q)
    }
}

/// The last stage of `spec_round_to_format`: the bits and flags that a
/// rounded significand `n` at quantum exponent `t2` encodes to.
pub open spec fn spec_encode_final(
    neg: bool,
    n: nat,
    t2: int,
    inexact: bool,
    q: FloatParameters,
) -> (Seq<bool>, Exception) {
    let p = q.sig_bits as nat;
    if n == 0 {
        (
            Float::spec_zero_bits(q, neg),
            Exception {
                invalid_operation: false,
                division_by_zero: false,
                overflow: false,
                underflow: true,
                inexact: true,
            },
        )
    } else if t2 + bitlen(n) - 1 > q.spec_max_exp() {
        (
            Float::spec_inf_bits(q, neg),
            Exception {
                invalid_operation: false,
                division_by_zero: false,
                overflow: true,
                underflow: false,
                inexact: true,
            },
        )
    } else if n >= pow2(p) {
        (
            Float::spec_from_parts_bits(q, neg, t2 + p, nat_to_bits((n - pow2(p)) as nat, p)),
            Exception {
                invalid_operation: false,
                division_by_zero: false,
                overflow: false,
                underflow: false,
                inexact: inexact,
            },
        )
    } else {
        (
            Float::spec_from_parts_bits(q, neg, q.spec_min_exp() - 1, nat_to_bits(n, p)),
            Exception {
                invalid_operation: false,
                division_by_zero: false,
                overflow: false,
                underflow: inexact,
                inexact: inexact,
            },
        )
    }
}

/// The whole operation: NaN operands propagate as NaN with the invalid
/// flag; infinities of effectively opposite sign are invalid, otherwise an
/// infinite operand fixes the result with its own sign; two finite operands
/// are combined exactly and rounded. An exact zero takes the shared sign of
/// two zero operands, else the sign rounding toward negative would give.
pub open spec fn add_sub_spec(
    subtract: bool,
    mode: RoundingMode,
    a: Float,
    b: Float,
    out: FloatParameters,
) -> (Seq<bool>, Exception) {
    let ca = a.spec_classify();
    let cb = b.spec_classify();
    if ca.spec_nan() || cb.spec_nan() {
        (Float::spec_nan_bits(out), Exception::spec_invalid())
    } else {
        let eff_sub = (a.spec_sign() != b.spec_sign()) != subtract;
        if ca.spec_inf() && cb.spec_inf() {
            if eff_sub {
                (Float::spec_nan_bits(out), Exception::spec_invalid())
            } else {
                (Float::spec_inf_bits(out, a.spec_sign()), Exception::spec_none())
            }
        } else if ca.spec_inf() {
            (Float::spec_inf_bits(out, a.spec_sign()), Exception::spec_none())
        } else if cb.spec_inf() {
            (Float::spec_inf_bits(out, b.spec_sign()), Exception::spec_none())
        } else {
            let zs = if ca.spec_zero() && cb.spec_zero() {
                if a.spec_sign() == (b.spec_sign() != subtract) {
                    a.spec_sign()
                } else {
                    mode == RoundingMode::TowardNegative
                }
            } else {
                mode == RoundingMode::TowardNegative
            };
            spec_round_to_format(mode, exact_sum(a, b, subtract), sum_scale(a, b), zs, out)
        }
    }
}

/// Combines two signed magnitudes exactly: the result is the signed sum,
/// as a sign and a trimmed magnitude (a zero magnitude carries a positive
/// sign).
fn combine_signed(na: bool, av: &Vec<bool>, nb: bool, bv: &Vec<bool>) -> (r: (bool, Vec<bool>))
    ensures
        (if r.0 {
            -(bits_value(r.1@) as int)
        } else {
            bits_value(r.1@) as int
        }) == (if na {
            -(bits_value(av@) as int)
        } else {
            bits_value(av@) as int
        }) + (if nb {
            -(bits_value(bv@) as int)
        } else {
            bits_value(bv@) as int
        }),
        bits_value(r.1@) == 0 ==> r.0 == false,
        r.1@.len() == bitlen(bits_value(r.1@)),
{
    if na == nb {
        let s = big_add(av, bv);
        let s = trim_high_zeros(&s);
        let neg = na && s.len() > 0;
        proof {
            if s@.len() == 0 {
                assert(bits_value(s@) == 0);
            } else {
                lemma_bitlen_bounds(bits_value(s@));
            }
        }
        (neg, s)
    } else {
        let (blt, m) = big_sub_abs(av, bv);
        let m = trim_high_zeros(&m);
        if m.len() == 0 {
            (false, m)
        } else {
            let neg = if na {
                !blt
            } else {
                blt
            };
            (neg, m)
        }
    }
}

impl AddSub {
    /// The number of operands the operation takes.
    pub fn num_params(&self) -> (r: usize)
        ensures
            r == 2,
    {
        2
    }

    /// Performs the operation and returns the result in the output format
    /// with the flags it raised. The two operands must share one layout.
    pub fn execute(&self, env: &FloatingPointEnv, a: &Float, b: &Float, output_type:
        &FloatParameters) -> (r: (Float, Exception))
        requires
            a.wf(),
            b.wf(),
            output_type.valid(),
            a.spec_params() == b.spec_params(),
        ensures
            r.0.wf(),
            r.0.spec_params() == *output_type,
            r.0.spec_bits() == add_sub_spec(self.0, env.rounding_mode, *a, *b, *output_type).0,
            r.1 == add_sub_spec(self.0, env.rounding_mode, *a, *b, *output_type).1,
    {
        let (f, exc, _) = self.execute_explain(env, a, b, output_type);
        (f, exc)
    }

    /// The same operation, returning beside the result the derivation that
    /// produced it, one step per algorithm stage. The result and flags are
    /// pinned to the same `add_sub_spec` as `execute`'s, so the two variants
    /// always agree; the narrative is a rendering side channel and never
    /// feeds back into the numbers.
    #[verifier::rlimit(100)]
    pub fn execute_explain(&self, env: &FloatingPointEnv, a: &Float, b: &Float, output_type:
        &FloatParameters) -> (r: (Float, Exception, Vec<TraceStep>))
        requires
            a.wf(),
            b.wf(),
            output_type.valid(),
            a.spec_params() == b.spec_params(),
        ensures
            r.0.wf(),
            r.0.spec_params() == *output_type,
            r.0.spec_bits() == add_sub_spec(self.0, env.rounding_mode, *a, *b, *output_type).0,
            r.1 == add_sub_spec(self.0, env.rounding_mode, *a, *b, *output_type).1,
    {
        let subtract = self.0;
        let mode = env.rounding_mode;
        let mut trace: Vec<TraceStep> = Vec::new();
        let a_class = a.classify();
        let b_class = b.classify();
        trace.push(TraceStep::Classified { a: a_class, b: b_class });
        if a_class.nan() || b_class.nan() {
            trace.push(TraceStep::NanOperand);
            return (Float::nan(output_type), invalid_exception(), trace);
        }
        let eff_sub = (a.sign() != b.sign()) != subtract;
        if a_class.inf() && b_class.inf() {
            if eff_sub {
                trace.push(TraceStep::InfMinusInf);
                return (Float::nan(output_type), invalid_exception(), trace);
            }
            trace.push(TraceStep::InfResult { sign: a.sign() });
            return (Float::inf(output_type, a.sign()), Exception::none(), trace);
        }
        if a_class.inf() {
            trace.push(TraceStep::InfResult { sign: a.sign() });
            return (Float::inf(output_type, a.sign()), Exception::none(), trace);
        }
        if b_class.inf() {
            trace.push(TraceStep::InfResult { sign: b.sign() });
            return (Float::inf(output_type, b.sign()), Exception::none(), trace);
        }
        trace.push(TraceStep::BothFinite { effective_subtract: eff_sub });

        // Both operands are finite: align the logical significands on the
        // common scale g = min(ulp_exp(a), ulp_exp(b)) and combine exactly.
        proof {
            lemma_finite_ranges(a);
            lemma_finite_ranges(b);
        }
        let p_in = a.params().sig_bits;
        let sa = a.significand_logical();
        let sb = b.significand_logical();
        let ea: i128 = a.exponent_logical() as i128;
        let eb: i128 = b.exponent_logical() as i128;
        let ga: i128 = ea - p_in as i128;
        let gb: i128 = eb - p_in as i128;
        let g: i128 = if ga <= gb {
            ga
        } else {
            gb
        };
        let ghost w_in = a.spec_params().exp_bits as nat;
        proof {
            assert(ga == ulp_exp(*a) && gb == ulp_exp(*b) && g == sum_scale(*a, *b));
            // alignment shifts fit the machine: they are at most
            // max_exp + 1 - min_exp = pow2(exp_bits) - 2
            assert(ga - g <= pow2(w_in) - 2 && gb - g <= pow2(w_in) - 2);
        }
        let sh_a: usize = (ga - g) as usize;
        let sh_b: usize = (gb - g) as usize;
        let av = shl_bits(&sa, sh_a);
        let bv = shl_bits(&sb, sh_b);
        let na = a.sign();
        let nb = b.sign() != subtract;
        let (neg, mag) = combine_signed(na, &av, nb, &bv);
        trace.push(
            TraceStep::Aligned {
                a_mag: copy_range(&av, 0, av.len()),
                b_mag: copy_range(&bv, 0, bv.len()),
                sum_negative: neg,
                sum_mag: copy_range(&mag, 0, mag.len()),
            },
        );
        let ghost s_spec = exact_sum(*a, *b, subtract);
        let ghost magv = bits_value(mag@);
        proof {
            lemma_signed_contribution(*a, sh_a as nat, bits_value(sa@), bits_value(av@), na, g as int);
            lemma_signed_contribution_b(
                *b,
                sh_b as nat,
                bits_value(sb@),
                bits_value(bv@),
                nb,
                subtract,
                g as int,
            );
            assert(s_spec == (if neg {
                -(magv as int)
            } else {
                magv as int
            }));
        }

        // the exact result is zero: the sign is fixed by convention
        if mag.len() == 0 {
            let zsign = if a_class.zero() && b_class.zero() {
                if na == nb {
                    na
                } else {
                    is_toward_negative(mode)
                }
            } else {
                is_toward_negative(mode)
            };
            proof {
                assert(magv == 0 && s_spec == 0);
            }
            trace.push(TraceStep::ExactZero { sign: zsign });
            return (Float::signed_zero(output_type, zsign), Exception::none(), trace);
        }

        // the exact result is m * 2^g with m != 0: round and encode
        proof {
            assert(magv > 0) by {
                lemma_bitlen_bounds_zero(magv, mag@.len() as nat);
            }
            assert(s_spec != 0);
            assert(pow2(63) == 0x8000000000000000 && pow2(64) == 0x10000000000000000) by {
                lemma2_to64();
                lemma2_to64_rest();
            }
            assert(pow2(w_in) <= pow2(63)) by {
                if w_in < 63 {
                    lemma_pow2_strictly_increases(w_in, 63);
                }
            }
        }
        let (f, exc) = encode_rounded(mode, neg, mag, g, output_type, &mut trace);
        (f, exc, trace)
    }
}

/// Rounds the nonzero exact value `(if neg then -m else m) * 2^g`, where
/// `m` is the magnitude's value, into the output format: the
/// executable side of `spec_round_to_format`.
#[verifier::rlimit(100)]
fn encode_rounded(
    mode: RoundingMode,
    neg: bool,
    mag: Vec<bool>,
    g: i128,
    output_type: &FloatParameters,
    trace: &mut Vec<TraceStep>,
) -> (r: (Float, Exception))
    requires
        output_type.valid(),
        mag@.len() == bitlen(bits_value(mag@)),
        bits_value(mag@) > 0,
        -(pow2(64) as int) <= g <= pow2(64) as int,
    ensures
        r.0.wf(),
        r.0.spec_params() == *output_type,
        ({
            let s = if neg {
                -(bits_value(mag@) as int)
            } else {
                bits_value(mag@) as int
            };
            r.0.spec_bits() == spec_round_to_format(mode, s, g as int, false, *output_type).0
                && r.1 == spec_round_to_format(mode, s, g as int, false, *output_type).1
        }),
{
    let ghost magv = bits_value(mag@);
    let bl = mag.len();
    proof {
        lemma_bitlen_bounds(magv);
        assert(pow2(63) == 0x8000000000000000 && pow2(64) == 0x10000000000000000) by {
            lemma2_to64();
            lemma2_to64_rest();
        }
        assert(pow2(output_type.exp_bits as nat) <= pow2(63)) by {
            if output_type.exp_bits < 63 {
                lemma_pow2_strictly_increases(output_type.exp_bits as nat, 63);
            }
        }
    }
    let minexp: i128 = output_type.min_exp() as i128;
    let maxexp: i128 = output_type.max_exp() as i128;
    let p = output_type.sig_bits;
    let e: i128 = g + bl as i128 - 1;
    let t: i128 = (if e >= minexp {
        e
    } else {
        minexp
    }) - p as i128;
    let ghost pn = p as nat;
    let ghost d_spec = (t - g) as nat;
    proof {
        assert(t >= e - p as i128);
        assert(t >= minexp - p as i128);
    }
    let (n_raw, inexact): (Vec<bool>, bool) = if g >= t {
        proof {
            assert(g - t <= p as i128 + 1 - bl as i128);
        }
        let sh = (g - t) as usize;
        let v = shl_bits(&mag, sh);
        proof {
            assert(bits_value(v@) == pow2(sh as nat) * magv);
            assert(bits_value(v@) == magv * pow2((g - t) as nat)) by (nonlinear_arith)
                requires
                    bits_value(v@) == pow2(sh as nat) * magv,
                    sh as nat == (g - t) as nat,
            ;
        }
        (v, false)
    } else {
        if t - g > bl as i128 {
            // the whole magnitude sits below half of the smallest quantum:
            // it rounds to zero or to one quantum
            let up = match mode {
                RoundingMode::TowardPositive => !neg,
                RoundingMode::TowardNegative => neg,
                _ => false,
            };
            let mut v: Vec<bool> = Vec::new();
            proof {
                assert(2 * magv < pow2(d_spec)) by {
                    lemma_bitlen_le(magv, bl as nat);
                    assert(pow2((bl + 1) as nat) == 2 * pow2(bl as nat)) by {
                        lemma_pow2_adds(1, bl as nat);
                        lemma2_to64();
                    }
                    if ((bl + 1) as nat) < d_spec {
                        lemma_pow2_strictly_increases((bl + 1) as nat, d_spec);
                    }
                }
                lemma_round_div_tiny(mode, neg, magv, d_spec);
                vstd::arithmetic::div_mod::lemma_small_mod(magv, pow2(d_spec));
                lemma_pow2_pos(d_spec);
            }
            if up {
                v.push(true);
                proof {
                    assert(v@ =~= seq![true]);
                    assert(v@.skip(1) =~= Seq::<bool>::empty());
                    assert(bits_value(Seq::<bool>::empty()) == 0);
                    assert(v@[0]);
                    assert(bits_value(v@) == (if v@[0] {
                        1nat
                    } else {
                        0nat
                    }) + 2 * bits_value(v@.skip(1)));
                    assert(bits_value(v@) == 1);
                }
            } else {
                proof {
                    assert(bits_value(v@) == 0);
                }
            }
            (v, true)
        } else {
            let d = (t - g) as usize;
            round_shift(&mag, d, mode, neg)
        }
    };
    let n_vec = trim_high_zeros(&n_raw);
    let ghost n0 = bits_value(n_vec@);
    proof {
        assert(n0 == (if g >= t {
            magv * pow2((g - t) as nat)
        } else {
            round_div(mode, neg, magv, d_spec)
        }));
        lemma_n0_bound(mode, neg, magv, bl as nat, g as int, t as int, e as int, minexp as int, pn, n0);
        lemma_bitlen_le(n0, (pn + 1) as nat);
        assert(n0 < pow2((pn + 2) as nat)) by {
            lemma_pow2_strictly_increases((pn + 1) as nat, (pn + 2) as nat);
        }
        lemma_bitlen_le(n0, (pn + 2) as nat);
    }

    // a rounded significand that carried into sig_bits + 2 bits is a power
    // of two, one exponent up
    let (n_vec, t2): (Vec<bool>, i128) = if n_vec.len() == p + 2 {
        proof {
            assert(n0 >= pow2((pn + 1) as nat));
            assert(n0 == pow2((pn + 1) as nat));
            lemma_bits_value_injective(n_vec@);
            assert(pow2((pn + 1) as nat) == 2 * pow2(pn)) by {
                lemma_pow2_adds(1, pn);
                lemma2_to64();
            }
            assert(n0 % 2 == 0 && n0 / 2 == pow2(pn)) by (nonlinear_arith)
                requires
                    n0 == 2 * pow2(pn),
            ;
            assert(n_vec@[0] == (n0 % 2 == 1));
            assert(bits_value(n_vec@) == (if n_vec@[0] {
                1nat
            } else {
                0nat
            }) + 2 * bits_value(n_vec@.skip(1)));
        }
        let high = copy_range(&n_vec, 1, p + 2);
        proof {
            assert(high@ =~= n_vec@.skip(1));
            assert(bits_value(high@) == pow2(pn));
            // the shifted significand is a power of two: its length is its
            // bit length
            lemma_bitlen_le(pow2(pn), pn);
            lemma_bitlen_le(pow2(pn), (pn + 1) as nat);
            assert(pow2(pn) < pow2((pn + 1) as nat)) by {
                lemma_pow2_strictly_increases(pn, (pn + 1) as nat);
            }
            assert(bitlen(pow2(pn)) == pn + 1);
        }
        (high, t + 1)
    } else {
        proof {
            if n0 == pow2((pn + 1) as nat) {
                lemma_bitlen_bounds(n0);
            }
            assert(n0 != pow2((pn + 1) as nat));
        }
        (n_vec, t)
    };
    let ghost nn = bits_value(n_vec@);
    proof {
        assert(n_vec@.len() == bitlen(nn));
        assert(nn == (if n0 == pow2((pn + 1) as nat) {
            pow2(pn)
        } else {
            n0
        }));
        assert(nn < pow2((pn + 1) as nat)) by {
            if n0 == pow2((pn + 1) as nat) {
                lemma_pow2_strictly_increases(pn, (pn + 1) as nat);
            }
        }
        lemma_bitlen_le(nn, (pn + 1) as nat);
    }

    proof {
        assert(t2 >= minexp - p as i128);
        assert(t2 <= if e >= minexp {
            e + 1
        } else {
            minexp + 1
        });
        assert(pow2(66) == 4 * pow2(64)) by {
            lemma_pow2_adds(2, 64);
            lemma2_to64();
        }
        assert(usize::MAX as nat <= u64::MAX as nat);
        assert(bl <= usize::MAX);
        assert(t2 <= pow2(66) as int);
    }
    let (f, exc) = encode_final(neg, n_vec, t2, inexact, output_type, trace);
    (f, exc)
}

/// Encodes a rounded significand `n_vec` at quantum exponent `t2` into the
/// output format: the executable side of `spec_encode_final`.
#[verifier::rlimit(100)]
fn encode_final(
    neg: bool,
    n_vec: Vec<bool>,
    t2: i128,
    inexact: bool,
    output_type: &FloatParameters,
    trace: &mut Vec<TraceStep>,
) -> (r: (Float, Exception))
    requires
        output_type.valid(),
        n_vec@.len() == bitlen(bits_value(n_vec@)),
        bits_value(n_vec@) < pow2((output_type.sig_bits + 1) as nat),
        t2 >= output_type.spec_min_exp() - output_type.sig_bits,
        t2 <= pow2(66) as int,
    ensures
        r.0.wf(),
        r.0.spec_params() == *output_type,
        r.0.spec_bits() == spec_encode_final(
            neg,
            bits_value(n_vec@),
            t2 as int,
            inexact,
            *output_type,
        ).0,
        r.1 == spec_encode_final(neg, bits_value(n_vec@), t2 as int, inexact, *output_type).1,
{
    let ghost nn = bits_value(n_vec@);
    let p = output_type.sig_bits;
    let ghost pn = p as nat;
    proof {
        assert(pow2(63) == 0x8000000000000000 && pow2(64) == 0x10000000000000000) by {
            lemma2_to64();
            lemma2_to64_rest();
        }
        assert(pow2(output_type.exp_bits as nat) <= pow2(63)) by {
            if output_type.exp_bits < 63 {
                lemma_pow2_strictly_increases(output_type.exp_bits as nat, 63);
            }
        }
        lemma_bitlen_le(nn, (pn + 1) as nat);
    }
    let minexp: i128 = output_type.min_exp() as i128;
    let maxexp: i128 = output_type.max_exp() as i128;

    // the rounded magnitude vanished: signed zero, underflow and inexact
    if n_vec.len() == 0 {
        trace.push(TraceStep::RoundedToZero { sign: neg });
        return (
            Float::signed_zero(output_type, neg),
            Exception {
                invalid_operation: false,
                division_by_zero: false,
                overflow: false,
                underflow: true,
                inexact: true,
            },
        );
    }
    proof {
        assert(nn > 0) by {
            lemma_bitlen_bounds_zero(nn, n_vec@.len() as nat);
        }
        lemma_bitlen_bounds(nn);
    }

    proof {
        assert(n_vec@.len() <= p + 1);
        assert(pow2(66) == 4 * pow2(64)) by {
            lemma_pow2_adds(2, 64);
            lemma2_to64();
        }
    }
    let e2: i128 = t2 + n_vec.len() as i128 - 1;
    if e2 > maxexp {
        trace.push(TraceStep::Overflowed { exponent: e2 });
        return (
            Float::inf(output_type, neg),
            Exception {
                invalid_operation: false,
                division_by_zero: false,
                overflow: true,
                underflow: false,
                inexact: true,
            },
        );
    }
    if n_vec.len() == p + 1 {
        // normal encoding: drop the top (implicit) bit
        proof {
            assert(nn >= pow2(pn)) by {
                lemma_bitlen_le(nn, pn);
            }
            lemma_bits_value_split(n_vec@, pn as int);
            let top = n_vec@.subrange(pn as int, (pn + 1) as int);
            assert(top =~= seq![n_vec@[pn as int]]);
            assert(top.skip(1) =~= Seq::<bool>::empty());
            assert(bits_value(Seq::<bool>::empty()) == 0);
            assert(top[0] == n_vec@[pn as int]);
            assert(bits_value(top) == (if n_vec@[pn as int] {
                1nat
            } else {
                0nat
            }));
            lemma_bits_value_bound(n_vec@.subrange(0, pn as int));
            assert(pow2(pn) * bits_value(top) == pow2(pn) * (if n_vec@[pn as int] {
                1nat
            } else {
                0nat
            }));
            assert(pow2(pn) * 1nat == pow2(pn)) by (nonlinear_arith);
            assert(pow2(pn) * 0nat == 0nat) by (nonlinear_arith);
            assert(n_vec@[pn as int]);
            assert(bits_value(n_vec@.subrange(0, pn as int)) + pow2(pn) == nn);
            lemma_bits_value_injective(n_vec@.subrange(0, pn as int));
        }
        let sig = copy_range(&n_vec, 0, p);
        let ef: i64 = (t2 + p as i128) as i64;
        let f = Float::from_parts(output_type, neg, ef, &sig);
        trace.push(TraceStep::EncodedNormal { exponent: ef });
        return (
            f,
            Exception {
                invalid_operation: false,
                division_by_zero: false,
                overflow: false,
                underflow: false,
                inexact: inexact,
            },
        );
    }
    // subnormal encoding: the exponent field is zero
    proof {
        assert(n_vec@.len() <= pn);
        lemma_bits_value_bound(n_vec@);
        assert(nn < pow2(pn)) by {
            if n_vec@.len() < pn {
                lemma_pow2_strictly_increases(n_vec@.len() as nat, pn);
            }
        }
    }
    let sig = pad_high(n_vec, p);
    proof {
        lemma_bits_value_injective(sig@);
    }
    let minexp_field: i64 = (minexp - 1) as i64;
    let f = Float::from_parts(output_type, neg, minexp_field, &sig);
    trace.push(TraceStep::EncodedSubnormal);
    (
        f,
        Exception {
            invalid_operation: false,
            division_by_zero: false,
            overflow: false,
            underflow: inexact,
            inexact: inexact,
        },
    )
}

/// The invalid-operation flag alone.
fn invalid_exception() -> (r: Exception)
    ensures
        r == Exception::spec_invalid(),
{
    Exception {
        invalid_operation: true,
        division_by_zero: false,
        overflow: false,
        underflow: false,
        inexact: false,
    }
}

/// Whether the mode is the one that rounds toward negative infinity.
fn is_toward_negative(mode: RoundingMode) -> (r: bool)
    ensures
        r == (mode == RoundingMode::TowardNegative),
{
    matches!(mode, RoundingMode::TowardNegative)
}

/// A value of `bitlen` zero is zero.
proof fn lemma_bitlen_bounds_zero(v: nat, l: nat)
    requires
        l == bitlen(v),
    ensures
        (l == 0) <==> (v == 0),
{
    if v != 0 {
        lemma_bitlen_bounds(v);
    }
}

/// The signed aligned contribution of operand `a` equals its term in
/// `exact_sum`.
proof fn lemma_signed_contribution(a: Float, sh: nat, la: nat, av: nat, na: bool, g: int)
    requires
        a.wf(),
        a.spec_classify().spec_finite(),
        la == a.spec_logical_sig(),
        av == pow2(sh) * la,
        na == a.spec_sign(),
        sh == ulp_exp(a) - g,
    ensures
        (if na {
            -(av as int)
        } else {
            av as int
        }) == signed_num(a) * pow2((ulp_exp(a) - g) as nat),
{
    if na {
        assert(-((pow2(sh) * la) as int) == (-(la as int)) * pow2(sh)) by (nonlinear_arith);
    } else {
        assert((pow2(sh) * la) as int == (la as int) * pow2(sh)) by (nonlinear_arith);
    }
}

/// The signed aligned contribution of operand `b`, with the subtract flag
/// folded into its sign, equals its term in `exact_sum`.
proof fn lemma_signed_contribution_b(
    b: Float,
    sh: nat,
    lb: nat,
    bv: nat,
    nb: bool,
    subtract: bool,
    g: int,
)
    requires
        b.wf(),
        b.spec_classify().spec_finite(),
        lb == b.spec_logical_sig(),
        bv == pow2(sh) * lb,
        nb == (b.spec_sign() != subtract),
        sh == ulp_exp(b) - g,
    ensures
        (if nb {
            -(bv as int)
        } else {
            bv as int
        }) == (if subtract {
            -1
        } else {
            1
        }) * signed_num(b) * pow2((ulp_exp(b) - g) as nat),
{
    let sn = signed_num(b);
    let c: int = if subtract {
        -1
    } else {
        1
    };
    assert(c * sn * pow2(sh) == c * (sn * pow2(sh))) by (nonlinear_arith);
    assert((-(lb as int)) * pow2(sh) == -((pow2(sh) * lb) as int)) by (nonlinear_arith);
    assert((lb as int) * pow2(sh) == (pow2(sh) * lb) as int) by (nonlinear_arith);
    if b.spec_sign() {
        assert(sn == -(lb as int));
        assert(sn * pow2(sh) == -((pow2(sh) * lb) as int));
    } else {
        assert(sn == lb as int);
        assert(sn * pow2(sh) == (pow2(sh) * lb) as int);
    }
    if c == 1 {
        assert(c * (sn * pow2(sh)) == sn * pow2(sh));
    } else {
        assert(c * (sn * pow2(sh)) == -(sn * pow2(sh))) by (nonlinear_arith)
            requires
                c == -1,
        ;
    }
}

/// The scaled-or-rounded significand never exceeds `2^(sig_bits + 1)`.
proof fn lemma_n0_bound(
    mode: RoundingMode,
    neg: bool,
    m: nat,
    bl: nat,
    g: int,
    t: int,
    e: int,
    minexp: int,
    p: nat,
    n0: nat,
)
    requires
        m > 0,
        bl == bitlen(m),
        e == g + bl - 1,
        t == (if e >= minexp {
            e
        } else {
            minexp
        }) - p,
        n0 == (if g >= t {
            m * pow2((g - t) as nat)
        } else {
            round_div(mode, neg, m, (t - g) as nat)
        }),
    ensures
        n0 <= pow2((p + 1) as nat),
        g >= t ==> n0 < pow2((p + 1) as nat),
{
    lemma_bitlen_bounds(m);
    assert(e - t <= p);
    if g >= t {
        // n0 = m * 2^(g - t) < 2^bl * 2^(g - t) = 2^(e - t + 1) <= 2^(p + 1)
        lemma_pow2_adds(bl, (g - t) as nat);
        lemma_pow2_pos((g - t) as nat);
        assert(m * pow2((g - t) as nat) < pow2(bl) * pow2((g - t) as nat)) by (nonlinear_arith)
            requires
                m < pow2(bl),
                pow2((g - t) as nat) > 0,
        ;
        assert(bl + (g - t) == e - t + 1);
        if ((e - t + 1) as nat) < (p + 1) as nat {
            lemma_pow2_strictly_increases((e - t + 1) as nat, (p + 1) as nat);
        }
    } else {
        let d = (t - g) as nat;
        lemma_round_div_le(mode, neg, m, d);
        // m / 2^d < 2^(bl - d) when d <= bl, and bl - d <= p, so the
        // quotient is below 2^p and n0 at most 2^p + ... <= 2^(p+1)
        lemma_pow2_pos(d);
        if d <= bl {
            lemma_pow2_adds((bl - d) as nat, d);
            assert(m < pow2(d) * pow2((bl - d) as nat)) by (nonlinear_arith)
                requires
                    m < pow2(bl),
                    pow2(bl) == pow2((bl - d) as nat) * pow2(d),
            ;
            lemma_multiply_divide_lt(m as int, pow2(d) as int, pow2((bl - d) as nat) as int);
            assert(m / pow2(d) < pow2((bl - d) as nat));
            assert((bl - d) as nat <= p + 1);
            if ((bl - d) as nat) < (p + 1) as nat {
                lemma_pow2_strictly_increases((bl - d) as nat, (p + 1) as nat);
            }
            assert(m / pow2(d) + 1 <= pow2((p + 1) as nat));
        } else {
            lemma_pow2_strictly_increases(bl, d);
            lemma_multiply_divide_lt(m as int, pow2(d) as int, 1);
            assert(m / pow2(d) == 0);
            lemma_pow2_pos((p + 1) as nat);
        }
    }
}

} // verus!
