//! Exact decimal rendering of a finite value.
//!
//! The exact rational value of a finite pattern is
//! `(-1)^sign * sig * 2^(e - p)` for its logical significand `sig`,
//! logical exponent `e` and significand width `p`. When `e >= p` the value
//! is an integer. Otherwise the significand is scaled by ten until a right
//! shift by `p - e` bits is exact; the number of scalings is the number of
//! decimal fraction digits, and the decimal point is inserted that many
//! digits from the right. Nothing is ever rounded.
use vstd::prelude::*;
use vstd::arithmetic::power::pow;
use vstd::arithmetic::power2::*;
use vstd::arithmetic::div_mod::{
    lemma_fundamental_div_mod_converse, lemma_mod_multiples_vanish,
};
use crate::bignum::{big_mul10, big_to_dec_chars, chars_to_string, dec_digits};
use crate::bits::{
    bits_value, copy_range, lemma_bits_value_split, lemma_bits_value_zero, shl_bits,
};
use crate::floats::{lemma_finite_ranges, Float};

verus! {

/// The number of zero bits below the lowest set bit of a positive number.
pub open spec fn trailing_zeros(n: nat) -> nat
    recommends
        n > 0,
    decreases n,
{
    if n == 0 {
        0
    } else if n % 2 == 1 {
        0
    } else {
        1 + trailing_zeros(n / 2)
    }
}

/// How many decimal scalings make a right shift by `req` bits exact.
pub open spec fn dec_shift(sig: nat, req: nat) -> nat {
    if sig == 0 {
        0
    } else if trailing_zeros(sig) >= req {
        0
    } else {
        (req - trailing_zeros(sig)) as nat
    }
}

/// The exact decimal rendering of `(-1)^sign * sig * 2^(e - p)`.
pub open spec fn exact_decimal(sign: bool, sig: nat, e: int, p: nat) -> Seq<char> {
    let sgn: Seq<char> = if sign {
        seq!['-']
    } else {
        Seq::empty()
    };
    if e >= p {
        sgn + dec_digits(sig * pow2((e - p) as nat))
    } else {
        let req = (p - e) as nat;
        let d = dec_shift(sig, req);
        let digits = dec_digits((sig * pow(10, d) / pow2(req) as int) as nat);
        sgn + (if d == 0 {
            digits
        } else if d <= digits.len() {
            digits.subrange(0, digits.len() - d) + seq!['.'] + digits.subrange(
                digits.len() - d,
                digits.len() as int,
            )
        } else {
            seq!['.'] + Seq::new((d - digits.len()) as nat, |i: int| '0') + digits
        })
    }
}

/// A number `pow2(k) * m` with `m` odd has exactly `k` trailing zeros.
proof fn lemma_tz_pow2_odd(k: nat, m: nat)
    requires
        m % 2 == 1,
    ensures
        trailing_zeros(pow2(k) * m) == k,
    decreases k,
{
    if k == 0 {
        assert(pow2(0) == 1) by {
            lemma2_to64();
        }
        assert(pow2(0) * m == m) by (nonlinear_arith)
            requires
                pow2(0) == 1,
        ;
    } else {
        lemma_tz_pow2_odd((k - 1) as nat, m);
        let v = pow2(k) * m;
        let v1 = pow2((k - 1) as nat) * m;
        assert(pow2(k) == 2 * pow2((k - 1) as nat)) by {
            lemma_pow2_adds(1, (k - 1) as nat);
            lemma2_to64();
        }
        assert(v == 2 * v1) by (nonlinear_arith)
            requires
                v == pow2(k) * m,
                v1 == pow2((k - 1) as nat) * m,
                pow2(k) == 2 * pow2((k - 1) as nat),
        ;
        assert(v % 2 == 0 && v / 2 == v1) by (nonlinear_arith)
            requires
                v == 2 * v1,
        ;
        lemma_pow2_pos((k - 1) as nat);
        assert(v1 > 0) by (nonlinear_arith)
            requires
                v1 == pow2((k - 1) as nat) * m,
                pow2((k - 1) as nat) > 0,
                m % 2 == 1,
        ;
    }
}

/// Scaling a positive number by ten adds exactly one trailing zero bit.
proof fn lemma_tz_mul10(n: nat)
    requires
        n > 0,
    ensures
        trailing_zeros(10 * n) == trailing_zeros(n) + 1,
{
    lemma_tz_mul5(n);
    let f = 5 * n;
    assert(f > 0) by (nonlinear_arith)
        requires
            f == 5 * n,
            n > 0,
    ;
    assert(10 * n == 2 * f);
    assert((2 * f) % 2 == 0 && (2 * f) / 2 == f) by (nonlinear_arith);
    assert(trailing_zeros(2 * f) == 1 + trailing_zeros(f));
}

/// Scaling by five leaves the trailing zero bits unchanged.
proof fn lemma_tz_mul5(n: nat)
    requires
        n > 0,
    ensures
        trailing_zeros(5 * n) == trailing_zeros(n),
    decreases n,
{
    lemma_mod_multiples_vanish(2 * n as int, n as int, 2);
    assert(2 * (2 * n as int) + n == 5 * n);
    assert((5 * n) % 2 == n % 2);
    if n % 2 == 1 {
    } else {
        let k = n / 2;
        assert(n == 2 * k);
        assert(k > 0);
        lemma_tz_mul5(k);
        assert((5 * n) / 2 == 5 * k) by (nonlinear_arith)
            requires
                n == 2 * k,
        ;
        assert(trailing_zeros(5 * n) == 1 + trailing_zeros(5 * k));
        assert(trailing_zeros(n) == 1 + trailing_zeros(k));
    }
}

/// A vector whose lowest set bit sits at index `j` denotes a number with
/// exactly `j` trailing zeros.
proof fn lemma_tz_vec(v: Seq<bool>, j: int)
    requires
        0 <= j < v.len(),
        v[j],
        forall|i: int| 0 <= i < j ==> !v[i],
    ensures
        bits_value(v) > 0,
        trailing_zeros(bits_value(v)) == j,
{
    lemma_bits_value_split(v, j);
    let low = v.subrange(0, j);
    let high = v.subrange(j, v.len() as int);
    assert(forall|i: int| 0 <= i < low.len() ==> !low[i]);
    lemma_bits_value_zero(low);
    assert(bits_value(v) == pow2(j as nat) * bits_value(high));
    assert(high[0] == v[j]);
    assert(bits_value(high) == (if high[0] {
        1nat
    } else {
        0nat
    }) + 2 * bits_value(high.skip(1)));
    assert(bits_value(high) % 2 == 1) by (nonlinear_arith)
        requires
            bits_value(high) == 1 + 2 * bits_value(high.skip(1)),
    ;
    lemma_tz_pow2_odd(j as nat, bits_value(high));
    lemma_pow2_pos(j as nat);
    assert(bits_value(v) > 0) by (nonlinear_arith)
        requires
            bits_value(v) == pow2(j as nat) * bits_value(high),
            pow2(j as nat) > 0,
            bits_value(high) % 2 == 1,
    ;
}

/// The index of the lowest set bit.
fn lowest_true(v: &Vec<bool>) -> (r: usize)
    requires
        exists|i: int| 0 <= i < v@.len() && v@[i],
    ensures
        r < v@.len(),
        v@[r as int],
        forall|i: int| 0 <= i < r ==> !v@[i],
{
    let n = v.len();
    let mut i: usize = 0;
    while i < n
        invariant
            i <= n == v@.len(),
            exists|k: int| 0 <= k < v@.len() && v@[k],
            forall|k: int| 0 <= k < i ==> !v@[k],
        decreases n - i,
    {
        if v[i] {
            return i;
        }
        i = i + 1;
    }
    proof {
        let k = choose|k: int| 0 <= k < v@.len() && v@[k];
        assert(!v@[k]);
    }
    0
}

/// Appends `src[from..to]` to `out`.
fn push_range(out: &mut Vec<char>, src: &Vec<char>, from: usize, to: usize)
    requires
        from <= to <= src@.len(),
    ensures
        final(out)@ == old(out)@ + src@.subrange(from as int, to as int),
{
    let ghost orig = out@;
    let mut i: usize = from;
    proof {
        assert(orig + src@.subrange(from as int, from as int) =~= orig);
    }
    while i < to
        invariant
            from <= i <= to <= src@.len(),
            out@ =~= orig + src@.subrange(from as int, i as int),
        decreases to - i,
    {
        out.push(src[i]);
        proof {
            assert(out@ =~= orig + src@.subrange(from as int, i + 1));
        }
        i = i + 1;
    }
}

/// Renders the exact decimal value of a finite pattern; the sign is written
/// as a leading minus, a fractional part after a decimal point, never
/// rounded.
pub fn float_to_exact_str(f: &Float) -> (r: String)
    requires
        f.wf(),
        f.spec_classify().spec_finite(),
    ensures
        r@ == exact_decimal(
            f.spec_sign(),
            f.spec_logical_sig(),
            f.spec_exp_logical(),
            f.spec_params().sig_bits as nat,
        ),
{
    proof {
        lemma_finite_ranges(f);
        assert(pow2(63) == 0x8000000000000000 && pow2(64) == 0x10000000000000000) by {
            lemma2_to64();
            lemma2_to64_rest();
        }
        assert(pow2(f.spec_params().exp_bits as nat) <= pow2(63)) by {
            if f.spec_params().exp_bits < 63 {
                lemma_pow2_strictly_increases(f.spec_params().exp_bits as nat, 63);
            }
        }
    }
    let p = f.params().sig_bits;
    let e: i64 = f.exponent_logical();
    let sig = f.significand_logical();
    let sign = f.sign();
    let ghost ls = f.spec_logical_sig();
    let ghost pn = p as nat;
    let mut out: Vec<char> = Vec::new();
    if sign {
        out.push('-');
    }
    let ghost sgn_seq: Seq<char> = if sign {
        seq!['-']
    } else {
        Seq::empty()
    };
    proof {
        assert(out@ =~= sgn_seq);
    }
    if (e as i128) >= (p as i128) {
        // the value is an integer: shift the significand up and print it
        let sh = ((e as i128) - (p as i128)) as usize;
        let v = shl_bits(&sig, sh);
        proof {
            assert(bits_value(v@) == pow2(sh as nat) * ls);
            assert(pow2(sh as nat) * ls == ls * pow2((e - p) as nat)) by (nonlinear_arith)
                requires
                    sh as nat == (e - p) as nat,
        ;
        }
        let digits = big_to_dec_chars(&v);
        push_range(&mut out, &digits, 0, digits.len());
        proof {
            assert(digits@.subrange(0, digits@.len() as int) =~= digits@);
        }
        return chars_to_string(&out);
    }
    // the value has a binary fraction: scale by ten until the shift by
    // `req = p - e` bits is exact
    let req: u128 = ((p as i128) - (e as i128)) as u128;
    if !crate::bits::range_any_true(&sig, 0, sig.len()) {
        // the value is zero
        proof {
            lemma_bits_value_zero(sig@);
            assert(sig@.subrange(0, sig@.len() as int) =~= sig@);
            crate::bits::lemma_range_quant_equiv(sig@, 0, sig@.len() as int);
            assert(ls == 0);
            assert(dec_digits(0) == seq!['0']);
            let req_g = (pn - f.spec_exp_logical()) as nat;
            assert(dec_shift(0, req_g) == 0);
            assert(0nat * pow(10, 0) == 0) by (nonlinear_arith);
            lemma_pow2_pos(req_g);
            vstd::arithmetic::div_mod::lemma_div_of0(pow2(req_g) as int);
            assert((0int / pow2(req_g) as int) == 0);
        }
        out.push('0');
        proof {
            assert(out@ =~= sgn_seq + seq!['0']);
        }
        return chars_to_string(&out);
    }
    proof {
        crate::bits::lemma_range_quant_equiv(sig@, 0, sig@.len() as int);
        assert(sig@.subrange(0, sig@.len() as int) =~= sig@);
    }
    let mut cur = copy_range(&sig, 0, sig.len());
    proof {
        assert(cur@ =~= sig@);
    }
    let ghost d_spec = dec_shift(ls, req as nat);
    let mut cnt: u128 = 0;
    let mut j = lowest_true(&cur);
    proof {
        lemma_tz_vec(cur@, j as int);
        assert(trailing_zeros(ls) == j as nat);
        assert(pow(10, 0) == 1) by {
            vstd::arithmetic::power::lemma_pow0(10);
        }
        assert(ls * pow(10, 0) == ls) by (nonlinear_arith)
            requires
                pow(10, 0) == 1,
        ;
        assert(d_spec <= req);
    }
    while (j as u128) < req
        invariant
            j < cur@.len(),
            cur@[j as int],
            forall|i: int| 0 <= i < j ==> !cur@[i],
            ls > 0,
            cnt as nat <= d_spec,
            d_spec <= req,
            d_spec == dec_shift(ls, req as nat),
            trailing_zeros(bits_value(cur@)) == j as nat,
            j as nat == trailing_zeros(ls) + cnt as nat,
            bits_value(cur@) == ls * pow(10, cnt as nat),
            bits_value(cur@) > 0,
        decreases req - j,
    {
        let ghost old_j = j as nat;
        let next = big_mul10(&cur);
        proof {
            lemma_tz_mul10(bits_value(cur@));
            assert(pow(10, (cnt + 1) as nat) == 10 * pow(10, cnt as nat)) by {
                vstd::arithmetic::power::lemma_pow_adds(10, 1, cnt as nat);
                vstd::arithmetic::power::lemma_pow1(10);
            }
            assert(10 * (ls * pow(10, cnt as nat)) == ls * pow(10, (cnt + 1) as nat))
                by (nonlinear_arith)
                requires
                    pow(10, (cnt + 1) as nat) == 10 * pow(10, cnt as nat),
            ;
            assert(bits_value(next@) > 0) by (nonlinear_arith)
                requires
                    bits_value(next@) == 10 * bits_value(cur@),
                    bits_value(cur@) > 0,
            ;
        }
        cur = next;
        cnt = cnt + 1;
        proof {
            lemma_bits_value_zero(cur@);
        }
        j = lowest_true(&cur);
        proof {
            lemma_tz_vec(cur@, j as int);
            assert(j as nat == old_j + 1);
        }
    }
    let ghost d = cnt as nat;
    proof {
        assert(d == d_spec);
    }
    // shift right by req, exactly: every bit below req is zero
    let req_usz = req as usize;
    let high = copy_range(&cur, req_usz, cur.len());
    proof {
        lemma_bits_value_split(cur@, req_usz as int);
        let low = cur@.subrange(0, req_usz as int);
        assert(forall|i: int| 0 <= i < low.len() ==> !low[i]);
        lemma_bits_value_zero(low);
        lemma_pow2_pos(req as nat);
        assert(bits_value(cur@) == bits_value(high@) * pow2(req as nat) + 0) by (nonlinear_arith)
            requires
                bits_value(cur@) == pow2(req as nat) * bits_value(high@),
        ;
        lemma_fundamental_div_mod_converse(
            bits_value(cur@) as int,
            pow2(req as nat) as int,
            bits_value(high@) as int,
            0,
        );
        assert(bits_value(high@) == bits_value(cur@) / pow2(req as nat));
    }
    let digits = big_to_dec_chars(&high);
    let nd = digits.len();
    let ghost spec_digits = dec_digits((ls * pow(10, d) / pow2(req as nat) as int) as nat);
    proof {
        assert(digits@ == spec_digits);
    }
    if cnt == 0 {
        push_range(&mut out, &digits, 0, nd);
        proof {
            assert(digits@.subrange(0, digits@.len() as int) =~= digits@);
            assert(out@ =~= sgn_seq + spec_digits);
        }
        chars_to_string(&out)
    } else if cnt <= nd as u128 {
        // the point sits inside the digit string, d digits from the right
        let split = nd - (cnt as usize);
        push_range(&mut out, &digits, 0, split);
        out.push('.');
        push_range(&mut out, &digits, split, nd);
        proof {
            assert(out@ =~= sgn_seq + (spec_digits.subrange(0, spec_digits.len() - d)
                + seq!['.'] + spec_digits.subrange(
                spec_digits.len() - d,
                spec_digits.len() as int,
            )));
        }
        chars_to_string(&out)
    } else {
        // fewer digits than fraction places: pad with zeros after the point
        out.push('.');
        let zeros: u128 = cnt - nd as u128;
        let mut k: u128 = 0;
        proof {
            assert(out@ =~= sgn_seq + seq!['.'] + Seq::new(0nat, |i: int| '0'));
        }
        while k < zeros
            invariant
                k <= zeros,
                out@ =~= sgn_seq + seq!['.'] + Seq::new(k as nat, |i: int| '0'),
            decreases zeros - k,
        {
            out.push('0');
            k = k + 1;
            proof {
                assert(out@ =~= sgn_seq + seq!['.'] + Seq::new(k as nat, |i: int| '0'));
            }
        }
        push_range(&mut out, &digits, 0, nd);
        proof {
            assert(digits@.subrange(0, digits@.len() as int) =~= digits@);
            assert(zeros as nat == d - spec_digits.len());
            assert(out@ =~= sgn_seq + (seq!['.'] + Seq::new(
                (d - spec_digits.len()) as nat,
                |i: int| '0',
            ) + spec_digits));
        }
        chars_to_string(&out)
    }
}

} // verus!
