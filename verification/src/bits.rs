//! Bit sequences, least-significant bit first, and their integer value.
//!
//! Every bit pattern in the crate is a `Vec<bool>` whose index 0 is the
//! least-significant bit. `bits_value` gives the unsigned integer such a
//! sequence denotes; `bitlen` is the length of the shortest sequence with a
//! given value.
use vstd::prelude::*;
use vstd::arithmetic::power2::*;

verus! {

/// The unsigned integer value of a bit sequence, least-significant bit first.
pub open spec fn bits_value(s: Seq<bool>) -> nat
    decreases s.len(),
{
    if s.len() == 0 {
        0
    } else {
        (if s[0] {
            1nat
        } else {
            0nat
        }) + 2 * bits_value(s.skip(1))
    }
}

/// The number of bits needed to write `n` in binary (0 for `n == 0`).
pub open spec fn bitlen(n: nat) -> nat
    decreases n,
{
    if n == 0 {
        0
    } else {
        1 + bitlen(n / 2)
    }
}

/// The binary digits of `n`, least-significant first, padded or cut to width `w`.
pub open spec fn nat_to_bits(n: nat, w: nat) -> Seq<bool>
    decreases w,
{
    if w == 0 {
        Seq::empty()
    } else {
        seq![n % 2 == 1] + nat_to_bits(n / 2, (w - 1) as nat)
    }
}

pub proof fn lemma_bits_value_bound(s: Seq<bool>)
    ensures
        bits_value(s) < pow2(s.len()),
    decreases s.len(),
{
    if s.len() == 0 {
        assert(pow2(0) == 1) by {
            lemma2_to64();
        }
    } else {
        lemma_bits_value_bound(s.skip(1));
        lemma_pow2_adds(1, (s.len() - 1) as nat);
        assert(pow2(1) == 2) by {
            lemma2_to64();
        }
    }
}

pub proof fn lemma_bits_value_push(s: Seq<bool>, b: bool)
    ensures
        bits_value(s.push(b)) == bits_value(s) + (if b {
            pow2(s.len())
        } else {
            0nat
        }),
    decreases s.len(),
{
    if s.len() == 0 {
        assert(s.push(b).skip(1) =~= Seq::<bool>::empty());
        assert(pow2(0) == 1) by {
            lemma2_to64();
        }
        assert(bits_value(s) == 0);
        assert(s.push(b).len() == 1);
        assert(s.push(b)[0] == b);
        assert(bits_value(Seq::<bool>::empty()) == 0);
        assert(bits_value(s.push(b)) == (if b {
            1nat
        } else {
            0nat
        }) + 2 * bits_value(s.push(b).skip(1)));
    } else {
        assert(s.push(b).skip(1) =~= s.skip(1).push(b));
        lemma_bits_value_push(s.skip(1), b);
        lemma_pow2_adds(1, (s.len() - 1) as nat);
        assert(pow2(1) == 2) by {
            lemma2_to64();
        }
        assert(s.push(b)[0] == s[0]);
    }
}

pub proof fn lemma_bits_value_concat(a: Seq<bool>, b: Seq<bool>)
    ensures
        bits_value(a + b) == bits_value(a) + pow2(a.len()) * bits_value(b),
    decreases a.len(),
{
    if a.len() == 0 {
        assert(a + b =~= b);
        assert(bits_value(a) == 0);
        assert(pow2(0) == 1) by {
            lemma2_to64();
        }
    } else {
        lemma_bits_value_concat(a.skip(1), b);
        assert((a + b).skip(1) =~= a.skip(1) + b);
        assert((a + b)[0] == a[0]);
        assert((a + b).len() == a.len() + b.len());
        assert(bits_value(a + b) == (if (a + b)[0] {
            1nat
        } else {
            0nat
        }) + 2 * bits_value((a + b).skip(1)));
        assert(bits_value(a) == (if a[0] {
            1nat
        } else {
            0nat
        }) + 2 * bits_value(a.skip(1)));
        assert(pow2(a.len()) == 2 * pow2((a.len() - 1) as nat)) by {
            lemma_pow2_adds(1, (a.len() - 1) as nat);
            lemma2_to64();
        }
        assert(2 * (pow2((a.len() - 1) as nat) * bits_value(b)) == (2 * pow2(
            (a.len() - 1) as nat,
        )) * bits_value(b)) by {
            vstd::arithmetic::mul::lemma_mul_is_associative(
                2,
                pow2((a.len() - 1) as nat) as int,
                bits_value(b) as int,
            );
        }
    }
}

/// Splitting a sequence at `k` splits its value at the weight `pow2(k)`.
pub proof fn lemma_bits_value_split(s: Seq<bool>, k: int)
    requires
        0 <= k <= s.len(),
    ensures
        bits_value(s) == bits_value(s.subrange(0, k)) + pow2(k as nat) * bits_value(
            s.subrange(k, s.len() as int),
        ),
{
    assert(s =~= s.subrange(0, k) + s.subrange(k, s.len() as int));
    lemma_bits_value_concat(s.subrange(0, k), s.subrange(k, s.len() as int));
}

pub proof fn lemma_bits_value_update(s: Seq<bool>, i: int, b: bool)
    requires
        0 <= i < s.len(),
    ensures
        bits_value(s.update(i, b)) + (if s[i] {
            pow2(i as nat)
        } else {
            0nat
        }) == bits_value(s) + (if b {
            pow2(i as nat)
        } else {
            0nat
        }),
    decreases i,
{
    if i == 0 {
        assert(s.update(0, b).skip(1) =~= s.skip(1));
        assert(s.update(0, b)[0] == b);
        assert(pow2(0) == 1) by {
            lemma2_to64();
        }
        assert(bits_value(s.update(0, b)) == (if b {
            1nat
        } else {
            0nat
        }) + 2 * bits_value(s.skip(1)));
        assert(bits_value(s) == (if s[0] {
            1nat
        } else {
            0nat
        }) + 2 * bits_value(s.skip(1)));
    } else {
        assert(s.update(i, b).skip(1) =~= s.skip(1).update(i - 1, b));
        lemma_bits_value_update(s.skip(1), i - 1, b);
        assert(pow2(i as nat) == 2 * pow2((i - 1) as nat)) by {
            lemma_pow2_adds(1, (i - 1) as nat);
            lemma2_to64();
        }
        assert(s.update(i, b)[0] == s[0]);
        assert(s.skip(1)[i - 1] == s[i]);
        assert(bits_value(s.update(i, b)) == (if s[0] {
            1nat
        } else {
            0nat
        }) + 2 * bits_value(s.skip(1).update(i - 1, b)));
        assert(bits_value(s) == (if s[0] {
            1nat
        } else {
            0nat
        }) + 2 * bits_value(s.skip(1)));
    }
}

/// A sequence of zeros denotes zero, and conversely.
pub proof fn lemma_bits_value_zero(s: Seq<bool>)
    ensures
        (bits_value(s) == 0) <==> (forall|i: int| 0 <= i < s.len() ==> !s[i]),
    decreases s.len(),
{
    if s.len() > 0 {
        lemma_bits_value_zero(s.skip(1));
        assert(forall|i: int| 0 <= i < s.skip(1).len() ==> s.skip(1)[i] == s[i + 1]);
        if bits_value(s) == 0 {
            assert(!s[0]);
            assert(forall|i: int| 1 <= i < s.len() ==> !s[i]) by {
                assert(forall|i: int| 1 <= i < s.len() ==> s[i] == s.skip(1)[i - 1]);
            }
        } else {
            if forall|i: int| 0 <= i < s.len() ==> !s[i] {
                assert(forall|i: int| 0 <= i < s.skip(1).len() ==> !s.skip(1)[i]);
            }
        }
    }
}

/// A sequence of ones denotes `pow2(len) - 1`, and conversely.
pub proof fn lemma_bits_value_ones(s: Seq<bool>)
    ensures
        seq_all_true(s) <==> (bits_value(s) == pow2(s.len()) - 1),
    decreases s.len(),
{
    if s.len() == 0 {
        assert(pow2(0) == 1) by {
            lemma2_to64();
        }
        assert(seq_all_true(s));
    } else {
        lemma_bits_value_ones(s.skip(1));
        lemma_bits_value_bound(s.skip(1));
        assert(pow2(s.len()) == 2 * pow2((s.len() - 1) as nat)) by {
            lemma_pow2_adds(1, (s.len() - 1) as nat);
            lemma2_to64();
        }
        assert(forall|i: int| 0 <= i < s.skip(1).len() ==> s.skip(1)[i] == s[i + 1]);
        if seq_all_true(s) {
            assert(seq_all_true(s.skip(1)));
            assert(s[0]);
        } else {
            if s[0] && bits_value(s.skip(1)) == pow2((s.len() - 1) as nat) - 1 {
                assert(seq_all_true(s.skip(1)));
                let i = choose|i: int| 0 <= i < s.len() && !s[i];
                assert(i > 0 && !s.skip(1)[i - 1]);
            }
        }
    }
}

/// `bitlen(n) <= w` exactly when `n < pow2(w)`.
pub proof fn lemma_bitlen_le(n: nat, w: nat)
    ensures
        (bitlen(n) <= w) <==> (n < pow2(w)),
    decreases w,
{
    if n == 0 {
        lemma_pow2_pos(w);
    } else if w == 0 {
        assert(pow2(0) == 1) by {
            lemma2_to64();
        }
    } else {
        lemma_bitlen_le(n / 2, (w - 1) as nat);
        lemma_pow2_adds(1, (w - 1) as nat);
        assert(pow2(1) == 2) by {
            lemma2_to64();
        }
    }
}

/// A nonzero `n` takes `bitlen(n)` bits: `pow2(bitlen(n) - 1) <= n < pow2(bitlen(n))`.
pub proof fn lemma_bitlen_bounds(n: nat)
    requires
        n > 0,
    ensures
        bitlen(n) > 0,
        pow2((bitlen(n) - 1) as nat) <= n,
        n < pow2(bitlen(n)),
    decreases n,
{
    lemma_bitlen_le(n, bitlen(n));
    if n / 2 == 0 {
        assert(bitlen(0nat) == 0);
        assert(bitlen(n) == 1);
        assert(pow2(0) == 1) by {
            lemma2_to64();
        }
    } else {
        lemma_bitlen_bounds(n / 2);
        lemma_pow2_adds(1, (bitlen(n) - 2) as nat);
        assert(pow2(1) == 2) by {
            lemma2_to64();
        }
    }
}

/// Scaling by a power of two adds that many bits.
pub proof fn lemma_bitlen_shift(m: nat, k: nat)
    requires
        m > 0,
    ensures
        bitlen(m * pow2(k)) == bitlen(m) + k,
{
    lemma_bitlen_bounds(m);
    let bl = bitlen(m);
    lemma_pow2_pos(k);
    assert(pow2((bl - 1) as nat) * pow2(k) <= m * pow2(k)) by (nonlinear_arith)
        requires
            pow2((bl - 1) as nat) <= m,
            pow2(k) > 0,
    ;
    assert(m * pow2(k) < pow2(bl) * pow2(k)) by (nonlinear_arith)
        requires
            m < pow2(bl),
            pow2(k) > 0,
    ;
    lemma_pow2_adds((bl - 1) as nat, k);
    lemma_pow2_adds(bl, k);
    lemma_bitlen_le(m * pow2(k), bl + k);
    lemma_bitlen_le(m * pow2(k), (bl + k - 1) as nat);
}

pub proof fn lemma_nat_to_bits_len(n: nat, w: nat)
    ensures
        nat_to_bits(n, w).len() == w,
    decreases w,
{
    if w > 0 {
        lemma_nat_to_bits_len(n / 2, (w - 1) as nat);
    }
}

/// For `n < pow2(w)`, `nat_to_bits(n, w)` denotes `n` again.
pub proof fn lemma_nat_to_bits_value(n: nat, w: nat)
    requires
        n < pow2(w),
    ensures
        bits_value(nat_to_bits(n, w)) == n,
    decreases w,
{
    if w == 0 {
        assert(pow2(0) == 1) by {
            lemma2_to64();
        }
    } else {
        lemma_pow2_adds(1, (w - 1) as nat);
        assert(pow2(1) == 2) by {
            lemma2_to64();
        }
        lemma_nat_to_bits_value(n / 2, (w - 1) as nat);
        lemma_nat_to_bits_len(n / 2, (w - 1) as nat);
        let s = nat_to_bits(n, w);
        assert(s.skip(1) =~= nat_to_bits(n / 2, (w - 1) as nat));
        assert(s[0] == (n % 2 == 1));
    }
}

/// A sequence is determined by its length and value.
pub proof fn lemma_bits_value_injective(s: Seq<bool>)
    ensures
        nat_to_bits(bits_value(s), s.len()) =~= s,
    decreases s.len(),
{
    if s.len() > 0 {
        lemma_bits_value_injective(s.skip(1));
        let v = bits_value(s);
        let v1 = bits_value(s.skip(1));
        assert(v == (if s[0] {
            1nat
        } else {
            0nat
        }) + 2 * v1);
        assert(v % 2 == (if s[0] {
            1nat
        } else {
            0nat
        }) && v / 2 == v1) by {
            if s[0] {
                assert((1 + 2 * v1) % 2 == 1) by (nonlinear_arith);
                assert((1 + 2 * v1) / 2 == v1) by (nonlinear_arith);
            } else {
                assert((2 * v1) % 2 == 0) by (nonlinear_arith);
                assert((2 * v1) / 2 == v1) by (nonlinear_arith);
            }
        }
        lemma_nat_to_bits_len(v / 2, (s.len() - 1) as nat);
        assert(nat_to_bits(v, s.len()) =~= seq![v % 2 == 1] + nat_to_bits(
            v / 2,
            (s.len() - 1) as nat,
        ));
    }
}

/// Whether every bit of a sequence is set.
pub open spec fn seq_all_true(s: Seq<bool>) -> bool {
    forall|i: int| 0 <= i < s.len() ==> s[i]
}

/// Whether some bit of a sequence is set.
pub open spec fn seq_any_true(s: Seq<bool>) -> bool {
    exists|i: int| 0 <= i < s.len() && s[i]
}

/// Quantifiers over a subrange coincide with quantifiers over the original
/// indices.
pub proof fn lemma_range_quant_equiv(v: Seq<bool>, lo: int, hi: int)
    requires
        0 <= lo <= hi <= v.len(),
    ensures
        seq_all_true(v.subrange(lo, hi)) <==> (forall|i: int| lo <= i < hi ==> v[i]),
        seq_any_true(v.subrange(lo, hi)) <==> (exists|i: int| lo <= i < hi && v[i]),
{
    let s = v.subrange(lo, hi);
    if forall|i: int| lo <= i < hi ==> v[i] {
        assert forall|j: int| 0 <= j < s.len() implies s[j] by {
            assert(s[j] == v[lo + j]);
        }
        assert(seq_all_true(s));
    } else {
        let i = choose|i: int| lo <= i < hi && !v[i];
        assert(!s[i - lo]);
        assert(!seq_all_true(s));
    }
    if exists|i: int| lo <= i < hi && v[i] {
        let i = choose|i: int| lo <= i < hi && v[i];
        assert(s[i - lo]);
        assert(seq_any_true(s));
    } else {
        if seq_any_true(s) {
            let j = choose|j: int| 0 <= j < s.len() && s[j];
            assert(v[lo + j]);
        }
    }
}

/// `pow2` as an executable function, for exponents below 64.
pub fn pow2_u64(w: usize) -> (r: u64)
    requires
        w < 64,
    ensures
        r as nat == pow2(w as nat),
{
    let mut r: u64 = 1;
    let mut i: usize = 0;
    proof {
        assert(pow2(0) == 1) by {
            lemma2_to64();
        }
        assert(pow2(63) == 0x8000000000000000) by {
            lemma2_to64_rest();
        }
    }
    while i < w
        invariant
            i <= w < 64,
            r as nat == pow2(i as nat),
            pow2(63) == 0x8000000000000000,
        decreases w - i,
    {
        proof {
            lemma_pow2_adds(i as nat, 1);
            assert(pow2(1) == 2) by {
                lemma2_to64();
            }
            if i + 1 < 63 {
                lemma_pow2_strictly_increases((i + 1) as nat, 63);
            } else if i + 1 == 63 {
            }
            assert(pow2((i + 1) as nat) <= pow2(63));
        }
        r = r * 2;
        i = i + 1;
    }
    r
}

/// A vector of `n` copies of one bit.
pub fn repeat_bit(b: bool, n: usize) -> (v: Vec<bool>)
    ensures
        v@.len() == n,
        forall|i: int| 0 <= i < n ==> v@[i] == b,
{
    let mut v: Vec<bool> = Vec::new();
    let mut i: usize = 0;
    while i < n
        invariant
            i <= n,
            v@.len() == i,
            forall|j: int| 0 <= j < i ==> v@[j] == b,
        decreases n - i,
    {
        v.push(b);
        i = i + 1;
    }
    v
}

/// Whether every bit of `v[lo..hi]` is set.
pub fn range_all_true(v: &Vec<bool>, lo: usize, hi: usize) -> (r: bool)
    requires
        lo <= hi <= v@.len(),
    ensures
        r == (forall|i: int| lo <= i < hi ==> v@[i]),
{
    let mut i: usize = lo;
    while i < hi
        invariant
            lo <= i <= hi <= v@.len(),
            forall|j: int| lo <= j < i ==> v@[j],
        decreases hi - i,
    {
        if !v[i] {
            return false;
        }
        i = i + 1;
    }
    true
}

/// Whether some bit of `v[lo..hi]` is set.
pub fn range_any_true(v: &Vec<bool>, lo: usize, hi: usize) -> (r: bool)
    requires
        lo <= hi <= v@.len(),
    ensures
        r == (exists|i: int| lo <= i < hi && v@[i]),
{
    let mut i: usize = lo;
    while i < hi
        invariant
            lo <= i <= hi <= v@.len(),
            forall|j: int| lo <= j < i ==> !v@[j],
        decreases hi - i,
    {
        if v[i] {
            return true;
        }
        i = i + 1;
    }
    false
}

/// The sub-vector `v[lo..hi]`.
pub fn copy_range(v: &Vec<bool>, lo: usize, hi: usize) -> (r: Vec<bool>)
    requires
        lo <= hi <= v@.len(),
    ensures
        r@ == v@.subrange(lo as int, hi as int),
{
    let mut r: Vec<bool> = Vec::new();
    let mut i: usize = lo;
    while i < hi
        invariant
            lo <= i <= hi <= v@.len(),
            r@ =~= v@.subrange(lo as int, i as int),
        decreases hi - i,
    {
        r.push(v[i]);
        assert(r@ =~= v@.subrange(lo as int, i + 1));
        i = i + 1;
    }
    assert(r@ =~= v@.subrange(lo as int, hi as int));
    r
}

/// The binary digits of `x`, least-significant first, in exactly `w` bits.
pub fn u64_to_bits(x: u64, w: usize) -> (r: Vec<bool>)
    requires
        (x as nat) < pow2(w as nat),
    ensures
        r@.len() == w,
        bits_value(r@) == x as nat,
        r@ =~= nat_to_bits(x as nat, w as nat),
{
    let ghost x0 = x as nat;
    let mut r: Vec<bool> = Vec::new();
    let mut cur: u64 = x;
    let mut i: usize = 0;
    proof {
        assert(pow2(0) == 1) by {
            lemma2_to64();
        }
        assert(bits_value(r@) == 0);
    }
    while i < w
        invariant
            i <= w,
            r@.len() == i,
            bits_value(r@) + pow2(i as nat) * (cur as nat) == x0,
            (cur as nat) < pow2((w - i) as nat),
        decreases w - i,
    {
        let b = cur % 2 == 1;
        proof {
            lemma_bits_value_push(r@, b);
            lemma_pow2_adds(i as nat, 1);
            lemma_pow2_adds((i + 1) as nat, (w - i - 1) as nat);
            lemma_pow2_adds(1, (w - i - 1) as nat);
            assert(pow2(1) == 2) by {
                lemma2_to64();
            }
            assert(cur as nat == 2 * ((cur as nat) / 2) + (if b {
                1nat
            } else {
                0nat
            }));
            assert(pow2(i as nat) * (cur as nat) == pow2(i as nat) * (if b {
                1nat
            } else {
                0nat
            }) + pow2((i + 1) as nat) * ((cur as nat) / 2)) by (nonlinear_arith)
                requires
                    cur as nat == 2 * ((cur as nat) / 2) + (if b {
                        1nat
                    } else {
                        0nat
                    }),
                    pow2((i + 1) as nat) == 2 * pow2(i as nat),
            ;
            assert((cur as nat) / 2 < pow2((w - i - 1) as nat)) by (nonlinear_arith)
                requires
                    (cur as nat) < pow2((w - i) as nat),
                    pow2((w - i) as nat) == 2 * pow2((w - i - 1) as nat),
            ;
        }
        r.push(b);
        cur = cur / 2;
        i = i + 1;
    }
    proof {
        assert(pow2(0) == 1) by {
            lemma2_to64();
        }
        assert(cur as nat == 0);
        assert(bits_value(r@) == x0);
        lemma_bits_value_injective(r@);
    }
    r
}

/// The value of a bit vector of at most 64 bits, as a `u64`.
pub fn bits_to_u64(v: &Vec<bool>) -> (r: u64)
    requires
        v@.len() <= 64,
    ensures
        r as nat == bits_value(v@),
{
    let n = v.len();
    let mut acc: u64 = 0;
    let mut i: usize = n;
    proof {
        assert(v@.subrange(n as int, n as int) =~= Seq::<bool>::empty());
    }
    while i > 0
        invariant
            i <= n == v@.len() <= 64,
            acc as nat == bits_value(v@.subrange(i as int, n as int)),
        decreases i,
    {
        proof {
            lemma_bits_value_bound(v@.subrange(i as int, n as int));
            lemma_pow2_adds((n - i) as nat, (64 - (n - i)) as nat);
            lemma_pow2_pos((64 - (n - i)) as nat);
            assert(pow2(64) == 0x10000000000000000) by {
                lemma2_to64();
            }
            assert(pow2((n - i) as nat) <= pow2(63)) by {
                if (n - i) < 63 {
                    lemma_pow2_strictly_increases((n - i) as nat, 63);
                }
            }
            assert(pow2(63) == 0x8000000000000000) by {
                lemma2_to64_rest();
            }
            assert(v@.subrange(i - 1, n as int).skip(1) =~= v@.subrange(i as int, n as int));
        }
        i = i - 1;
        acc = 2 * acc + (if v[i] {
            1
        } else {
            0
        });
    }
    proof {
        assert(v@.subrange(0, n as int) =~= v@);
    }
    acc
}

/// Appends `n` zero bits below `v`, multiplying its value by `pow2(n)`.
pub fn shl_bits(v: &Vec<bool>, n: usize) -> (r: Vec<bool>)
    ensures
        r@.len() == v@.len() + n,
        bits_value(r@) == pow2(n as nat) * bits_value(v@),
        r@ =~= Seq::new(n as nat, |i: int| false) + v@,
{
    let mut r = repeat_bit(false, n);
    let mut i: usize = 0;
    while i < v.len()
        invariant
            i <= v@.len(),
            r@.len() == n + i,
            r@ =~= Seq::new(n as nat, |j: int| false) + v@.subrange(0, i as int),
        decreases v@.len() - i,
    {
        r.push(v[i]);
        assert(r@ =~= Seq::new(n as nat, |j: int| false) + v@.subrange(0, i + 1));
        i = i + 1;
    }
    proof {
        assert(v@.subrange(0, v@.len() as int) =~= v@);
        let z = Seq::new(n as nat, |j: int| false);
        lemma_bits_value_concat(z, v@);
        lemma_bits_value_zero(z);
    }
    r
}

/// Extends a vector with zero bits at the most-significant end, keeping its
/// value.
pub fn pad_high(v: Vec<bool>, to: usize) -> (r: Vec<bool>)
    requires
        v@.len() <= to,
    ensures
        r@ == v@ + Seq::new((to - v@.len()) as nat, |i: int| false),
        r@.len() == to,
        bits_value(r@) == bits_value(v@),
{
    let ghost orig = v@;
    let mut r = v;
    while r.len() < to
        invariant
            orig.len() <= r@.len() <= to,
            r@ =~= orig + Seq::new((r@.len() - orig.len()) as nat, |i: int| false),
            bits_value(r@) == bits_value(orig),
        decreases to - r@.len(),
    {
        proof {
            lemma_bits_value_push(r@, false);
        }
        r.push(false);
        proof {
            assert(r@ =~= orig + Seq::new((r@.len() - orig.len()) as nat, |i: int| false));
        }
    }
    r
}

/// Adds one to the value, keeping the least-significant-first layout.
pub fn increment_bits(v: &Vec<bool>) -> (r: Vec<bool>)
    ensures
        bits_value(r@) == bits_value(v@) + 1,
        v@.len() <= r@.len() <= v@.len() + 1,
{
    let n = v.len();
    let mut out = v.clone();
    assert(out@ == v@);
    let mut i: usize = 0;
    proof {
        assert(pow2(0) == 1) by {
            lemma2_to64();
        }
    }
    while i < n && out[i]
        invariant
            i <= n == out@.len() == v@.len(),
            bits_value(out@) + pow2(i as nat) == bits_value(v@) + 1,
            forall|j: int| 0 <= j < i ==> !out@[j],
        decreases n - i,
    {
        proof {
            lemma_bits_value_update(out@, i as int, false);
            lemma_pow2_adds(i as nat, 1);
            assert(pow2(1) == 2) by {
                lemma2_to64();
            }
        }
        out.set(i, false);
        i = i + 1;
    }
    proof {
        assert(pow2(0) == 1) by {
            lemma2_to64();
        }
    }
    if i < n {
        proof {
            lemma_bits_value_update(out@, i as int, true);
        }
        out.set(i, true);
    } else {
        proof {
            lemma_bits_value_push(out@, true);
        }
        out.push(true);
    }
    out
}

/// Removes zero bits from the most-significant end; the result's length is
/// exactly the bit length of the value.
pub fn trim_high_zeros(v: &Vec<bool>) -> (r: Vec<bool>)
    ensures
        bits_value(r@) == bits_value(v@),
        r@.len() == bitlen(bits_value(v@)),
        r@ =~= v@.subrange(0, r@.len() as int),
{
    let mut out = v.clone();
    assert(out@ == v@);
    while out.len() > 0 && !out[out.len() - 1]
        invariant
            out@.len() <= v@.len(),
            bits_value(out@) == bits_value(v@),
            out@ =~= v@.subrange(0, out@.len() as int),
        decreases out@.len(),
    {
        proof {
            let s = out@;
            assert(s =~= s.drop_last().push(false));
            lemma_bits_value_push(s.drop_last(), false);
        }
        out.pop();
        proof {
            assert(out@ =~= v@.subrange(0, out@.len() as int));
        }
    }
    proof {
        let s = out@;
        if s.len() == 0 {
            assert(bits_value(s) == 0);
        } else {
            assert(s.last());
            assert(s =~= s.drop_last().push(true));
            lemma_bits_value_push(s.drop_last(), true);
            lemma_bits_value_bound(s.drop_last());
            lemma_bits_value_bound(s);
            lemma_bitlen_le(bits_value(s), s.len());
            lemma_bitlen_le(bits_value(s), (s.len() - 1) as nat);
        }
        lemma_bitlen_le(0, 0);
    }
    out
}

} // verus!
