//! Binary floating-point layouts and bit patterns interpreted under them.
use vstd::prelude::*;
use vstd::arithmetic::power2::*;
use crate::bits::{
    bits_to_u64, bits_value, copy_range, lemma_bits_value_bound, lemma_bits_value_ones,
    lemma_bits_value_push, lemma_bits_value_zero, lemma_nat_to_bits_value,
    lemma_range_quant_equiv, nat_to_bits, pad_high, pow2_u64, range_all_true,
    range_any_true, repeat_bit, seq_all_true, seq_any_true, u64_to_bits,
};

verus! {

/// An invalid layout description, rejected when a `FloatParameters` is
/// checked.
#[derive(Copy, Clone, Debug, PartialEq, Eq, Structural)]
pub enum ConfigurationError {
    ExponentWidthZero,
    ExponentWidthTooLarge,
    ExponentBiasTooLarge,
    SignificandWidthZero,
    SignificandWidthTooLarge,
    /// The widths are admissible in principle but their bit patterns cannot
    /// be addressed on this machine.
    WidthsExceedMachine,
}

/// The layout of a binary floating-point format: an exponent field of
/// `exp_bits` bits biased by `exp_bias`, and a significand field of
/// `sig_bits` bits. The total width is `exp_bits + sig_bits + 1` including
/// the sign bit.
#[derive(Copy, Clone, Debug, PartialEq, Eq, Structural)]
pub struct FloatParameters {
    pub exp_bits: usize,
    pub exp_bias: u64,
    pub sig_bits: usize,
}

impl FloatParameters {
    /// The layout invariants: `1 <= exp_bits < 64`, `exp_bias < 2^exp_bits`,
    /// `1 <= sig_bits < 2^63`, and the total width (with room for alignment)
    /// addressable on this machine.
    pub open spec fn valid(self) -> bool {
        &&& 1 <= self.exp_bits < 64
        &&& (self.exp_bias as nat) < pow2(self.exp_bits as nat)
        &&& 1 <= self.sig_bits
        &&& (self.sig_bits as nat) < pow2(63)
        &&& pow2(self.exp_bits as nat) + self.sig_bits as nat + 66 <= usize::MAX as nat
    }

    pub open spec fn spec_total_length(self) -> nat {
        (self.exp_bits + self.sig_bits + 1) as nat
    }

    /// The largest logical exponent of a normal value.
    pub open spec fn spec_max_exp(self) -> int {
        pow2(self.exp_bits as nat) - 2 - self.exp_bias
    }

    /// The logical exponent shared by the smallest normals and all
    /// subnormals.
    pub open spec fn spec_min_exp(self) -> int {
        1 - self.exp_bias as int
    }

    /// The IEEE binary32 layout.
    pub open spec fn spec_binary32() -> FloatParameters {
        FloatParameters { exp_bits: 8, exp_bias: 127, sig_bits: 23 }
    }

    /// The IEEE binary64 layout.
    pub open spec fn spec_binary64() -> FloatParameters {
        FloatParameters { exp_bits: 11, exp_bias: 1023, sig_bits: 52 }
    }

    pub fn binary32() -> (r: FloatParameters)
        ensures
            r == Self::spec_binary32(),
            r.valid(),
    {
        proof {
            lemma2_to64();
            lemma2_to64_rest();
            lemma_pow2_strictly_increases(8, 63);
            assert(usize::MAX >= 0xffffffff);
        }
        FloatParameters { exp_bits: 8, exp_bias: 127, sig_bits: 23 }
    }

    pub fn binary64() -> (r: FloatParameters)
        ensures
            r == Self::spec_binary64(),
            r.valid(),
    {
        proof {
            lemma2_to64();
            lemma2_to64_rest();
            lemma_pow2_strictly_increases(11, 63);
            assert(usize::MAX >= 0xffffffff);
        }
        FloatParameters { exp_bits: 11, exp_bias: 1023, sig_bits: 52 }
    }

    /// What `parse` recognizes: the names of the two hardware IEEE formats.
    pub open spec fn spec_parse_name(s: Seq<char>) -> Option<FloatParameters> {
        if s == "double"@ || s == "f64"@ {
            Some(Self::spec_binary64())
        } else if s == "float"@ || s == "f32"@ {
            Some(Self::spec_binary32())
        } else {
            None
        }
    }

    /// Recognizes the aliases of the 32-bit and 64-bit IEEE formats; any
    /// other name yields `None`. Custom layouts are built from explicit
    /// widths, not parsed from a name.
    pub fn parse(s: &str) -> (r: Option<FloatParameters>)
        ensures
            r == Self::spec_parse_name(s@),
            r is Some ==> r->Some_0.valid(),
    {
        if str_eq_str(s, "double") || str_eq_str(s, "f64") {
            Some(Self::binary64())
        } else if str_eq_str(s, "float") || str_eq_str(s, "f32") {
            Some(Self::binary32())
        } else {
            None
        }
    }

    /// The exact outcome of `validate`: the first violated invariant, in the
    /// order the checks run.
    pub open spec fn spec_validate(self) -> Result<(), ConfigurationError> {
        if self.exp_bits == 0 {
            Err(ConfigurationError::ExponentWidthZero)
        } else if self.exp_bits >= 64 {
            Err(ConfigurationError::ExponentWidthTooLarge)
        } else if self.exp_bias as nat >= pow2(self.exp_bits as nat) {
            Err(ConfigurationError::ExponentBiasTooLarge)
        } else if self.sig_bits == 0 {
            Err(ConfigurationError::SignificandWidthZero)
        } else if self.sig_bits as nat >= pow2(63) {
            Err(ConfigurationError::SignificandWidthTooLarge)
        } else if pow2(self.exp_bits as nat) + self.sig_bits as nat + 66 > usize::MAX as nat {
            Err(ConfigurationError::WidthsExceedMachine)
        } else {
            Ok(())
        }
    }

    /// Checks the layout invariants, naming the first violated one.
    pub fn validate(&self) -> (r: Result<(), ConfigurationError>)
        ensures
            r == self.spec_validate(),
            r is Ok <==> self.valid(),
    {
        proof {
            assert(pow2(63) == 0x8000000000000000) by {
                lemma2_to64_rest();
            }
        }
        if self.exp_bits == 0 {
            Err(ConfigurationError::ExponentWidthZero)
        } else if self.exp_bits >= 64 {
            Err(ConfigurationError::ExponentWidthTooLarge)
        } else if self.exp_bias >= pow2_u64(self.exp_bits) {
            Err(ConfigurationError::ExponentBiasTooLarge)
        } else if self.sig_bits == 0 {
            Err(ConfigurationError::SignificandWidthZero)
        } else if self.sig_bits as u64 >= 0x8000000000000000u64 {
            Err(ConfigurationError::SignificandWidthTooLarge)
        } else if (pow2_u64(self.exp_bits) as u128) + (self.sig_bits as u128) + 66 > (usize::MAX
            as u128) {
            Err(ConfigurationError::WidthsExceedMachine)
        } else {
            Ok(())
        }
    }

    /// The total number of bits in a pattern of this layout.
    pub fn total_length(&self) -> (r: usize)
        requires
            self.valid(),
        ensures
            r == self.spec_total_length(),
    {
        self.exp_bits + self.sig_bits + 1
    }

    /// The largest logical exponent of a normal value.
    pub fn max_exp(&self) -> (r: i64)
        requires
            self.valid(),
        ensures
            r as int == self.spec_max_exp(),
    {
        proof {
            assert(pow2(63) == 0x8000000000000000) by {
                lemma2_to64_rest();
            }
            if self.exp_bits < 63 {
                lemma_pow2_strictly_increases(self.exp_bits as nat, 63);
            }
        }
        let m = pow2_u64(self.exp_bits);
        ((m as i128) - 2 - (self.exp_bias as i128)) as i64
    }

    /// The logical exponent of the smallest normals and of all subnormals.
    pub fn min_exp(&self) -> (r: i64)
        requires
            self.valid(),
        ensures
            r as int == self.spec_min_exp(),
    {
        proof {
            assert(pow2(63) == 0x8000000000000000) by {
                lemma2_to64_rest();
            }
            if self.exp_bits < 63 {
                lemma_pow2_strictly_increases(self.exp_bits as nat, 63);
            }
        }
        (1 - (self.exp_bias as i128)) as i64
    }
}

/// Whether two strings hold the same characters.
pub(crate) fn str_eq_str(a: &str, b: &str) -> (r: bool)
    ensures
        r == (a@ == b@),
{
    let n = a.unicode_len();
    if n != b.unicode_len() {
        return false;
    }
    let mut i: usize = 0;
    while i < n
        invariant
            i <= n,
            n == a@.len() == b@.len(),
            forall|j: int| 0 <= j < i ==> a@[j] == b@[j],
        decreases n - i,
    {
        if a.get_char(i) != b.get_char(i) {
            return false;
        }
        i = i + 1;
    }
    proof {
        assert(a@ =~= b@);
    }
    true
}

/// The ten classes a bit pattern can fall in; a pure function of the
/// pattern's fields, never stored.
#[derive(Debug, Copy, Clone, Eq, PartialEq, Structural)]
pub enum FloatClass {
    PositiveInf,
    PositiveNormal,
    PositiveSubnormal,
    PositiveZero,
    NegativeZero,
    NegativeSubnormal,
    NegativeNormal,
    NegativeInf,
    SignallingNaN,
    QuietNaN,
}

impl FloatClass {
    pub open spec fn spec_inf(self) -> bool {
        self == FloatClass::PositiveInf || self == FloatClass::NegativeInf
    }

    pub open spec fn spec_normal(self) -> bool {
        self == FloatClass::PositiveNormal || self == FloatClass::NegativeNormal
    }

    pub open spec fn spec_subnormal(self) -> bool {
        self == FloatClass::PositiveSubnormal || self == FloatClass::NegativeSubnormal
    }

    pub open spec fn spec_zero(self) -> bool {
        self == FloatClass::PositiveZero || self == FloatClass::NegativeZero
    }

    pub open spec fn spec_finite(self) -> bool {
        self.spec_normal() || self.spec_subnormal() || self.spec_zero()
    }

    pub open spec fn spec_nan(self) -> bool {
        self == FloatClass::QuietNaN || self == FloatClass::SignallingNaN
    }

    pub open spec fn spec_positive(self) -> bool {
        self == FloatClass::PositiveInf || self == FloatClass::PositiveNormal || self
            == FloatClass::PositiveSubnormal || self == FloatClass::PositiveZero
    }

    pub open spec fn spec_negative(self) -> bool {
        self == FloatClass::NegativeInf || self == FloatClass::NegativeNormal || self
            == FloatClass::NegativeSubnormal || self == FloatClass::NegativeZero
    }

    pub fn inf(self) -> (r: bool)
        ensures
            r == self.spec_inf(),
    {
        matches!(self, FloatClass::PositiveInf | FloatClass::NegativeInf)
    }

    pub fn finite(self) -> (r: bool)
        ensures
            r == self.spec_finite(),
    {
        self.normal() || self.subnormal() || self.zero()
    }

    pub fn normal(self) -> (r: bool)
        ensures
            r == self.spec_normal(),
    {
        matches!(self, FloatClass::PositiveNormal | FloatClass::NegativeNormal)
    }

    pub fn subnormal(self) -> (r: bool)
        ensures
            r == self.spec_subnormal(),
    {
        matches!(self, FloatClass::PositiveSubnormal | FloatClass::NegativeSubnormal)
    }

    pub fn zero(self) -> (r: bool)
        ensures
            r == self.spec_zero(),
    {
        matches!(self, FloatClass::PositiveZero | FloatClass::NegativeZero)
    }

    pub fn nan(self) -> (r: bool)
        ensures
            r == self.spec_nan(),
    {
        matches!(self, FloatClass::QuietNaN | FloatClass::SignallingNaN)
    }

    pub fn positive(self) -> (r: bool)
        ensures
            r == self.spec_positive(),
    {
        matches!(
            self,
            FloatClass::PositiveInf
                | FloatClass::PositiveNormal
                | FloatClass::PositiveSubnormal
                | FloatClass::PositiveZero
        )
    }

    pub fn negative(self) -> (r: bool)
        ensures
            r == self.spec_negative(),
    {
        matches!(
            self,
            FloatClass::NegativeInf
                | FloatClass::NegativeNormal
                | FloatClass::NegativeSubnormal
                | FloatClass::NegativeZero
        )
    }
}

/// A bit pattern interpreted under a `FloatParameters` layout. Bit 0 is the
/// least-significant significand bit; the exponent field sits above the
/// significand field; the last bit is the sign. Immutable once built.
#[derive(Clone, Debug)]
pub struct Float {
    params: FloatParameters,
    bits: Vec<bool>,
}

impl Float {
    pub closed spec fn spec_params(&self) -> FloatParameters {
        self.params
    }

    pub closed spec fn spec_bits(&self) -> Seq<bool> {
        self.bits@
    }

    /// A well-formed value: a valid layout, and exactly as many bits as the
    /// layout asks for.
    pub open spec fn wf(&self) -> bool {
        self.spec_params().valid() && self.spec_bits().len() == self.spec_params().spec_total_length()
    }

    pub open spec fn spec_sign(&self) -> bool {
        self.spec_bits()[self.spec_bits().len() - 1]
    }

    pub open spec fn spec_exp_field(&self) -> Seq<bool> {
        self.spec_bits().subrange(
            self.spec_params().sig_bits as int,
            self.spec_params().sig_bits + self.spec_params().exp_bits,
        )
    }

    pub open spec fn spec_sig_field(&self) -> Seq<bool> {
        self.spec_bits().subrange(0, self.spec_params().sig_bits as int)
    }

    /// The classification decision tree, the authoritative reading of a
    /// pattern: an all-ones exponent field means infinity or NaN, an
    /// all-zeros one means zero or subnormal, anything else is normal.
    pub open spec fn spec_classify(&self) -> FloatClass {
        if seq_all_true(self.spec_exp_field()) {
            if !seq_any_true(self.spec_sig_field()) {
                if self.spec_sign() {
                    FloatClass::NegativeInf
                } else {
                    FloatClass::PositiveInf
                }
            } else if self.spec_sig_field()[self.spec_params().sig_bits - 1] {
                FloatClass::QuietNaN
            } else {
                FloatClass::SignallingNaN
            }
        } else if !seq_any_true(self.spec_exp_field()) {
            if !seq_any_true(self.spec_sig_field()) {
                if self.spec_sign() {
                    FloatClass::NegativeZero
                } else {
                    FloatClass::PositiveZero
                }
            } else {
                if self.spec_sign() {
                    FloatClass::NegativeSubnormal
                } else {
                    FloatClass::PositiveSubnormal
                }
            }
        } else {
            if self.spec_sign() {
                FloatClass::NegativeNormal
            } else {
                FloatClass::PositiveNormal
            }
        }
    }

    /// The logical exponent: the unbiased exponent field, except that an
    /// all-zeros field (zero and subnormals) is pinned to `min_exp`.
    pub open spec fn spec_exp_logical(&self) -> int {
        if bits_value(self.spec_exp_field()) == 0 {
            self.spec_params().spec_min_exp()
        } else {
            bits_value(self.spec_exp_field()) - self.spec_params().exp_bias
        }
    }

    /// The logical significand of a finite value: the stored field with the
    /// implicit bit (1 for normals, 0 otherwise) made explicit above it.
    pub open spec fn spec_logical_sig(&self) -> nat {
        bits_value(self.spec_sig_field()) + if self.spec_classify().spec_normal() {
            pow2(self.spec_params().sig_bits as nat)
        } else {
            0nat
        }
    }

    /// The all-zeros pattern with a chosen sign bit.
    pub open spec fn spec_zero_bits(p: FloatParameters, sign: bool) -> Seq<bool> {
        Seq::new((p.spec_total_length() - 1) as nat, |i: int| false).push(sign)
    }

    /// The all-ones pattern.
    pub open spec fn spec_nan_bits(p: FloatParameters) -> Seq<bool> {
        Seq::new(p.spec_total_length(), |i: int| true)
    }

    /// Zero significand, all-ones exponent field, a chosen sign bit.
    pub open spec fn spec_inf_bits(p: FloatParameters, sign: bool) -> Seq<bool> {
        Seq::new(p.sig_bits as nat, |i: int| false) + Seq::new(p.exp_bits as nat, |i: int| true)
            + seq![sign]
    }

    /// The pattern `from_parts` assembles: the significand field, the biased
    /// exponent written in `exp_bits` bits, and the sign.
    pub open spec fn spec_from_parts_bits(
        p: FloatParameters,
        sign: bool,
        exp: int,
        sig: Seq<bool>,
    ) -> Seq<bool> {
        sig + nat_to_bits((exp + p.exp_bias) as nat, p.exp_bits as nat) + seq![sign]
    }

    /// The zero of the format with a chosen sign bit.
    pub fn signed_zero(params: &FloatParameters, sign: bool) -> (r: Float)
        requires
            params.valid(),
        ensures
            r.wf(),
            r.spec_params() == *params,
            r.spec_bits() == Self::spec_zero_bits(*params, sign),
    {
        let t = params.total_length();
        let mut bits = repeat_bit(false, t - 1);
        bits.push(sign);
        proof {
            assert(bits@ =~= Self::spec_zero_bits(*params, sign));
        }
        Float { params: *params, bits }
    }

    /// The positive zero of the format.
    pub fn zero(params: &FloatParameters) -> (r: Float)
        requires
            params.valid(),
        ensures
            r.wf(),
            r.spec_params() == *params,
            r.spec_bits() == Self::spec_zero_bits(*params, false),
            r.spec_classify() == FloatClass::PositiveZero,
    {
        let r = Self::signed_zero(params, false);
        proof {
            lemma_classify_zero_bits(&r);
        }
        r
    }

    /// The canonical NaN of the format: the all-ones pattern, whose set top
    /// significand bit makes it classify as a quiet NaN.
    pub fn nan(params: &FloatParameters) -> (r: Float)
        requires
            params.valid(),
        ensures
            r.wf(),
            r.spec_params() == *params,
            r.spec_bits() == Self::spec_nan_bits(*params),
            r.spec_classify() == FloatClass::QuietNaN,
    {
        let t = params.total_length();
        let bits = repeat_bit(true, t);
        proof {
            assert(bits@ =~= Self::spec_nan_bits(*params));
        }
        let r = Float { params: *params, bits };
        proof {
            lemma_classify_nan_bits(&r);
        }
        r
    }

    /// The infinity of the format with a chosen sign bit.
    pub fn inf(params: &FloatParameters, sign: bool) -> (r: Float)
        requires
            params.valid(),
        ensures
            r.wf(),
            r.spec_params() == *params,
            r.spec_bits() == Self::spec_inf_bits(*params, sign),
            r.spec_classify() == (if sign {
                FloatClass::NegativeInf
            } else {
                FloatClass::PositiveInf
            }),
    {
        let mut bits = repeat_bit(false, params.sig_bits);
        let mut ones = repeat_bit(true, params.exp_bits);
        bits.append(&mut ones);
        bits.push(sign);
        proof {
            assert(bits@ =~= Self::spec_inf_bits(*params, sign));
        }
        let r = Float { params: *params, bits };
        proof {
            lemma_classify_inf_bits(&r, sign);
        }
        r
    }

    /// Assembles a pattern from a sign, a logical exponent and the stored
    /// significand bits. The biased exponent `exp + exp_bias` must fit the
    /// exponent field, and the significand must have exactly `sig_bits`
    /// bits.
    pub fn from_parts(params: &FloatParameters, sign: bool, exp: i64, sig: &Vec<bool>) -> (r:
        Float)
        requires
            params.valid(),
            sig@.len() == params.sig_bits,
            0 <= exp + params.exp_bias < pow2(params.exp_bits as nat),
        ensures
            r.wf(),
            r.spec_params() == *params,
            r.spec_bits() == Self::spec_from_parts_bits(*params, sign, exp as int, sig@),
            r.spec_sig_field() == sig@,
            r.spec_exp_field() == nat_to_bits((exp + params.exp_bias) as nat, params.exp_bits as nat),
            bits_value(r.spec_exp_field()) == exp + params.exp_bias,
            r.spec_sign() == sign,
    {
        proof {
            assert(pow2(63) == 0x8000000000000000) by {
                lemma2_to64_rest();
            }
            if params.exp_bits < 63 {
                lemma_pow2_strictly_increases(params.exp_bits as nat, 63);
            }
        }
        let biased: u64 = ((exp as i128) + (params.exp_bias as i128)) as u64;
        let mut bits = copy_range(sig, 0, sig.len());
        let mut exp_field = u64_to_bits(biased, params.exp_bits);
        let ghost exp_field_view = exp_field@;
        bits.append(&mut exp_field);
        bits.push(sign);
        proof {
            assert(bits@ =~= sig@ + exp_field_view + seq![sign]);
            lemma_nat_to_bits_value(biased as nat, params.exp_bits as nat);
            let r_bits = bits@;
            assert(r_bits.subrange(0, params.sig_bits as int) =~= sig@);
            assert(r_bits.subrange(
                params.sig_bits as int,
                params.sig_bits + params.exp_bits,
            ) =~= exp_field_view);
            assert(r_bits[r_bits.len() - 1] == sign);
        }
        Float { params: *params, bits }
    }

    /// Reads a pattern handed over as the low bits of a machine word, as the
    /// host's own float-to-bits reinterpretation produces it.
    pub fn from_u64_pattern(params: &FloatParameters, pattern: u64) -> (r: Float)
        requires
            params.valid(),
            (pattern as nat) < pow2(params.spec_total_length()),
        ensures
            r.wf(),
            r.spec_params() == *params,
            bits_value(r.spec_bits()) == pattern as nat,
    {
        let t = params.total_length();
        let w = if t >= 64 {
            64
        } else {
            t
        };
        proof {
            if t >= 64 {
                assert(pow2(64) == 0x10000000000000000) by {
                    lemma2_to64();
                }
            }
        }
        let mut bits = u64_to_bits(pattern, w);
        while bits.len() < t
            invariant
                bits@.len() <= t,
                bits_value(bits@) == pattern as nat,
            decreases t - bits@.len(),
        {
            proof {
                lemma_bits_value_push(bits@, false);
            }
            bits.push(false);
        }
        Float { params: *params, bits }
    }

    /// The sign bit.
    pub fn sign(&self) -> (r: bool)
        requires
            self.wf(),
        ensures
            r == self.spec_sign(),
    {
        self.bits[self.bits.len() - 1]
    }

    /// The raw exponent field, lowest bit first.
    pub fn exponent_bits(&self) -> (r: Vec<bool>)
        requires
            self.wf(),
        ensures
            r@ == self.spec_exp_field(),
    {
        copy_range(&self.bits, self.params.sig_bits, self.params.sig_bits + self.params.exp_bits)
    }

    /// The raw exponent field read as an unsigned integer.
    pub fn exponent_bits_integer(&self) -> (r: u64)
        requires
            self.wf(),
        ensures
            r as nat == bits_value(self.spec_exp_field()),
    {
        let field = self.exponent_bits();
        bits_to_u64(&field)
    }

    /// The logical exponent: the unbiased exponent field, except that zero
    /// and subnormals are pinned to `min_exp`, so that their significands
    /// share the binary-point convention of the smallest normals.
    pub fn exponent_logical(&self) -> (r: i64)
        requires
            self.wf(),
        ensures
            r as int == self.spec_exp_logical(),
    {
        let v = self.exponent_bits_integer();
        if v == 0 {
            self.params.min_exp()
        } else {
            proof {
                lemma_bits_value_bound(self.spec_exp_field());
                assert(pow2(63) == 0x8000000000000000) by {
                    lemma2_to64_rest();
                }
                if self.params.exp_bits < 63 {
                    lemma_pow2_strictly_increases(self.params.exp_bits as nat, 63);
                }
            }
            ((v as i128) - (self.params.exp_bias as i128)) as i64
        }
    }

    /// The raw significand field, lowest bit first, without the implicit
    /// bit.
    pub fn significand_bits(&self) -> (r: Vec<bool>)
        requires
            self.wf(),
        ensures
            r@ == self.spec_sig_field(),
    {
        copy_range(&self.bits, 0, self.params.sig_bits)
    }

    /// The logical significand of a finite value: the stored bits with the
    /// implicit bit appended above them, 1 for a normal value and 0
    /// otherwise.
    pub fn significand_logical(&self) -> (r: Vec<bool>)
        requires
            self.wf(),
            self.spec_classify().spec_finite(),
        ensures
            r@ == self.spec_sig_field().push(self.spec_classify().spec_normal()),
            r@.len() == self.spec_params().sig_bits + 1,
            bits_value(r@) == self.spec_logical_sig(),
    {
        let class = self.classify();
        let mut r = self.significand_bits();
        r.push(class.normal());
        proof {
            lemma_bits_value_push(self.spec_sig_field(), self.spec_classify().spec_normal());
        }
        r
    }

    /// The layout this pattern is read under.
    pub fn params(&self) -> (r: &FloatParameters)
        ensures
            *r == self.spec_params(),
    {
        &self.params
    }

    /// Classifies the pattern; always recomputed from the bits, never
    /// cached.
    pub fn classify(&self) -> (r: FloatClass)
        requires
            self.wf(),
        ensures
            r == self.spec_classify(),
    {
        let p = self.params.sig_bits;
        let w = self.params.exp_bits;
        let exp_all = range_all_true(&self.bits, p, p + w);
        let sig_any = range_any_true(&self.bits, 0, p);
        let sgn = self.bits[p + w];
        proof {
            lemma_range_quant_equiv(self.spec_bits(), p as int, (p + w) as int);
            lemma_range_quant_equiv(self.spec_bits(), 0, p as int);
            assert(self.spec_sig_field()[p - 1] == self.spec_bits()[p - 1]);
            assert(self.spec_sign() == self.spec_bits()[p + w]);
        }
        if exp_all {
            if !sig_any {
                if sgn {
                    FloatClass::NegativeInf
                } else {
                    FloatClass::PositiveInf
                }
            } else {
                if self.bits[p - 1] {
                    FloatClass::QuietNaN
                } else {
                    FloatClass::SignallingNaN
                }
            }
        } else {
            let exp_any = range_any_true(&self.bits, p, p + w);
            if !exp_any {
                if !sig_any {
                    if sgn {
                        FloatClass::NegativeZero
                    } else {
                        FloatClass::PositiveZero
                    }
                } else {
                    if sgn {
                        FloatClass::NegativeSubnormal
                    } else {
                        FloatClass::PositiveSubnormal
                    }
                }
            } else {
                proof {
                    assert(seq_any_true(self.spec_exp_field()));
                    assert(!seq_all_true(self.spec_exp_field()));
                }
                if sgn {
                    FloatClass::NegativeNormal
                } else {
                    FloatClass::PositiveNormal
                }
            }
        }
    }

    /// The same value, except that a subnormal collapses to the zero of its
    /// sign. Applied only when the environment flushes subnormals.
    pub fn flush_subnormals(&self) -> (r: Float)
        requires
            self.wf(),
        ensures
            r.wf(),
            r.spec_params() == self.spec_params(),
            r.spec_bits() == (if self.spec_classify().spec_subnormal() {
                Self::spec_zero_bits(self.spec_params(), self.spec_sign())
            } else {
                self.spec_bits()
            }),
    {
        if self.classify().subnormal() {
            Float::signed_zero(&self.params, self.sign())
        } else {
            let bits = copy_range(&self.bits, 0, self.bits.len());
            proof {
                assert(bits@ =~= self.spec_bits());
            }
            Float { params: self.params, bits }
        }
    }
}

/// A literal that could not be read as a bit pattern of the requested
/// layout.
#[derive(Debug, Copy, Clone, Eq, PartialEq, Structural)]
pub enum FloatParseError {
    InvalidHexDigit,
    InvalidBinaryDigit,
    /// The literal encodes more bits than the layout holds.
    TooLong,
    InvalidDecimalLiteral,
    /// No parser exists for this literal form under this layout; decimal
    /// literals are only defined for the two hardware IEEE formats, whose
    /// host parser sits outside this crate.
    NoParser,
}

/// The value of one hexadecimal digit character.
pub open spec fn hex_digit_val(c: char) -> Option<u8> {
    if c == '0' {
        Some(0u8)
    } else if c == '1' {
        Some(1u8)
    } else if c == '2' {
        Some(2u8)
    } else if c == '3' {
        Some(3u8)
    } else if c == '4' {
        Some(4u8)
    } else if c == '5' {
        Some(5u8)
    } else if c == '6' {
        Some(6u8)
    } else if c == '7' {
        Some(7u8)
    } else if c == '8' {
        Some(8u8)
    } else if c == '9' {
        Some(9u8)
    } else if c == 'a' || c == 'A' {
        Some(10u8)
    } else if c == 'b' || c == 'B' {
        Some(11u8)
    } else if c == 'c' || c == 'C' {
        Some(12u8)
    } else if c == 'd' || c == 'D' {
        Some(13u8)
    } else if c == 'e' || c == 'E' {
        Some(14u8)
    } else if c == 'f' || c == 'F' {
        Some(15u8)
    } else {
        None
    }
}

/// The value of one binary digit character.
pub open spec fn bin_digit_val(c: char) -> Option<bool> {
    if c == '0' {
        Some(false)
    } else if c == '1' {
        Some(true)
    } else {
        None
    }
}

/// The bits a hex literal denotes: each digit contributes four bits, the
/// rightmost digit at the lowest indices. `None` on any non-hex character.
pub open spec fn hex_bits(s: Seq<char>) -> Option<Seq<bool>>
    decreases s.len(),
{
    if s.len() == 0 {
        Some(Seq::empty())
    } else {
        match (hex_digit_val(s.last()), hex_bits(s.drop_last())) {
            (Some(d), Some(rest)) => Some(nat_to_bits(d as nat, 4) + rest),
            _ => None,
        }
    }
}

/// The bits a binary literal denotes: the rightmost character is bit 0.
/// `None` on any character other than `0` or `1`.
pub open spec fn bin_bits(s: Seq<char>) -> Option<Seq<bool>>
    decreases s.len(),
{
    if s.len() == 0 {
        Some(Seq::empty())
    } else {
        match (bin_digit_val(s.last()), bin_bits(s.drop_last())) {
            (Some(b), Some(rest)) => Some(seq![b] + rest),
            _ => None,
        }
    }
}

/// `hex_bits` can also be peeled at the front: the first character's bits
/// land at the top of the result.
pub proof fn lemma_hex_bits_split_first(t: Seq<char>)
    requires
        t.len() >= 1,
    ensures
        hex_bits(t) == (match (hex_digit_val(t[0]), hex_bits(t.skip(1))) {
            (Some(d), Some(rest)) => Some(rest + nat_to_bits(d as nat, 4)),
            _ => None,
        }),
    decreases t.len(),
{
    if t.len() == 1 {
        assert(t.drop_last() =~= Seq::<char>::empty());
        assert(t.skip(1) =~= Seq::<char>::empty());
        assert(t.last() == t[0]);
        if hex_digit_val(t[0]) is Some {
            let d = hex_digit_val(t[0])->Some_0;
            assert(nat_to_bits(d as nat, 4) + Seq::<bool>::empty() =~= nat_to_bits(d as nat, 4));
            assert(Seq::<bool>::empty() + nat_to_bits(d as nat, 4) =~= nat_to_bits(d as nat, 4));
        }
    } else {
        lemma_hex_bits_split_first(t.drop_last());
        assert(t.drop_last()[0] == t[0]);
        assert(t.drop_last().skip(1) =~= t.skip(1).drop_last());
        assert(t.skip(1).last() == t.last());
        match (hex_digit_val(t.last()), hex_digit_val(t[0]), hex_bits(t.skip(1).drop_last())) {
            (Some(a), Some(d), Some(rest)) => {
                assert(hex_bits(t.drop_last()) == Some(rest + nat_to_bits(d as nat, 4)));
                assert(hex_bits(t) == Some(
                    nat_to_bits(a as nat, 4) + (rest + nat_to_bits(d as nat, 4)),
                ));
                assert(hex_bits(t.skip(1)) == Some(nat_to_bits(a as nat, 4) + rest));
                assert(nat_to_bits(a as nat, 4) + (rest + nat_to_bits(d as nat, 4)) =~= (
                nat_to_bits(a as nat, 4) + rest) + nat_to_bits(d as nat, 4));
            },
            _ => {},
        }
    }
}

/// A failure anywhere in the tail is a failure of the whole literal.
pub proof fn lemma_hex_bits_none_prefix(s: Seq<char>, from: int, j: int)
    requires
        0 <= from <= j <= s.len(),
        hex_bits(s.subrange(j, s.len() as int)) is None,
    ensures
        hex_bits(s.subrange(from, s.len() as int)) is None,
    decreases j - from,
{
    if from < j {
        lemma_hex_bits_none_prefix(s, from + 1, j);
        let t = s.subrange(from, s.len() as int);
        assert(t.skip(1) =~= s.subrange(from + 1, s.len() as int));
        lemma_hex_bits_split_first(t);
    }
}

/// `bin_bits` can also be peeled at the front.
pub proof fn lemma_bin_bits_split_first(t: Seq<char>)
    requires
        t.len() >= 1,
    ensures
        bin_bits(t) == (match (bin_digit_val(t[0]), bin_bits(t.skip(1))) {
            (Some(b), Some(rest)) => Some(rest.push(b)),
            _ => None,
        }),
    decreases t.len(),
{
    if t.len() == 1 {
        assert(t.drop_last() =~= Seq::<char>::empty());
        assert(t.skip(1) =~= Seq::<char>::empty());
        assert(t.last() == t[0]);
        if bin_digit_val(t[0]) is Some {
            let b = bin_digit_val(t[0])->Some_0;
            assert(seq![b] + Seq::<bool>::empty() =~= Seq::<bool>::empty().push(b));
        }
    } else {
        lemma_bin_bits_split_first(t.drop_last());
        assert(t.drop_last()[0] == t[0]);
        assert(t.drop_last().skip(1) =~= t.skip(1).drop_last());
        assert(t.skip(1).last() == t.last());
        match (bin_digit_val(t.last()), bin_digit_val(t[0]), bin_bits(t.skip(1).drop_last())) {
            (Some(a), Some(b), Some(rest)) => {
                assert(bin_bits(t.drop_last()) == Some(rest.push(b)));
                assert(bin_bits(t) == Some(seq![a] + rest.push(b)));
                assert(bin_bits(t.skip(1)) == Some(seq![a] + rest));
                assert(seq![a] + rest.push(b) =~= (seq![a] + rest).push(b));
            },
            _ => {},
        }
    }
}

/// A failure anywhere in the tail is a failure of the whole literal.
pub proof fn lemma_bin_bits_none_prefix(s: Seq<char>, from: int, j: int)
    requires
        0 <= from <= j <= s.len(),
        bin_bits(s.subrange(j, s.len() as int)) is None,
    ensures
        bin_bits(s.subrange(from, s.len() as int)) is None,
    decreases j - from,
{
    if from < j {
        lemma_bin_bits_none_prefix(s, from + 1, j);
        let t = s.subrange(from, s.len() as int);
        assert(t.skip(1) =~= s.subrange(from + 1, s.len() as int));
        lemma_bin_bits_split_first(t);
    }
}

/// Reads one hexadecimal digit character.
fn hex_digit(c: char) -> (r: Option<u8>)
    ensures
        r == hex_digit_val(c),
        r is Some ==> r->Some_0 < 16,
{
    if c == '0' {
        Some(0u8)
    } else if c == '1' {
        Some(1u8)
    } else if c == '2' {
        Some(2u8)
    } else if c == '3' {
        Some(3u8)
    } else if c == '4' {
        Some(4u8)
    } else if c == '5' {
        Some(5u8)
    } else if c == '6' {
        Some(6u8)
    } else if c == '7' {
        Some(7u8)
    } else if c == '8' {
        Some(8u8)
    } else if c == '9' {
        Some(9u8)
    } else if c == 'a' || c == 'A' {
        Some(10u8)
    } else if c == 'b' || c == 'B' {
        Some(11u8)
    } else if c == 'c' || c == 'C' {
        Some(12u8)
    } else if c == 'd' || c == 'D' {
        Some(13u8)
    } else if c == 'e' || c == 'E' {
        Some(14u8)
    } else if c == 'f' || c == 'F' {
        Some(15u8)
    } else {
        None
    }
}

/// Decodes the tail of a hex literal, rightmost digit to bit 0.
fn parse_hex_tail(s: &str, from: usize) -> (r: Result<Vec<bool>, FloatParseError>)
    requires
        from <= s@.len(),
    ensures
        match hex_bits(s@.subrange(from as int, s@.len() as int)) {
            Some(b) => r is Ok && r->Ok_0@ == b,
            None => r == Err::<Vec<bool>, FloatParseError>(FloatParseError::InvalidHexDigit),
        },
{
    let n = s.unicode_len();
    let mut out: Vec<bool> = Vec::new();
    let mut i: usize = n;
    proof {
        assert(s@.subrange(n as int, n as int) =~= Seq::<char>::empty());
        assert(out@ =~= Seq::<bool>::empty());
    }
    while i > from
        invariant
            from <= i <= n == s@.len(),
            hex_bits(s@.subrange(i as int, n as int)) == Some(out@),
        decreases i,
    {
        let c = s.get_char(i - 1);
        proof {
            let t = s@.subrange(i - 1, n as int);
            assert(t[0] == c);
            assert(t.skip(1) =~= s@.subrange(i as int, n as int));
            lemma_hex_bits_split_first(t);
        }
        match hex_digit(c) {
            None => {
                proof {
                    lemma_hex_bits_none_prefix(s@, from as int, i - 1);
                }
                return Err(FloatParseError::InvalidHexDigit);
            },
            Some(d) => {
                proof {
                    assert(pow2(4) == 16) by {
                        lemma2_to64();
                    }
                }
                let mut nib = u64_to_bits(d as u64, 4);
                out.append(&mut nib);
            },
        }
        i = i - 1;
    }
    Ok(out)
}

/// Decodes the tail of a binary literal, rightmost character to bit 0.
fn parse_bin_tail(s: &str, from: usize) -> (r: Result<Vec<bool>, FloatParseError>)
    requires
        from <= s@.len(),
    ensures
        match bin_bits(s@.subrange(from as int, s@.len() as int)) {
            Some(b) => r is Ok && r->Ok_0@ == b,
            None => r == Err::<Vec<bool>, FloatParseError>(FloatParseError::InvalidBinaryDigit),
        },
{
    let n = s.unicode_len();
    let mut out: Vec<bool> = Vec::new();
    let mut i: usize = n;
    proof {
        assert(s@.subrange(n as int, n as int) =~= Seq::<char>::empty());
        assert(out@ =~= Seq::<bool>::empty());
    }
    while i > from
        invariant
            from <= i <= n == s@.len(),
            bin_bits(s@.subrange(i as int, n as int)) == Some(out@),
        decreases i,
    {
        let c = s.get_char(i - 1);
        proof {
            let t = s@.subrange(i - 1, n as int);
            assert(t[0] == c);
            assert(t.skip(1) =~= s@.subrange(i as int, n as int));
            lemma_bin_bits_split_first(t);
        }
        if c == '0' {
            out.push(false);
        } else if c == '1' {
            out.push(true);
        } else {
            proof {
                lemma_bin_bits_none_prefix(s@, from as int, i - 1);
            }
            return Err(FloatParseError::InvalidBinaryDigit);
        }
        i = i - 1;
    }
    Ok(out)
}

impl Float {
    /// What `parse` yields for a literal: the decoded bits of a `0x` or `0b`
    /// literal, padded with zeros up to the layout's width, or the error
    /// naming why the literal is refused. A literal that encodes more bits
    /// than the layout holds is an error, never truncated. Decimal literals
    /// have no parser inside this crate: the hardware IEEE formats are read
    /// by the host's parser in the front end and handed in as bit patterns.
    pub open spec fn spec_parse(s: Seq<char>, p: FloatParameters) -> Result<
        Seq<bool>,
        FloatParseError,
    > {
        if s.len() >= 2 && s[0] == '0' && s[1] == 'x' {
            match hex_bits(s.skip(2)) {
                Some(b) => if b.len() > p.spec_total_length() {
                    Err(FloatParseError::TooLong)
                } else {
                    Ok(b + Seq::new((p.spec_total_length() - b.len()) as nat, |i: int| false))
                },
                None => Err(FloatParseError::InvalidHexDigit),
            }
        } else if s.len() >= 2 && s[0] == '0' && s[1] == 'b' {
            match bin_bits(s.skip(2)) {
                Some(b) => if b.len() > p.spec_total_length() {
                    Err(FloatParseError::TooLong)
                } else {
                    Ok(b + Seq::new((p.spec_total_length() - b.len()) as nat, |i: int| false))
                },
                None => Err(FloatParseError::InvalidBinaryDigit),
            }
        } else {
            Err(FloatParseError::NoParser)
        }
    }

    /// Reads a `0x` or `0b` literal as a bit pattern of the layout.
    pub fn parse(s: &str, params: &FloatParameters) -> (r: Result<Float, FloatParseError>)
        requires
            params.valid(),
        ensures
            match Self::spec_parse(s@, *params) {
                Ok(b) => r is Ok && r->Ok_0.wf() && r->Ok_0.spec_params() == *params
                    && r->Ok_0.spec_bits() == b,
                Err(e) => r is Err && r->Err_0 == e,
            },
    {
        let n = s.unicode_len();
        if n >= 2 && s.get_char(0) == '0' {
            let c1 = s.get_char(1);
            if c1 == 'x' {
                proof {
                    assert(s@.subrange(2, s@.len() as int) =~= s@.skip(2));
                }
                match parse_hex_tail(s, 2) {
                    Err(e) => Err(e),
                    Ok(b) => {
                        let t = params.total_length();
                        if b.len() > t {
                            Err(FloatParseError::TooLong)
                        } else {
                            let bits = pad_high(b, t);
                            Ok(Float { params: *params, bits })
                        }
                    },
                }
            } else if c1 == 'b' {
                proof {
                    assert(s@.subrange(2, s@.len() as int) =~= s@.skip(2));
                }
                match parse_bin_tail(s, 2) {
                    Err(e) => Err(e),
                    Ok(b) => {
                        let t = params.total_length();
                        if b.len() > t {
                            Err(FloatParseError::TooLong)
                        } else {
                            let bits = pad_high(b, t);
                            Ok(Float { params: *params, bits })
                        }
                    },
                }
            } else {
                Err(FloatParseError::NoParser)
            }
        } else {
            Err(FloatParseError::NoParser)
        }
    }
}

/// A finite value's logical exponent lies between `min_exp` and
/// `max_exp + 1` (`max_exp` for normals; zero and subnormals sit at
/// `min_exp`, which exceeds `max_exp` only in a layout with a one-bit
/// exponent field, where no normal exists), and its logical significand
/// fits `sig_bits + 1` bits.
pub proof fn lemma_finite_ranges(f: &Float)
    requires
        f.wf(),
        f.spec_classify().spec_finite(),
    ensures
        f.spec_params().spec_min_exp() <= f.spec_exp_logical(),
        f.spec_exp_logical() <= f.spec_params().spec_max_exp() + 1,
        f.spec_classify().spec_normal() ==> f.spec_exp_logical() <= f.spec_params().spec_max_exp(),
        f.spec_logical_sig() < pow2((f.spec_params().sig_bits + 1) as nat),
        f.spec_classify().spec_zero() ==> f.spec_logical_sig() == 0,
{
    let ef = f.spec_exp_field();
    let w = f.spec_params().exp_bits as nat;
    assert(ef.len() == w);
    lemma_bits_value_bound(ef);
    lemma_bits_value_ones(ef);
    lemma_bits_value_zero(ef);
    assert(!seq_all_true(ef));
    assert(bits_value(ef) < pow2(w));
    assert(bits_value(ef) != pow2(w) - 1);
    if f.spec_classify().spec_normal() {
        assert(seq_any_true(ef));
        assert(bits_value(ef) != 0);
    }
    lemma_bits_value_bound(f.spec_sig_field());
    assert(pow2((f.spec_params().sig_bits + 1) as nat) == 2 * pow2(
        f.spec_params().sig_bits as nat,
    )) by {
        lemma_pow2_adds(1, f.spec_params().sig_bits as nat);
        lemma2_to64();
    }
    assert(pow2(w) >= 2) by {
        if w > 1 {
            lemma_pow2_strictly_increases(1, w);
        }
        lemma2_to64();
    }
    if f.spec_classify().spec_zero() {
        assert(!seq_any_true(f.spec_sig_field()));
        lemma_bits_value_zero(f.spec_sig_field());
    }
}

/// An all-zeros-but-sign pattern classifies as a zero of its sign.
pub proof fn lemma_classify_zero_bits(f: &Float)
    requires
        f.wf(),
        f.spec_bits() == Float::spec_zero_bits(f.spec_params(), f.spec_bits()[f.spec_bits().len()
            - 1]),
    ensures
        f.spec_classify() == (if f.spec_sign() {
            FloatClass::NegativeZero
        } else {
            FloatClass::PositiveZero
        }),
{
    let p = f.spec_params().sig_bits as int;
    let w = f.spec_params().exp_bits as int;
    assert(forall|i: int| 0 <= i < f.spec_bits().len() - 1 ==> !f.spec_bits()[i]);
    lemma_range_quant_equiv(f.spec_bits(), p, p + w);
    lemma_range_quant_equiv(f.spec_bits(), 0, p);
    assert(!f.spec_bits()[p]);
    assert(!seq_all_true(f.spec_exp_field()));
    assert(!seq_any_true(f.spec_exp_field()));
    assert(!seq_any_true(f.spec_sig_field()));
}

/// The all-ones pattern classifies as a quiet NaN.
pub proof fn lemma_classify_nan_bits(f: &Float)
    requires
        f.wf(),
        f.spec_bits() == Float::spec_nan_bits(f.spec_params()),
    ensures
        f.spec_classify() == FloatClass::QuietNaN,
{
    let p = f.spec_params().sig_bits as int;
    let w = f.spec_params().exp_bits as int;
    lemma_range_quant_equiv(f.spec_bits(), p, p + w);
    lemma_range_quant_equiv(f.spec_bits(), 0, p);
    assert(seq_all_true(f.spec_exp_field()));
    assert(f.spec_bits()[0]);
    assert(seq_any_true(f.spec_sig_field()));
    assert(f.spec_sig_field()[p - 1] == f.spec_bits()[p - 1]);
}

/// A zero significand under an all-ones exponent field classifies as the
/// infinity of its sign.
pub proof fn lemma_classify_inf_bits(f: &Float, sign: bool)
    requires
        f.wf(),
        f.spec_bits() == Float::spec_inf_bits(f.spec_params(), sign),
    ensures
        f.spec_classify() == (if sign {
            FloatClass::NegativeInf
        } else {
            FloatClass::PositiveInf
        }),
        f.spec_sign() == sign,
{
    let p = f.spec_params().sig_bits as int;
    let w = f.spec_params().exp_bits as int;
    lemma_range_quant_equiv(f.spec_bits(), p, p + w);
    lemma_range_quant_equiv(f.spec_bits(), 0, p);
    assert(forall|i: int| 0 <= i < p ==> !f.spec_bits()[i]);
    assert(forall|i: int| p <= i < p + w ==> f.spec_bits()[i]);
    assert(f.spec_bits()[p + w] == sign);
}

} // verus!
