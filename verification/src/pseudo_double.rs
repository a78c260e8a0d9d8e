//! The packed real number: its layout, its value, construction from and
//! decoding to integers, and negation.

use vstd::prelude::*;
use vstd::arithmetic::power2::{pow2, lemma2_to64};
use crate::bits::{two62, two63, wrap64, lead_bits, lemma_lead_bits, lemma_wrap64_id, leading_bits, low_bits16, clear_bits16, sar, shl, shl_u, shr_u};

verus! {

/// Width of the packed word in bits.
pub const PSEUDO_DOUBLE_TOTAL_BITS: i32 = 64;

/// Width of the exponent field in bits.
pub const PSEUDO_DOUBLE_EXP_BITS: i32 = 16;

/// Mask of the exponent field.
pub const EXP_MASK: i64 = 0xFFFF;

/// The bias of the exponent field: what is added to an exponent before it is
/// stored.
pub const PSEUDO_DOUBLE_EXP_BIAS: i64 = 0x8000;

/// A real number in one 64-bit word. The low 16 bits hold a biased exponent
/// `E`; the word with those bits cleared is a two's-complement mantissa `M`.
/// The number is `M * 2^(E - 32768 - 64)`.
#[derive(Debug, Copy, Clone, PartialEq, Eq, Structural)]
pub struct PseudoDouble(pub i64);

/// The word of zero: the only word whose value is zero among the well-formed ones.
pub const PD_ZERO_BITS: i64 = 0;

/// The word of one.
pub const PD_ONE_BITS: i64 = 0x4000_0000_0000_8002;

/// The word of minus one.
pub const PD_NEG_ONE_BITS: i64 = -0x7FFF_FFFF_FFFF_7FFF;

/// The word of three.
pub const PD_THREE_BITS: i64 = 0x6000_0000_0000_8003;

/// The word of `log2(e)`, as the decimal builder makes it from
/// `1442695040888963407e-18`.
pub const PD_LOG_2_E_BITS: i64 = 0x5c55_1d94_ae0b_8002;

/// The word of `log2(10)`, from `3321928094887362347e-18`.
pub const PD_LOG_2_10_BITS: i64 = 0x6a4d_3c25_e68d_8003;

/// The word of `1 / log2(e)`, from `6931471805599453094e-19`.
pub const PD_INV_LOG_2_E_BITS: i64 = 0x58b9_0bfb_e8e7_8001;

/// The word of `1 / log2(10)`, from `3010299956639811952e-19`.
pub const PD_INV_LOG_2_10_BITS: i64 = 0x4d10_4d42_7de7_8000;

/// The word of a full turn in radians, from `6283185307179586477e-18`.
pub const PD_TAU_BITS: i64 = 0x6487_ed51_10b4_8004;

/// The word of half a turn in radians: the full turn with its exponent one lower.
pub const PD_PI_BITS: i64 = 0x6487_ed51_10b4_8003;

/// The word of one radian in turns, from `1591549430918953358e-19`.
pub const PD_INV_TAU_BITS: i64 = 0x517c_c1b7_2722_7fff;

/// The word of the default tolerance of approximate comparisons, `2^-46`.
pub const PD_EPSILON_BITS: i64 = 0x4000_0000_0000_7fd4;

/// Zero.
pub fn pd_zero() -> (r: PseudoDouble)
    ensures
        r.0 == PD_ZERO_BITS,
{
    PseudoDouble(PD_ZERO_BITS)
}

/// One.
pub fn pd_one() -> (r: PseudoDouble)
    ensures
        r.0 == PD_ONE_BITS,
{
    PseudoDouble(PD_ONE_BITS)
}

/// Minus one.
pub fn pd_neg_one() -> (r: PseudoDouble)
    ensures
        r.0 == PD_NEG_ONE_BITS,
{
    PseudoDouble(PD_NEG_ONE_BITS)
}

/// `m` with its low 16 bits cleared.
pub open spec fn trunc16(m: int) -> int {
    m - m % 65536
}

/// The word with mantissa `trunc16(m)` and exponent field `e`. Where `e` is
/// outside `0..=65535` it spills into the mantissa, modulo 2^64.
pub open spec fn pack(m: int, e: int) -> PseudoDouble {
    PseudoDouble(wrap64(trunc16(m) + e) as i64)
}

/// Whether `m` is a normalized mantissa: a 64-bit two's-complement value
/// whose two top bits differ.
pub open spec fn normal_mantissa(m: int) -> bool {
    two62() <= m < two63() || -two63() <= m < -two62()
}

/// The word for the value `v * 2^(base - 32768 - 64)` of a nonzero 64-bit `v`,
/// normalized; zero where `v` is zero or the exponent field would be negative.
/// Mantissa bits below the sixteenth are dropped.
pub open spec fn assemble(v: int, base: int) -> PseudoDouble {
    if v == 0 {
        PseudoDouble(0)
    } else {
        let lb = lead_bits(v) - 1;
        if base - lb < 0 {
            PseudoDouble(0)
        } else {
            pack(v * pow2(lb as nat), base - lb)
        }
    }
}

/// The fields of the word that is the sum of a mantissa without low bits and
/// an exponent within its field.
pub proof fn lemma_word_fields(m: int, e: int)
    requires
        -two63() <= m < two63(),
        m % 65536 == 0,
        0 <= e <= 65535,
    ensures
        PseudoDouble((m + e) as i64).0 == m + e,
        PseudoDouble((m + e) as i64).mant() == m,
        PseudoDouble((m + e) as i64).expo() == e,
{
    let q = m / 65536;
    vstd::arithmetic::div_mod::lemma_fundamental_div_mod(m, 65536);
    assert(m + e == 65536 * q + e);
    vstd::arithmetic::div_mod::lemma_fundamental_div_mod_converse(m + e, 65536, q, e);
    assert(m + e < two63());
}

/// The fields of a packed word whose exponent is within its field.
pub proof fn lemma_pack(m: int, e: int)
    requires
        -two63() <= m < two63(),
        0 <= e <= 65535,
    ensures
        pack(m, e).mant() == trunc16(m),
        pack(m, e).expo() == e,
        pack(m, e).0 == trunc16(m) + e,
{
    let t = trunc16(m);
    vstd::arithmetic::div_mod::lemma_fundamental_div_mod(m, 65536);
    vstd::arithmetic::div_mod::lemma_mod_multiples_basic(m / 65536, 65536);
    lemma_wrap64_id(t + e);
    vstd::arithmetic::div_mod::lemma_mod_multiples_vanish(m / 65536, e, 65536);
    vstd::arithmetic::div_mod::lemma_small_mod(e as nat, 65536);
}

/// What `assemble` gives where the exponent field stays in its range: a
/// well-formed word with that exponent, whose mantissa is the normalized
/// value less the bits below its sixteenth.
pub proof fn lemma_assemble(v: int, base: int)
    requires
        -two63() <= v < two63(),
        v != 0,
        0 <= base - (lead_bits(v) - 1) <= 65535,
    ensures
        assemble(v, base).expo() == base - (lead_bits(v) - 1),
        assemble(v, base).mant() == trunc16(v * pow2((lead_bits(v) - 1) as nat)),
        normal_mantissa(assemble(v, base).mant()),
        assemble(v, base).wf(),
        (assemble(v, base).0 < 0) == (v < 0),
{
    lemma_lead_bits(v);
    let m = v * pow2((lead_bits(v) - 1) as nat);
    let e = base - (lead_bits(v) - 1);
    let t = trunc16(m);
    assert(t % 65536 == 0) by {
        vstd::arithmetic::div_mod::lemma_fundamental_div_mod(m, 65536);
        vstd::arithmetic::div_mod::lemma_mod_multiples_basic(m / 65536, 65536);
    }
    lemma_wrap64_id(t + e);
    assert((t + e) % 65536 == e) by {
        vstd::arithmetic::div_mod::lemma_fundamental_div_mod(m, 65536);
        vstd::arithmetic::div_mod::lemma_mod_multiples_vanish(m / 65536, e, 65536);
        vstd::arithmetic::div_mod::lemma_small_mod(e as nat, 65536);
    }
}

impl PseudoDouble {
    /// The biased exponent field `E`, in `0..=65535`.
    pub open spec fn expo(self) -> int {
        (self.0 as int) % 65536
    }

    /// The mantissa `M`: the word with the exponent field cleared.
    pub open spec fn mant(self) -> int {
        self.0 - (self.0 as int) % 65536
    }

    /// The layout invariant: the word is zero, or its mantissa is normalized.
    pub open spec fn wf(self) -> bool {
        self.0 == 0 || normal_mantissa(self.mant())
    }

    /// The value of the word, times `2^(32768 + 64)`: always an integer.
    pub open spec fn scaled(self) -> int {
        self.mant() * pow2(self.expo() as nat)
    }

    /// The biased exponent field of the word.
    pub fn exponent_field(self) -> (r: i64)
        ensures
            r == self.expo(),
            0 <= r <= 65535,
    {
        low_bits16(self.0)
    }

    /// The mantissa of the word, left-justified.
    pub fn mantissa_field(self) -> (r: i64)
        ensures
            r == self.mant(),
            r % 65536 == 0,
    {
        clear_bits16(self.0)
    }

    /// Puts a mantissa and an exponent field together.
    pub fn compose(m: i64, e: i64) -> (r: PseudoDouble)
        ensures
            r == pack(m as int, e as int),
    {
        let hi: i64 = clear_bits16(m);
        PseudoDouble(hi.wrapping_add(e))
    }

    /// Normalizes a nonzero value and attaches the exponent that belongs to it.
    pub fn normalize(v: i64, base: i64) -> (r: PseudoDouble)
        requires
            -0x4000_0000_0000_0000 <= base <= 0x4000_0000_0000_0000,
        ensures
            r == assemble(v as int, base as int),
    {
        if v == 0 {
            return PseudoDouble(0);
        }
        let lb: u32 = leading_bits(v) - 1;
        let new_exponent: i64 = base - lb as i64;
        if new_exponent < 0 {
            return PseudoDouble(0);
        }
        proof {
            lemma_lead_bits(v as int);
            lemma_wrap64_id(v * pow2(lb as nat));
        }
        Self::compose(shl(v, lb), new_exponent)
    }

    /// Whether the word keeps the layout invariant.
    pub fn is_well_formed(self) -> (r: bool)
        ensures
            r == self.wf(),
    {
        let m: i64 = self.mantissa_field();
        self.0 == 0 || m >= 0x4000_0000_0000_0000 || m < -0x4000_0000_0000_0000
    }

    /// Whether the number is greater than zero.
    pub fn gt_zero(x: PseudoDouble) -> (r: bool)
        ensures
            r == (x.0 > 0),
    {
        x.0 > 0
    }

    /// Whether the number is greater than or equal to zero.
    pub fn gte_zero(x: PseudoDouble) -> (r: bool)
        ensures
            r == (x.0 >= 0),
    {
        x.0 >= 0
    }

    /// Whether the number is less than zero.
    pub fn lt_zero(x: PseudoDouble) -> (r: bool)
        ensures
            r == (x.0 < 0),
    {
        x.0 < 0
    }

    /// Whether the number is less than or equal to zero.
    pub fn lte_zero(x: PseudoDouble) -> (r: bool)
        ensures
            r == (x.0 <= 0),
    {
        x.0 <= 0
    }
}

/// The word that stands for the integer `n`: `n` normalized, its bits below
/// the sixteenth of the mantissa dropped.
pub open spec fn encode_int(n: int) -> PseudoDouble {
    assemble(n, 32832)
}

/// The word that stands for the unsigned integer `n`.
pub open spec fn encode_nat(n: int) -> PseudoDouble {
    if n < two63() {
        assemble(n, 32832)
    } else {
        pack(n / 2, 32833)
    }
}

impl PseudoDouble {
    /// The exponent of the word with the bias taken off: the value is the
    /// mantissa times `2^(unbiased - 64)`.
    pub open spec fn unbiased(self) -> int {
        self.expo() - 32768
    }

    /// The integer that the word decodes to: the value rounded down where it
    /// has an integer bit and fits in 64 bits; zero where it is zero, below
    /// one half in magnitude, or too large.
    pub open spec fn decode_int(self) -> int {
        if self.0 == 0 || self.unbiased() <= 0 || self.unbiased() > 64 {
            0
        } else {
            self.mant() / (pow2((64 - self.unbiased()) as nat) as int)
        }
    }

    /// The unsigned integer that the word decodes to: as `decode_int`, with
    /// one more bit of range; zero for a negative number.
    pub open spec fn decode_nat(self) -> int {
        if self.0 <= 0 {
            0
        } else if self.unbiased() == 65 {
            self.mant() * 2
        } else {
            self.decode_int()
        }
    }

    /// The negated word. The two mantissas that have no normalized negative
    /// of their own move to the neighbouring exponent.
    pub open spec fn spec_neg(self) -> PseudoDouble {
        if self.mant() == -two63() {
            pack(two62(), self.expo() + 1)
        } else if self.mant() == two62() {
            if self.expo() == 0 {
                PseudoDouble(0)
            } else {
                pack(-two63(), self.expo() - 1)
            }
        } else {
            pack(-self.mant(), self.expo())
        }
    }

    /// The word for a signed integer.
    pub fn from_i64(x: i64) -> (r: PseudoDouble)
        ensures
            r == encode_int(x as int),
            r.wf(),
            x != 0 ==> r.mant() != 0 && 32769 <= r.expo() <= 32832,
            x == 0 ==> r.0 == 0,
            (r.0 < 0) == (x < 0),
    {
        proof {
            if x != 0 {
                lemma_lead_bits(x as int);
                lemma_assemble(x as int, 32832);
            }
        }
        Self::normalize(x, 0x8000 + 64)
    }

    /// The word for an unsigned integer.
    pub fn from_u64(x: u64) -> (r: PseudoDouble)
        ensures
            r == encode_nat(x as int),
            r.wf(),
    {
        proof {
            crate::wellformed::lemma_encode_nat_wf(x as int);
        }
        if x < 0x8000_0000_0000_0000 {
            Self::normalize(x as i64, 0x8000 + 64)
        } else {
            proof {
                lemma2_to64();
            }
            let half: u64 = shr_u(x, 1);
            Self::compose(half as i64, 0x8000 + 65)
        }
    }

    /// The integer part of the number, rounded down.
    pub fn to_i64(self) -> (r: i64)
        ensures
            r == self.decode_int(),
    {
        if self.0 == 0 {
            return 0;
        }
        let exponent: i64 = self.exponent_field() - 0x8000;
        if exponent <= 0 || exponent > 64 {
            return 0;
        }
        sar(self.mantissa_field(), (64 - exponent) as u32)
    }

    /// The integer part of the number as an unsigned integer; zero where the
    /// number is negative or too large.
    pub fn to_u64(self) -> (r: u64)
        ensures
            r == self.decode_nat(),
    {
        if self.0 <= 0 {
            return 0;
        }
        let exponent: i64 = self.exponent_field() - 0x8000;
        let vx: u64 = self.mantissa_field() as u64;
        if exponent == 65 {
            proof {
                lemma2_to64();
                lemma_wrap64_id(vx * 2);
            }
            return shl_u(vx, 1);
        }
        if exponent <= 0 || exponent > 64 {
            return 0;
        }
        shr_u(vx, (64 - exponent) as u32)
    }

    /// The number negated.
    pub fn const_neg(self) -> (r: PseudoDouble)
        ensures
            r == self.spec_neg(),
            self.0 < 0 ==> r.0 > 0,
            self.0 > 0 ==> r.0 <= 0 || r == self,
            self.wf() && !(self.mant() == -two63() && self.expo() == 65535) ==> r.wf(),
    {
        proof {
            if self.wf() && !(self.mant() == -two63() && self.expo() == 65535) {
                if self.mant() == two62() && self.expo() == 0 {
                    assert(self.spec_neg() == PseudoDouble(0));
                } else {
                    crate::laws::lemma_neg_exact(self);
                }
            }
        }
        let expx: i64 = self.exponent_field();
        let vx: i64 = self.mantissa_field();
        proof {
            lemma_wrap64_id(two62() + expx + 1);
            lemma_wrap64_id(-two63() + expx - 1);
            lemma_wrap64_id(-vx + expx);
        }
        if vx == -0x8000_0000_0000_0000 {
            return PseudoDouble(0x4000_0000_0000_0000 + expx + 1);
        }
        if vx == 0x4000_0000_0000_0000 {
            if expx == 0 {
                return PseudoDouble(0);
            }
            return PseudoDouble(-0x8000_0000_0000_0000 + expx - 1);
        }
        PseudoDouble(-vx + expx)
    }
}

impl core::convert::From<i64> for PseudoDouble {
    fn from(x: i64) -> (r: Self) {
        PseudoDouble::from_i64(x)
    }
}

impl vstd::std_specs::convert::FromSpecImpl<i64> for PseudoDouble {
    open spec fn obeys_from_spec() -> bool {
        true
    }

    open spec fn from_spec(x: i64) -> Self {
        encode_int(x as int)
    }
}

impl core::convert::From<u64> for PseudoDouble {
    fn from(x: u64) -> (r: Self) {
        PseudoDouble::from_u64(x)
    }
}

impl vstd::std_specs::convert::FromSpecImpl<u64> for PseudoDouble {
    open spec fn obeys_from_spec() -> bool {
        true
    }

    open spec fn from_spec(x: u64) -> Self {
        encode_nat(x as int)
    }
}

impl core::convert::From<PseudoDouble> for i64 {
    fn from(x: PseudoDouble) -> (r: Self) {
        x.to_i64()
    }
}

impl vstd::std_specs::convert::FromSpecImpl<PseudoDouble> for i64 {
    open spec fn obeys_from_spec() -> bool {
        true
    }

    open spec fn from_spec(x: PseudoDouble) -> Self {
        x.decode_int() as i64
    }
}

impl core::convert::From<PseudoDouble> for u64 {
    fn from(x: PseudoDouble) -> (r: Self) {
        x.to_u64()
    }
}

impl vstd::std_specs::convert::FromSpecImpl<PseudoDouble> for u64 {
    open spec fn obeys_from_spec() -> bool {
        true
    }

    open spec fn from_spec(x: PseudoDouble) -> Self {
        x.decode_nat() as u64
    }
}

impl core::ops::Neg for PseudoDouble {
    type Output = PseudoDouble;

    fn neg(self) -> (r: PseudoDouble) {
        self.const_neg()
    }
}

impl vstd::std_specs::ops::NegSpecImpl for PseudoDouble {
    open spec fn obeys_neg_spec() -> bool {
        true
    }

    open spec fn neg_req(self) -> bool {
        true
    }

    open spec fn neg_spec(self) -> PseudoDouble {
        self.spec_neg()
    }
}

impl core::default::Default for PseudoDouble {
    fn default() -> (r: Self)
        ensures
            r.0 == 0,
    {
        PseudoDouble(0)
    }
}

} // verus!
