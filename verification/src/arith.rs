//! Addition, subtraction, multiplication and division of packed reals.

use vstd::prelude::*;
use vstd::arithmetic::power2::{pow2, lemma_pow2_pos, lemma2_to64};
use crate::bits::{two62, two63, two64, wrap64, mul_hi, trunc_div, lead_bits, lemma_lead_bits, lemma_shift_within, lemma_wrap64_id, leading_bits, clear_bits15, sar, shl, mults64hi, divs64hi};
use crate::pseudo_double::{PseudoDouble, pack, assemble};

verus! {

/// `s` rounded up to a multiple of `2^15`: half a unit of the last mantissa
/// place.
pub open spec fn round_up15(s: int) -> int {
    (s + 32767) - (s + 32767) % 32768
}

/// Half of the mantissa `m`, moved down by `d` further places, rounded down.
pub open spec fn align(m: int, d: int) -> int {
    if d > 0 {
        (m / 2) / (pow2(d as nat) as int)
    } else {
        m / 2
    }
}

/// The word for the rounded sum `vr` of two aligned mantissa halves, whose
/// unit is `2^(exp_max - 32768 - 64)`. The normalizing shift stops where the
/// exponent field reaches zero, so a result at the bottom of the range stays
/// unnormalized.
pub open spec fn finish_sum(vr: int, exp_max: int) -> PseudoDouble {
    if vr == 0 {
        PseudoDouble(0)
    } else {
        let lb = if lead_bits(vr) - 1 > exp_max {
            exp_max
        } else {
            lead_bits(vr) - 1
        };
        pack(vr * pow2(lb as nat), exp_max - lb)
    }
}

/// Whether the rounded sum `vr` with the unit `2^(exp_max - 32768 - 64)` has
/// a word of its own: it is zero, or normalizing it leaves the exponent
/// field within `0..=65535`.
pub open spec fn sum_in_range(vr: int, exp_max: int) -> bool {
    vr == 0 || 0 <= exp_max - (lead_bits(vr) - 1) <= 65535
}

/// Whether the value `v` with the unit `2^(base - 32768 - 64)` does not
/// exceed the exponent range: it is zero, or normalizing it leaves the
/// exponent field at or below 65535.
pub open spec fn fits_exponent(v: int, base: int) -> bool {
    v == 0 || base - (lead_bits(v) - 1) <= 65535
}

impl PseudoDouble {
    /// Whether the sum stays within the exponent range.
    pub open spec fn add_in_range(self, other: PseudoDouble) -> bool {
        let d = other.expo() - self.expo();
        -63 < d < 63 ==> sum_in_range(
            round_up15(align(self.mant(), d) + align(other.mant(), -d)),
            if d >= 0 { other.expo() + 1 } else { self.expo() + 1 },
        )
    }

    /// Whether the difference stays within the exponent range.
    pub open spec fn sub_in_range(self, other: PseudoDouble) -> bool {
        let d = other.expo() - self.expo();
        if d >= 63 {
            !(other.mant() == -two63() && other.expo() == 65535)
        } else {
            -63 < d ==> sum_in_range(
                round_up15(align(self.mant(), d) - align(other.mant(), -d)),
                if d >= 0 { other.expo() + 1 } else { self.expo() + 1 },
            )
        }
    }

    /// Whether the product does not exceed the exponent range.
    pub open spec fn mul_in_range(self, other: PseudoDouble) -> bool {
        fits_exponent(mul_hi(self.mant(), other.mant()), self.expo() + other.expo() - 32768)
    }

    /// Whether the quotient does not exceed the exponent range.
    pub open spec fn div_in_range(self, other: PseudoDouble) -> bool {
        fits_exponent(
            wrap64(trunc_div((self.mant() / 4) * two64(), other.mant())),
            2 + self.expo() - other.expo() + 32768,
        )
    }

    /// The sum. An operand whose exponent field is 63 or more below the
    /// other's is dropped. Otherwise both mantissas are halved, the one of
    /// the smaller exponent is moved down by the difference, and the sum is
    /// rounded up to half a unit of the last place and normalized.
    pub open spec fn spec_add(self, other: PseudoDouble) -> PseudoDouble {
        let d = other.expo() - self.expo();
        if d >= 63 {
            other
        } else if d <= -63 {
            self
        } else {
            let exp_max = if d >= 0 { other.expo() + 1 } else { self.expo() + 1 };
            finish_sum(round_up15(align(self.mant(), d) + align(other.mant(), -d)), exp_max)
        }
    }

    /// The difference: as the sum, with the second aligned mantissa taken
    /// off. Where the first operand is dropped the result is the second one
    /// negated.
    pub open spec fn spec_sub(self, other: PseudoDouble) -> PseudoDouble {
        let d = other.expo() - self.expo();
        if d >= 63 {
            other.spec_neg()
        } else if d <= -63 {
            self
        } else {
            let exp_max = if d >= 0 { other.expo() + 1 } else { self.expo() + 1 };
            finish_sum(round_up15(align(self.mant(), d) - align(other.mant(), -d)), exp_max)
        }
    }

    /// The product: the high word of the product of the mantissas,
    /// normalized, with the exponents added.
    pub open spec fn spec_mul(self, other: PseudoDouble) -> PseudoDouble {
        assemble(mul_hi(self.mant(), other.mant()), self.expo() + other.expo() - 32768)
    }

    /// The quotient: a quarter of the first mantissa times `2^64`, divided by
    /// the second mantissa towards zero, normalized, with the exponents
    /// subtracted.
    pub open spec fn spec_div(self, other: PseudoDouble) -> PseudoDouble {
        assemble(
            wrap64(trunc_div((self.mant() / 4) * two64(), other.mant())),
            2 + self.expo() - other.expo() + 32768,
        )
    }

    /// Rounds the sum of two aligned halves and packs it.
    fn pack_sum(sum: i64, exp_max: i64) -> (r: PseudoDouble)
        requires
            -two63() <= sum < two63() - 32767,
            1 <= exp_max <= 65536,
        ensures
            r == finish_sum(round_up15(sum as int), exp_max as int),
    {
        let vr: i64 = clear_bits15(sum + 0x7FFF);
        if vr == 0 {
            return PseudoDouble(0);
        }
        let mut lb: i64 = (leading_bits(vr) - 1) as i64;
        if lb > exp_max {
            lb = exp_max;
        }
        proof {
            lemma_lead_bits(vr as int);
            lemma_shift_within(vr as int, lb as nat);
            lemma_wrap64_id(vr * pow2(lb as nat));
        }
        Self::compose(shl(vr, lb as u32), exp_max - lb)
    }

    /// The two mantissas halved and aligned to the larger exponent, with that
    /// exponent plus one.
    fn align_operands(self, other: PseudoDouble) -> (r: (i64, i64, i64))
        requires
            -63 < other.expo() - self.expo() < 63,
        ensures
            r.0 == align(self.mant(), other.expo() - self.expo()),
            r.1 == align(other.mant(), self.expo() - other.expo()),
            r.2 == (if other.expo() >= self.expo() { other.expo() + 1 } else { self.expo() + 1 }),
            -two62() <= r.0 <= two62() - 32768,
            -two62() <= r.1 <= two62() - 32768,
    {
        let expx: i64 = self.exponent_field();
        let expy: i64 = other.exponent_field();
        let ydiffx: i64 = expy - expx;
        let hx: i64 = sar(self.mantissa_field(), 1);
        let hy: i64 = sar(other.mantissa_field(), 1);
        proof {
            lemma2_to64();
        }
        if ydiffx >= 0 {
            let vx: i64 = sar(hx, ydiffx as u32);
            proof {
                lemma_pow2_pos(ydiffx as nat);
                let p = pow2(ydiffx as nat) as int;
                assert(-two62() <= (hx as int) / p <= two62() - 32768) by (nonlinear_arith)
                    requires
                        -two62() <= hx <= two62() - 32768,
                        p >= 1,
                ;
                if ydiffx == 0 {
                    assert(p == 1);
                    assert((hx as int) / 1 == hx);
                }
            }
            (vx, hy, expy + 1)
        } else {
            let vy: i64 = sar(hy, (-ydiffx) as u32);
            proof {
                lemma_pow2_pos((-ydiffx) as nat);
                let p = pow2((-ydiffx) as nat) as int;
                assert(-two62() <= (hy as int) / p <= two62() - 32768) by (nonlinear_arith)
                    requires
                        -two62() <= hy <= two62() - 32768,
                        p >= 1,
                ;
            }
            (hx, vy, expx + 1)
        }
    }

    /// Whether the rounded sum of two aligned halves has a word of its own.
    fn sum_fits(sum: i64, exp_max: i64) -> (r: bool)
        requires
            -two63() <= sum < two63() - 32767,
            1 <= exp_max <= 65536,
        ensures
            r == sum_in_range(round_up15(sum as int), exp_max as int),
    {
        let vr: i64 = clear_bits15(sum + 0x7FFF);
        if vr == 0 {
            return true;
        }
        let lb: i64 = (leading_bits(vr) - 1) as i64;
        0 <= exp_max - lb && exp_max - lb <= 65535
    }

    /// Whether the value `v` with the exponent `base` does not exceed the
    /// exponent range.
    fn exponent_fits(v: i64, base: i64) -> (r: bool)
        requires
            -0x4000_0000_0000_0000 <= base <= 0x4000_0000_0000_0000,
        ensures
            r == fits_exponent(v as int, base as int),
    {
        if v == 0 {
            return true;
        }
        let lb: i64 = (leading_bits(v) - 1) as i64;
        base - lb <= 65535
    }

    /// Whether the sum of the two numbers stays within the exponent range,
    /// so that `const_add` gives a well-formed word for well-formed
    /// operands.
    pub fn add_is_in_range(self, other: PseudoDouble) -> (r: bool)
        ensures
            r == self.add_in_range(other),
    {
        let ydiffx: i64 = other.exponent_field() - self.exponent_field();
        if ydiffx >= 63 || ydiffx <= -63 {
            return true;
        }
        let (vx, vy, exp_max) = self.align_operands(other);
        Self::sum_fits(vx + vy, exp_max)
    }

    /// Whether the difference of the two numbers stays within the exponent
    /// range.
    pub fn sub_is_in_range(self, other: PseudoDouble) -> (r: bool)
        ensures
            r == self.sub_in_range(other),
    {
        let ydiffx: i64 = other.exponent_field() - self.exponent_field();
        if ydiffx >= 63 {
            return !(other.mantissa_field() == -0x8000_0000_0000_0000 && other.exponent_field()
                == 65535);
        }
        if ydiffx <= -63 {
            return true;
        }
        let (vx, vy, exp_max) = self.align_operands(other);
        Self::sum_fits(vx - vy, exp_max)
    }

    /// Whether the product of the two numbers does not exceed the exponent
    /// range.
    pub fn mul_is_in_range(self, other: PseudoDouble) -> (r: bool)
        ensures
            r == self.mul_in_range(other),
    {
        let vr: i64 = mults64hi(self.mantissa_field(), other.mantissa_field());
        Self::exponent_fits(vr, self.exponent_field() + other.exponent_field() - 0x8000)
    }

    /// Whether the quotient of the two numbers does not exceed the exponent
    /// range. The divisor's mantissa is not zero.
    pub fn div_is_in_range(self, other: PseudoDouble) -> (r: bool)
        requires
            other.mant() != 0,
        ensures
            r == self.div_in_range(other),
    {
        proof {
            lemma2_to64();
        }
        let vr: i64 = divs64hi(sar(self.mantissa_field(), 2), other.mantissa_field());
        Self::exponent_fits(vr, 2 + self.exponent_field() - other.exponent_field() + 0x8000)
    }

    /// The sum of two numbers.
    pub fn const_add(self, other: PseudoDouble) -> (r: PseudoDouble)
        ensures
            r == self.spec_add(other),
            self.wf() && other.wf() && self.add_in_range(other) ==> r.wf(),
    {
        proof {
            if self.wf() && other.wf() && self.add_in_range(other) {
                crate::wellformed::lemma_add_wf(self, other);
            }
        }
        let ydiffx: i64 = other.exponent_field() - self.exponent_field();
        if ydiffx >= 63 {
            return other;
        }
        if ydiffx <= -63 {
            return self;
        }
        let (vx, vy, exp_max) = self.align_operands(other);
        Self::pack_sum(vx + vy, exp_max)
    }

    /// The difference of two numbers.
    pub fn const_sub(self, other: PseudoDouble) -> (r: PseudoDouble)
        ensures
            r == self.spec_sub(other),
            self.wf() && other.wf() && self.sub_in_range(other) ==> r.wf(),
    {
        proof {
            if self.wf() && other.wf() && self.sub_in_range(other) {
                crate::wellformed::lemma_sub_wf(self, other);
            }
        }
        let ydiffx: i64 = other.exponent_field() - self.exponent_field();
        if ydiffx >= 63 {
            return other.const_neg();
        }
        if ydiffx <= -63 {
            return self;
        }
        let (vx, vy, exp_max) = self.align_operands(other);
        Self::pack_sum(vx - vy, exp_max)
    }

    /// The product of two numbers.
    pub fn const_mul(self, other: PseudoDouble) -> (r: PseudoDouble)
        ensures
            r == self.spec_mul(other),
            self.mul_in_range(other) ==> r.wf(),
    {
        proof {
            if self.mul_in_range(other) {
                crate::wellformed::lemma_mul_wf(self, other);
            }
        }
        let expx: i64 = self.exponent_field();
        let expy: i64 = other.exponent_field();
        let vr: i64 = mults64hi(self.mantissa_field(), other.mantissa_field());
        Self::normalize(vr, expx + expy - 0x8000)
    }

    /// The quotient of two numbers. The divisor's mantissa is not zero.
    pub fn const_div(self, other: PseudoDouble) -> (r: PseudoDouble)
        requires
            other.mant() != 0,
        ensures
            r == self.spec_div(other),
            self.div_in_range(other) ==> r.wf(),
    {
        proof {
            if self.div_in_range(other) {
                crate::wellformed::lemma_div_wf(self, other);
            }
        }
        let expx: i64 = self.exponent_field();
        let expy: i64 = other.exponent_field();
        proof {
            lemma2_to64();
        }
        let vr: i64 = divs64hi(sar(self.mantissa_field(), 2), other.mantissa_field());
        Self::normalize(vr, 2 + expx - expy + 0x8000)
    }
}

impl core::ops::Add for PseudoDouble {
    type Output = PseudoDouble;

    fn add(self, other: PseudoDouble) -> (r: PseudoDouble) {
        self.const_add(other)
    }
}

impl vstd::std_specs::ops::AddSpecImpl for PseudoDouble {
    open spec fn obeys_add_spec() -> bool {
        true
    }

    open spec fn add_req(self, other: PseudoDouble) -> bool {
        true
    }

    open spec fn add_spec(self, other: PseudoDouble) -> PseudoDouble {
        self.spec_add(other)
    }
}

impl core::ops::Sub for PseudoDouble {
    type Output = PseudoDouble;

    fn sub(self, other: PseudoDouble) -> (r: PseudoDouble) {
        self.const_sub(other)
    }
}

impl vstd::std_specs::ops::SubSpecImpl for PseudoDouble {
    open spec fn obeys_sub_spec() -> bool {
        true
    }

    open spec fn sub_req(self, other: PseudoDouble) -> bool {
        true
    }

    open spec fn sub_spec(self, other: PseudoDouble) -> PseudoDouble {
        self.spec_sub(other)
    }
}

impl core::ops::Mul for PseudoDouble {
    type Output = PseudoDouble;

    fn mul(self, other: PseudoDouble) -> (r: PseudoDouble) {
        self.const_mul(other)
    }
}

impl vstd::std_specs::ops::MulSpecImpl for PseudoDouble {
    open spec fn obeys_mul_spec() -> bool {
        true
    }

    open spec fn mul_req(self, other: PseudoDouble) -> bool {
        true
    }

    open spec fn mul_spec(self, other: PseudoDouble) -> PseudoDouble {
        self.spec_mul(other)
    }
}

impl core::ops::Div for PseudoDouble {
    type Output = PseudoDouble;

    fn div(self, other: PseudoDouble) -> (r: PseudoDouble) {
        self.const_div(other)
    }
}

impl vstd::std_specs::ops::DivSpecImpl for PseudoDouble {
    open spec fn obeys_div_spec() -> bool {
        true
    }

    open spec fn div_req(self, other: PseudoDouble) -> bool {
        other.mant() != 0
    }

    open spec fn div_spec(self, other: PseudoDouble) -> PseudoDouble {
        self.spec_div(other)
    }
}

impl core::ops::AddAssign for PseudoDouble {
    fn add_assign(&mut self, other: PseudoDouble)
        ensures
            *final(self) == old(self).spec_add(other),
    {
        *self = self.const_add(other);
    }
}

impl core::ops::SubAssign for PseudoDouble {
    fn sub_assign(&mut self, other: PseudoDouble)
        ensures
            *final(self) == old(self).spec_sub(other),
    {
        *self = self.const_sub(other);
    }
}

impl core::ops::MulAssign for PseudoDouble {
    fn mul_assign(&mut self, other: PseudoDouble)
        ensures
            *final(self) == old(self).spec_mul(other),
    {
        *self = self.const_mul(other);
    }
}

impl core::ops::DivAssign for PseudoDouble {
    fn div_assign(&mut self, other: PseudoDouble)
        requires
            other.mant() != 0,
        ensures
            *final(self) == old(self).spec_div(other),
    {
        *self = self.const_div(other);
    }
}

} // verus!
