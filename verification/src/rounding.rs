//! Rounding to integers, the fractional part and the absolute value.

use vstd::prelude::*;
use vstd::arithmetic::power2::{pow2, lemma2_to64};
use crate::bits::{two63, clear_low_bits, pow2_word, sar};
use crate::pseudo_double::{PseudoDouble, assemble, PD_ONE_BITS, PD_NEG_ONE_BITS};

verus! {

/// The largest multiple of `2^k` that is not above `v`.
pub open spec fn floor_to(v: int, k: int) -> int {
    v / (pow2(k as nat) as int) * pow2(k as nat)
}

impl PseudoDouble {
    /// The largest integer not above the number. Below one in magnitude the
    /// result is zero or minus one by the sign of the word; from `2^47` on
    /// every number is an integer; in between the mantissa bits below the
    /// unit place are cleared.
    pub open spec fn spec_floor(self) -> PseudoDouble {
        let e = self.unbiased();
        if e < 2 {
            if self.0 < 0 {
                PseudoDouble(PD_NEG_ONE_BITS)
            } else {
                PseudoDouble(0)
            }
        } else if e >= 48 {
            self
        } else {
            PseudoDouble((floor_to(self.mant(), 64 - e) + self.expo()) as i64)
        }
    }

    /// The smallest integer not below the number. Below one in magnitude the
    /// result is one or zero by the sign of the word, but minus one stays
    /// minus one; in between, half the mantissa is rounded up to the unit
    /// place and normalized again.
    pub open spec fn spec_ceil(self) -> PseudoDouble {
        let e = self.unbiased();
        if e < 2 {
            if e == 1 && (self.mant() == -two63() || self.mant() == 0) {
                self
            } else if self.0 > 0 {
                PseudoDouble(PD_ONE_BITS)
            } else {
                PseudoDouble(0)
            }
        } else if e >= 48 {
            self
        } else {
            assemble(
                floor_to(self.mant() / 2 + pow2((63 - e) as nat) - 1, 63 - e),
                self.expo() + 1,
            )
        }
    }

    /// The nearest integer, halves away from zero. Below one half in
    /// magnitude the result is zero, but minus one half becomes minus one.
    pub open spec fn spec_round(self) -> PseudoDouble {
        let e = self.unbiased();
        if e < 1 {
            if e == 0 && (self.mant() == -two63() || self.mant() == 0) {
                PseudoDouble((self.0 + 1) as i64)
            } else {
                PseudoDouble(0)
            }
        } else if e >= 48 {
            self
        } else {
            let half = pow2((62 - e) as nat) as int;
            let bias = if self.mant() > 0 { half } else { half - 1 };
            assemble(floor_to(self.mant() / 2 + bias, 63 - e), self.expo() + 1)
        }
    }

    /// The number with its fractional part dropped.
    pub open spec fn spec_trunc(self) -> PseudoDouble {
        if self.0 < 0 {
            self.spec_ceil()
        } else {
            self.spec_floor()
        }
    }

    /// The number less its floor.
    pub open spec fn spec_fract(self) -> PseudoDouble {
        self.spec_sub(self.spec_floor())
    }

    /// The number without its sign.
    pub open spec fn spec_abs(self) -> PseudoDouble {
        if self.0 >= 0 {
            self
        } else {
            self.spec_neg()
        }
    }

    /// The largest integer less than or equal to the number.
    pub fn floor(self) -> (r: PseudoDouble)
        ensures
            r == self.spec_floor(),
            self.wf() ==> r.wf() && r.spec_le(self),
    {
        proof {
            if self.wf() {
                crate::laws::lemma_floor_below(self);
            }
        }
        let exponent: i64 = self.exponent_field();
        let e: i64 = exponent - 0x8000;
        if e < 2 {
            return if self.0 < 0 {
                PseudoDouble(PD_NEG_ONE_BITS)
            } else {
                PseudoDouble(0)
            };
        }
        if e >= 48 {
            return self;
        }
        let cleared: i64 = clear_low_bits(self.mantissa_field(), (64 - e) as u32);
        PseudoDouble(cleared + exponent)
    }

    /// The smallest integer greater than or equal to the number.
    pub fn ceil(self) -> (r: PseudoDouble)
        ensures
            r == self.spec_ceil(),
            self.wf() ==> r.wf() && self.spec_le(r),
    {
        proof {
            if self.wf() {
                crate::laws::lemma_ceil_above(self);
            }
        }
        let exponent: i64 = self.exponent_field();
        let e: i64 = exponent - 0x8000;
        let vx: i64 = self.mantissa_field();
        if e < 2 {
            if e == 1 && (vx == -0x8000_0000_0000_0000 || vx == 0) {
                return self;
            }
            return if self.0 > 0 {
                PseudoDouble(PD_ONE_BITS)
            } else {
                PseudoDouble(0)
            };
        }
        if e >= 48 {
            return self;
        }
        proof {
            lemma2_to64();
        }
        let k: u32 = (63 - e) as u32;
        let m: i64 = pow2_word(k) - 1;
        let vr: i64 = clear_low_bits(sar(vx, 1) + m, k);
        Self::normalize(vr, exponent + 1)
    }

    /// The number rounded towards zero.
    pub fn trunc(self) -> (r: PseudoDouble)
        ensures
            r == self.spec_trunc(),
            self.wf() ==> r.wf(),
    {
        if self.0 < 0 {
            self.ceil()
        } else {
            self.floor()
        }
    }

    /// The nearest integer; a number halfway between two goes away from zero.
    pub fn round(self) -> (r: PseudoDouble)
        ensures
            r == self.spec_round(),
            self.wf() ==> r.wf(),
    {
        proof {
            if self.wf() {
                crate::laws::lemma_round_nearest(self);
            }
        }
        let exponent: i64 = self.exponent_field();
        let e: i64 = exponent - 0x8000;
        let vx: i64 = self.mantissa_field();
        if e < 1 {
            if e == 0 && (vx == -0x8000_0000_0000_0000 || vx == 0) {
                return PseudoDouble(self.0 + 1);
            }
            return PseudoDouble(0);
        }
        if e >= 48 {
            return self;
        }
        proof {
            lemma2_to64();
        }
        let add: i64 = pow2_word((62 - e) as u32);
        let bias: i64 = if vx > 0 { add } else { add - 1 };
        let vr: i64 = clear_low_bits(sar(vx, 1) + bias, (63 - e) as u32);
        Self::normalize(vr, exponent + 1)
    }

    /// The fractional part: the number less its floor.
    pub fn fract(self) -> (r: PseudoDouble)
        ensures
            r == self.spec_fract(),
            self.wf() && self.sub_in_range(self.spec_floor()) ==> r.wf(),
    {
        self.const_sub(self.floor())
    }

    /// The absolute value.
    pub fn abs(self) -> (r: PseudoDouble)
        ensures
            r == self.spec_abs(),
            self.0 != 0 ==> r.0 > 0,
            self.wf() && !(self.mant() == -two63() && self.expo() == 65535) ==> r.wf(),
    {
        if self.0 >= 0 {
            self
        } else {
            self.const_neg()
        }
    }
}

} // verus!
