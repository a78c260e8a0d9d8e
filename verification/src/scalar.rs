//! What generic numeric code asks of a real scalar: sign queries, the
//! remainder, fused and derived operations, approximate equality, and the
//! usual constants.

use vstd::prelude::*;
use crate::pseudo_double::{PseudoDouble, PD_ONE_BITS, PD_NEG_ONE_BITS, PD_THREE_BITS, PD_PI_BITS, PD_TAU_BITS, PD_EPSILON_BITS};

verus! {

/// The word of two.
pub const PD_TWO_BITS: i64 = 0x4000_0000_0000_8003;

/// The word of six.
pub const PD_SIX_BITS: i64 = 0x6000_0000_0000_8004;

/// The word of ten.
pub const PD_TEN_BITS: i64 = 0x5000_0000_0000_8005;

/// The key by which words are compared in units of the last place: the word
/// rotated left by sixteen bits.
pub open spec fn ulps_key(w: int) -> int {
    (w % 0x1_0000_0000_0000) * 65536 + w / 0x1_0000_0000_0000
}

impl PseudoDouble {
    /// One, minus one or zero by the sign of the word.
    pub open spec fn spec_signum(self) -> PseudoDouble {
        if self.0 > 0 {
            PseudoDouble(PD_ONE_BITS)
        } else if self.0 < 0 {
            PseudoDouble(PD_NEG_ONE_BITS)
        } else {
            PseudoDouble(0)
        }
    }

    /// The remainder of the division by `other`: the number less `other`
    /// times the truncated quotient.
    pub open spec fn spec_rem(self, other: PseudoDouble) -> PseudoDouble {
        self.spec_sub(other.spec_mul(self.spec_div(other).spec_trunc()))
    }

    /// Whether the two numbers differ by no more than `epsilon`.
    pub open spec fn spec_abs_diff_eq(self, other: PseudoDouble, epsilon: PseudoDouble) -> bool {
        self.spec_sub(other).spec_abs().spec_le(epsilon)
    }

    /// Whether the two numbers are the same word, differ by no more than
    /// `epsilon`, or differ by no more than `max_relative` times the larger
    /// of their magnitudes.
    pub open spec fn spec_relative_eq(
        self,
        other: PseudoDouble,
        epsilon: PseudoDouble,
        max_relative: PseudoDouble,
    ) -> bool {
        let diff = self.spec_sub(other).spec_abs();
        let largest = if self.spec_abs().spec_lt(other.spec_abs()) {
            other.spec_abs()
        } else {
            self.spec_abs()
        };
        self == other || diff.spec_le(epsilon) || diff.spec_le(largest.spec_mul(max_relative))
    }

    /// Whether the two numbers differ by no more than `epsilon`, or have the
    /// same sign and keys no more than `max_ulps` apart.
    pub open spec fn spec_ulps_eq(self, other: PseudoDouble, epsilon: PseudoDouble, max_ulps: int) -> bool {
        let a = ulps_key(crate::bits::wrapu64(self.0 as int));
        let b = ulps_key(crate::bits::wrapu64(other.0 as int));
        self.spec_abs_diff_eq(other, epsilon) || (self.spec_signum() == other.spec_signum() && (if a
            <= b {
            b - a <= max_ulps
        } else {
            a - b <= max_ulps
        }))
    }

    /// Whether the number is the zero word.
    pub fn is_zero(&self) -> (r: bool)
        ensures
            r == (self.0 == 0),
    {
        self.0 == 0
    }

    /// Whether the number is greater than zero.
    pub fn is_positive(&self) -> (r: bool)
        ensures
            r == (self.0 > 0),
    {
        self.0 > 0
    }

    /// Whether the number is less than zero.
    pub fn is_negative(&self) -> (r: bool)
        ensures
            r == (self.0 < 0),
    {
        self.0 < 0
    }

    /// Always true: every word stands for a finite number.
    pub fn is_finite(&self) -> (r: bool)
        ensures
            r,
    {
        true
    }

    /// One, minus one or zero by the sign of the number.
    pub fn signum(&self) -> (r: PseudoDouble)
        ensures
            r == self.spec_signum(),
    {
        if self.0 > 0 {
            PseudoDouble(PD_ONE_BITS)
        } else if self.0 < 0 {
            PseudoDouble(PD_NEG_ONE_BITS)
        } else {
            PseudoDouble(0)
        }
    }

    /// The absolute value of the difference.
    pub fn abs_sub(&self, other: &PseudoDouble) -> (r: PseudoDouble)
        ensures
            r == self.spec_sub(*other).spec_abs(),
    {
        self.const_sub(*other).abs()
    }

    /// The number with the sign of `other`: negated where the signs of the
    /// two words differ.
    pub fn copysign(self, other: PseudoDouble) -> (r: PseudoDouble)
        ensures
            r == (if (self.0 < 0) != (other.0 < 0) { self.spec_neg() } else { self }),
    {
        if (self.0 < 0) != (other.0 < 0) {
            self.const_neg()
        } else {
            self
        }
    }

    /// The number kept between `low` and `high`.
    pub fn clamp(self, low: PseudoDouble, high: PseudoDouble) -> (r: PseudoDouble)
        ensures
            r == (if self.spec_lt(low) {
                low
            } else if high.spec_lt(self) {
                high
            } else {
                self
            }),
    {
        if self.const_less_than(low) {
            low
        } else if high.const_less_than(self) {
            high
        } else {
            self
        }
    }

    /// The remainder of the division by a number whose mantissa is not zero.
    pub fn rem(self, other: PseudoDouble) -> (r: PseudoDouble)
        requires
            other.mant() != 0,
        ensures
            r == self.spec_rem(other),
    {
        self.const_sub(other.const_mul(self.const_div(other).trunc()))
    }

    /// The number times `a`, plus `b`.
    pub fn mul_add(self, a: PseudoDouble, b: PseudoDouble) -> (r: PseudoDouble)
        ensures
            r == self.spec_mul(a).spec_add(b),
    {
        self.const_mul(a).const_add(b)
    }

    /// The length of the hypotenuse with legs `self` and `other`, where the
    /// sum of the squares is not negative.
    pub fn hypot(self, other: PseudoDouble) -> (r: PseudoDouble)
        requires
            self.spec_mul(self).spec_add(other.spec_mul(other)).0 >= 0,
        ensures
            r == self.spec_mul(self).spec_add(other.spec_mul(other)).spec_sqrt(),
    {
        self.const_mul(self).const_add(other.const_mul(other)).sqrt()
    }

    /// The logarithm to the base `base`, for two positive numbers of which
    /// the second has a logarithm with a mantissa.
    pub fn log_base(self, base: PseudoDouble) -> (r: PseudoDouble)
        requires
            self.0 > 0,
            base.0 > 0,
            base.spec_log2().mant() != 0,
        ensures
            r == self.spec_log2().spec_div(base.spec_log2()),
    {
        self.log2().const_div(base.log2())
    }

    /// The natural exponential less one.
    pub fn exp_m1(self) -> (r: PseudoDouble)
        ensures
            r == self.spec_exp().spec_sub(PseudoDouble(PD_ONE_BITS)),
    {
        self.exp().const_sub(PseudoDouble(PD_ONE_BITS))
    }

    /// The natural logarithm of one plus the number, where that is positive.
    pub fn ln_1p(self) -> (r: PseudoDouble)
        requires
            PseudoDouble(PD_ONE_BITS).spec_add(self).0 > 0,
        ensures
            r == PseudoDouble(PD_ONE_BITS).spec_add(self).spec_ln(),
    {
        PseudoDouble(PD_ONE_BITS).const_add(self).ln()
    }

    /// One over the number, whose mantissa is not zero.
    pub fn recip(self) -> (r: PseudoDouble)
        requires
            self.mant() != 0,
        ensures
            r == PseudoDouble(PD_ONE_BITS).spec_div(self),
    {
        PseudoDouble(PD_ONE_BITS).const_div(self)
    }

    /// The square root, or nothing for a negative number.
    pub fn try_sqrt(self) -> (r: Option<PseudoDouble>)
        ensures
            r == (if self.0 >= 0 { Some(self.spec_sqrt()) } else { None }),
    {
        if self.0 >= 0 {
            Some(self.sqrt())
        } else {
            None
        }
    }

    /// The square of the number.
    pub fn modulus_squared(self) -> (r: PseudoDouble)
        ensures
            r == self.spec_mul(self),
    {
        self.const_mul(self)
    }

    /// The angle of the number on the real axis: zero, or half a turn in
    /// radians for a negative number.
    pub fn argument(self) -> (r: PseudoDouble)
        ensures
            r == (if self.0 >= 0 { PseudoDouble(0) } else { PseudoDouble(PD_PI_BITS) }),
    {
        if self.0 >= 0 {
            PseudoDouble(0)
        } else {
            PseudoDouble(PD_PI_BITS)
        }
    }

    /// Whether the numbers are equal to within `epsilon`.
    pub fn abs_diff_eq(&self, other: &PseudoDouble, epsilon: PseudoDouble) -> (r: bool)
        ensures
            r == self.spec_abs_diff_eq(*other, epsilon),
    {
        self.const_sub(*other).abs().const_less_than_or_equal(epsilon)
    }

    /// Whether the numbers are equal to within `epsilon` or to within
    /// `max_relative` of the larger magnitude.
    pub fn relative_eq(
        &self,
        other: &PseudoDouble,
        epsilon: PseudoDouble,
        max_relative: PseudoDouble,
    ) -> (r: bool)
        ensures
            r == self.spec_relative_eq(*other, epsilon, max_relative),
    {
        if self.0 == other.0 {
            return true;
        }
        let abs_diff: PseudoDouble = self.const_sub(*other).abs();
        if abs_diff.const_less_than_or_equal(epsilon) {
            return true;
        }
        let abs_self: PseudoDouble = self.abs();
        let abs_other: PseudoDouble = other.abs();
        let largest: PseudoDouble = if abs_self.const_less_than(abs_other) {
            abs_other
        } else {
            abs_self
        };
        abs_diff.const_less_than_or_equal(largest.const_mul(max_relative))
    }

    /// Whether the numbers are equal to within `epsilon` or to within
    /// `max_ulps` units of the last place.
    pub fn ulps_eq(&self, other: &PseudoDouble, epsilon: PseudoDouble, max_ulps: u32) -> (r: bool)
        ensures
            r == self.spec_ulps_eq(*other, epsilon, max_ulps as int),
    {
        if self.abs_diff_eq(other, epsilon) {
            return true;
        }
        if self.signum().0 != other.signum().0 {
            return false;
        }
        let ws: u64 = crate::bits::to_unsigned(self.0);
        let wo: u64 = crate::bits::to_unsigned(other.0);
        let int_self: u64 = (ws % 0x1_0000_0000_0000) * 65536 + ws / 0x1_0000_0000_0000;
        let int_other: u64 = (wo % 0x1_0000_0000_0000) * 65536 + wo / 0x1_0000_0000_0000;
        if int_self <= int_other {
            int_other - int_self <= max_ulps as u64
        } else {
            int_self - int_other <= max_ulps as u64
        }
    }

    /// The default tolerance of the approximate comparisons.
    pub fn default_epsilon() -> (r: PseudoDouble)
        ensures
            r.0 == PD_EPSILON_BITS,
    {
        PseudoDouble(PD_EPSILON_BITS)
    }

    /// The default number of units of the last place of `ulps_eq`.
    pub fn default_max_ulps() -> (r: u32)
        ensures
            r == 4,
    {
        4
    }

    /// Half a turn in radians.
    pub fn pi() -> (r: PseudoDouble)
        ensures
            r.0 == PD_PI_BITS,
    {
        PseudoDouble(PD_TAU_BITS).ldexp(-1)
    }

    /// A full turn in radians.
    pub fn two_pi() -> (r: PseudoDouble)
        ensures
            r.0 == PD_TAU_BITS,
    {
        PseudoDouble(PD_PI_BITS).ldexp(1)
    }

    /// A quarter turn in radians.
    pub fn frac_pi_2() -> (r: PseudoDouble)
        ensures
            r.0 == PD_PI_BITS - 1,
    {
        PseudoDouble(PD_PI_BITS).ldexp(-1)
    }

    /// A sixth of a turn in radians.
    pub fn frac_pi_3() -> (r: PseudoDouble)
        ensures
            r == PseudoDouble(PD_PI_BITS).spec_div(PseudoDouble(PD_THREE_BITS)),
    {
        PseudoDouble(PD_PI_BITS).const_div(PseudoDouble(PD_THREE_BITS))
    }

    /// An eighth of a turn in radians.
    pub fn frac_pi_4() -> (r: PseudoDouble)
        ensures
            r.0 == PD_PI_BITS - 2,
    {
        PseudoDouble(PD_PI_BITS).ldexp(-2)
    }

    /// A twelfth of a turn in radians.
    pub fn frac_pi_6() -> (r: PseudoDouble)
        ensures
            r == PseudoDouble(PD_PI_BITS).spec_div(PseudoDouble(PD_SIX_BITS)),
    {
        PseudoDouble(PD_PI_BITS).const_div(PseudoDouble(PD_SIX_BITS))
    }

    /// A sixteenth of a turn in radians.
    pub fn frac_pi_8() -> (r: PseudoDouble)
        ensures
            r.0 == PD_PI_BITS - 3,
    {
        PseudoDouble(PD_PI_BITS).ldexp(-3)
    }

    /// One over half a turn in radians.
    pub fn frac_1_pi() -> (r: PseudoDouble)
        ensures
            r == PseudoDouble(PD_ONE_BITS).spec_div(PseudoDouble(PD_PI_BITS)),
    {
        PseudoDouble(PD_ONE_BITS).const_div(PseudoDouble(PD_PI_BITS))
    }

    /// Two over half a turn in radians.
    pub fn frac_2_pi() -> (r: PseudoDouble)
        ensures
            r == PseudoDouble(PD_TWO_BITS).spec_div(PseudoDouble(PD_PI_BITS)),
    {
        PseudoDouble(PD_TWO_BITS).const_div(PseudoDouble(PD_PI_BITS))
    }

    /// The base of the natural logarithm: the exponential of one.
    pub fn e() -> (r: PseudoDouble)
        ensures
            r == PseudoDouble(PD_ONE_BITS).spec_exp(),
    {
        PseudoDouble(PD_ONE_BITS).exp()
    }

    /// The natural logarithm of two.
    pub fn ln_2() -> (r: PseudoDouble)
        ensures
            r == PseudoDouble(PD_TWO_BITS).spec_ln(),
    {
        PseudoDouble(PD_TWO_BITS).ln()
    }

    /// The natural logarithm of ten.
    pub fn ln_10() -> (r: PseudoDouble)
        ensures
            r == PseudoDouble(PD_TEN_BITS).spec_ln(),
    {
        PseudoDouble(PD_TEN_BITS).ln()
    }

    /// A positive number to the power `y`.
    pub fn pow(self, y: PseudoDouble) -> (r: PseudoDouble)
        requires
            self.0 > 0,
        ensures
            r == self.spec_powf(y),
    {
        self.powf(y)
    }

    /// The natural logarithm of a positive number.
    pub fn log(self) -> (r: PseudoDouble)
        requires
            self.0 > 0,
        ensures
            r == self.spec_ln(),
    {
        self.ln()
    }
}

impl core::ops::Rem for PseudoDouble {
    type Output = PseudoDouble;

    fn rem(self, other: PseudoDouble) -> (r: PseudoDouble) {
        PseudoDouble::rem(self, other)
    }
}

impl vstd::std_specs::ops::RemSpecImpl for PseudoDouble {
    open spec fn obeys_rem_spec() -> bool {
        true
    }

    open spec fn rem_req(self, other: PseudoDouble) -> bool {
        other.mant() != 0
    }

    open spec fn rem_spec(self, other: PseudoDouble) -> PseudoDouble {
        self.spec_rem(other)
    }
}

impl core::ops::RemAssign for PseudoDouble {
    fn rem_assign(&mut self, other: PseudoDouble)
        requires
            other.mant() != 0,
        ensures
            *final(self) == old(self).spec_rem(other),
    {
        *self = PseudoDouble::rem(*self, other);
    }
}

/// Whether the number is greater than zero.
pub fn gt_zero(x: PseudoDouble) -> (r: bool)
    ensures
        r == (x.0 > 0),
{
    x.0 > 0
}

/// Whether the number is greater than or equal to zero.
pub fn gte_zero(x: PseudoDouble) -> (r: bool)
    ensures
        r == (x.0 >= 0),
{
    x.0 >= 0
}

/// Whether the number is less than zero.
pub fn lt_zero(x: PseudoDouble) -> (r: bool)
    ensures
        r == (x.0 < 0),
{
    x.0 < 0
}

/// Whether the number is less than or equal to zero.
pub fn lte_zero(x: PseudoDouble) -> (r: bool)
    ensures
        r == (x.0 <= 0),
{
    x.0 <= 0
}

} // verus!
