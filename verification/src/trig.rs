//! Sine, cosine and the two-argument arctangent, in turns and in radians, and
//! the inverse and hyperbolic functions built on them.

use vstd::prelude::*;
use vstd::arithmetic::power2::{pow2, lemma2_to64};
use crate::bits::{two62, two63, two64, wrap64, wrapu64, trunc_div, lemma_wrap64_id, lemma_wrap64_add_multiple, sar, sar_wide, shr_u, divs64hi};
use crate::kernels::{sin_rev_64_fixed, sin_rev_64_fixed_spec, atan_rev_64_fixed, atan_rev_64_fixed_spec};
use crate::pseudo_double::{PseudoDouble, assemble, PD_ONE_BITS, PD_NEG_ONE_BITS, PD_TAU_BITS, PD_INV_TAU_BITS};

verus! {

/// The word of one half.
pub const PD_HALF_BITS: i64 = 0x4000_0000_0000_8001;

/// The word of one quarter.
pub const PD_QUARTER_BITS: i64 = 0x4000_0000_0000_8000;

/// The word of three quarters.
pub const PD_THREE_QUARTERS_BITS: i64 = 0x6000_0000_0000_8001;

/// An angle `f`, a fraction of a turn in units of `2^-64`, folded into the
/// first quarter turn, in units of `2^-64` still: the sine of the folded
/// angle is the sine of `f` up to its sign.
pub open spec fn fold_quarter(f: int) -> int {
    let a = if f > two63() { two64() - f } else { f };
    if a >= two62() {
        two63() - a
    } else {
        a
    }
}

/// The sine of the angle `f`, a fraction of a turn in units of `2^-64`. The
/// sign is that of the second half turn.
pub open spec fn sine_of_fraction(f: int) -> PseudoDouble {
    let d = sin_rev_64_fixed_spec(fold_quarter(f));
    assemble(if f >= two63() { -d } else { d }, 32770)
}

/// The sine of the angle `f`, a fraction of a turn as a 64-bit fixed-point
/// fraction.
pub fn sine_fraction(f: u64) -> (r: PseudoDouble)
    ensures
        r == sine_of_fraction(f as int),
        r.wf(),
        r.0 == 0 || (32707 <= r.expo() <= 32770 && r.mant() != 0),
{
    let negative: bool = f >= 0x8000_0000_0000_0000;
    let a: u64 = if f > 0x8000_0000_0000_0000 { 0u64.wrapping_sub(f) } else { f };
    let q: u64 = if a >= 0x4000_0000_0000_0000 { 0x8000_0000_0000_0000 - a } else { a };
    let d: i64 = sin_rev_64_fixed(q) as i64;
    proof {
        let v = if negative { -d } else { d as int };
        crate::bits::lemma_lead_bits(v);
        crate::wellformed::lemma_assemble_wf(v, 32770);
        crate::wellformed::lemma_assemble_expo(v, 32770);
    }
    PseudoDouble::normalize(if negative { -d } else { d }, 0x8000 + 2)
}

impl PseudoDouble {
    /// The sine of the number of turns: the sine of its fractional part.
    pub open spec fn spec_sin_rev(self) -> PseudoDouble {
        if self.0 == 0 {
            PseudoDouble(0)
        } else {
            sine_of_fraction(self.frac64())
        }
    }

    /// The cosine of the number of turns: the sine of its fractional part a
    /// quarter turn on.
    pub open spec fn spec_cos_rev(self) -> PseudoDouble {
        if self.0 == 0 {
            PseudoDouble(PD_ONE_BITS)
        } else {
            sine_of_fraction(wrapu64(self.frac64() + two62()))
        }
    }

    /// The smaller and the larger of the absolute values of `self` (`y`) and
    /// `other` (`x`), with the angle of their octant's axis as a fraction of
    /// a turn in units of `2^-64`, and whether the arctangent of their ratio
    /// is taken off that angle rather than added to it.
    pub open spec fn octant(self, other: PseudoDouble) -> (PseudoDouble, PseudoDouble, int, bool) {
        let ay = self.spec_abs();
        let ax = other.spec_abs();
        let swap = !ay.spec_le(ax);
        let num = if swap { ax } else { ay };
        let den = if swap { ay } else { ax };
        if self.0 > 0 {
            if other.0 > 0 {
                (num, den, if swap { two62() } else { 0 }, swap)
            } else {
                (num, den, if swap { two62() } else { two63() }, !swap)
            }
        } else {
            if other.0 > 0 {
                (num, den, if swap { 3 * two62() } else { 0 }, !swap)
            } else {
                (num, den, if swap { 3 * two62() } else { two63() }, swap)
            }
        }
    }

    /// The ratio of `self` to `den`, in units of `2^-62` and rounded down,
    /// for two positive words of which `self` is not the larger.
    pub open spec fn ratio62(self, den: PseudoDouble) -> int {
        if self.0 == den.0 {
            two62()
        } else {
            wrap64(trunc_div((self.mant() / 4) * two64(), den.mant())) / (pow2(
                (den.expo() - self.expo()) as nat,
            ) as int)
        }
    }

    /// Whether the two-argument arctangent can be taken: where neither
    /// argument is the zero word, the larger one in magnitude has a mantissa
    /// that is not zero, and the ratio of the smaller to the larger is
    /// between zero and one. It holds of all well-formed arguments.
    pub open spec fn atan2_defined(self, other: PseudoDouble) -> bool {
        let (num, den, offset, negative) = self.octant(other);
        self.0 == 0 || other.0 == 0 || num.0 == den.0 || (den.mant() != 0 && 0 <= num.ratio62(den)
            <= two62())
    }

    /// The angle of the point with ordinate `self` and abscissa `other`, in
    /// turns. On the axes it is exactly zero, a quarter, a half or three
    /// quarters; elsewhere it is the angle of the octant's axis plus or minus
    /// the arctangent of the ratio of the smaller coordinate to the larger,
    /// modulo one turn, between minus a half and a half.
    pub open spec fn spec_atan2_rev(self, other: PseudoDouble) -> PseudoDouble {
        if self.0 == 0 {
            if other.0 >= 0 {
                PseudoDouble(0)
            } else {
                PseudoDouble(PD_HALF_BITS)
            }
        } else if other.0 == 0 {
            if self.0 > 0 {
                PseudoDouble(PD_QUARTER_BITS)
            } else {
                PseudoDouble(PD_THREE_QUARTERS_BITS)
            }
        } else {
            let (num, den, offset, negative) = self.octant(other);
            let a = atan_rev_64_fixed_spec(num.ratio62(den)) / 2;
            assemble(wrap64(offset + (if negative { -a } else { a })), 32768)
        }
    }

    /// The sine of the number of radians.
    pub open spec fn spec_sin(self) -> PseudoDouble {
        self.spec_mul(PseudoDouble(PD_INV_TAU_BITS)).spec_sin_rev()
    }

    /// The cosine of the number of radians.
    pub open spec fn spec_cos(self) -> PseudoDouble {
        self.spec_mul(PseudoDouble(PD_INV_TAU_BITS)).spec_cos_rev()
    }

    /// The tangent of the number of radians: sine over cosine.
    pub open spec fn spec_tan(self) -> PseudoDouble {
        self.spec_sin().spec_div(self.spec_cos())
    }

    /// The two-argument arctangent in radians.
    pub open spec fn spec_atan2(self, other: PseudoDouble) -> PseudoDouble {
        self.spec_atan2_rev(other).spec_mul(PseudoDouble(PD_TAU_BITS))
    }

    /// The other leg of the right triangle with hypotenuse one: the square
    /// root of one less the square.
    pub open spec fn cathetus(self) -> PseudoDouble {
        PseudoDouble(PD_ONE_BITS).spec_sub(self.spec_mul(self)).spec_sqrt()
    }

    /// Whether the number is between minus one and one, ends included.
    pub open spec fn in_unit_interval(self) -> bool {
        !self.spec_lt(PseudoDouble(PD_NEG_ONE_BITS)) && !PseudoDouble(PD_ONE_BITS).spec_lt(self)
    }

    /// Whether the arcsine can be taken: the number is in the unit interval,
    /// one less its square is not negative, and the arctangent of the two is
    /// defined. It holds of every well-formed number in the unit interval
    /// for which the square-root kernel stays within its range.
    pub open spec fn asin_defined(self) -> bool {
        self.in_unit_interval() && PseudoDouble(PD_ONE_BITS).spec_sub(self.spec_mul(self)).0 >= 0
            && self.atan2_defined(self.cathetus())
    }

    /// Whether the arccosine can be taken, on the same numbers as the
    /// arcsine.
    pub open spec fn acos_defined(self) -> bool {
        self.in_unit_interval() && PseudoDouble(PD_ONE_BITS).spec_sub(self.spec_mul(self)).0 >= 0
            && self.cathetus().atan2_defined(self)
    }

    /// The arcsine in radians.
    pub open spec fn spec_asin(self) -> PseudoDouble {
        self.spec_atan2(self.cathetus())
    }

    /// The arccosine in radians.
    pub open spec fn spec_acos(self) -> PseudoDouble {
        self.cathetus().spec_atan2(self)
    }

    /// The arctangent in turns.
    pub open spec fn spec_atan_rev(self) -> PseudoDouble {
        self.spec_atan2_rev(PseudoDouble(PD_ONE_BITS))
    }

    /// The arctangent in radians.
    pub open spec fn spec_atan(self) -> PseudoDouble {
        self.spec_atan2(PseudoDouble(PD_ONE_BITS))
    }

    /// The hyperbolic sine: half of the exponential less its reciprocal.
    pub open spec fn spec_sinh(self) -> PseudoDouble {
        let t = self.spec_exp();
        t.spec_sub(PseudoDouble(PD_ONE_BITS).spec_div(t)).spec_ldexp(-1)
    }

    /// The hyperbolic cosine: half of the exponential plus its reciprocal.
    pub open spec fn spec_cosh(self) -> PseudoDouble {
        let t = self.spec_exp();
        t.spec_add(PseudoDouble(PD_ONE_BITS).spec_div(t)).spec_ldexp(-1)
    }

    /// The exponential of minus twice the number, which the hyperbolic
    /// tangent is made of.
    pub open spec fn tanh_operand(self) -> PseudoDouble {
        self.spec_ldexp(1).spec_neg().spec_exp()
    }

    /// The hyperbolic tangent: `(1 - t) / (1 + t)` for `t` the exponential
    /// of minus twice the number.
    pub open spec fn spec_tanh(self) -> PseudoDouble {
        let t = self.tanh_operand();
        PseudoDouble(PD_ONE_BITS).spec_sub(t).spec_div(PseudoDouble(PD_ONE_BITS).spec_add(t))
    }

    /// The square of the number with `c` added.
    pub open spec fn square_plus(self, c: PseudoDouble) -> PseudoDouble {
        self.spec_mul(self).spec_add(c)
    }

    /// Whether the inverse hyperbolic sine can be taken: the square plus one
    /// is not negative, and the number plus its root is positive. For a
    /// negative number the second rests on how close the kernel comes to
    /// the root.
    pub open spec fn asinh_defined(self) -> bool {
        let s = self.square_plus(PseudoDouble(PD_ONE_BITS));
        s.0 >= 0 && self.spec_add(s.spec_sqrt()).0 > 0
    }

    /// The inverse hyperbolic sine: the logarithm of the number plus the
    /// root of its square plus one.
    pub open spec fn spec_asinh(self) -> PseudoDouble {
        self.spec_add(self.square_plus(PseudoDouble(PD_ONE_BITS)).spec_sqrt()).spec_ln()
    }

    /// Whether the inverse hyperbolic cosine can be taken: the number is not
    /// below one, its square less one is not negative, and the number plus
    /// the root of that is positive.
    pub open spec fn acosh_defined(self) -> bool {
        let s = self.spec_mul(self).spec_sub(PseudoDouble(PD_ONE_BITS));
        !self.spec_lt(PseudoDouble(PD_ONE_BITS)) && s.0 >= 0 && self.spec_add(s.spec_sqrt()).0 > 0
    }

    /// The inverse hyperbolic cosine: the logarithm of the number plus the
    /// root of its square less one.
    pub open spec fn spec_acosh(self) -> PseudoDouble {
        self.spec_add(
            self.spec_mul(self).spec_sub(PseudoDouble(PD_ONE_BITS)).spec_sqrt(),
        ).spec_ln()
    }

    /// The quotient `(1 + x) / (1 - x)` whose logarithm the inverse
    /// hyperbolic tangent halves.
    pub open spec fn atanh_operand(self) -> PseudoDouble {
        PseudoDouble(PD_ONE_BITS).spec_add(self).spec_div(PseudoDouble(PD_ONE_BITS).spec_sub(self))
    }

    /// Whether the inverse hyperbolic tangent can be taken: the number is
    /// strictly between minus one and one, one less the number has a
    /// mantissa, and the quotient is positive. It holds of every
    /// well-formed number strictly between minus one and one.
    pub open spec fn atanh_defined(self) -> bool {
        PseudoDouble(PD_NEG_ONE_BITS).spec_lt(self) && self.spec_lt(PseudoDouble(PD_ONE_BITS))
            && PseudoDouble(PD_ONE_BITS).spec_sub(self).mant() != 0 && self.atanh_operand().0 > 0
    }

    /// The inverse hyperbolic tangent.
    pub open spec fn spec_atanh(self) -> PseudoDouble {
        self.atanh_operand().spec_ln().spec_ldexp(-1)
    }

    /// The sine of the number of turns.
    pub fn sin_rev(self) -> (r: PseudoDouble)
        ensures
            r == self.spec_sin_rev(),
            r.wf(),
            r.0 == 0 || (32707 <= r.expo() <= 32770 && r.mant() != 0),
    {
        if self.0 == 0 {
            return PseudoDouble(0);
        }
        sine_fraction(self.fraction_bits())
    }

    /// The cosine of the number of turns.
    pub fn cos_rev(self) -> (r: PseudoDouble)
        ensures
            r == self.spec_cos_rev(),
            r.wf(),
            r.0 == 0 || (32707 <= r.expo() <= 32770 && r.mant() != 0),
    {
        if self.0 == 0 {
            return PseudoDouble(PD_ONE_BITS);
        }
        let f: u64 = self.fraction_bits();
        proof {
            lemma_wrap64_id(f + two62());
            lemma_wrap64_add_multiple(f + two62(), -1);
        }
        sine_fraction(f.wrapping_add(0x4000_0000_0000_0000))
    }

    /// The ratio of `self` to `den` as a fixed-point fraction of `2^62`.
    fn ratio_bits(self, den: PseudoDouble) -> (r: i64)
        requires
            self.0 > 0,
            den.0 > 0,
            self.spec_le(den),
            self.0 == den.0 || den.mant() != 0,
        ensures
            r == self.ratio62(den),
    {
        if self.0 == den.0 {
            return 0x4000_0000_0000_0000;
        }
        proof {
            lemma2_to64();
        }
        let vr: i64 = divs64hi(sar(self.mantissa_field(), 2), den.mantissa_field());
        sar_wide(vr, den.exponent_field() - self.exponent_field())
    }

    /// The absolute values of two words that are not zero, the smaller first,
    /// with the angle of their octant's axis and the sign of the arctangent.
    fn octant_parts(self, other: PseudoDouble) -> (r: (PseudoDouble, PseudoDouble, u64, bool))
        requires
            self.0 != 0,
            other.0 != 0,
        ensures
            r.0 == self.octant(other).0,
            r.1 == self.octant(other).1,
            r.2 == self.octant(other).2,
            r.3 == self.octant(other).3,
            r.0.0 > 0,
            r.1.0 > 0,
            r.0.spec_le(r.1),
    {
        let ay: PseudoDouble = self.abs();
        let ax: PseudoDouble = other.abs();
        let swap: bool = !ay.const_less_than_or_equal(ax);
        let num: PseudoDouble = if swap { ax } else { ay };
        let den: PseudoDouble = if swap { ay } else { ax };
        if self.0 > 0 {
            if other.0 > 0 {
                (num, den, if swap { 0x4000_0000_0000_0000 } else { 0 }, swap)
            } else {
                (num, den, if swap { 0x4000_0000_0000_0000 } else { 0x8000_0000_0000_0000 }, !swap)
            }
        } else {
            if other.0 > 0 {
                (num, den, if swap { 0xC000_0000_0000_0000 } else { 0 }, !swap)
            } else {
                (num, den, if swap { 0xC000_0000_0000_0000 } else { 0x8000_0000_0000_0000 }, swap)
            }
        }
    }

    /// The angle `offset` plus or minus `a`, both fractions of a turn in
    /// units of `2^-64`, as a number of turns.
    fn turn_angle(offset: u64, a: u64, negative: bool) -> (r: PseudoDouble)
        requires
            a <= 0x4000_0000_0000_0000,
        ensures
            r == assemble(wrap64(offset + (if negative { -(a as int) } else { a as int })), 32768),
            r.wf(),
            r.0 == 0 || r.expo() <= 32768,
    {
        proof {
            let v = wrap64(offset + (if negative { -(a as int) } else { a as int }));
            lemma_wrap64_id(offset + (if negative { -(a as int) } else { a as int }));
            crate::bits::lemma_lead_bits(v);
            crate::wellformed::lemma_assemble_wf(v, 32768);
            crate::wellformed::lemma_assemble_expo(v, 32768);
        }
        let d: i128 = offset as i128 + (if negative { -(a as i128) } else { a as i128 });
        let d64: i64 = if d >= 0x8000_0000_0000_0000 {
            (d - 0x1_0000_0000_0000_0000) as i64
        } else {
            d as i64
        };
        proof {
            lemma_wrap64_id(d as int);
            lemma_wrap64_add_multiple(d as int, -1);
        }
        Self::normalize(d64, 0x8000)
    }

    /// The angle of the point with ordinate `self` and abscissa `other`, in
    /// turns.
    pub fn atan2_rev(self, other: PseudoDouble) -> (r: PseudoDouble)
        requires
            self.atan2_defined(other),
        ensures
            r == self.spec_atan2_rev(other),
            r.wf(),
            r.0 == 0 || r.expo() <= 32769,
    {
        if self.0 == 0 {
            return if other.0 >= 0 {
                PseudoDouble(0)
            } else {
                PseudoDouble(PD_HALF_BITS)
            };
        }
        if other.0 == 0 {
            return if self.0 > 0 {
                PseudoDouble(PD_QUARTER_BITS)
            } else {
                PseudoDouble(PD_THREE_QUARTERS_BITS)
            };
        }
        let (num, den, add_const, negative) = self.octant_parts(other);
        let ratio: i64 = num.ratio_bits(den);
        proof {
            lemma2_to64();
        }
        let a: u64 = shr_u(atan_rev_64_fixed(ratio as u64), 1);
        Self::turn_angle(add_const, a, negative)
    }

    /// Whether the two-argument arctangent can be taken of `self` and
    /// `other`.
    pub fn atan2_is_defined(self, other: PseudoDouble) -> (r: bool)
        ensures
            r == self.atan2_defined(other),
    {
        if self.0 == 0 || other.0 == 0 {
            return true;
        }
        let (num, den, _add_const, _negative) = self.octant_parts(other);
        if num.0 == den.0 {
            return true;
        }
        if den.mantissa_field() == 0 {
            return false;
        }
        let ratio: i64 = num.ratio_bits(den);
        0 <= ratio && ratio <= 0x4000_0000_0000_0000
    }

    /// Whether the arcsine can be taken of the number.
    pub fn asin_is_defined(self) -> (r: bool)
        ensures
            r == self.asin_defined(),
    {
        if self.const_less_than(PseudoDouble(PD_NEG_ONE_BITS)) || PseudoDouble(
            PD_ONE_BITS,
        ).const_less_than(self) {
            return false;
        }
        let s: PseudoDouble = PseudoDouble(PD_ONE_BITS).const_sub(self.const_mul(self));
        if s.0 < 0 {
            return false;
        }
        self.atan2_is_defined(s.sqrt())
    }

    /// Whether the arccosine can be taken of the number.
    pub fn acos_is_defined(self) -> (r: bool)
        ensures
            r == self.acos_defined(),
    {
        if self.const_less_than(PseudoDouble(PD_NEG_ONE_BITS)) || PseudoDouble(
            PD_ONE_BITS,
        ).const_less_than(self) {
            return false;
        }
        let s: PseudoDouble = PseudoDouble(PD_ONE_BITS).const_sub(self.const_mul(self));
        if s.0 < 0 {
            return false;
        }
        s.sqrt().atan2_is_defined(self)
    }

    /// Whether the inverse hyperbolic sine can be taken of the number.
    pub fn asinh_is_defined(self) -> (r: bool)
        ensures
            r == self.asinh_defined(),
    {
        let s: PseudoDouble = self.const_mul(self).const_add(PseudoDouble(PD_ONE_BITS));
        if s.0 < 0 {
            return false;
        }
        self.const_add(s.sqrt()).0 > 0
    }

    /// Whether the inverse hyperbolic cosine can be taken of the number.
    pub fn acosh_is_defined(self) -> (r: bool)
        ensures
            r == self.acosh_defined(),
    {
        if self.const_less_than(PseudoDouble(PD_ONE_BITS)) {
            return false;
        }
        let s: PseudoDouble = self.const_mul(self).const_sub(PseudoDouble(PD_ONE_BITS));
        if s.0 < 0 {
            return false;
        }
        self.const_add(s.sqrt()).0 > 0
    }

    /// Whether the inverse hyperbolic tangent can be taken of the number.
    pub fn atanh_is_defined(self) -> (r: bool)
        ensures
            r == self.atanh_defined(),
    {
        if !PseudoDouble(PD_NEG_ONE_BITS).const_less_than(self) || !self.const_less_than(
            PseudoDouble(PD_ONE_BITS),
        ) {
            return false;
        }
        let d: PseudoDouble = PseudoDouble(PD_ONE_BITS).const_sub(self);
        if d.mantissa_field() == 0 {
            return false;
        }
        PseudoDouble(PD_ONE_BITS).const_add(self).const_div(d).0 > 0
    }

    /// The sine of the number of radians.
    pub fn sin(self) -> (r: PseudoDouble)
        ensures
            r == self.spec_sin(),
            r.wf(),
            r.0 == 0 || (32707 <= r.expo() <= 32770 && r.mant() != 0),
    {
        self.const_mul(PseudoDouble(PD_INV_TAU_BITS)).sin_rev()
    }

    /// The cosine of the number of radians.
    pub fn cos(self) -> (r: PseudoDouble)
        ensures
            r == self.spec_cos(),
            r.wf(),
            r.0 == 0 || (32707 <= r.expo() <= 32770 && r.mant() != 0),
    {
        self.const_mul(PseudoDouble(PD_INV_TAU_BITS)).cos_rev()
    }

    /// The two-argument arctangent in radians.
    pub fn atan2(self, other: PseudoDouble) -> (r: PseudoDouble)
        requires
            self.atan2_defined(other),
        ensures
            r == self.spec_atan2(other),
            r.wf(),
    {
        let turns: PseudoDouble = self.atan2_rev(other);
        proof {
            crate::wellformed::lemma_mul_fits(turns, PseudoDouble(PD_TAU_BITS));
        }
        turns.const_mul(PseudoDouble(PD_TAU_BITS))
    }

    /// The tangent of the number of radians, where the cosine has a mantissa.
    pub fn tan(self) -> (r: PseudoDouble)
        requires
            self.spec_cos().mant() != 0,
        ensures
            r == self.spec_tan(),
            r.wf(),
    {
        let s: PseudoDouble = self.sin();
        let c: PseudoDouble = self.cos();
        proof {
            crate::wellformed::lemma_div_fits(s, c);
        }
        s.const_div(c)
    }

    /// The sine and the cosine of the number of radians.
    pub fn sin_cos(self) -> (r: (PseudoDouble, PseudoDouble))
        ensures
            r.0 == self.spec_sin(),
            r.1 == self.spec_cos(),
    {
        (self.sin(), self.cos())
    }

    /// The arcsine in radians, of a number between minus one and one.
    pub fn asin(self) -> (r: PseudoDouble)
        requires
            self.asin_defined(),
        ensures
            r == self.spec_asin(),
            r.wf(),
    {
        self.atan2(PseudoDouble(PD_ONE_BITS).const_sub(self.const_mul(self)).sqrt())
    }

    /// The arccosine in radians, of a number between minus one and one.
    pub fn acos(self) -> (r: PseudoDouble)
        requires
            self.acos_defined(),
        ensures
            r == self.spec_acos(),
            r.wf(),
    {
        PseudoDouble(PD_ONE_BITS).const_sub(self.const_mul(self)).sqrt().atan2(self)
    }

    /// The arctangent in turns.
    pub fn atan_rev(self) -> (r: PseudoDouble)
        requires
            self.atan2_defined(PseudoDouble(PD_ONE_BITS)),
        ensures
            r == self.spec_atan_rev(),
            r.wf(),
    {
        self.atan2_rev(PseudoDouble(PD_ONE_BITS))
    }

    /// The arctangent in radians.
    pub fn atan(self) -> (r: PseudoDouble)
        requires
            self.atan2_defined(PseudoDouble(PD_ONE_BITS)),
        ensures
            r == self.spec_atan(),
            r.wf(),
    {
        self.atan2(PseudoDouble(PD_ONE_BITS))
    }

    /// The hyperbolic sine, where the exponential has a mantissa.
    pub fn sinh(self) -> (r: PseudoDouble)
        requires
            self.spec_exp().mant() != 0,
        ensures
            r == self.spec_sinh(),
    {
        let t: PseudoDouble = self.exp();
        t.const_sub(PseudoDouble(PD_ONE_BITS).const_div(t)).ldexp(-1)
    }

    /// The hyperbolic cosine, where the exponential has a mantissa.
    pub fn cosh(self) -> (r: PseudoDouble)
        requires
            self.spec_exp().mant() != 0,
        ensures
            r == self.spec_cosh(),
    {
        let t: PseudoDouble = self.exp();
        t.const_add(PseudoDouble(PD_ONE_BITS).const_div(t)).ldexp(-1)
    }

    /// The hyperbolic tangent, where the denominator has a mantissa.
    pub fn tanh(self) -> (r: PseudoDouble)
        requires
            PseudoDouble(PD_ONE_BITS).spec_add(self.tanh_operand()).mant() != 0,
        ensures
            r == self.spec_tanh(),
    {
        let t: PseudoDouble = self.ldexp(1).const_neg().exp();
        PseudoDouble(PD_ONE_BITS).const_sub(t).const_div(PseudoDouble(PD_ONE_BITS).const_add(t))
    }

    /// The inverse hyperbolic sine.
    pub fn asinh(self) -> (r: PseudoDouble)
        requires
            self.asinh_defined(),
        ensures
            r == self.spec_asinh(),
            r.wf(),
    {
        self.const_add(self.const_mul(self).const_add(PseudoDouble(PD_ONE_BITS)).sqrt()).ln()
    }

    /// The inverse hyperbolic cosine, of a number that is not below one.
    pub fn acosh(self) -> (r: PseudoDouble)
        requires
            self.acosh_defined(),
        ensures
            r == self.spec_acosh(),
            r.wf(),
    {
        self.const_add(self.const_mul(self).const_sub(PseudoDouble(PD_ONE_BITS)).sqrt()).ln()
    }

    /// The inverse hyperbolic tangent, of a number strictly between minus
    /// one and one.
    pub fn atanh(self) -> (r: PseudoDouble)
        requires
            self.atanh_defined(),
        ensures
            r == self.spec_atanh(),
            r.wf(),
    {
        PseudoDouble(PD_ONE_BITS).const_add(self).const_div(
            PseudoDouble(PD_ONE_BITS).const_sub(self),
        ).ln().ldexp(-1)
    }
}

} // verus!
