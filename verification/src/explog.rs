//! Square roots, scaling by powers of two, and the exponential and
//! logarithmic functions.

use vstd::prelude::*;
use vstd::arithmetic::power2::{pow2, lemma_pow2_adds, lemma2_to64, lemma2_to64_rest};
use crate::bits::{two62, two63, two64, wrap64, wrapu64, mul_hi, lead_bits, lemma_lead_bits, lemma_wrap64_id, lemma_wrap_mix, lemma_wrap64_add_multiple, leading_bits, sar, sar_wide, shl, shl_u, shr_u, to_unsigned, to_signed, multu64hi, mults64hi};
use crate::kernels::{inv_sqrt64_fixed, inv_sqrt64_fixed_spec, exp2_64_fixed, exp2_64_fixed_spec, log2_64_fixed, log2_64_fixed_spec};
use crate::pseudo_double::{PseudoDouble, pack, PD_ONE_BITS, PD_THREE_BITS, PD_LOG_2_E_BITS, PD_LOG_2_10_BITS, PD_INV_LOG_2_E_BITS, PD_INV_LOG_2_10_BITS};

verus! {

/// The fractional part of `m * 2^(e - 64)` in units of `2^-64`, modulo `2^64`;
/// for a negative `e`, `m / 2^-e` rounded down.
pub open spec fn frac64_of(m: int, e: int) -> int {
    if e >= 0 {
        wrapu64(m * pow2(e as nat))
    } else {
        wrapu64(m / (pow2((-e) as nat) as int))
    }
}

/// The integer part of `m * 2^(e - 64)`, for a 64-bit `m` and `e` up to 16:
/// the value rounded down.
pub open spec fn whole_of(m: int, e: int) -> int {
    if e < 2 {
        if m < 0 {
            -1
        } else {
            0
        }
    } else {
        m / (pow2((64 - e) as nat) as int)
    }
}

/// Two to the power `m * 2^(e - 64)`, for a 64-bit mantissa `m`. The integer
/// part goes to the exponent, the fractional part through the kernel to the
/// mantissa. For `e` above 16 the result is zero for a negative `m` and one
/// otherwise.
pub open spec fn exp2_value(m: int, e: int) -> PseudoDouble {
    if e > 16 {
        if m < 0 {
            PseudoDouble(0)
        } else {
            PseudoDouble(PD_ONE_BITS)
        }
    } else if whole_of(m, e) + 32770 < 0 {
        PseudoDouble(0)
    } else {
        pack(exp2_64_fixed_spec(frac64_of(m, e)), whole_of(m, e) + 32770)
    }
}

/// Whether two to the power `m * 2^(e - 64)` stays within the exponent
/// range.
pub open spec fn exp2_fits(m: int, e: int) -> bool {
    e > 16 || whole_of(m, e) + 32770 <= 65535
}

/// The loop of the integer power: `result` times `base` to the power `n`,
/// by repeated squaring, lowest bit of `n` first.
pub open spec fn power_loop(result: PseudoDouble, base: PseudoDouble, n: int) -> PseudoDouble
    decreases n,
{
    if n <= 0 {
        result
    } else {
        power_loop(
            if n % 2 == 1 { result.spec_mul(base) } else { result },
            base.spec_mul(base),
            n / 2,
        )
    }
}

/// Whether the products that `power_loop` puts into its result stay within
/// the exponent range.
pub open spec fn power_loop_in_range(result: PseudoDouble, base: PseudoDouble, n: int) -> bool
    decreases n,
{
    n <= 0 || ((n % 2 == 1 ==> result.mul_in_range(base)) && power_loop_in_range(
        if n % 2 == 1 { result.spec_mul(base) } else { result },
        base.spec_mul(base),
        n / 2,
    ))
}

/// The fractional part of `m * 2^(e - 64)` as a 64-bit fixed-point fraction.
pub fn fraction_of(m: i64, e: i64) -> (r: u64)
    requires
        -0x1_0000_0000 <= e < 64,
    ensures
        r == frac64_of(m as int, e as int),
{
    if e >= 1 {
        proof {
            lemma_wrap_mix(m * pow2(e as nat));
        }
        to_unsigned(shl(m, e as u32))
    } else {
        proof {
            lemma2_to64();
            if e == 0 {
                assert(m * pow2(0) == (m as int) / (pow2(0) as int));
            }
        }
        to_unsigned(sar_wide(m, -e))
    }
}

/// Two to the power `m * 2^(e - 64)`.
pub fn exp2_parts(m: i64, e: i64) -> (r: PseudoDouble)
    requires
        -0x1_0000_0000 <= e <= 0x1_0000_0000,
    ensures
        r == exp2_value(m as int, e as int),
        exp2_fits(m as int, e as int) ==> r.wf() && r.0 >= 0,
{
    proof {
        if e <= 16 && 0 <= whole_of(m as int, e as int) + 32770 <= 65535 {
            let k = exp2_64_fixed_spec(frac64_of(m as int, e as int));
            lemma_wrap64_id(frac64_of(m as int, e as int));
            crate::kernels::lemma_exp2_range(frac64_of(m as int, e as int));
            crate::wellformed::lemma_pack_wf(k, whole_of(m as int, e as int) + 32770);
        }
    }
    if e > 16 {
        return if m < 0 {
            PseudoDouble(0)
        } else {
            PseudoDouble(PD_ONE_BITS)
        };
    }
    let new_exponent: i64 = if e < 2 {
        if m < 0 {
            -1
        } else {
            0
        }
    } else {
        sar(m, (64 - e) as u32)
    };
    let fraction: u64 = fraction_of(m, e);
    proof {
        lemma2_to64();
        lemma2_to64_rest();
        if e >= 2 {
            let p = pow2((64 - e) as nat) as int;
            crate::bits::lemma_pow2_monotonic(48, (64 - e) as nat);
            assert(-32768 <= (m as int) / p <= 32768) by (nonlinear_arith)
                requires
                    -two63() <= m < two63(),
                    p >= 0x1_0000_0000_0000,
            ;
        }
    }
    let newe: i64 = new_exponent + 0x8000 + 2;
    if newe < 0 {
        return PseudoDouble(0);
    }
    PseudoDouble::compose(exp2_64_fixed(fraction) as i64, newe)
}

impl PseudoDouble {
    /// The fractional part of the number in units of `2^-64`, modulo `2^64`.
    /// With no integer bit in the mantissa it is the number itself in those
    /// units, rounded down.
    pub open spec fn frac64(self) -> int {
        frac64_of(self.mant(), self.unbiased())
    }

    /// The mantissa and the halved exponent that the square-root functions
    /// work on: the mantissa is doubled where the exponent field is odd, so
    /// that the exponent left over is even.
    pub open spec fn root_operand(self) -> (int, int) {
        if self.expo() % 2 == 1 {
            (2 * self.mant(), (self.expo() - 1) / 2)
        } else {
            (self.mant(), self.expo() / 2)
        }
    }

    /// Whether the square root is taken without the kernel: the exponent
    /// field is even and the mantissa is zero or that of a power of two.
    pub open spec fn root_is_exact(self) -> bool {
        self.expo() % 2 == 0 && (self.mant() == 0 || self.mant() == two62())
    }

    /// The mantissa of the square root before it is packed: twice the high
    /// word of the kernel's result times the operand.
    pub open spec fn root_product(self) -> int {
        2 * mul_hi(inv_sqrt64_fixed_spec(self.root_operand().0), self.root_operand().0)
    }

    /// Whether the square root has a normalized mantissa: the number is zero
    /// or an even power of two, or the kernel's product lies in `[1, 2)`, as
    /// the root of a number in `[1, 4)` does.
    pub open spec fn sqrt_in_range(self) -> bool {
        self.0 == 0 || (self.root_is_exact() && self.mant() == two62()) || (!self.root_is_exact()
            && two62() <= self.root_product() < two63())
    }

    /// Whether one over the square root has a normalized mantissa: the
    /// number is an even power of two, or the kernel's result lies in
    /// `[1/2, 1)`.
    pub open spec fn inv_sqrt_in_range(self) -> bool {
        (self.root_is_exact() && self.mant() == two62()) || (!self.root_is_exact() && two62()
            <= inv_sqrt64_fixed_spec(self.root_operand().0) < two63())
    }

    /// One over the square root. For an exact power of four the mantissa
    /// stays and the exponent is negated and halved; otherwise the kernel
    /// gives the mantissa.
    pub open spec fn spec_inv_sqrt(self) -> PseudoDouble {
        let (m, h) = self.root_operand();
        if self.root_is_exact() {
            PseudoDouble((self.mant() + 49155 - h) as i64)
        } else {
            pack(wrap64(inv_sqrt64_fixed_spec(m)), 49154 - h)
        }
    }

    /// The square root: the number times one over its square root, with the
    /// exponent halved.
    pub open spec fn spec_sqrt(self) -> PseudoDouble {
        let (m, h) = self.root_operand();
        if self.0 == 0 {
            self
        } else if self.root_is_exact() {
            PseudoDouble((self.mant() + 16385 + h) as i64)
        } else {
            pack(wrap64(2 * mul_hi(inv_sqrt64_fixed_spec(m), m)), 16385 + h)
        }
    }

    /// The number times `2^y`: `y` is added to the exponent field. Zero stays
    /// zero, and a result below the exponent range is zero.
    pub open spec fn spec_ldexp(self, y: int) -> PseudoDouble {
        if self.0 == 0 {
            self
        } else if self.expo() + y < 0 {
            PseudoDouble(0)
        } else {
            PseudoDouble(wrap64(self.0 + y) as i64)
        }
    }

    /// Two to the power of the number. The integer part goes to the exponent,
    /// the fractional part through the kernel to the mantissa. From `2^16`
    /// on in magnitude the result is zero for a negative number and one for
    /// a positive one.
    pub open spec fn spec_exp2(self) -> PseudoDouble {
        if self.0 == 0 {
            PseudoDouble(PD_ONE_BITS)
        } else {
            exp2_value(self.mant(), self.unbiased())
        }
    }

    /// Whether two to the power of the number stays within the exponent
    /// range.
    pub open spec fn exp2_in_range(self) -> bool {
        self.0 == 0 || exp2_fits(self.mant(), self.unbiased())
    }

    /// Whether the number to the power `y` stays within the exponent range.
    pub open spec fn powf_in_range(self, y: PseudoDouble) -> bool {
        let (lm, le) = self.log2_parts();
        let vr = mul_hi(lm, y.mant());
        vr == 0 || exp2_fits(
            vr * pow2((lead_bits(vr) - 1) as nat),
            le - 32768 + y.unbiased() - (lead_bits(vr) - 1),
        )
    }

    /// The fixed-point argument of the logarithm kernel: the mantissa bits
    /// below the leading one, as a fraction of `2^63`.
    pub open spec fn log_operand(self) -> int {
        wrapu64(self.mant() * 4) / 2
    }

    /// The base-2 logarithm as a mantissa and the exponent that goes with it,
    /// before they are packed: the integer part is the exponent of the
    /// number, the fractional part comes from the kernel. A zero mantissa
    /// stands for the logarithm zero.
    pub open spec fn log2_parts(self) -> (int, int) {
        let e = self.expo() - 32770;
        let log_frac = log2_64_fixed_spec(self.log_operand());
        if e == 0 || e == -1 {
            let v = if e == 0 { wrap64(log_frac) } else { wrap64(log_frac + two63()) };
            if v == 0 {
                (0, 0)
            } else {
                (v * pow2((lead_bits(v) - 1) as nat), 32769 - (lead_bits(v) - 1))
            }
        } else {
            let lb = lead_bits(e);
            (
                wrap64(e * pow2((lb - 1) as nat) + wrap64(log_frac) / (pow2((64 - lb) as nat) as int)),
                32833 - lb,
            )
        }
    }

    /// Whether the logarithm kernel stays below one on the mantissa of the
    /// number, as the logarithm of a number below two does.
    pub open spec fn log2_in_range(self) -> bool {
        log2_64_fixed_spec(self.log_operand()) < two63()
    }

    /// The base-2 logarithm.
    pub open spec fn spec_log2(self) -> PseudoDouble {
        let (m, e) = self.log2_parts();
        if m == 0 {
            PseudoDouble(0)
        } else {
            pack(m, e)
        }
    }

    /// The number to the power `y`: two to the power of `y` times the base-2
    /// logarithm, the logarithm kept at full width. The result is one where
    /// the logarithm or the product is zero.
    pub open spec fn spec_powf(self, y: PseudoDouble) -> PseudoDouble {
        let (lm, le) = self.log2_parts();
        let vr = mul_hi(lm, y.mant());
        if vr == 0 {
            PseudoDouble(PD_ONE_BITS)
        } else {
            let lb = lead_bits(vr) - 1;
            exp2_value(vr * pow2(lb as nat), le - 32768 + y.unbiased() - lb)
        }
    }

    /// The number to the integer power `n`: one for `n` zero, the product
    /// of `n` factors for a positive `n`, and the product of `-n` factors of
    /// the reciprocal for a negative one, each by repeated squaring.
    pub open spec fn spec_powi(self, n: int) -> PseudoDouble {
        if n == 0 {
            PseudoDouble(PD_ONE_BITS)
        } else if n > 0 {
            power_loop(PseudoDouble(PD_ONE_BITS), self, n)
        } else {
            power_loop(PseudoDouble(PD_ONE_BITS), PseudoDouble(PD_ONE_BITS).spec_div(self), -n)
        }
    }

    /// Whether every product that goes into the integer power stays within
    /// the exponent range.
    pub open spec fn powi_in_range(self, n: int) -> bool {
        if n == 0 {
            true
        } else if n > 0 {
            power_loop_in_range(PseudoDouble(PD_ONE_BITS), self, n)
        } else {
            power_loop_in_range(
                PseudoDouble(PD_ONE_BITS),
                PseudoDouble(PD_ONE_BITS).spec_div(self),
                -n,
            )
        }
    }

    /// The cube root: the number to the power one third.
    pub open spec fn spec_cbrt(self) -> PseudoDouble {
        self.spec_powf(PseudoDouble(PD_ONE_BITS).spec_div(PseudoDouble(PD_THREE_BITS)))
    }

    /// The natural exponential: two to the power of the number times `log2(e)`.
    pub open spec fn spec_exp(self) -> PseudoDouble {
        self.spec_mul(PseudoDouble(PD_LOG_2_E_BITS)).spec_exp2()
    }

    /// Ten to the power of the number.
    pub open spec fn spec_exp10(self) -> PseudoDouble {
        self.spec_mul(PseudoDouble(PD_LOG_2_10_BITS)).spec_exp2()
    }

    /// The natural logarithm: the base-2 logarithm over `log2(e)`.
    pub open spec fn spec_ln(self) -> PseudoDouble {
        self.spec_log2().spec_mul(PseudoDouble(PD_INV_LOG_2_E_BITS))
    }

    /// The base-10 logarithm.
    pub open spec fn spec_log10(self) -> PseudoDouble {
        self.spec_log2().spec_mul(PseudoDouble(PD_INV_LOG_2_10_BITS))
    }

    /// The fractional part of the number as a 64-bit fixed-point fraction.
    pub fn fraction_bits(self) -> (r: u64)
        ensures
            r == self.frac64(),
    {
        let e: i64 = self.exponent_field() - 0x8000;
        let vx: i64 = self.mantissa_field();
        if e >= 48 {
            proof {
                lemma2_to64();
                lemma2_to64_rest();
                lemma_pow2_adds(48, (e - 48) as nat);
                let q = vx / 65536;
                let t = pow2((e - 48) as nat) as int;
                assert(vx * pow2(e as nat) == 0 + (q * t) * two64()) by (nonlinear_arith)
                    requires
                        vx == q * 65536,
                        pow2(e as nat) == 0x1_0000_0000_0000 * t,
                ;
                lemma_wrap64_add_multiple(0, q * t);
            }
            0
        } else {
            fraction_of(vx, e)
        }
    }

    /// The mantissa, doubled where the exponent field is odd, and half the
    /// exponent field.
    fn root_parts(self) -> (r: (u64, i64))
        requires
            self.0 >= 0,
        ensures
            r.0 == self.root_operand().0,
            r.1 == self.root_operand().1,
            0 <= r.1 <= 32767,
    {
        let exponent: i64 = self.exponent_field();
        let mantissa: u64 = self.mantissa_field() as u64;
        proof {
            lemma2_to64();
            lemma_wrap64_id(2 * mantissa);
        }
        if exponent % 2 == 1 {
            (shl_u(mantissa, 1), (exponent - 1) / 2)
        } else {
            (mantissa, exponent / 2)
        }
    }

    /// Whether the square root of the number, which is not negative, has a
    /// normalized mantissa.
    pub fn sqrt_is_in_range(self) -> (r: bool)
        requires
            self.0 >= 0,
        ensures
            r == self.sqrt_in_range(),
    {
        if self.0 == 0 {
            return true;
        }
        let (m, _h) = self.root_parts();
        let mantissa: i64 = self.mantissa_field();
        if self.exponent_field() % 2 == 0 && (mantissa == 0 || mantissa == 0x4000_0000_0000_0000) {
            return mantissa != 0;
        }
        let p: u64 = multu64hi(inv_sqrt64_fixed(m), m);
        0x2000_0000_0000_0000 <= p && p < 0x4000_0000_0000_0000
    }

    /// Whether one over the square root of the number, which is not
    /// negative, has a normalized mantissa.
    pub fn inv_sqrt_is_in_range(self) -> (r: bool)
        requires
            self.0 >= 0,
        ensures
            r == self.inv_sqrt_in_range(),
    {
        let (m, _h) = self.root_parts();
        let mantissa: i64 = self.mantissa_field();
        if self.exponent_field() % 2 == 0 && (mantissa == 0 || mantissa == 0x4000_0000_0000_0000) {
            return mantissa != 0;
        }
        let k: u64 = inv_sqrt64_fixed(m);
        0x4000_0000_0000_0000 <= k && k < 0x8000_0000_0000_0000
    }

    /// Whether the logarithm kernel stays below one on the mantissa of the
    /// number.
    pub fn log2_is_in_range(self) -> (r: bool)
        ensures
            r == self.log2_in_range(),
    {
        proof {
            lemma2_to64();
            lemma_wrap_mix(self.mant() * 4);
        }
        let operand: u64 = shr_u(to_unsigned(shl(self.mantissa_field(), 2)), 1);
        log2_64_fixed(operand) < 0x8000_0000_0000_0000
    }

    /// One over the square root of a number that is not negative.
    pub fn inv_sqrt(self) -> (r: PseudoDouble)
        requires
            self.0 >= 0,
        ensures
            r == self.spec_inv_sqrt(),
            self.inv_sqrt_in_range() ==> r.wf() && r.0 > 0,
    {
        let (m, h) = self.root_parts();
        let mantissa: i64 = self.mantissa_field();
        if self.exponent_field() % 2 == 0 && (mantissa == 0 || mantissa == 0x4000_0000_0000_0000) {
            proof {
                if mantissa != 0 {
                    crate::pseudo_double::lemma_word_fields(two62(), 49155 - h);
                }
            }
            return PseudoDouble(mantissa + 49155 - h);
        }
        let k: u64 = inv_sqrt64_fixed(m);
        proof {
            if self.inv_sqrt_in_range() {
                lemma_wrap64_id(k as int);
                crate::wellformed::lemma_pack_wf(k as int, 49154 - h);
            }
        }
        Self::compose(to_signed(k), 49154 - h)
    }

    /// The square root of a number that is not negative.
    pub fn sqrt(self) -> (r: PseudoDouble)
        requires
            self.0 >= 0,
        ensures
            r == self.spec_sqrt(),
            self.sqrt_in_range() ==> r.wf() && r.0 >= 0,
    {
        if self.0 == 0 {
            return self;
        }
        let (m, h) = self.root_parts();
        let mantissa: i64 = self.mantissa_field();
        if self.exponent_field() % 2 == 0 && (mantissa == 0 || mantissa == 0x4000_0000_0000_0000) {
            proof {
                if mantissa != 0 {
                    crate::pseudo_double::lemma_word_fields(two62(), 16385 + h);
                }
            }
            return PseudoDouble(mantissa + 16385 + h);
        }
        let p: u64 = multu64hi(inv_sqrt64_fixed(m), m);
        proof {
            lemma2_to64();
            lemma_wrap_mix(2 * p);
            if self.sqrt_in_range() {
                lemma_wrap64_id(2 * p);
                crate::wellformed::lemma_pack_wf(2 * p, 16385 + h);
            }
        }
        Self::compose(to_signed(shl_u(p, 1)), 16385 + h)
    }

    /// The number times two to the power `y`.
    pub fn ldexp(self, y: i32) -> (r: PseudoDouble)
        ensures
            r == self.spec_ldexp(y as int),
            self.wf() && self.expo() + y <= 65535 ==> r.wf(),
    {
        proof {
            if self.wf() && 0 <= self.expo() + y <= 65535 {
                crate::wellformed::lemma_ldexp_exact(self, y as int);
            }
        }
        if self.0 == 0 {
            return self;
        }
        let yy: i64 = y as i64;
        if self.exponent_field() + yy < 0 {
            return PseudoDouble(0);
        }
        PseudoDouble(self.0.wrapping_add(yy))
    }

    /// Two to the power of the number.
    pub fn exp2(self) -> (r: PseudoDouble)
        ensures
            r == self.spec_exp2(),
            self.exp2_in_range() ==> r.wf() && r.0 >= 0,
    {
        if self.0 == 0 {
            return PseudoDouble(PD_ONE_BITS);
        }
        exp2_parts(self.mantissa_field(), self.exponent_field() - 0x8000)
    }

    /// Packs the mantissa and exponent of a logarithm.
    fn pack_log(parts: (i64, i64)) -> (r: PseudoDouble)
        requires
            0 <= parts.1 <= 65535,
        ensures
            r == (if parts.0 == 0 { PseudoDouble(0) } else { pack(parts.0 as int, parts.1 as int) }),
            r.0 == 0 || r.expo() == parts.1,
            parts.0 == 0 || crate::pseudo_double::normal_mantissa(parts.0 as int) ==> r.wf() && (r.0
                >= 0) == (parts.0 >= 0),
    {
        proof {
            crate::pseudo_double::lemma_pack(parts.0 as int, parts.1 as int);
            if crate::pseudo_double::normal_mantissa(parts.0 as int) {
                crate::wellformed::lemma_pack_wf(parts.0 as int, parts.1 as int);
            }
        }
        if parts.0 == 0 {
            PseudoDouble(0)
        } else {
            Self::compose(parts.0, parts.1)
        }
    }

    /// The mantissa and the exponent of the base-2 logarithm of a positive
    /// number.
    pub fn log2_mantissa_exponent(self) -> (r: (i64, i64))
        requires
            self.0 > 0,
        ensures
            r.0 == self.log2_parts().0,
            r.1 == self.log2_parts().1,
            0 <= r.1 <= 32833,
            self.log2_in_range() ==> r.0 == 0 || crate::pseudo_double::normal_mantissa(r.0 as int),
            self.log2_in_range() ==> (r.0 >= 0) == (self.expo() >= 32770),
    {
        let e: i64 = self.exponent_field() - 0x8000 - 2;
        proof {
            lemma2_to64();
        }
        let mantissa: u64 = shr_u(to_unsigned(shl(self.mantissa_field(), 2)), 1);
        proof {
            lemma_wrap_mix(self.mant() * 4);
        }
        let log_frac: u64 = log2_64_fixed(mantissa);
        if e == 0 || e == -1 {
            let v: i64 = if e == 0 {
                to_signed(log_frac)
            } else {
                proof {
                    lemma_wrap64_add_multiple(log_frac + two63(), -1);
                    lemma_wrap_mix(log_frac + two63());
                }
                to_signed(log_frac.wrapping_add(0x8000_0000_0000_0000))
            };
            if v == 0 {
                return (0, 0);
            }
            let lb: u32 = leading_bits(v) - 1;
            proof {
                lemma_lead_bits(v as int);
                lemma_wrap64_id(v * pow2(lb as nat));
                assert(v == (if e == 0 { wrap64(log_frac as int) } else { wrap64(log_frac + two63()) }));
                if self.log2_in_range() {
                    lemma_wrap64_id(log_frac as int);
                    lemma_wrap64_id(log_frac - two63());
                    lemma_wrap64_add_multiple(log_frac - two63(), 1);
                    assert((v >= 0) == (e == 0));
                }
            }
            (shl(v, lb), 32769 - lb as i64)
        } else {
            let lb: u32 = leading_bits(e);
            proof {
                lemma_lead_bits(e as int);
                crate::bits::lemma_bit_len_upper(if e < 0 { (-e - 1) as nat } else { e as nat }, 16);
                lemma_wrap64_id(e * pow2((lb - 1) as nat));
            }
            let hi: i64 = shl(e, lb - 1);
            let lo: i64 = sar(to_signed(log_frac), 64 - lb);
            proof {
                lemma_wrap64_id(hi + lo);
                lemma_wrap64_add_multiple(hi + lo, 1);
                lemma_wrap64_add_multiple(hi + lo, -1);
                assert(hi == e * pow2((lb - 1) as nat));
                assert(lo == wrap64(log_frac as int) / (pow2((64 - lb) as nat) as int));
                if self.log2_in_range() {
                    crate::wellformed::lemma_log2_mantissa(e as int, log_frac as int);
                }
            }
            (hi.wrapping_add(lo), 32833 - lb as i64)
        }
    }

    /// The base-2 logarithm of a positive number.
    pub fn log2(self) -> (r: PseudoDouble)
        requires
            self.0 > 0,
        ensures
            r == self.spec_log2(),
            r.0 == 0 || r.expo() <= 32833,
            self.log2_in_range() ==> r.wf() && (r.0 >= 0) == (self.expo() >= 32770),
    {
        Self::pack_log(self.log2_mantissa_exponent())
    }

    /// A positive number to the power `y`.
    pub fn powf(self, y: PseudoDouble) -> (r: PseudoDouble)
        requires
            self.0 > 0,
        ensures
            r == self.spec_powf(y),
            self.powf_in_range(y) ==> r.wf() && r.0 >= 0,
    {
        let (vx, ex) = self.log2_mantissa_exponent();
        let expy: i64 = y.exponent_field() - 0x8000;
        let vr: i64 = mults64hi(vx, y.mantissa_field());
        if vr == 0 {
            return PseudoDouble(PD_ONE_BITS);
        }
        let lb: u32 = leading_bits(vr) - 1;
        proof {
            lemma_lead_bits(vr as int);
            lemma_wrap64_id(vr * pow2(lb as nat));
        }
        exp2_parts(shl(vr, lb), ex - 0x8000 + expy - lb as i64)
    }

    /// The number to an integer power, by repeated squaring. For a negative
    /// power the reciprocal is taken first, so the number then has a mantissa
    /// that is not zero.
    pub fn powi(self, n: i32) -> (r: PseudoDouble)
        requires
            n < 0 ==> self.mant() != 0,
        ensures
            r == self.spec_powi(n as int),
            self.powi_in_range(n as int) ==> r.wf(),
    {
        if n == 0 {
            return PseudoDouble(PD_ONE_BITS);
        }
        let mut expm: i64;
        let mut base: PseudoDouble;
        if n > 0 {
            expm = n as i64;
            base = self;
        } else {
            expm = -(n as i64);
            base = PseudoDouble(PD_ONE_BITS).const_div(self);
        }
        let mut result: PseudoDouble = PseudoDouble(PD_ONE_BITS);
        while expm > 0
            invariant
                power_loop(result, base, expm as int) == self.spec_powi(n as int),
                self.powi_in_range(n as int) ==> result.wf() && power_loop_in_range(
                    result,
                    base,
                    expm as int,
                ),
            decreases expm,
        {
            if expm % 2 == 1 {
                result = result.const_mul(base);
            }
            base = base.const_mul(base);
            expm = expm / 2;
        }
        result
    }

    /// The cube root of a positive number.
    pub fn cbrt(self) -> (r: PseudoDouble)
        requires
            self.0 > 0,
        ensures
            r == self.spec_cbrt(),
    {
        self.powf(PseudoDouble(PD_ONE_BITS).const_div(PseudoDouble(PD_THREE_BITS)))
    }

    /// The natural exponential.
    pub fn exp(self) -> (r: PseudoDouble)
        ensures
            r == self.spec_exp(),
            self.spec_mul(PseudoDouble(PD_LOG_2_E_BITS)).exp2_in_range() ==> r.wf() && r.0 >= 0,
    {
        self.const_mul(PseudoDouble(PD_LOG_2_E_BITS)).exp2()
    }

    /// Ten to the power of the number.
    pub fn exp10(self) -> (r: PseudoDouble)
        ensures
            r == self.spec_exp10(),
            self.spec_mul(PseudoDouble(PD_LOG_2_10_BITS)).exp2_in_range() ==> r.wf() && r.0 >= 0,
    {
        self.const_mul(PseudoDouble(PD_LOG_2_10_BITS)).exp2()
    }

    /// The natural logarithm of a positive number.
    pub fn ln(self) -> (r: PseudoDouble)
        requires
            self.0 > 0,
        ensures
            r == self.spec_ln(),
            r.wf(),
    {
        let l: PseudoDouble = self.log2();
        proof {
            crate::wellformed::lemma_mul_fits(l, PseudoDouble(PD_INV_LOG_2_E_BITS));
        }
        l.const_mul(PseudoDouble(PD_INV_LOG_2_E_BITS))
    }

    /// The base-10 logarithm of a positive number.
    pub fn log10(self) -> (r: PseudoDouble)
        requires
            self.0 > 0,
        ensures
            r == self.spec_log10(),
            r.wf(),
    {
        let l: PseudoDouble = self.log2();
        proof {
            crate::wellformed::lemma_mul_fits(l, PseudoDouble(PD_INV_LOG_2_10_BITS));
        }
        l.const_mul(PseudoDouble(PD_INV_LOG_2_10_BITS))
    }
}

} // verus!
