//! Repacking between the packed real and the bit patterns of IEEE-754
//! binary64 and binary32 numbers. Everything here works on the bit patterns
//! as integers.

use vstd::prelude::*;
use crate::bits::{two62, two63, clear_bits16};
use crate::pseudo_double::{PseudoDouble, trunc16};

verus! {

/// The bit pattern of the binary64 not-a-number that conversions give.
pub const DOUBLE_NAN_BITS: u64 = 0x7ff8_0000_0000_0000;

/// The bit pattern of the binary32 not-a-number that conversions give.
pub const FLOAT_NAN_BITS: u32 = 0x7fc0_0000;

/// The packed real for a binary64 bit pattern. Both zeros give zero. Any
/// other pattern is read as a sign, an exponent field and a 52-bit fraction
/// under an implied leading one; a negative power of two takes the mantissa
/// `-2^63` one exponent lower. A negative number whose fraction is below 64
/// and not zero keeps the mantissa `-2^62`, which is not normalized.
pub open spec fn spec_from_double_bits(bits: int) -> PseudoDouble {
    let frac = bits % 0x10_0000_0000_0000;
    let e = (bits / 0x10_0000_0000_0000) % 2048 + 31747;
    if bits % two63() == 0 {
        PseudoDouble(0)
    } else if bits >= two63() && frac == 0 {
        PseudoDouble((-two63() + e - 1) as i64)
    } else {
        let m = trunc16((0x10_0000_0000_0000 + frac) * 1024);
        PseudoDouble((if bits >= two63() { -m + e } else { m + e }) as i64)
    }
}

impl PseudoDouble {
    /// The binary64 exponent field that belongs to the word, which may lie
    /// outside `0..=2047`.
    pub open spec fn double_exponent(self) -> int {
        self.expo() - 32768 + 1021
    }

    /// The binary32 exponent field that belongs to the word, which may lie
    /// outside `0..=255`.
    pub open spec fn float_exponent(self) -> int {
        self.expo() - 32768 + 125
    }

    /// The binary64 bit pattern of the number. Zero, and a number below the
    /// normal range, give the pattern of `+0.0`; a number above the range
    /// gives the not-a-number pattern. The mantissa `-2^63` becomes a
    /// negative power of two one exponent higher. Otherwise the mantissa
    /// bits below the leading one, less their low ten, become the fraction.
    pub open spec fn spec_to_double_bits(self) -> int {
        let e = self.double_exponent();
        if self.0 == 0 {
            0
        } else if self.mant() == -two63() {
            if e < -1 {
                0
            } else if e >= 2047 {
                0x7ff8_0000_0000_0000
            } else {
                (e + 1) * 0x10_0000_0000_0000 + two63()
            }
        } else if e < 0 {
            0
        } else if e > 2047 {
            0x7ff8_0000_0000_0000
        } else {
            let a = if self.mant() < 0 { -self.mant() } else { self.mant() };
            (a % two62()) / 1024 + e * 0x10_0000_0000_0000 + (if self.mant() < 0 {
                two63()
            } else {
                0
            })
        }
    }

    /// The binary32 bit pattern of the number, as `spec_to_double_bits` with
    /// the fraction rounded to 23 bits, half up, modulo `2^32`.
    pub open spec fn spec_to_float_bits(self) -> int {
        let e = self.float_exponent();
        if self.0 == 0 {
            0
        } else if self.mant() == -two63() {
            if e < -1 {
                0
            } else if e >= 255 {
                0x7fc0_0000
            } else {
                (e + 1) * 0x80_0000 + 0x8000_0000
            }
        } else if e < 0 {
            0
        } else if e > 255 {
            0x7fc0_0000
        } else {
            let a = if self.mant() < 0 { -self.mant() } else { self.mant() };
            ((a % two62() + 0x40_0000_0000) / 0x80_0000_0000 + e * 0x80_0000 + (if self.mant()
                < 0 {
                0x8000_0000int
            } else {
                0
            })) % 0x1_0000_0000
        }
    }

    /// The packed real for the bit pattern of a binary64 number.
    pub fn double_bits_to_pseudodouble(bits: u64) -> (r: PseudoDouble)
        ensures
            r == spec_from_double_bits(bits as int),
            bits < two63() || bits % 0x10_0000_0000_0000 == 0 || bits % 0x10_0000_0000_0000 >= 64
                ==> r.wf(),
    {
        proof {
            if bits % 0x8000_0000_0000_0000 != 0 {
                crate::laws::lemma_from_double_fields(bits as int);
                crate::laws::lemma_double_mantissa(bits as int % 0x10_0000_0000_0000);
            }
        }
        if bits % 0x8000_0000_0000_0000 == 0 {
            return PseudoDouble(0);
        }
        let negative: bool = bits >= 0x8000_0000_0000_0000;
        let raw_exponent: u64 = (bits / 0x10_0000_0000_0000) % 2048;
        let exponent: i64 = raw_exponent as i64 + 31747;
        let old_mantissa: u64 = bits % 0x10_0000_0000_0000;
        if negative && old_mantissa == 0 {
            return PseudoDouble(-0x8000_0000_0000_0000 + exponent - 1);
        }
        let mantissa: i64 = clear_bits16(((old_mantissa + 0x10_0000_0000_0000) * 1024) as i64);
        if negative {
            PseudoDouble(-mantissa + exponent)
        } else {
            PseudoDouble(mantissa + exponent)
        }
    }

    /// The bit pattern of the binary64 number nearest below the number in
    /// magnitude.
    pub fn to_double_bits(self) -> (r: u64)
        ensures
            r == self.spec_to_double_bits(),
    {
        if self.0 == 0 {
            return 0;
        }
        let vx: i64 = self.mantissa_field();
        let exponent: i64 = self.exponent_field() - 0x8000 + 0x3FF - 2;
        if vx == -0x8000_0000_0000_0000 {
            if exponent < -1 {
                return 0;
            }
            if exponent >= 0x7FF {
                return DOUBLE_NAN_BITS;
            }
            return (exponent + 1) as u64 * 0x10_0000_0000_0000 + 0x8000_0000_0000_0000;
        }
        if exponent < 0 {
            return 0;
        }
        if exponent > 0x7FF {
            return DOUBLE_NAN_BITS;
        }
        let sgn: u64 = if vx < 0 { 0x8000_0000_0000_0000 } else { 0 };
        let a: u64 = (if vx < 0 { -vx } else { vx }) as u64;
        (a % 0x4000_0000_0000_0000) / 1024 + exponent as u64 * 0x10_0000_0000_0000 + sgn
    }

    /// The bit pattern of the binary32 number nearest to the number.
    pub fn to_float_bits(self) -> (r: u32)
        ensures
            r == self.spec_to_float_bits(),
    {
        if self.0 == 0 {
            return 0;
        }
        let vx: i64 = self.mantissa_field();
        let exponent: i64 = self.exponent_field() - 0x8000 + 0x7F - 2;
        if vx == -0x8000_0000_0000_0000 {
            if exponent < -1 {
                return 0;
            }
            if exponent >= 0xFF {
                return FLOAT_NAN_BITS;
            }
            return (exponent + 1) as u32 * 0x80_0000 + 0x8000_0000;
        }
        if exponent < 0 {
            return 0;
        }
        if exponent > 0xFF {
            return FLOAT_NAN_BITS;
        }
        let sgn: u64 = if vx < 0 { 0x8000_0000 } else { 0 };
        let a: u64 = (if vx < 0 { -vx } else { vx }) as u64;
        let wide: u64 = (a % 0x4000_0000_0000_0000 + 0x40_0000_0000) / 0x80_0000_0000
            + exponent as u64 * 0x80_0000 + sgn;
        (wide % 0x1_0000_0000) as u32
    }
}

} // verus!
