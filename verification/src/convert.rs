//! Conversions between packed reals and the narrower integer types: into a
//! packed real through the 64-bit conversions, out of one by keeping the low
//! bits of the 64-bit result.

use vstd::prelude::*;
use vstd::std_specs::convert::FromSpecImpl;
use crate::bits::to_unsigned;
use crate::pseudo_double::{PseudoDouble, encode_int, encode_nat};

verus! {

/// The signed integer of `bits` bits congruent to `v` modulo `2^bits`, for
/// `modulus` equal to `2^bits`.
pub open spec fn wrap_signed(v: int, modulus: int) -> int {
    if v % modulus >= modulus / 2 {
        v % modulus - modulus
    } else {
        v % modulus
    }
}

impl PseudoDouble {
    /// The integer part of the number, reduced to 32 bits.
    pub fn to_u32(self) -> (r: u32)
        ensures
            r == self.decode_nat() % 0x1_0000_0000,
    {
        (self.to_u64() % 0x1_0000_0000) as u32
    }

    /// The integer part of the number, reduced to 16 bits.
    pub fn to_u16(self) -> (r: u16)
        ensures
            r == self.decode_nat() % 0x1_0000,
    {
        (self.to_u64() % 0x1_0000) as u16
    }

    /// The integer part of the number, reduced to 8 bits.
    pub fn to_u8(self) -> (r: u8)
        ensures
            r == self.decode_nat() % 0x100,
    {
        (self.to_u64() % 0x100) as u8
    }

    /// The integer part of the number, reduced to 32 bits.
    pub fn to_i32(self) -> (r: i32)
        ensures
            r == wrap_signed(self.decode_int(), 0x1_0000_0000),
    {
        let v: i64 = self.to_i64();
        let low: u64 = to_unsigned(v) % 0x1_0000_0000;
        proof {
            assert(low == (v as int) % 0x1_0000_0000);
        }
        if low >= 0x8000_0000 {
            (low as i64 - 0x1_0000_0000) as i32
        } else {
            low as i32
        }
    }

    /// The integer part of the number, reduced to 16 bits.
    pub fn to_i16(self) -> (r: i16)
        ensures
            r == wrap_signed(self.decode_int(), 0x1_0000),
    {
        let v: i64 = self.to_i64();
        let low: u64 = to_unsigned(v) % 0x1_0000;
        proof {
            assert(low == (v as int) % 0x1_0000);
        }
        if low >= 0x8000 {
            (low as i64 - 0x1_0000) as i16
        } else {
            low as i16
        }
    }

    /// The integer part of the number, reduced to 8 bits.
    pub fn to_i8(self) -> (r: i8)
        ensures
            r == wrap_signed(self.decode_int(), 0x100),
    {
        let v: i64 = self.to_i64();
        let low: u64 = to_unsigned(v) % 0x100;
        proof {
            assert(low == (v as int) % 0x100);
        }
        if low >= 0x80 {
            (low as i64 - 0x100) as i8
        } else {
            low as i8
        }
    }
}

impl core::convert::From<i32> for PseudoDouble {
    fn from(x: i32) -> (r: Self) {
        PseudoDouble::from_i64(x as i64)
    }
}

impl FromSpecImpl<i32> for PseudoDouble {
    open spec fn obeys_from_spec() -> bool {
        true
    }

    open spec fn from_spec(x: i32) -> Self {
        encode_int(x as int)
    }
}

impl core::convert::From<i16> for PseudoDouble {
    fn from(x: i16) -> (r: Self) {
        PseudoDouble::from_i64(x as i64)
    }
}

impl FromSpecImpl<i16> for PseudoDouble {
    open spec fn obeys_from_spec() -> bool {
        true
    }

    open spec fn from_spec(x: i16) -> Self {
        encode_int(x as int)
    }
}

impl core::convert::From<i8> for PseudoDouble {
    fn from(x: i8) -> (r: Self) {
        PseudoDouble::from_i64(x as i64)
    }
}

impl FromSpecImpl<i8> for PseudoDouble {
    open spec fn obeys_from_spec() -> bool {
        true
    }

    open spec fn from_spec(x: i8) -> Self {
        encode_int(x as int)
    }
}

impl core::convert::From<u32> for PseudoDouble {
    fn from(x: u32) -> (r: Self) {
        PseudoDouble::from_u64(x as u64)
    }
}

impl FromSpecImpl<u32> for PseudoDouble {
    open spec fn obeys_from_spec() -> bool {
        true
    }

    open spec fn from_spec(x: u32) -> Self {
        encode_nat(x as int)
    }
}

impl core::convert::From<u16> for PseudoDouble {
    fn from(x: u16) -> (r: Self) {
        PseudoDouble::from_u64(x as u64)
    }
}

impl FromSpecImpl<u16> for PseudoDouble {
    open spec fn obeys_from_spec() -> bool {
        true
    }

    open spec fn from_spec(x: u16) -> Self {
        encode_nat(x as int)
    }
}

impl core::convert::From<u8> for PseudoDouble {
    fn from(x: u8) -> (r: Self) {
        PseudoDouble::from_u64(x as u64)
    }
}

impl FromSpecImpl<u8> for PseudoDouble {
    open spec fn obeys_from_spec() -> bool {
        true
    }

    open spec fn from_spec(x: u8) -> Self {
        encode_nat(x as int)
    }
}

impl core::convert::From<PseudoDouble> for u32 {
    fn from(x: PseudoDouble) -> (r: Self) {
        x.to_u32()
    }
}

impl FromSpecImpl<PseudoDouble> for u32 {
    open spec fn obeys_from_spec() -> bool {
        true
    }

    open spec fn from_spec(x: PseudoDouble) -> Self {
        (x.decode_nat() % 0x1_0000_0000) as u32
    }
}

impl core::convert::From<PseudoDouble> for u16 {
    fn from(x: PseudoDouble) -> (r: Self) {
        x.to_u16()
    }
}

impl FromSpecImpl<PseudoDouble> for u16 {
    open spec fn obeys_from_spec() -> bool {
        true
    }

    open spec fn from_spec(x: PseudoDouble) -> Self {
        (x.decode_nat() % 0x1_0000) as u16
    }
}

impl core::convert::From<PseudoDouble> for u8 {
    fn from(x: PseudoDouble) -> (r: Self) {
        x.to_u8()
    }
}

impl FromSpecImpl<PseudoDouble> for u8 {
    open spec fn obeys_from_spec() -> bool {
        true
    }

    open spec fn from_spec(x: PseudoDouble) -> Self {
        (x.decode_nat() % 0x100) as u8
    }
}

impl core::convert::From<PseudoDouble> for i32 {
    fn from(x: PseudoDouble) -> (r: Self) {
        x.to_i32()
    }
}

impl FromSpecImpl<PseudoDouble> for i32 {
    open spec fn obeys_from_spec() -> bool {
        true
    }

    open spec fn from_spec(x: PseudoDouble) -> Self {
        wrap_signed(x.decode_int(), 0x1_0000_0000) as i32
    }
}

impl core::convert::From<PseudoDouble> for i16 {
    fn from(x: PseudoDouble) -> (r: Self) {
        x.to_i16()
    }
}

impl FromSpecImpl<PseudoDouble> for i16 {
    open spec fn obeys_from_spec() -> bool {
        true
    }

    open spec fn from_spec(x: PseudoDouble) -> Self {
        wrap_signed(x.decode_int(), 0x1_0000) as i16
    }
}

impl core::convert::From<PseudoDouble> for i8 {
    fn from(x: PseudoDouble) -> (r: Self) {
        x.to_i8()
    }
}

impl FromSpecImpl<PseudoDouble> for i8 {
    open spec fn obeys_from_spec() -> bool {
        true
    }

    open spec fn from_spec(x: PseudoDouble) -> Self {
        wrap_signed(x.decode_int(), 0x100) as i8
    }
}

} // verus!
