//! The total order of the packed reals, read off the words without unpacking.

use vstd::prelude::*;
use core::cmp::Ordering;
use vstd::std_specs::cmp::PartialOrdSpecImpl;
use crate::pseudo_double::PseudoDouble;

verus! {

impl PseudoDouble {
    /// Whether `self` is below `other`. Of two words of different sign the
    /// negative one is below. Of two of the same sign and different exponent
    /// fields, the one with the larger field is the larger in magnitude. With
    /// equal exponent fields the words compare as integers.
    pub open spec fn spec_lt(self, other: PseudoDouble) -> bool {
        if self.0 == other.0 {
            false
        } else if (self.0 < 0) != (other.0 < 0) {
            self.0 < 0
        } else if self.expo() != other.expo() {
            (self.expo() < other.expo()) != (self.0 < 0)
        } else {
            self.0 < other.0
        }
    }

    /// Whether `self` is below `other` or the same word.
    pub open spec fn spec_le(self, other: PseudoDouble) -> bool {
        self.0 == other.0 || self.spec_lt(other)
    }

    /// Whether `self` is less than `other`.
    pub fn const_less_than(&self, other: PseudoDouble) -> (r: bool)
        ensures
            r == self.spec_lt(other),
    {
        if self.0 == other.0 {
            return false;
        }
        let neg: bool = self.0 < 0;
        if neg != (other.0 < 0) {
            return neg;
        }
        let expdiff: i64 = other.exponent_field() - self.exponent_field();
        if expdiff != 0 {
            (expdiff > 0) != neg
        } else {
            self.0 < other.0
        }
    }

    /// Whether `self` is less than or equal to `other`.
    pub fn const_less_than_or_equal(&self, other: PseudoDouble) -> (r: bool)
        ensures
            r == self.spec_le(other),
    {
        if self.0 == other.0 {
            return true;
        }
        self.const_less_than(other)
    }

    /// How `self` stands to `other` in the order: equal only for the same
    /// word.
    pub fn cmp(&self, other: &PseudoDouble) -> (r: Ordering)
        ensures
            r == (if self.0 == other.0 {
                Ordering::Equal
            } else if self.spec_lt(*other) {
                Ordering::Less
            } else {
                Ordering::Greater
            }),
    {
        if self.0 == other.0 {
            Ordering::Equal
        } else if self.const_less_than(*other) {
            Ordering::Less
        } else {
            Ordering::Greater
        }
    }

    /// The larger of two numbers; `other` where neither is larger.
    pub fn max(self, other: PseudoDouble) -> (r: PseudoDouble)
        ensures
            r == (if other.spec_lt(self) { self } else { other }),
    {
        if other.const_less_than(self) {
            self
        } else {
            other
        }
    }

    /// The smaller of two numbers; `other` where neither is smaller.
    pub fn min(self, other: PseudoDouble) -> (r: PseudoDouble)
        ensures
            r == (if self.spec_lt(other) { self } else { other }),
    {
        if self.const_less_than(other) {
            self
        } else {
            other
        }
    }
}

impl PartialOrd for PseudoDouble {
    fn partial_cmp(&self, other: &PseudoDouble) -> (r: Option<Ordering>) {
        if self.0 == other.0 {
            Some(Ordering::Equal)
        } else if self.const_less_than(*other) {
            Some(Ordering::Less)
        } else {
            Some(Ordering::Greater)
        }
    }
}

impl PartialOrdSpecImpl for PseudoDouble {
    open spec fn obeys_partial_cmp_spec() -> bool {
        true
    }

    open spec fn partial_cmp_spec(&self, other: &PseudoDouble) -> Option<Ordering> {
        if self.0 == other.0 {
            Some(Ordering::Equal)
        } else if self.spec_lt(*other) {
            Some(Ordering::Less)
        } else {
            Some(Ordering::Greater)
        }
    }
}

} // verus!
