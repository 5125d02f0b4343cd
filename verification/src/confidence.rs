//! Confidence scores, carried as the bits of single-precision numbers.

use vstd::prelude::*;

verus! {

/// A score in the IEEE 754 single-precision encoding.
#[derive(Debug, Clone, Copy, PartialEq, Eq, Structural)]
pub struct Confidence {
    pub bits: u32,
}

impl Confidence {
    /// The magnitude bits: exponent and fraction.
    pub open spec fn magnitude(self) -> int {
        if self.bits >= 0x8000_0000 {
            self.bits - 0x8000_0000
        } else {
            self.bits as int
        }
    }

    /// Not a number: the exponent bits are all set and the fraction is not zero.
    pub open spec fn is_nan(self) -> bool {
        self.magnitude() > 0x7f80_0000
    }

    /// The place of the number among all numbers. Both zeros have the place zero.
    pub open spec fn rank(self) -> int {
        if self.bits >= 0x8000_0000 {
            -self.magnitude()
        } else {
            self.magnitude()
        }
    }

    /// Whether the number is greater than or equal to the other one. What is not a number compares
    /// with nothing.
    pub open spec fn is_at_least(self, floor: Confidence) -> bool {
        !self.is_nan() && !floor.is_nan() && self.rank() >= floor.rank()
    }

    /// One half.
    pub fn half() -> (r: Self)
        ensures
            r.bits == 0x3f00_0000,
    {
        Confidence { bits: 0x3f00_0000 }
    }

    /// Whether the number is greater than or equal to the other one.
    pub fn at_least(self, floor: Confidence) -> (r: bool)
        ensures
            r == self.is_at_least(floor),
    {
        let negative = self.bits >= 0x8000_0000;
        let floor_negative = floor.bits >= 0x8000_0000;
        let magnitude: u32 = if negative {
            self.bits - 0x8000_0000
        } else {
            self.bits
        };
        let floor_magnitude: u32 = if floor_negative {
            floor.bits - 0x8000_0000
        } else {
            floor.bits
        };
        if magnitude > 0x7f80_0000 || floor_magnitude > 0x7f80_0000 {
            false
        } else if !negative && !floor_negative {
            magnitude >= floor_magnitude
        } else if negative && floor_negative {
            magnitude <= floor_magnitude
        } else if negative {
            magnitude == 0 && floor_magnitude == 0
        } else {
            true
        }
    }
}

/// Scores compare as the numbers that they encode do. Not-a-number, which has more than the bits of
/// infinity, compares with nothing. Of two numbers without a sign the one with the greater bits is
/// greater, of two with a sign the one with the smaller bits, and one without a sign is at least as
/// great as one with a sign. Only the two zeros are equal with different bits.
pub proof fn law_scores_compare_as_numbers(a: Confidence, b: Confidence)
    ensures
        (0x7f80_0000 < a.bits < 0x8000_0000) || a.bits > 0xff80_0000 ==> !a.is_at_least(b)
            && !b.is_at_least(a),
        a.bits <= 0x7f80_0000 && b.bits <= 0x7f80_0000 ==> (a.is_at_least(b) <==> a.bits >= b.bits),
        0x8000_0000 <= a.bits <= 0xff80_0000 && 0x8000_0000 <= b.bits <= 0xff80_0000 ==> (
        a.is_at_least(b) <==> a.bits <= b.bits),
        a.bits <= 0x7f80_0000 && 0x8000_0000 <= b.bits <= 0xff80_0000 ==> a.is_at_least(b) && (
        b.is_at_least(a) <==> a.bits == 0 && b.bits == 0x8000_0000),
{
}

} // verus!
