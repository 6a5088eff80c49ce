//! Floating-point numbers by their bit patterns.
//!
//! The entity layer stores, compares and orders single-precision numbers; what
//! it computes with them is the renderer's business. A number is therefore held
//! as the 32 bits of its IEEE 754 encoding, and the comparisons are stated on
//! those.

use vstd::prelude::*;

verus! {

/// A single-precision floating-point number, by the bits of its encoding.
#[derive(Clone, Copy, Debug, PartialEq, Eq, Structural)]
pub struct Scalar {
    /// Sign, exponent and fraction, the sign in the highest bit.
    pub bits: u32,
}

/// The bits of the number one.
pub const ONE_BITS: u32 = 0x3f80_0000;

/// The bits of infinity.
pub const INFINITY_BITS: u32 = 0x7f80_0000;

/// The bits of infinity below all numbers.
pub const NEGATIVE_INFINITY_BITS: u32 = 0xff80_0000;

/// The number zero.
pub open spec fn zero() -> Scalar {
    Scalar { bits: 0 }
}

/// The number one.
pub open spec fn one() -> Scalar {
    Scalar { bits: ONE_BITS }
}

impl Scalar {
    /// The number zero.
    pub fn zero() -> (number: Scalar)
        ensures
            number == self::zero(),
    {
        Scalar { bits: 0 }
    }

    /// The number one.
    pub fn one() -> (number: Scalar)
        ensures
            number == self::one(),
    {
        Scalar { bits: ONE_BITS }
    }

    /// The number's place in the total order of all encodings, in which the
    /// negative ones stand before the positive ones, larger magnitudes farther
    /// out, and the not-a-numbers at both ends.
    pub open spec fn place(self) -> int {
        if self.bits < 0x8000_0000 {
            self.bits as int
        } else {
            0x7fff_ffff - self.bits
        }
    }

    /// Whether the encoding is that of no number.
    pub open spec fn not_a_number(self) -> bool {
        self.bits % 0x8000_0000 > 0x7f80_0000
    }

    /// The signed magnitude: two encodings of numbers stand for the same number
    /// exactly if it is the same, and it grows with the number.
    pub open spec fn magnitude(self) -> int {
        if self.bits < 0x8000_0000 {
            self.bits as int
        } else {
            0x8000_0000 - self.bits
        }
    }

    /// Whether both are numbers, and this one is the smaller.
    pub open spec fn less(self, other: Scalar) -> bool {
        !self.not_a_number() && !other.not_a_number() && self.magnitude() < other.magnitude()
    }

    /// Whether both are numbers, and the same one.
    pub open spec fn same(self, other: Scalar) -> bool {
        !self.not_a_number() && !other.not_a_number() && self.magnitude() == other.magnitude()
    }

    /// Whether the number is less than the other, or the same.
    pub open spec fn at_most(self, other: Scalar) -> bool {
        self.less(other) || self.same(other)
    }

    /// Whether the number is less than the other, or the same.
    pub fn is_at_most(&self, other: &Scalar) -> (answer: bool)
        ensures
            answer == self.at_most(*other),
    {
        self.is_less(other) || self.is_same(other)
    }

    /// The number moved into the range, if it lies outside; what is no number stays.
    pub open spec fn clamped(self, low: Scalar, high: Scalar) -> Scalar {
        if self.less(low) {
            low
        } else if high.less(self) {
            high
        } else {
            self
        }
    }

    /// The number moved into the range, if it lies outside; what is no number stays.
    pub fn clamp(&self, low: &Scalar, high: &Scalar) -> (number: Scalar)
        ensures
            number == self.clamped(*low, *high),
    {
        if self.is_less(low) {
            *low
        } else if high.is_less(self) {
            *high
        } else {
            *self
        }
    }

    /// The smaller of two numbers; where one is no number, the other.
    pub open spec fn lesser(self, other: Scalar) -> Scalar {
        if self.not_a_number() || other.less(self) {
            other
        } else {
            self
        }
    }

    /// The larger of two numbers; where one is no number, the other.
    pub open spec fn greater(self, other: Scalar) -> Scalar {
        if self.not_a_number() || self.less(other) {
            other
        } else {
            self
        }
    }

    /// The smaller of two numbers; where one is no number, the other.
    pub fn min(&self, other: &Scalar) -> (number: Scalar)
        ensures
            number == self.lesser(*other),
    {
        if self.is_not_a_number() || other.is_less(self) {
            *other
        } else {
            *self
        }
    }

    /// The larger of two numbers; where one is no number, the other.
    pub fn max(&self, other: &Scalar) -> (number: Scalar)
        ensures
            number == self.greater(*other),
    {
        if self.is_not_a_number() || self.is_less(other) {
            *other
        } else {
            *self
        }
    }

    /// Whether the encoding is that of a number that is not infinite.
    pub open spec fn finite(self) -> bool {
        self.bits % 0x8000_0000 < INFINITY_BITS
    }

    /// Whether the encoding is that of a number that is not infinite.
    pub fn is_finite(&self) -> (answer: bool)
        ensures
            answer == self.finite(),
    {
        self.bits % 0x8000_0000 < INFINITY_BITS
    }

    /// The number's place in the total order of all encodings.
    pub fn place_of(&self) -> (place: i64)
        ensures
            place == self.place(),
    {
        if self.bits < 0x8000_0000 {
            self.bits as i64
        } else {
            0x7fff_ffff - self.bits as i64
        }
    }

    fn magnitude_of(&self) -> (value: i64)
        ensures
            value == self.magnitude(),
    {
        if self.bits < 0x8000_0000 {
            self.bits as i64
        } else {
            0x8000_0000 - self.bits as i64
        }
    }

    /// Whether the encoding is that of no number.
    pub fn is_not_a_number(&self) -> (answer: bool)
        ensures
            answer == self.not_a_number(),
    {
        self.bits % 0x8000_0000 > 0x7f80_0000
    }

    /// Whether both are numbers, and this one is the smaller.
    pub fn is_less(&self, other: &Scalar) -> (answer: bool)
        ensures
            answer == self.less(*other),
    {
        !self.is_not_a_number() && !other.is_not_a_number() && self.magnitude_of()
            < other.magnitude_of()
    }

    /// Whether both are numbers, and the same one.
    pub fn is_same(&self, other: &Scalar) -> (answer: bool)
        ensures
            answer == self.same(*other),
    {
        !self.is_not_a_number() && !other.is_not_a_number() && self.magnitude_of()
            == other.magnitude_of()
    }
}

/// A number moved into a range lies in it.
pub proof fn law_clamped_number_is_in_range(number: Scalar, low: Scalar, high: Scalar)
    requires
        !number.not_a_number(),
        !low.not_a_number(),
        !high.not_a_number(),
        !high.less(low),
    ensures
        !number.clamped(low, high).less(low),
        !high.less(number.clamped(low, high)),
{
}

/// Numbers are ordered as single-precision numbers are: those without the sign bit by
/// their bits, those with it the other way round and below the others, both zeros the
/// same; what is no number stands in no order.
pub proof fn law_numbers_are_ordered(a: Scalar, b: Scalar)
    ensures
        a.not_a_number() <==> 0x7f80_0000 < a.bits < 0x8000_0000 || 0xff80_0000 < a.bits,
        a.finite() <==> a.bits < 0x7f80_0000 || 0x8000_0000 <= a.bits < 0xff80_0000,
        a.not_a_number() || b.not_a_number() ==> !a.less(b) && !a.same(b) && !a.at_most(b),
        !a.not_a_number() && !b.not_a_number() ==> {
            &&& a.bits < 0x8000_0000 && b.bits < 0x8000_0000 ==> (a.less(b) <==> a.bits < b.bits)
            &&& a.bits >= 0x8000_0000 && b.bits >= 0x8000_0000 ==> (a.less(b) <==> a.bits > b.bits)
            &&& a.bits >= 0x8000_0000 && b.bits < 0x8000_0000 ==> (a.less(b) <==> a.bits
                != 0x8000_0000 || b.bits != 0)
            &&& a.bits < 0x8000_0000 && b.bits >= 0x8000_0000 ==> !a.less(b)
            &&& a.same(b) <==> !a.less(b) && !b.less(a)
            &&& a.at_most(b) <==> !b.less(a)
        },
{
}

/// Every encoding has a place of its own: those with the sign bit come first, the larger
/// the earlier, then those without it, the smaller the earlier. Of two numbers the
/// smaller has the earlier place.
pub proof fn law_places_are_a_total_order(a: Scalar, b: Scalar)
    ensures
        a.place() == b.place() <==> a.bits == b.bits,
        a.place() < b.place() <==> (if a.bits >= 0x8000_0000 {
            b.bits < 0x8000_0000 || b.bits < a.bits
        } else {
            b.bits < 0x8000_0000 && a.bits < b.bits
        }),
        a.less(b) ==> a.place() < b.place(),
{
}

/// Of two numbers the lesser and the greater are the two of them, and what is no number
/// gives way to the other.
pub proof fn law_lesser_and_greater(a: Scalar, b: Scalar)
    ensures
        a.lesser(b) == a || a.lesser(b) == b,
        a.greater(b) == a || a.greater(b) == b,
        !a.not_a_number() && !b.not_a_number() ==> {
            &&& a.lesser(b).at_most(a) && a.lesser(b).at_most(b)
            &&& a.at_most(a.greater(b)) && b.at_most(a.greater(b))
        },
        a.not_a_number() ==> a.lesser(b) == b && a.greater(b) == b,
        b.not_a_number() ==> a.not_a_number() || (a.lesser(b) == a && a.greater(b) == a),
{
}

/// A number that lies in the range stays as it is, and any other is moved to the end of
/// the range that it lies beyond.
pub proof fn law_clamping_moves_to_the_nearer_end(number: Scalar, low: Scalar, high: Scalar)
    ensures
        low.at_most(number) && number.at_most(high) ==> number.clamped(low, high) == number,
        number.less(low) ==> number.clamped(low, high) == low,
        high.less(number) && low.at_most(high) ==> number.clamped(low, high) == high,
        number.not_a_number() ==> number.clamped(low, high) == number,
{
}

} // verus!
