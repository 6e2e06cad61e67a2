use vstd::prelude::*;

verus! {

/// One past the largest magnitude that the lower sixty-three bits can hold; as a bit pattern, the
/// sign bit alone.
pub const SIGN_BIT: u64 = 0x8000_0000_0000_0000;

/// The largest magnitude that is still a number: the bit pattern of positive infinity.
pub const INFINITY_BITS: u64 = 0x7FF0_0000_0000_0000;

/// A measured quantity (a rate between nought and one, or a time in seconds), kept as the
/// IEEE 754 bit pattern of the double that holds it. The library carries measures and compares
/// them; it does no arithmetic on them.
#[derive(Clone, Copy, Debug, Default, PartialEq, Eq, Structural)]
pub struct Measure {
    pub bits: u64,
}

impl Measure {
    /// The measure nought.
    pub fn zero() -> (m: Measure)
        ensures
            m.bits == 0,
    {
        Measure { bits: 0 }
    }

    /// The measure one.
    pub fn one() -> (m: Measure)
        ensures
            m.bits == 0x3FF0_0000_0000_0000u64,
    {
        Measure { bits: 0x3FF0_0000_0000_0000 }
    }

    /// The bits below the sign.
    pub open spec fn magnitude(self) -> int {
        if self.bits >= SIGN_BIT {
            self.bits - SIGN_BIT
        } else {
            self.bits as int
        }
    }

    /// Whether the pattern stands for no number.
    pub open spec fn is_nan(self) -> bool {
        self.magnitude() > INFINITY_BITS
    }

    /// A number that orders every pair of numbers as their values do: the magnitude with its sign.
    /// Both zeros have the value nought.
    pub open spec fn value(self) -> int {
        if self.bits >= SIGN_BIT {
            -self.magnitude()
        } else {
            self.magnitude()
        }
    }

    /// The place in the IEEE 754 total order: negative patterns below positive ones, larger
    /// magnitudes further out, negative zero just below positive zero.
    pub open spec fn rank(self) -> int {
        if self.bits >= SIGN_BIT {
            -1 - self.magnitude()
        } else {
            self.magnitude()
        }
    }

    /// Whether `self` is a number greater than the number `other`.
    pub open spec fn above(self, other: Measure) -> bool {
        !self.is_nan() && !other.is_nan() && self.value() > other.value()
    }

    /// The place in the total order, as an integer that can be compared.
    pub fn order_key(self) -> (key: i64)
        ensures
            key == self.rank(),
    {
        if self.bits >= SIGN_BIT {
            -1 - ((self.bits - SIGN_BIT) as i64)
        } else {
            self.bits as i64
        }
    }

    /// Whether `self` is a number greater than the number `other`; never so if either is no number.
    pub fn exceeds(self, other: Measure) -> (greater: bool)
        ensures
            greater == self.above(other),
    {
        let a_negative = self.bits >= SIGN_BIT;
        let b_negative = other.bits >= SIGN_BIT;
        let a: u64 = if a_negative { self.bits - SIGN_BIT } else { self.bits };
        let b: u64 = if b_negative { other.bits - SIGN_BIT } else { other.bits };
        if a > INFINITY_BITS || b > INFINITY_BITS {
            return false;
        }
        if a_negative {
            b_negative && a < b
        } else if b_negative {
            a > 0 || b > 0
        } else {
            a > b
        }
    }
}

/// The total order tells every two measures apart.
pub proof fn law_rank_is_injective(a: Measure, b: Measure)
    ensures
        a.rank() == b.rank() <==> a == b,
{
}

/// Between numbers of which not both are zeros, the total order is the order of the values; so of
/// two numbers the one that exceeds the other ranks above it.
pub proof fn law_rank_orders_numbers(a: Measure, b: Measure)
    requires
        !a.is_nan(),
        !b.is_nan(),
    ensures
        a.value() > b.value() ==> a.rank() > b.rank(),
        a.value() == b.value() && a.value() != 0 ==> a.rank() == b.rank(),
{
}

/// Measures without a sign stand in the order of their bit patterns, those with one below them all
/// and the other way around.
pub proof fn law_rank_follows_the_bit_patterns(a: Measure, b: Measure)
    ensures
        a.bits < 0x8000_0000_0000_0000 && b.bits < 0x8000_0000_0000_0000 ==> (a.rank() < b.rank()
            <==> a.bits < b.bits),
        a.bits >= 0x8000_0000_0000_0000 && b.bits >= 0x8000_0000_0000_0000 ==> (a.rank() < b.rank()
            <==> a.bits > b.bits),
        a.bits >= 0x8000_0000_0000_0000 && b.bits < 0x8000_0000_0000_0000 ==> a.rank() < b.rank(),
{
}

/// Of two numbers without a sign one exceeds the other exactly where its bit pattern is greater; of
/// two that are the same neither does, and what is no number exceeds nothing and is exceeded by
/// nothing.
pub proof fn law_exceeding_follows_the_values(a: Measure, b: Measure)
    ensures
        a.bits <= 0x7FF0_0000_0000_0000 && b.bits <= 0x7FF0_0000_0000_0000 ==> (a.above(b)
            <==> a.bits > b.bits),
        0x7FF0_0000_0000_0000 < a.bits < 0x8000_0000_0000_0000 ==> !a.above(b) && !b.above(a),
        a.bits > 0xFFF0_0000_0000_0000 ==> !a.above(b) && !b.above(a),
        0x8000_0000_0000_0000 <= a.bits <= 0xFFF0_0000_0000_0000 && b.bits
            <= 0x7FF0_0000_0000_0000 ==> !a.above(b) && (b.above(a) <==> b.bits != 0 || a.bits
            != 0x8000_0000_0000_0000),
        0x8000_0000_0000_0000 <= a.bits <= 0xFFF0_0000_0000_0000 && 0x8000_0000_0000_0000 <= b.bits
            <= 0xFFF0_0000_0000_0000 ==> (a.above(b) <==> a.bits < b.bits),
        !a.above(a),
{
}

} // verus!
