use vstd::prelude::*;

verus! {

/// The sign bit of an IEEE-754 double.
pub const SIGN_BIT: u64 = 0x8000_0000_0000_0000;

/// Every bit of an IEEE-754 double but its sign.
pub const MAGNITUDE_MASK: u64 = 0x7FFF_FFFF_FFFF_FFFF;

/// The magnitude bits of positive infinity; anything above it is a NaN.
pub const INFINITY_BITS: u64 = 0x7FF0_0000_0000_0000;

/// The magnitude bits of a double given by its bit pattern.
pub open spec fn magnitude(bits: u64) -> u64 {
    bits & MAGNITUDE_MASK
}

/// Whether a bit pattern is a NaN: all exponent bits set and a nonzero fraction.
pub open spec fn is_nan_bits(bits: u64) -> bool {
    magnitude(bits) > INFINITY_BITS
}

/// The value of a non-NaN double as a signed integer that orders as the double
/// does: its magnitude bits, negated when the sign bit is set. Both zeros give 0.
pub open spec fn signed_magnitude(bits: u64) -> int {
    if bits >= SIGN_BIT {
        -(magnitude(bits) as int)
    } else {
        magnitude(bits) as int
    }
}

/// A comparison key for an objective value or a bound.
///
/// `Unordered` stands for a NaN, which is neither below nor above anything;
/// `Ranked(r)` for any other double, where a smaller rank means a smaller
/// value and equal doubles (the two zeros among them) have equal ranks.
#[derive(Clone, Copy, Debug, PartialEq, Eq, Structural)]
pub enum OrderKey {
    Unordered,
    Ranked(u64),
}

/// The key of the double with the given bit pattern.
pub open spec fn key_of_bits(bits: u64) -> OrderKey {
    if is_nan_bits(bits) {
        OrderKey::Unordered
    } else {
        OrderKey::Ranked((signed_magnitude(bits) + SIGN_BIT) as u64)
    }
}

impl OrderKey {
    /// `self < other` as IEEE-754 compares the doubles the keys stand for.
    pub open spec fn less(self, other: OrderKey) -> bool {
        match (self, other) {
            (OrderKey::Ranked(a), OrderKey::Ranked(b)) => a < b,
            _ => false,
        }
    }

    /// `self >= other` as IEEE-754 compares the doubles the keys stand for.
    pub open spec fn at_least(self, other: OrderKey) -> bool {
        match (self, other) {
            (OrderKey::Ranked(a), OrderKey::Ranked(b)) => a >= b,
            _ => false,
        }
    }

    /// The key of the double whose bits `f64::to_bits` gives as `bits`.
    pub fn from_bits(bits: u64) -> (key: OrderKey)
        ensures
            key == key_of_bits(bits),
    {
        let m = bits & MAGNITUDE_MASK;
        assert(m <= MAGNITUDE_MASK) by (bit_vector)
            requires
                m == bits & 0x7FFF_FFFF_FFFF_FFFFu64,
        ;
        if m > INFINITY_BITS {
            OrderKey::Unordered
        } else if bits >= SIGN_BIT {
            OrderKey::Ranked(SIGN_BIT - m)
        } else {
            OrderKey::Ranked(SIGN_BIT + m)
        }
    }

    /// Whether the value of `self` is strictly below that of `other`.
    pub fn lt(&self, other: &OrderKey) -> (r: bool)
        ensures
            r == self.less(*other),
    {
        match (self, other) {
            (OrderKey::Ranked(a), OrderKey::Ranked(b)) => *a < *b,
            _ => false,
        }
    }

    /// Whether the value of `self` is at or above that of `other`.
    pub fn ge(&self, other: &OrderKey) -> (r: bool)
        ensures
            r == self.at_least(*other),
    {
        match (self, other) {
            (OrderKey::Ranked(a), OrderKey::Ranked(b)) => *a >= *b,
            _ => false,
        }
    }
}

/// Keys order non-NaN doubles exactly as their signed magnitudes do, and a
/// NaN compares below or above nothing.
pub proof fn lemma_key_order_matches_value_order(a: u64, b: u64)
    ensures
        !is_nan_bits(a) && !is_nan_bits(b) ==> (key_of_bits(a).less(key_of_bits(b))
            <==> signed_magnitude(a) < signed_magnitude(b)),
        !is_nan_bits(a) && !is_nan_bits(b) ==> (key_of_bits(a).at_least(key_of_bits(b))
            <==> signed_magnitude(a) >= signed_magnitude(b)),
        is_nan_bits(a) || is_nan_bits(b) ==> !key_of_bits(a).less(key_of_bits(b))
            && !key_of_bits(a).at_least(key_of_bits(b)),
{
    assert(magnitude(a) <= MAGNITUDE_MASK) by (bit_vector);
    assert(magnitude(b) <= MAGNITUDE_MASK) by (bit_vector);
}

/// The two zeros have the same key.
pub proof fn lemma_zeros_share_a_key()
    ensures
        key_of_bits(0) == key_of_bits(SIGN_BIT),
{
    assert(magnitude(0) == 0) by (bit_vector);
    assert(magnitude(SIGN_BIT) == 0) by (bit_vector);
}

} // verus!
