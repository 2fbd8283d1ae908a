//! Bit-exact keys for 64-bit floating-point timestamps.

use vstd::prelude::*;

verus! {

/// The sign bit of an IEEE-754 double.
pub const SIGN_BIT: u64 = 0x8000_0000_0000_0000;

/// The bit pattern of positive infinity: magnitudes above it are NaN.
pub const INFINITY_BITS: u64 = 0x7ff0_0000_0000_0000;

/// The bit pattern with the sign bit cleared.
pub open spec fn magnitude(bits: u64) -> nat {
    if bits >= SIGN_BIT {
        (bits - SIGN_BIT) as nat
    } else {
        bits as nat
    }
}

/// Whether the bit pattern encodes a NaN.
pub open spec fn spec_is_nan(bits: u64) -> bool {
    magnitude(bits) > INFINITY_BITS
}

/// A signed integer that orders bit patterns as their floating-point values
/// are ordered, for every pattern that is not NaN. Both zeros rank as 0.
pub open spec fn rank(bits: u64) -> int {
    if bits >= SIGN_BIT {
        -magnitude(bits)
    } else {
        magnitude(bits) as int
    }
}

/// A timestamp, held as the bit pattern of its 64-bit floating-point value.
///
/// Two keys are equal exactly when the bit patterns are identical, so `+0.0`
/// and `-0.0` are distinct keys.
#[derive(Clone, Copy, Debug, PartialEq, Eq, Structural, Hash)]
pub struct TimeKey {
    pub bits: u64,
}

impl TimeKey {
    /// The key of the timestamp whose bit pattern is `bits`.
    pub fn encode(bits: u64) -> (r: TimeKey)
        ensures
            r.bits == bits,
    {
        TimeKey { bits }
    }

    /// The bit pattern of the timestamp this key stands for.
    pub fn decode(&self) -> (r: u64)
        ensures
            r == self.bits,
    {
        self.bits
    }

    /// Whether the timestamp is NaN.
    pub fn is_nan(&self) -> (r: bool)
        ensures
            r == spec_is_nan(self.bits),
    {
        let mag: u64 = if self.bits >= SIGN_BIT {
            self.bits - SIGN_BIT
        } else {
            self.bits
        };
        mag > INFINITY_BITS
    }
}

/// Compares two keys by the floating-point values that they stand for.
///
/// On keys that are not NaN this is the floating-point order, with the two
/// zeros equal. On NaN keys it still gives a total order, by magnitude, so
/// that a sort never sees an inconsistent comparison.
pub fn order(a: TimeKey, b: TimeKey) -> (r: core::cmp::Ordering)
    ensures
        (r == core::cmp::Ordering::Less) <==> rank(a.bits) < rank(b.bits),
        (r == core::cmp::Ordering::Equal) <==> rank(a.bits) == rank(b.bits),
        (r == core::cmp::Ordering::Greater) <==> rank(a.bits) > rank(b.bits),
{
    let a_neg = a.bits >= SIGN_BIT;
    let b_neg = b.bits >= SIGN_BIT;
    let a_mag: u64 = if a_neg { a.bits - SIGN_BIT } else { a.bits };
    let b_mag: u64 = if b_neg { b.bits - SIGN_BIT } else { b.bits };
    if a_neg && b_neg {
        if a_mag > b_mag {
            core::cmp::Ordering::Less
        } else if a_mag < b_mag {
            core::cmp::Ordering::Greater
        } else {
            core::cmp::Ordering::Equal
        }
    } else if a_neg {
        if a_mag == 0 && b_mag == 0 {
            core::cmp::Ordering::Equal
        } else {
            core::cmp::Ordering::Less
        }
    } else if b_neg {
        if a_mag == 0 && b_mag == 0 {
            core::cmp::Ordering::Equal
        } else {
            core::cmp::Ordering::Greater
        }
    } else if a_mag < b_mag {
        core::cmp::Ordering::Less
    } else if a_mag > b_mag {
        core::cmp::Ordering::Greater
    } else {
        core::cmp::Ordering::Equal
    }
}

} // verus!
