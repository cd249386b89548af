//! Vector components as bit patterns, ordered as IEEE-754 orders them.

use vstd::prelude::*;

verus! {

/// One vector component: the bit pattern of an IEEE-754 single-precision
/// number. The pattern is never interpreted arithmetically, only ordered.
#[derive(Clone, Copy, Debug, PartialEq, Eq, Structural)]
pub struct Scalar {
    pub bits: u32,
}

/// The position of a bit pattern in the IEEE-754 total order: negative
/// numbers come first, the larger their magnitude the earlier, then the
/// non-negative ones by magnitude.
pub open spec fn total_order_key(bits: u32) -> int {
    if bits >= 0x8000_0000 {
        0xFFFF_FFFF - bits
    } else {
        bits + 0x8000_0000
    }
}

/// The earlier of two components in the total order.
pub open spec fn earlier(a: Scalar, b: Scalar) -> Scalar {
    if a.key() <= b.key() {
        a
    } else {
        b
    }
}

/// The later of two components in the total order.
pub open spec fn later(a: Scalar, b: Scalar) -> Scalar {
    if b.key() <= a.key() {
        a
    } else {
        b
    }
}

impl Scalar {
    /// The component with the given bit pattern.
    pub fn from_bits(bits: u32) -> (s: Scalar)
        ensures
            s.bits == bits,
    {
        Scalar { bits }
    }

    /// The bit pattern of this component.
    pub fn to_bits(self) -> (bits: u32)
        ensures
            bits == self.bits,
    {
        self.bits
    }

    /// The position of this component in the total order.
    pub open spec fn key(self) -> int {
        total_order_key(self.bits)
    }

    /// The position of this component in the total order, as a machine word.
    pub fn order_key(self) -> (k: u32)
        ensures
            k == self.key(),
    {
        if self.bits >= 0x8000_0000 {
            0xFFFF_FFFF - self.bits
        } else {
            self.bits + 0x8000_0000
        }
    }

    /// Whether this component comes no later than `other` in the total order.
    pub fn le(self, other: Scalar) -> (r: bool)
        ensures
            r == (self.key() <= other.key()),
    {
        self.order_key() <= other.order_key()
    }

    /// The earlier of two components in the total order.
    pub fn min(self, other: Scalar) -> (m: Scalar)
        ensures
            m == earlier(self, other),
    {
        if self.le(other) { self } else { other }
    }

    /// The later of two components in the total order.
    pub fn max(self, other: Scalar) -> (m: Scalar)
        ensures
            m == later(self, other),
    {
        if other.le(self) { self } else { other }
    }
}

} // verus!
