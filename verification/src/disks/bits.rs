//! A small bit vector over one byte, for working with single bits.

use vstd::prelude::*;

verus! {

/// A single bit.
pub type Bit = bool;

/// Eight bits packed into one byte; position 0 is the most significant.
#[derive(Clone, Copy, Debug, PartialEq, Eq, Structural)]
pub struct BitVec(pub u8);

/// How many of the eight bits of `v` are set.
pub open spec fn spec_ones(v: u8) -> int {
    ((v >> 7u8) & 1) + ((v >> 6u8) & 1) + ((v >> 5u8) & 1) + ((v >> 4u8) & 1) + ((v >> 3u8) & 1) + (
    (v >> 2u8) & 1) + ((v >> 1u8) & 1) + (v & 1)
}

impl BitVec {
    /// Whether an odd number of bits is set.
    pub fn parity(&self) -> (r: Bit)
        ensures
            r == (spec_ones(self.0) % 2 == 1),
    {
        let v = self.0;
        let ones: u32 = ((v >> 7u8) & 1) as u32 + ((v >> 6u8) & 1) as u32 + ((v >> 5u8) & 1) as u32
            + ((v >> 4u8) & 1) as u32 + ((v >> 3u8) & 1) as u32 + ((v >> 2u8) & 1) as u32 + ((v
            >> 1u8) & 1) as u32 + (v & 1) as u32;
        ones % 2 == 1
    }
}

impl From<u8> for BitVec {
    /// Packs a byte into a bit vector.
    fn from(value: u8) -> (r: Self) {
        BitVec(value)
    }
}

impl vstd::std_specs::convert::FromSpecImpl<u8> for BitVec {
    open spec fn obeys_from_spec() -> bool {
        true
    }

    open spec fn from_spec(value: u8) -> BitVec {
        BitVec(value)
    }
}

impl From<BitVec> for u8 {
    /// Unpacks a bit vector back into its byte.
    fn from(value: BitVec) -> (r: Self) {
        value.0
    }
}

impl vstd::std_specs::convert::FromSpecImpl<BitVec> for u8 {
    open spec fn obeys_from_spec() -> bool {
        true
    }

    open spec fn from_spec(value: BitVec) -> u8 {
        value.0
    }
}

} // verus!
