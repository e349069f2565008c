//! A minimal stand-in for an execution unit that owns its payload.

use vstd::prelude::*;

verus! {

/// A processor holding the data it works on.
pub struct Cpu<D>(pub D);

impl<D> Cpu<D> {
    /// Wraps a payload into a processor.
    pub fn new(data: D) -> (c: Self)
        ensures
            c.0 == data,
    {
        Cpu(data)
    }

    /// Releases the payload.
    pub fn data(self) -> (d: D)
        ensures
            d == self.0,
    {
        self.0
    }
}

} // verus!
