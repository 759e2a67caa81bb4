//! Beacon-chain time, counted in slots.
use vstd::prelude::*;

verus! {

/// A slot number: the beacon chain's unit of time.
#[derive(Clone, Copy, Debug, PartialEq, Eq, Structural, Hash, PartialOrd, Ord)]
pub struct Slot(pub u64);

impl Slot {
    /// The slot with the given number.
    pub fn new(slot: u64) -> (s: Slot)
        ensures
            s == Slot(slot),
    {
        Slot(slot)
    }

    /// The slot's number.
    pub fn as_u64(&self) -> (n: u64)
        ensures
            n == self.0,
    {
        self.0
    }

    /// The slot `other` slots earlier, or slot zero where there is none.
    pub fn saturating_sub(&self, other: u64) -> (s: Slot)
        ensures
            s.0 == spec_saturating_sub(self.0, other),
    {
        if self.0 >= other {
            Slot(self.0 - other)
        } else {
            Slot(0)
        }
    }
}

/// Subtraction on naturals that stops at zero.
pub open spec fn spec_saturating_sub(a: u64, b: u64) -> u64 {
    if a >= b {
        (a - b) as u64
    } else {
        0
    }
}

} // verus!
