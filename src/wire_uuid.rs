//! A 128-bit UUID as the wire carries it: two 64-bit words, high word first.
use vstd::prelude::*;

verus! {

/// A UUID held as its two 64-bit halves.
#[derive(Debug, Clone, Copy, PartialEq, Eq, Structural)]
pub struct WireUuid {
    /// The most significant 64 bits.
    pub high: u64,
    /// The least significant 64 bits.
    pub low: u64,
}

impl WireUuid {
    /// The UUID whose halves are `high` and `low`.
    pub fn from_u64_pair(high: u64, low: u64) -> (r: WireUuid)
        ensures
            r.high == high,
            r.low == low,
    {
        WireUuid { high, low }
    }

    /// The halves of the UUID, high first.
    pub fn as_u64_pair(&self) -> (r: (u64, u64))
        ensures
            r == (self.high, self.low),
    {
        (self.high, self.low)
    }
}

} // verus!
