//! Points in time, as a count of nanoseconds from a fixed start.

use vstd::prelude::*;

verus! {

/// Nanoseconds in a millisecond.
pub const MILLISECOND: u64 = 1_000_000;

/// Nanoseconds in a second.
pub const SECOND: u64 = 1_000_000_000;

/// A point in time.
#[derive(Debug, Clone, Copy, PartialEq, Eq, PartialOrd, Ord, Structural)]
pub struct Instant {
    pub nanos: u64,
}

impl Instant {
    /// The nanoseconds that have passed since `earlier`, none if it lies ahead.
    pub open spec fn elapsed_since(self, earlier: Instant) -> int {
        if self.nanos >= earlier.nanos {
            self.nanos - earlier.nanos
        } else {
            0
        }
    }

    /// The nanoseconds that have passed since `earlier`, none if it lies ahead.
    pub fn since(&self, earlier: Instant) -> (r: u64)
        ensures
            r == self.elapsed_since(earlier),
    {
        if self.nanos >= earlier.nanos {
            self.nanos - earlier.nanos
        } else {
            0
        }
    }
}

/// `std::time::SystemTime::now` and its distance from the epoch, in
/// nanoseconds; zero for a clock set before it. It depends on the clock, so
/// nothing is stated of it.
#[verifier::external_body]
pub(crate) fn system_nanos() -> (r: u128) {
    std::time::SystemTime::now().duration_since(std::time::UNIX_EPOCH).map(|d| d.as_nanos()).unwrap_or(0)
}

/// The milliseconds since the epoch for a clock at the given nanosecond; the
/// low 64 bits of it.
pub fn millis_at(nanos: u128) -> (r: u64)
    ensures
        r == (nanos / 1_000_000) % 0x1_0000_0000_0000_0000,
{
    ((nanos / 1_000_000) % 0x1_0000_0000_0000_0000) as u64
}

} // verus!
