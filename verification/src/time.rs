//! Points in time and spans of time, in nanoseconds.
//!
//! The clock itself is read by the program around the library: every function
//! that needs the time takes it as an argument.

use vstd::prelude::*;

verus! {

/// The longest span: `u64::MAX` seconds and 999,999,999 nanoseconds.
pub const MAX_NANOS: u128 = 18_446_744_073_709_551_615_999_999_999;

/// A span of time.
#[derive(Debug, Clone, Copy, PartialEq, Eq, PartialOrd, Ord, Hash, Structural)]
pub struct Duration {
    pub nanos: u128,
}

/// A point in time: nanoseconds since the process started.
#[derive(Debug, Clone, Copy, PartialEq, Eq, PartialOrd, Ord, Hash, Structural)]
pub struct Instant {
    pub nanos: u64,
}

impl Duration {
    /// So many whole seconds.
    pub fn from_secs(secs: u64) -> (d: Duration)
        ensures
            d.nanos == secs * 1_000_000_000,
    {
        Duration { nanos: secs as u128 * 1_000_000_000 }
    }

    /// So many whole milliseconds.
    pub fn from_millis(millis: u64) -> (d: Duration)
        ensures
            d.nanos == millis * 1_000_000,
    {
        Duration { nanos: millis as u128 * 1_000_000 }
    }

    /// So many nanoseconds.
    pub fn from_nanos(nanos: u64) -> (d: Duration)
        ensures
            d.nanos == nanos,
    {
        Duration { nanos: nanos as u128 }
    }

    /// The whole seconds of a span of at most the longest length.
    pub fn as_secs(&self) -> (s: u64)
        requires
            self.nanos <= MAX_NANOS,
        ensures
            s == self.nanos / 1_000_000_000,
    {
        (self.nanos / 1_000_000_000) as u64
    }

    /// The span taken `k` times, and at most the longest one.
    pub fn saturating_mul(&self, k: u32) -> (d: Duration)
        ensures
            d.nanos == if self.nanos * k <= MAX_NANOS {
                self.nanos * k
            } else {
                MAX_NANOS as int
            },
    {
        match self.nanos.checked_mul(k as u128) {
            Some(n) => if n <= MAX_NANOS {
                Duration { nanos: n }
            } else {
                Duration { nanos: MAX_NANOS }
            },
            None => Duration { nanos: MAX_NANOS },
        }
    }
}

/// The span from `earlier` to `later`; zero where they stand the other way round.
pub open spec fn elapsed(later: Instant, earlier: Instant) -> int {
    if later.nanos >= earlier.nanos {
        later.nanos - earlier.nanos
    } else {
        0
    }
}

impl Instant {
    /// The span since `earlier`; zero where `earlier` is later.
    pub fn since(&self, earlier: Instant) -> (d: Duration)
        ensures
            d.nanos == elapsed(*self, earlier),
    {
        if self.nanos >= earlier.nanos {
            Duration { nanos: (self.nanos - earlier.nanos) as u128 }
        } else {
            Duration { nanos: 0 }
        }
    }
}

/// `SystemTime::now` reads the wall clock; its `duration_since` the epoch gives
/// whole seconds and the nanoseconds below one second. A clock before the epoch
/// reads as zero. Nothing else is known of the time.
#[verifier::external_body]
pub(crate) fn unix_now() -> (r: (u64, u32))
    ensures
        r.1 < 1_000_000_000,
{
    match std::time::SystemTime::now().duration_since(std::time::UNIX_EPOCH) {
        Ok(d) => (d.as_secs(), d.subsec_nanos()),
        Err(_) => (0, 0),
    }
}

} // verus!
