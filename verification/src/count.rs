//! Event counters that wrap around.

use vstd::prelude::*;

verus! {

/// A counter after one more event; behind its largest value it starts again at 0.
pub open spec fn bumped(n: u64) -> u64 {
    if n == u64::MAX {
        0
    } else {
        (n + 1) as u64
    }
}

/// A counter after one more event.
pub fn bump(n: u64) -> (r: u64)
    ensures
        r == bumped(n),
{
    n.wrapping_add(1)
}

/// A counter after `k` more events.
pub open spec fn bumped_by(n: u64, k: nat) -> u64 {
    ((n + k) % 0x1_0000_0000_0000_0000) as u64
}

/// A counter after `k` more events.
pub fn bump_by(n: u64, k: u64) -> (r: u64)
    ensures
        r == bumped_by(n, k as nat),
{
    n.wrapping_add(k)
}

} // verus!
