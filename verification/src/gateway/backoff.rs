//! The integer side of exponential backoff for channel restart and retry
//! logic: the attempt counter and the jitter sample. The delays themselves
//! are computed in floating point by the caller.

use vstd::prelude::*;

verus! {

/// The attempt counter after one more delay has been handed out.
pub open spec fn next_attempt(attempt: u32) -> u32 {
    if attempt == u32::MAX {
        attempt
    } else {
        (attempt + 1) as u32
    }
}

/// The attempt counter after `n` delays have been handed out, from `start`.
pub open spec fn attempt_after(start: u32, n: nat) -> u32
    decreases n,
{
    if n == 0 {
        start
    } else {
        next_attempt(attempt_after(start, (n - 1) as nat))
    }
}

/// Advance the attempt counter by one, saturating at `u32::MAX`.
pub fn advance_attempt(attempt: u32) -> (r: u32)
    ensures
        r == next_attempt(attempt),
{
    attempt.saturating_add(1)
}

/// The jitter sample, in thousandths, taken from the sub-second
/// nanoseconds of the clock: `nanos % 1000`.
pub fn jitter_permille(subsec_nanos: u32) -> (r: u32)
    ensures
        r == subsec_nanos % 1000,
        r < 1000,
{
    subsec_nanos % 1000
}

/// From a reset counter, `n` delays leave the counter at `n`, or at
/// `u32::MAX` once `n` reaches it: the counter counts delays and never
/// wraps around.
pub proof fn law_attempt_counts_delays(n: nat)
    ensures
        attempt_after(0, n) == if n < u32::MAX {
            n
        } else {
            u32::MAX as nat
        },
    decreases n,
{
    if n > 0 {
        law_attempt_counts_delays((n - 1) as nat);
    }
}

} // verus!
