//! Points in time, as plain values, and the reading of the wall clock.

use vstd::prelude::*;

verus! {

/// A point in UTC time: whole seconds since the Unix epoch and the
/// nanoseconds past that second (above 999,999,999 only in a leap second).
#[derive(Debug, Clone, Copy, PartialEq, Eq, Structural)]
pub struct Timestamp {
    pub secs: i64,
    pub nanos: u32,
}

/// Reads the wall clock through `chrono::Utc::now` and hands back its seconds
/// (`DateTime::timestamp`) and sub-second nanoseconds
/// (`DateTime::timestamp_subsec_nanos`). The instant depends on the machine's
/// clock, so nothing ties it to any argument and the seconds are left
/// unsaid; what chrono's source shows of every reading is stated: `Utc::now`
/// builds it from `Duration::subsec_nanos` of the time elapsed since the
/// epoch, so the nanoseconds are below one second.
#[verifier::external_body]
pub(crate) fn utc_now() -> (t: Timestamp)
    ensures
        t.nanos < 1_000_000_000,
{
    let now = chrono::Utc::now();
    Timestamp { secs: now.timestamp(), nanos: now.timestamp_subsec_nanos() }
}

} // verus!
