//! The wall clock, behind one trusted wrapper.  Run timestamps, the elapsed
//! markers of the improvement history, and time-based termination all read
//! it; nothing is assumed about what it returns.

use vstd::prelude::*;

verus! {

/// Relies on `chrono::DateTime::<Utc>::from(SystemTime)` and
/// `timestamp_millis`: the current wall-clock time as milliseconds since
/// the Unix epoch.  The conversion handles clocks set before the epoch
/// (where `chrono::Utc::now` would panic), and the clock is not monotonic,
/// so nothing is promised of the value.
#[verifier::external_body]
pub fn now_millis() -> i64 {
    chrono::DateTime::<chrono::Utc>::from(std::time::SystemTime::now()).timestamp_millis()
}

/// Milliseconds elapsed since an earlier reading, clamped at zero if the
/// wall clock stepped backwards.
pub fn elapsed_millis(start: i64) -> u64 {
    let now = now_millis();
    if now >= start {
        // The difference of two i64 readings fits in u64.
        ((now as i128 - start as i128) as u64)
    } else {
        0
    }
}

} // verus!
