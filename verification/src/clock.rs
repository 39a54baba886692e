//! The wall clock.

use std::time::{SystemTime, UNIX_EPOCH};
use vstd::prelude::*;

verus! {

/// `SystemTime::now`, as whole seconds since the Unix epoch and the
/// milliseconds within the second. A clock set before the epoch reads as the
/// epoch. Every call may give another time, so nothing is said of the
/// seconds; the milliseconds are below 1000 as `Duration::subsec_millis`
/// documents.
#[verifier::external_body]
fn unix_time() -> (parts: (u64, u32))
    ensures
        parts.1 < 1000,
{
    let dur = SystemTime::now().duration_since(UNIX_EPOCH).unwrap_or_default();
    (dur.as_secs(), dur.subsec_millis())
}

/// Milliseconds since the Unix epoch, held at `i64::MAX` where they would
/// not fit.
pub fn now_ms() -> (now: i64)
    ensures
        now >= 0,
        exists|secs: u64, millis: u32| millis < 1000 && now == #[trigger] epoch_millis(secs, millis),
{
    let (secs, millis) = unix_time();
    let now = epoch_ms(secs, millis);
    assert(now == epoch_millis(secs, millis));
    now
}

/// The milliseconds that `secs` whole seconds and `millis` milliseconds
/// make, held at `i64::MAX` where they would not fit.
pub open spec fn epoch_millis(secs: u64, millis: u32) -> i64 {
    if secs * 1000 + millis > i64::MAX {
        i64::MAX
    } else {
        (secs * 1000 + millis) as i64
    }
}

/// The time in milliseconds of a reading of the clock in whole seconds and
/// the milliseconds within the second.
pub fn epoch_ms(secs: u64, millis: u32) -> (ms: i64)
    ensures
        ms == epoch_millis(secs, millis),
        ms >= 0,
{
    let total: u128 = (secs as u128) * 1000 + (millis as u128);
    if total > 9_223_372_036_854_775_807 {
        i64::MAX
    } else {
        total as i64
    }
}

} // verus!
