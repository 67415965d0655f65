//! Wall-clock timestamps in milliseconds since the Unix epoch.
use std::time::{Duration, SystemTime, UNIX_EPOCH};
use vstd::prelude::*;

verus! {

#[verifier::external_type_specification]
#[verifier::external_body]
pub struct ExSystemTime(SystemTime);

/// Calls `SystemTime::now`. Nothing is claimed of the result.
#[verifier::external_body]
fn system_now() -> SystemTime {
    SystemTime::now()
}

/// Calls `SystemTime::duration_since(UNIX_EPOCH)`; `None` when `t` is before the
/// epoch. Nothing more is claimed.
#[verifier::external_body]
fn since_epoch(t: SystemTime) -> Option<Duration> {
    t.duration_since(UNIX_EPOCH).ok()
}

/// Calls `Duration::as_millis`. Nothing is claimed of the result.
#[verifier::external_body]
fn duration_millis(d: &Duration) -> u128 {
    d.as_millis()
}

/// A millisecond count since the epoch as stored: truncated to `i64`, and 0 when the
/// clock reads before the epoch.
pub fn epoch_ms(ms: Option<u128>) -> (t: i64)
    ensures
        t == (match ms {
            Some(m) => m as i64,
            None => 0i64,
        }),
{
    match ms {
        Some(m) => m as i64,
        None => 0,
    }
}

/// Milliseconds since the Unix epoch now (0 if the clock reads before the epoch).
pub fn now_ms() -> i64 {
    let t = system_now();
    let ms = match since_epoch(t) {
        Some(d) => Some(duration_millis(&d)),
        None => None,
    };
    epoch_ms(ms)
}

} // verus!
