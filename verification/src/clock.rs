//! The time source of the store.

use vstd::prelude::*;

verus! {

/// Reads the wall clock with `chrono::Utc::now` and gives the seconds since
/// the Unix epoch that `DateTime::timestamp` reports.
///
/// Trusted, and nothing is claimed of the result: two calls may give any
/// two values. The call does not return where the system clock stands
/// before the epoch.
#[verifier::external_body]
pub(crate) fn now_seconds() -> (seconds: i64) {
    chrono::Utc::now().timestamp()
}

/// The timestamp for a record written now: the seconds since the Unix
/// epoch, as an unsigned number.
pub(crate) fn timestamp_now() -> (timestamp: u64) {
    timestamp_of(now_seconds())
}

/// The timestamp that stands for `seconds` since the Unix epoch: the same
/// number from the epoch on, and the number wrapped into 64 unsigned bits
/// for a time before it.
pub open spec fn wrapped_seconds(seconds: i64) -> u64 {
    if seconds >= 0 {
        seconds as u64
    } else {
        (seconds + 0x1_0000_0000_0000_0000) as u64
    }
}

/// The timestamp that stands for `seconds` since the Unix epoch.
pub fn timestamp_of(seconds: i64) -> (timestamp: u64)
    ensures
        timestamp == wrapped_seconds(seconds),
{
    let timestamp = seconds as u64;
    assert(timestamp == wrapped_seconds(seconds)) by (bit_vector)
        requires
            timestamp == seconds as u64,
    ;
    timestamp
}

} // verus!
