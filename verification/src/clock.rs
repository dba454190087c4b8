//! The time of day.
use vstd::prelude::*;

verus! {

/// The milliseconds that have passed since the beginning of 1970, UTC.
///
/// Calls `chrono::Utc::now` and, on what it returns, `timestamp_millis`. Claimed
/// of the result is that it is not negative: `now` measures the time since then
/// and does not return if the system clock is set to an earlier one. Nothing
/// else can be said, for every call may give another time.
#[verifier::external_body]
pub(crate) fn now_ms() -> (r: i64)
    ensures
        0 <= r,
{
    chrono::Utc::now().timestamp_millis()
}

} // verus!
