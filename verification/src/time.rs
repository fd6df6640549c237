//! The monotonic clock, used for election timeouts, health records and the
//! failover cool-down.  Nothing about its readings is proved: logic that
//! depends on elapsed time takes the elapsed time as an argument.
use std::time::Instant;
use vstd::prelude::*;

verus! {

#[verifier::external_type_specification]
#[verifier::external_body]
pub struct ExInstant(Instant);

/// The current instant (std `Instant::now`).  The clock is read; nothing is
/// claimed of the value.
#[verifier::external_body]
pub(crate) fn now() -> Instant {
    Instant::now()
}

/// Nanoseconds elapsed since `t` (std `Instant::elapsed`, as nanoseconds).
/// The clock is read; nothing is claimed of the value.
#[verifier::external_body]
pub(crate) fn nanos_since(t: &Instant) -> u128 {
    t.elapsed().as_nanos()
}

} // verus!

verus! {

/// Seconds since the Unix epoch, now (chrono `Utc::now().timestamp()`).
/// The clock is read; nothing is claimed of the value.
#[verifier::external_body]
pub(crate) fn unix_timestamp() -> i64 {
    chrono::Utc::now().timestamp()
}

} // verus!

verus! {

/// Milliseconds since the Unix epoch, now (chrono `Utc::now().timestamp_millis()`).
/// The clock is read; nothing is claimed of the value.
#[verifier::external_body]
pub(crate) fn unix_millis() -> i64 {
    chrono::Utc::now().timestamp_millis()
}

/// The current time as RFC 3339 text (chrono `Utc::now().to_rfc3339()`).
/// The clock is read; nothing is claimed of the value.
#[verifier::external_body]
pub(crate) fn now_rfc3339() -> String {
    chrono::Utc::now().to_rfc3339()
}

/// The instant that an RFC 3339 text names, as seconds since the Unix epoch
/// and the nanoseconds within that second, or nothing for text that is not
/// RFC 3339.
pub uninterp spec fn rfc3339_instant(s: Seq<char>) -> Option<(i64, u32)>;

/// chrono `DateTime::parse_from_rfc3339`, the result taken in UTC as its
/// `timestamp()` and `timestamp_subsec_nanos()`; a parse error gives nothing.
/// The result is named (`rfc3339_instant`), not stated.
#[verifier::external_body]
pub(crate) fn parse_rfc3339(s: &str) -> (r: Option<(i64, u32)>)
    ensures
        r == rfc3339_instant(s@),
{
    match chrono::DateTime::parse_from_rfc3339(s) {
        Ok(dt) => Some((dt.timestamp(), dt.timestamp_subsec_nanos())),
        Err(_) => None,
    }
}

} // verus!
