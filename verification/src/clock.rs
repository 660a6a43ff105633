//! The trusted boundary to the chrono crate: reading the wall clock and
//! parsing RFC 3339 timestamps. Everything else in the library is verified
//! against the names and contracts stated here.

use vstd::prelude::*;

verus! {

/// The instant an RFC 3339 timestamp (given as bytes) denotes, in
/// milliseconds since the Unix epoch; `None` where the bytes are not valid
/// UTF-8 or not a valid RFC 3339 date-time. A function of the bytes alone.
pub uninterp spec fn rfc3339_epoch_millis_of(s: Seq<u8>) -> Option<int>;

/// Relies on chrono's `DateTime::parse_from_rfc3339`, a deterministic parser,
/// and on `timestamp_millis`: the instant the timestamp denotes, in
/// milliseconds since the Unix epoch. RFC 3339 dates carry four-digit years,
/// so the milliseconds always fit an `i64`.
#[verifier::external_body]
pub fn parse_rfc3339_millis(ts: &[u8]) -> (r: Option<i64>)
    ensures
        match rfc3339_epoch_millis_of(ts@) {
            Some(m) => r matches Some(v) && v == m,
            None => r is None,
        },
{
    match core::str::from_utf8(ts) {
        Ok(s) => match chrono::DateTime::parse_from_rfc3339(s) {
            Ok(dt) => Some(dt.timestamp_millis()),
            Err(_) => None,
        },
        Err(_) => None,
    }
}

/// Relies on chrono's `Utc::now` and `timestamp_millis`: the current
/// wall-clock instant in milliseconds since the Unix epoch. Nothing can be
/// promised of a clock reading. `Utc::now` panics on a machine clock set
/// before the Unix epoch; no input reaches that, and the behaviour is
/// chrono's own.
#[verifier::external_body]
pub fn now_millis() -> i64 {
    chrono::Utc::now().timestamp_millis()
}

/// The preload lookback horizon: ten minutes, in milliseconds.
pub const LOOKBACK_MILLIS: i64 = 600000;

/// The cutoff one lookback horizon before a given instant, saturating at
/// the representable minimum.
pub fn cutoff_from(now: i64) -> (r: i64)
    ensures
        r as int == if now >= i64::MIN + LOOKBACK_MILLIS {
            now - LOOKBACK_MILLIS
        } else {
            i64::MIN as int
        },
{
    if now >= i64::MIN + LOOKBACK_MILLIS {
        now - LOOKBACK_MILLIS
    } else {
        i64::MIN
    }
}

/// The preload cutoff: the instant one lookback horizon before now. The
/// clock reading itself promises nothing; the subtraction is `cutoff_from`.
pub fn preload_cutoff_millis() -> i64 {
    cutoff_from(now_millis())
}

} // verus!
