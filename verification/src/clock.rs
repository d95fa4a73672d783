//! Wall-clock readings and RFC 3339 rendering of UTC instants.
//!
//! Instants are carried through the library as seconds since the Unix
//! epoch; only the two wrappers below touch the calendar library.

use vstd::prelude::*;

verus! {

/// What `format_rfc3339` returns for a given instant: the rendering depends
/// on the epoch-second value alone.
pub uninterp spec fn rfc3339_of(ts: int) -> Seq<char>;

/// Relies on chrono's `Utc::now`, read as seconds since the Unix epoch.
/// Nothing is promised of the value: every caller must work for any reading.
#[verifier::external_body]
pub fn now_ts() -> i64 {
    chrono::Utc::now().timestamp()
}

/// Relies on chrono's `DateTime::from_timestamp` and `to_rfc3339`: both are
/// functions of the epoch-second value alone. An instant outside chrono's
/// representable range renders as the empty string.
#[verifier::external_body]
pub fn format_rfc3339(ts: i64) -> (r: String)
    ensures
        r@ == rfc3339_of(ts as int),
{
    match chrono::DateTime::from_timestamp(ts, 0) {
        Some(dt) => dt.to_rfc3339(),
        None => String::new(),
    }
}

} // verus!
