//! The one outside computation the playlist rewriter needs: turning a
//! stream time into an RFC 3339 wall-clock string.

use vstd::prelude::*;

verus! {

/// The last millisecond the anchor format can express (the end of year
/// 9999); inputs are clamped to it before formatting.
pub const MAX_PROGRAM_DATE_MS: u64 = 253402300799999;

/// The RFC 3339 UTC rendering, with millisecond precision and a `Z`
/// suffix, of a count of milliseconds since the Unix epoch. It depends on
/// the argument alone.
pub uninterp spec fn rfc3339_utc_millis(ms: u64) -> Seq<u8>;

/// Relies on chrono's `DateTime::<Utc>::from_timestamp_millis` and
/// `DateTime::to_rfc3339_opts(SecondsFormat::Millis, true)`: formats a
/// millisecond timestamp as an RFC 3339 UTC string. In-range inputs (the
/// precondition keeps them below the year 10000) always convert.
#[verifier::external_body]
pub fn format_utc_millis(ms: u64) -> (r: Vec<u8>)
    requires
        ms <= MAX_PROGRAM_DATE_MS,
    ensures
        r@ == rfc3339_utc_millis(ms),
{
    let dt = chrono::DateTime::<chrono::Utc>::from_timestamp_millis(ms as i64).unwrap();
    dt.to_rfc3339_opts(chrono::SecondsFormat::Millis, true).into_bytes()
}

} // verus!
