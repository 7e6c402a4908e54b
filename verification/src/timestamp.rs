//! Timestamps as RFC 2822 strings, modelled by the instant they denote in
//! Unix seconds.

use vstd::prelude::*;

verus! {

/// What `str::trim` leaves of a string: the characters with leading and
/// trailing whitespace removed.
pub uninterp spec fn trim_of(s: Seq<char>) -> Seq<char>;

/// What chrono's RFC 2822 parser makes of a string: the denoted instant in
/// Unix seconds, or nothing when the string is not a well-formed RFC 2822
/// date-time.
pub uninterp spec fn rfc2822_epoch(s: Seq<char>) -> Option<i64>;

/// The instant a timestamp string denotes, after trimming surrounding
/// whitespace, if it parses.
pub open spec fn ts_epoch(s: Seq<char>) -> Option<i64> {
    rfc2822_epoch(trim_of(s))
}

/// Relies on `str::trim`: returns the slice without leading and trailing
/// whitespace, a function of the characters alone.
#[verifier::external_body]
pub(crate) fn trim(s: &str) -> (r: &str)
    ensures
        r@ == trim_of(s@),
{
    s.trim()
}

/// Relies on chrono's `DateTime::parse_from_rfc2822` and
/// `DateTime::timestamp`: parsing succeeds or fails on the characters alone,
/// and a parsed date-time's timestamp is the instant it denotes in Unix
/// seconds.
#[verifier::external_body]
fn parse_rfc2822_epoch(s: &str) -> (r: Option<i64>)
    ensures
        r == rfc2822_epoch(s@),
{
    match chrono::DateTime::parse_from_rfc2822(s) {
        Ok(dt) => Some(dt.timestamp()),
        Err(_) => None,
    }
}

/// Parses a timestamp string, tolerating surrounding whitespace, to the
/// instant it denotes in Unix seconds.
pub fn parse_timestamp(s: &str) -> (r: Option<i64>)
    ensures
        r == ts_epoch(s@),
{
    parse_rfc2822_epoch(trim(s))
}

} // verus!
