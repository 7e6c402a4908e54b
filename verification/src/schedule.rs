//! Cron-style check schedules: deciding whether a feed is due for a check
//! at a given instant, relative to when it was last seen.

use std::str::FromStr;
use vstd::prelude::*;

use crate::timestamp::ts_epoch;

verus! {

/// Whether croner accepts a string as a cron pattern (five or six fields).
pub uninterp spec fn cron_valid(expr: Seq<char>) -> bool;

/// The first occurrence of a valid cron pattern strictly after the given
/// instant, in Unix seconds and evaluated against the UTC calendar, or
/// nothing where the search finds none.
pub uninterp spec fn cron_next_after(expr: Seq<char>, after: i64) -> Option<i64>;

/// Why a due-check could not be decided.
#[derive(Debug, Clone, Copy, PartialEq, Eq, Structural)]
pub enum ScheduleError {
    /// The schedule expression does not conform to the cron grammar.
    InvalidExpression,
    /// The last-seen marker is present but not a parsable timestamp.
    InvalidTimestamp,
    /// No occurrence of the pattern was found after the last-seen instant.
    NoOccurrence,
}

/// Relies on croner's `Cron::from_str`: acceptance depends on the pattern
/// characters alone.
#[verifier::external_body]
pub(crate) fn cron_validate(expr: &str) -> (r: bool)
    ensures
        r == cron_valid(expr@),
{
    croner::Cron::from_str(expr).is_ok()
}

/// Relies on croner's `Cron::from_str` and `Cron::find_next_occurrence`
/// with an exclusive start, applied to the instant `after` taken as Unix
/// seconds in UTC: both depend on the pattern and the instant alone, and the
/// occurrence found lies strictly after the start.
#[verifier::external_body]
pub(crate) fn cron_next_occurrence(expr: &str, after: i64) -> (r: Result<i64, ScheduleError>)
    ensures
        match r {
            Ok(next) => cron_valid(expr@) && cron_next_after(expr@, after) == Some(next) && next
                > after,
            Err(ScheduleError::InvalidExpression) => !cron_valid(expr@),
            Err(ScheduleError::NoOccurrence) => cron_valid(expr@) && cron_next_after(
                expr@,
                after,
            ) is None,
            Err(ScheduleError::InvalidTimestamp) => false,
        },
{
    let cron = match croner::Cron::from_str(expr) {
        Ok(c) => c,
        Err(_) => return Err(ScheduleError::InvalidExpression),
    };
    let start = match chrono::DateTime::from_timestamp(after, 0) {
        Some(d) => d,
        None => return Err(ScheduleError::NoOccurrence),
    };
    match cron.find_next_occurrence(&start, false) {
        Ok(next) => Ok(next.timestamp()),
        Err(_) => Err(ScheduleError::NoOccurrence),
    }
}

/// Relies on chrono's `Utc::now`: the current instant in Unix seconds.
/// Nothing is assumed of the value.
#[verifier::external_body]
pub(crate) fn now_epoch() -> i64 {
    chrono::Utc::now().timestamp()
}

/// Whether a feed with the given schedule and last-seen marker is due for a
/// check at the instant `now`: a never-checked feed is always due, and an
/// already-checked feed is due once `now` reaches the first schedule
/// occurrence strictly after the last-seen instant.
pub open spec fn due_spec(expr: Seq<char>, last_seen: Seq<char>, now: i64) -> bool {
    ||| last_seen.len() == 0
    ||| (ts_epoch(last_seen) matches Some(seen) && cron_next_after(expr, seen) matches Some(next)
        && now >= next)
}

/// Decides whether a check is due at the instant `now` for a feed with the
/// given schedule expression and last-seen timestamp (empty when the feed
/// was never checked).
pub fn is_due_at(schedule: &str, last_seen: &str, now: i64) -> (r: Result<bool, ScheduleError>)
    ensures
        match r {
            Ok(b) => cron_valid(schedule@) && b == due_spec(schedule@, last_seen@, now) && (
            last_seen@.len() > 0 ==> ts_epoch(last_seen@) is Some && cron_next_after(
                schedule@,
                ts_epoch(last_seen@)->0,
            ) is Some),
            Err(ScheduleError::InvalidExpression) => !cron_valid(schedule@),
            Err(ScheduleError::InvalidTimestamp) => cron_valid(schedule@) && last_seen@.len() > 0
                && ts_epoch(last_seen@) is None,
            Err(ScheduleError::NoOccurrence) => cron_valid(schedule@) && last_seen@.len() > 0
                && (ts_epoch(last_seen@) matches Some(seen) && cron_next_after(
                schedule@,
                seen,
            ) is None),
        },
{
    if !cron_validate(schedule) {
        return Err(ScheduleError::InvalidExpression);
    }
    if last_seen.is_empty() {
        return Ok(true);
    }
    let seen = match crate::timestamp::parse_timestamp(last_seen) {
        Some(t) => t,
        None => return Err(ScheduleError::InvalidTimestamp),
    };
    match cron_next_occurrence(schedule, seen) {
        Ok(next) => Ok(now >= next),
        Err(e) => Err(e),
    }
}

/// A feed due at one instant stays due at every later instant, as long as
/// its last-seen marker is unchanged.
pub proof fn lemma_due_is_monotone(expr: Seq<char>, last_seen: Seq<char>, t2: i64, t3: i64)
    requires
        due_spec(expr, last_seen, t2),
        t2 <= t3,
    ensures
        due_spec(expr, last_seen, t3),
{
}

} // verus!
