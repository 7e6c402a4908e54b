use rss_notify::schedule::{is_due_at, ScheduleError};
use rss_notify::timestamp::parse_timestamp;

// Mon, 01 Jan 2024 00:00:00 +0000 as Unix seconds.
const JAN1_2024: i64 = 1704067200;

#[test]
fn parse_timestamp_gives_unix_seconds() {
    assert_eq!(
        parse_timestamp("Mon, 01 Jan 2024 00:00:00 +0000"),
        Some(JAN1_2024)
    );
    assert_eq!(
        parse_timestamp("  Mon, 01 Jan 2024 00:00:00 +0000  "),
        Some(JAN1_2024),
        "surrounding whitespace is tolerated"
    );
    assert_eq!(parse_timestamp("not a date"), None);
    assert_eq!(parse_timestamp(""), None);
}

#[test]
fn parse_timestamp_honours_offsets() {
    assert_eq!(
        parse_timestamp("Mon, 01 Jan 2024 01:00:00 +0100"),
        Some(JAN1_2024),
        "the same instant in another zone parses to the same value"
    );
}

#[test]
fn five_minute_schedule_scenario() {
    let schedule = "*/5 * * * *";
    let last_seen = "Mon, 01 Jan 2024 00:00:00 +0000";

    // Mon, 01 Jan 2024 00:04:59 +0000
    let now = JAN1_2024 + 4 * 60 + 59;
    assert_eq!(is_due_at(schedule, last_seen, now), Ok(false));

    // Mon, 01 Jan 2024 00:05:00 +0000
    let now = JAN1_2024 + 5 * 60;
    assert_eq!(is_due_at(schedule, last_seen, now), Ok(true));
}

#[test]
fn due_stays_due_until_advanced() {
    let schedule = "*/5 * * * *";
    let last_seen = "Mon, 01 Jan 2024 00:00:00 +0000";
    let due_at = JAN1_2024 + 5 * 60;
    assert_eq!(is_due_at(schedule, last_seen, due_at), Ok(true));
    assert_eq!(is_due_at(schedule, last_seen, due_at + 1), Ok(true));
    assert_eq!(is_due_at(schedule, last_seen, due_at + 86400), Ok(true));
}

#[test]
fn never_checked_feed_is_always_due() {
    assert_eq!(is_due_at("*/5 * * * *", "", JAN1_2024), Ok(true));
}

#[test]
fn checked_on_the_boundary_is_not_due_again() {
    // The last check fell exactly on an occurrence; only the next one counts.
    let schedule = "*/5 * * * *";
    let last_seen = "Mon, 01 Jan 2024 00:05:00 +0000";
    let now = JAN1_2024 + 5 * 60;
    assert_eq!(is_due_at(schedule, last_seen, now), Ok(false));
    let now = JAN1_2024 + 10 * 60;
    assert_eq!(is_due_at(schedule, last_seen, now), Ok(true));
}

#[test]
fn invalid_schedule_is_reported() {
    assert_eq!(
        is_due_at("totally wrong", "Mon, 01 Jan 2024 00:00:00 +0000", JAN1_2024),
        Err(ScheduleError::InvalidExpression)
    );
    assert_eq!(
        is_due_at("totally wrong", "", JAN1_2024),
        Err(ScheduleError::InvalidExpression),
        "a bad schedule is reported even for a never-checked feed"
    );
}

#[test]
fn invalid_last_seen_is_reported() {
    assert_eq!(
        is_due_at("*/5 * * * *", "garbage", JAN1_2024),
        Err(ScheduleError::InvalidTimestamp)
    );
}

#[test]
fn six_field_schedule_is_accepted() {
    let schedule = "0 */5 * * * *";
    let last_seen = "Mon, 01 Jan 2024 00:00:00 +0000";
    assert_eq!(is_due_at(schedule, last_seen, JAN1_2024 + 299), Ok(false));
    assert_eq!(is_due_at(schedule, last_seen, JAN1_2024 + 300), Ok(true));
}
