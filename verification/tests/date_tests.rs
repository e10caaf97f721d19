use brew::date::{age_text, humanize_date, humanize_date_at, month_abbr, weekday_label, DateParts};
use time::{Date, Month, OffsetDateTime, Time};

fn now_ts() -> i64 {
    OffsetDateTime::now_utc().unix_timestamp()
}

#[test]
fn none_returns_dash() {
    assert_eq!(humanize_date(None), "—");
}

#[test]
fn invalid_timestamp_returns_dash() {
    assert_eq!(humanize_date(Some(i64::MAX)), "—");
}

#[test]
fn future_timestamp_shows_full_date() {
    let ts = now_ts() + 86400 * 365 * 10;
    let result = humanize_date(Some(ts));
    let parts: Vec<&str> = result.split_whitespace().collect();
    assert_eq!(parts.len(), 3);
}

#[test]
fn just_now() {
    assert_eq!(humanize_date(Some(now_ts() - 30)), "just now");
}

#[test]
fn minutes_ago() {
    assert_eq!(humanize_date(Some(now_ts() - 10 * 60)), "10m ago");
}

#[test]
fn hours_ago_same_calendar_day() {
    let now_dt = OffsetDateTime::now_utc();
    if now_dt.hour() >= 2 {
        let ts = now_dt.unix_timestamp() - 2 * 3600;
        assert_eq!(humanize_date(Some(ts)), "2h ago");
    }
}

#[test]
fn yesterday_label() {
    let now_dt = OffsetDateTime::now_utc();
    let yesterday = now_dt.date().previous_day().unwrap();
    let dt = OffsetDateTime::new_utc(yesterday, Time::MIDNIGHT);
    assert_eq!(humanize_date(Some(dt.unix_timestamp())), "Yesterday");
}

#[test]
fn weekday_within_7_days() {
    let now_dt = OffsetDateTime::now_utc();
    let three_days_ago = now_dt.date() - time::Duration::days(3);
    let dt = OffsetDateTime::new_utc(three_days_ago, Time::MIDNIGHT);
    let expected = match dt.weekday() {
        time::Weekday::Monday => "Monday",
        time::Weekday::Tuesday => "Tuesday",
        time::Weekday::Wednesday => "Wednesday",
        time::Weekday::Thursday => "Thursday",
        time::Weekday::Friday => "Friday",
        time::Weekday::Saturday => "Saturday",
        time::Weekday::Sunday => "Sunday",
    };
    assert_eq!(humanize_date(Some(dt.unix_timestamp())), expected);
}

#[test]
fn same_year_older_than_7_days() {
    let now_dt = OffsetDateTime::now_utc();
    let thirty_days_ago = now_dt.date() - time::Duration::days(30);
    if thirty_days_ago.year() == now_dt.year() {
        let dt = OffsetDateTime::new_utc(thirty_days_ago, Time::MIDNIGHT);
        let expected = format!("{} {}", month_abbr(dt.month() as u8), dt.day());
        assert_eq!(humanize_date(Some(dt.unix_timestamp())), expected);
    }
}

#[test]
fn different_year_shows_full_date() {
    let old_date = Date::from_calendar_date(2020, Month::January, 15).unwrap();
    let dt = OffsetDateTime::new_utc(old_date, Time::MIDNIGHT);
    assert_eq!(humanize_date(Some(dt.unix_timestamp())), "Jan 15 2020");
}

#[test]
fn month_abbreviations_all() {
    let cases = [
        (Month::January, "Jan"),
        (Month::February, "Feb"),
        (Month::March, "Mar"),
        (Month::April, "Apr"),
        (Month::May, "May"),
        (Month::June, "Jun"),
        (Month::July, "Jul"),
        (Month::August, "Aug"),
        (Month::September, "Sep"),
        (Month::October, "Oct"),
        (Month::November, "Nov"),
        (Month::December, "Dec"),
    ];
    for (month, abbr) in cases {
        assert_eq!(month_abbr(month as u8), abbr);
    }
}

// ── fixed clock ──────────────────────────────────────────────────────────

// 2024-03-13T12:00:00Z, a Wednesday.
const NOON: i64 = 1_710_331_200;

#[test]
fn at_fixed_time_labels_every_age() {
    assert_eq!(humanize_date_at(None, NOON), "—");
    assert_eq!(humanize_date_at(Some(NOON - 59), NOON), "just now");
    assert_eq!(humanize_date_at(Some(NOON - 60), NOON), "1m ago");
    assert_eq!(humanize_date_at(Some(NOON - 3599), NOON), "59m ago");
    assert_eq!(humanize_date_at(Some(NOON - 3 * 3600), NOON), "3h ago");
    // 2024-03-12T23:00:00Z: yesterday, though only thirteen hours ago
    assert_eq!(humanize_date_at(Some(NOON - 13 * 3600), NOON), "Yesterday");
    // 2024-03-11: Monday
    assert_eq!(humanize_date_at(Some(NOON - 2 * 86400), NOON), "Monday");
    // 2024-03-06: a week ago, same year
    assert_eq!(humanize_date_at(Some(NOON - 7 * 86400), NOON), "Mar 6");
    // 2023-12-31
    assert_eq!(humanize_date_at(Some(1_704_024_000), NOON), "Dec 31 2023");
    // the future: full date
    assert_eq!(humanize_date_at(Some(NOON + 86400), NOON), "Mar 14 2024");
}

#[test]
fn at_fixed_time_outside_calendar_is_dash() {
    assert_eq!(humanize_date_at(Some(i64::MIN), NOON), "—");
    assert_eq!(humanize_date_at(Some(253_402_300_800), NOON), "—");
}

#[test]
fn age_text_from_parts() {
    let d = DateParts { year: -44, month: 3, day: 15, weekday: 4, julian_day: 1_705_426 };
    assert_eq!(age_text(-1, 0, d, 2024), "Mar 15 -44");
    assert_eq!(age_text(7300, 0, d, 2024), "2h ago");
    assert_eq!(age_text(8 * 86400, 8, d, -44), "Mar 15");
}

#[test]
fn weekday_names() {
    assert_eq!(weekday_label(0), "Monday");
    assert_eq!(weekday_label(6), "Sunday");
}
