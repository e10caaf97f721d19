//! Human-readable relative dates for the thread list.
//!
//! | Age                | Example          |
//! |--------------------|------------------|
//! | < 1 min            | `just now`       |
//! | < 1 hour           | `42m ago`        |
//! | same calendar day  | `3h ago`         |
//! | yesterday          | `Yesterday`      |
//! | < 7 days           | `Monday`         |
//! | same year          | `Mar 3`          |
//! | older              | `Mar 3 2024`     |
//!
//! Calendar days are UTC days.
use crate::text::{decimal, push_decimal, push_signed_decimal, push_str, signed_decimal, string_from};
use vstd::prelude::*;
use vstd::string::*;

verus! {

/// Earliest Unix timestamp the calendar handles (-9999-01-01T00:00:00Z).
pub const MIN_TIMESTAMP: i64 = -377705116800;

/// Latest Unix timestamp the calendar handles (9999-12-31T23:59:59Z).
pub const MAX_TIMESTAMP: i64 = 253402300799;

/// Whether the calendar can place the Unix timestamp `ts`.
pub open spec fn in_calendar(ts: int) -> bool {
    MIN_TIMESTAMP <= ts <= MAX_TIMESTAMP
}

/// The UTC calendar date of a Unix timestamp, as the `time` crate computes
/// it: `(year, month, day)`.  A function of the timestamp alone.
pub uninterp spec fn civil_date(ts: i64) -> (i32, u8, u8);

/// The proleptic Gregorian date `(year, month, day)` of the day `days` days
/// after 1970-01-01 (before it when negative).
pub open spec fn days_to_civil(days: int) -> (int, int, int) {
    let z = days + 719468;
    let era = z / 146097;
    let doe = z - era * 146097;
    let yoe = (doe - doe / 1460 + doe / 36524 - doe / 146096) / 365;
    let doy = doe - (365 * yoe + yoe / 4 - yoe / 100);
    let mp = (5 * doy + 2) / 153;
    let d = doy - (153 * mp + 2) / 5 + 1;
    let m = if mp < 10 {
        mp + 3
    } else {
        mp - 9
    };
    let y = yoe + era * 400 + if m <= 2 {
        1int
    } else {
        0
    };
    (y, m, d)
}

/// The number of the UTC day holding `ts`, counted as Julian days.
pub open spec fn julian_day(ts: int) -> int {
    2440588 + ts / 86400
}

/// The calendar fields of a UTC instant.
#[derive(Debug, Clone, Copy, PartialEq, Eq, Structural)]
pub struct DateParts {
    pub year: i32,
    /// 1 = January … 12 = December.
    pub month: u8,
    pub day: u8,
    /// 0 = Monday … 6 = Sunday.
    pub weekday: u8,
    /// Days since the start of the Julian period.
    pub julian_day: i32,
}

/// What the calendar gives for the timestamp `ts`.
pub open spec fn date_parts_of(ts: i64, d: DateParts) -> bool {
    &&& (d.year, d.month, d.day) == civil_date(ts)
    &&& 1 <= d.month <= 12
    &&& 1 <= d.day <= 31
    &&& d.julian_day == julian_day(ts as int)
    &&& d.weekday == d.julian_day % 7
}

/// The UTC calendar fields of the Unix timestamp `ts`, or `None` when it lies
/// outside the calendar.
///
/// Trusted wrapper around `time::OffsetDateTime::from_unix_timestamp` and the
/// accessors `year`, `month`, `day`, `weekday` and `to_julian_day` of the
/// result.  The crate's source accepts exactly the timestamps of the years
/// -9999 to 9999; it places the date on Julian day `2440588 + ts div 86400`,
/// names Monday the day whose Julian day is a multiple of 7, and computes the
/// year, month and day (named `civil_date`) from that day: the proleptic
/// Gregorian date of that day, which `days_to_civil` states.
#[verifier::external_body]
pub(crate) fn utc_date_parts(ts: i64) -> (r: Option<DateParts>)
    ensures
        match r {
            Some(d) => {
                &&& in_calendar(ts as int)
                &&& (d.year, d.month, d.day) == civil_date(ts)
                &&& (d.year as int, d.month as int, d.day as int) == days_to_civil(ts as int / 86400)
                &&& date_parts_of(ts, d)
            },
            None => !in_calendar(ts as int),
        },
{
    match time::OffsetDateTime::from_unix_timestamp(ts) {
        Ok(dt) => Some(
            DateParts {
                year: dt.year(),
                month: dt.month() as u8,
                day: dt.day(),
                weekday: dt.weekday().number_days_from_monday(),
                julian_day: dt.to_julian_day(),
            },
        ),
        Err(_) => None,
    }
}

/// The current time as a Unix timestamp.
///
/// Trusted wrapper around `time::OffsetDateTime::now_utc` and
/// `unix_timestamp`.  The clock decides the value; all that is claimed is
/// that it lies in the calendar, as every `OffsetDateTime` does.
#[verifier::external_body]
pub(crate) fn now_timestamp() -> (r: i64)
    ensures
        in_calendar(r as int),
{
    time::OffsetDateTime::now_utc().unix_timestamp()
}

/// The English three-letter abbreviation of the month `m` (1 = January).
pub open spec fn month_name(m: u8) -> Seq<char> {
    if m == 1 {
        "Jan"@
    } else if m == 2 {
        "Feb"@
    } else if m == 3 {
        "Mar"@
    } else if m == 4 {
        "Apr"@
    } else if m == 5 {
        "May"@
    } else if m == 6 {
        "Jun"@
    } else if m == 7 {
        "Jul"@
    } else if m == 8 {
        "Aug"@
    } else if m == 9 {
        "Sep"@
    } else if m == 10 {
        "Oct"@
    } else if m == 11 {
        "Nov"@
    } else {
        "Dec"@
    }
}

/// The English name of the weekday `w` (0 = Monday).
pub open spec fn weekday_name(w: u8) -> Seq<char> {
    if w == 0 {
        "Monday"@
    } else if w == 1 {
        "Tuesday"@
    } else if w == 2 {
        "Wednesday"@
    } else if w == 3 {
        "Thursday"@
    } else if w == 4 {
        "Friday"@
    } else if w == 5 {
        "Saturday"@
    } else {
        "Sunday"@
    }
}

/// The three-letter abbreviation of the month `month` (1 = January).
pub fn month_abbr(month: u8) -> (r: &'static str)
    requires
        1 <= month <= 12,
    ensures
        r@ == month_name(month),
{
    if month == 1 {
        "Jan"
    } else if month == 2 {
        "Feb"
    } else if month == 3 {
        "Mar"
    } else if month == 4 {
        "Apr"
    } else if month == 5 {
        "May"
    } else if month == 6 {
        "Jun"
    } else if month == 7 {
        "Jul"
    } else if month == 8 {
        "Aug"
    } else if month == 9 {
        "Sep"
    } else if month == 10 {
        "Oct"
    } else if month == 11 {
        "Nov"
    } else {
        "Dec"
    }
}

/// The name of the weekday `weekday` (0 = Monday).
pub fn weekday_label(weekday: u8) -> (r: &'static str)
    ensures
        r@ == weekday_name(weekday),
{
    if weekday == 0 {
        "Monday"
    } else if weekday == 1 {
        "Tuesday"
    } else if weekday == 2 {
        "Wednesday"
    } else if weekday == 3 {
        "Thursday"
    } else if weekday == 4 {
        "Friday"
    } else if weekday == 5 {
        "Saturday"
    } else {
        "Sunday"
    }
}

/// `Mar 3`.
pub open spec fn short_date(d: DateParts) -> Seq<char> {
    month_name(d.month) + " "@ + decimal(d.day as nat)
}

/// `Mar 3 2024`.
pub open spec fn full_date(d: DateParts) -> Seq<char> {
    short_date(d) + " "@ + signed_decimal(d.year as int)
}

/// The label of an email sent `secs` seconds and `days` calendar days
/// before now, on the date `d`, when the current year is `now_year`.
pub open spec fn age_label(secs: int, days: int, d: DateParts, now_year: i32) -> Seq<char> {
    if secs < 0 {
        full_date(d)
    } else if secs < 60 {
        "just now"@
    } else if secs < 3600 {
        decimal((secs / 60) as nat) + "m ago"@
    } else if days == 0 {
        decimal((secs / 3600) as nat) + "h ago"@
    } else if days == 1 {
        "Yesterday"@
    } else if days < 7 {
        weekday_name(d.weekday)
    } else if now_year == d.year {
        short_date(d)
    } else {
        full_date(d)
    }
}

/// The label of the timestamp `ts` at the time `now` (see the module
/// documentation); `—` when there is no timestamp or the calendar cannot
/// place it.
pub open spec fn date_label(ts: Option<i64>, now: i64) -> Seq<char> {
    match ts {
        None => "—"@,
        Some(t) => if !in_calendar(t as int) {
            "—"@
        } else {
            let d = DateParts {
                year: civil_date(t).0,
                month: civil_date(t).1,
                day: civil_date(t).2,
                weekday: (julian_day(t as int) % 7) as u8,
                julian_day: julian_day(t as int) as i32,
            };
            age_label(
                now - t,
                julian_day(now as int) - julian_day(t as int),
                d,
                civil_date(now).0,
            )
        },
    }
}

fn push_short_date(out: &mut Vec<char>, d: DateParts)
    requires
        1 <= d.month <= 12,
    ensures
        final(out)@ == old(out)@ + short_date(d),
{
    push_str(out, month_abbr(d.month));
    push_str(out, " ");
    push_decimal(out, d.day as u64);
    assert(old(out)@ + short_date(d) =~= old(out)@ + month_name(d.month) + " "@ + decimal(
        d.day as nat,
    ));
}

fn push_full_date(out: &mut Vec<char>, d: DateParts)
    requires
        1 <= d.month <= 12,
    ensures
        final(out)@ == old(out)@ + full_date(d),
{
    push_short_date(out, d);
    push_str(out, " ");
    push_signed_decimal(out, d.year as i64);
    assert(old(out)@ + full_date(d) =~= old(out)@ + short_date(d) + " "@ + signed_decimal(
        d.year as int,
    ));
}

/// The label of an email sent `secs` seconds and `days` calendar days
/// before now, on the date `d`, in a year where the current year is
/// `now_year` (see [`age_label`]).
pub fn age_text(secs: i64, days: i64, d: DateParts, now_year: i32) -> (r: String)
    requires
        1 <= d.month <= 12,
    ensures
        r@ == age_label(secs as int, days as int, d, now_year),
{
    let mut out: Vec<char> = Vec::new();
    if secs < 0 {
        push_full_date(&mut out, d);
    } else if secs < 60 {
        push_str(&mut out, "just now");
    } else if secs < 3600 {
        push_decimal(&mut out, (secs / 60) as u64);
        push_str(&mut out, "m ago");
    } else if days == 0 {
        push_decimal(&mut out, (secs / 3600) as u64);
        push_str(&mut out, "h ago");
    } else if days == 1 {
        push_str(&mut out, "Yesterday");
    } else if days < 7 {
        push_str(&mut out, weekday_label(d.weekday));
    } else if now_year == d.year {
        push_short_date(&mut out, d);
    } else {
        push_full_date(&mut out, d);
    }
    assert(out@ =~= age_label(secs as int, days as int, d, now_year));
    string_from(out.as_slice())
}

/// The label of the timestamp `ts` at the time `now` (see the module
/// documentation).
pub fn humanize_date_at(ts: Option<i64>, now: i64) -> (r: String)
    requires
        in_calendar(now as int),
    ensures
        r@ == date_label(ts, now),
{
    let t = match ts {
        Some(t) => t,
        None => return "—".to_string(),
    };
    let d = match utc_date_parts(t) {
        Some(d) => d,
        None => return "—".to_string(),
    };
    let n = match utc_date_parts(now) {
        Some(n) => n,
        None => return "—".to_string(),
    };
    let secs = now - t;
    let days = n.julian_day as i64 - d.julian_day as i64;
    proof {
        assert(0 <= d.julian_day % 7 < 7);
    }
    age_text(secs, days, d, n.year)
}

/// Convert a Unix timestamp into a human-readable relative label (see the
/// module documentation), relative to the current time.
pub fn humanize_date(ts: Option<i64>) -> (r: String)
    ensures
        exists|now: i64| in_calendar(now as int) && r@ == date_label(ts, now),
{
    let now = now_timestamp();
    humanize_date_at(ts, now)
}

} // verus!
