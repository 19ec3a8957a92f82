//! Civil dates, and the midnights they begin with in a time zone.
use vstd::prelude::*;
use vstd::string::*;

verus! {

// ---------------------------------------------------------------------------
// The calendar
// ---------------------------------------------------------------------------
/// A leap year of the proleptic Gregorian calendar.
pub open spec fn is_leap_year(y: int) -> bool {
    y % 4 == 0 && (y % 100 != 0 || y % 400 == 0)
}

/// How many days a month has.
pub open spec fn days_in_month(y: int, m: int) -> int {
    if m == 2 {
        if is_leap_year(y) {
            29
        } else {
            28
        }
    } else if m == 4 || m == 6 || m == 9 || m == 11 {
        30
    } else {
        31
    }
}

/// A date that the calendar has, in the years that are supported.
pub open spec fn is_date(y: int, m: int, d: int) -> bool {
    &&& -262_143 <= y <= 262_142
    &&& 1 <= m <= 12
    &&& 1 <= d <= days_in_month(y, m)
}

/// Days from the first day of year 1 to the first day of year `y`.
pub open spec fn days_before_year(y: int) -> int {
    365 * (y - 1) + (y - 1) / 4 - (y - 1) / 100 + (y - 1) / 400
}

/// Days from the first day of year `y` to the first day of its month `m`.
pub open spec fn days_before_month(y: int, m: int) -> int
    decreases m,
{
    if m <= 1 {
        0
    } else {
        days_before_month(y, m - 1) + days_in_month(y, m - 1)
    }
}

/// The Unix timestamp of the UTC midnight that a date begins with.
pub open spec fn utc_midnight(y: int, m: int, d: int) -> int {
    (days_before_year(y) + days_before_month(y, m) + d - 1 - 719_162) * 86_400
}

/// The UTC midnight of the first day of a month, months counted from the first
/// month of year 0.
pub open spec fn month_start(k: int) -> int {
    utc_midnight(k / 12, k % 12 + 1, 1)
}

/// A month has at least 28 days.
pub proof fn lemma_month_start_step(k: int)
    ensures
        month_start(k + 1) >= month_start(k) + 28 * 86_400,
{
    let y = k / 12;
    let m = k % 12 + 1;
    if m < 12 {
        assert((k + 1) / 12 == y && (k + 1) % 12 == m);
    } else {
        assert((k + 1) / 12 == y + 1 && (k + 1) % 12 == 0);
        reveal_with_fuel(days_before_month, 13);
        lemma_year_len(y);
    }
}

/// A year has 365 days, or 366.
proof fn lemma_year_len(y: int)
    ensures
        days_before_year(y + 1) - days_before_year(y) >= 365,
{
    assert((y - 1) / 100 <= y / 100 <= (y - 1) / 100 + 1);
    assert(y / 100 > (y - 1) / 100 ==> y % 100 == 0);
    assert(y % 100 == 0 ==> y % 4 == 0);
    assert(y % 4 == 0 ==> y / 4 == (y - 1) / 4 + 1);
}

/// A UTC midnight fits a timestamp with room to spare.
pub proof fn lemma_utc_midnight_fits(y: int, m: int, d: int)
    requires
        -262_144 <= y <= 262_143,
        1 <= m <= 12,
        1 <= d <= 31,
    ensures
        -9_000_000_000_000 < utc_midnight(y, m, d) < 9_000_000_000_000,
{
    reveal_with_fuel(days_before_month, 13);
    assert(0 <= days_before_month(y, m) <= 341);
    assert(-95_800_000 <= days_before_year(y) <= 95_800_000);
}

/// Months apart, at least 28 days apart each.
pub proof fn lemma_month_starts_ascend(j: int, k: int)
    requires
        j < k,
    ensures
        month_start(k) >= month_start(j) + 28 * 86_400,
    decreases k - j,
{
    lemma_month_start_step(k - 1);
    if j < k - 1 {
        lemma_month_starts_ascend(j, k - 1);
    }
}

// ---------------------------------------------------------------------------
// Time zones
// ---------------------------------------------------------------------------
/// The names of time zones in the IANA database, as `chrono_tz` has it.
pub uninterp spec fn is_zone(name: Seq<char>) -> bool;

/// `<chrono_tz::Tz as FromStr>::from_str` and `chrono_tz::Tz::name`: whether a
/// name, letter for letter, is that of a time zone, and if so its name again.
/// Which names are known is named, not spelled out.
#[verifier::external_body]
pub(crate) fn zone_name(name: &str) -> (r: Option<String>)
    ensures
        r is Some <==> is_zone(name@),
        r matches Some(n) ==> n@ == name@,
{
    name.parse::<chrono_tz::Tz>().ok().map(|tz| tz.name().to_string())
}

/// The midnight that a date begins with in a time zone, as a Unix timestamp;
/// `None` where it does not exist exactly once.
pub uninterp spec fn midnight_in(zone: Seq<char>, y: i32, m: u32, d: u32) -> Option<i64>;

/// `chrono::TimeZone::with_ymd_and_hms` on a `chrono_tz::Tz`, for the hour
/// zero, and `DateTime::timestamp` of its single result. What it is is named;
/// it exists only for a date of the calendar, is less than a day away from the
/// UTC midnight of that date, as the offset of a zone from UTC is less than a
/// day, and is that midnight in the zone `UTC`.
#[verifier::external_body]
pub(crate) fn local_midnight(zone: &str, y: i32, m: u32, d: u32) -> (r: Option<i64>)
    ensures
        r == midnight_in(zone@, y, m, d),
        r is Some ==> is_date(y as int, m as int, d as int),
        r matches Some(t) ==> utc_midnight(y as int, m as int, d as int) - 86_400 < t
            < utc_midnight(y as int, m as int, d as int) + 86_400,
        zone@ == "UTC"@ && is_date(y as int, m as int, d as int) ==> r == Some(
            utc_midnight(y as int, m as int, d as int) as i64,
        ),
{
    let tz: chrono_tz::Tz = zone.parse().ok()?;
    chrono::TimeZone::with_ymd_and_hms(&tz, y, m, d, 0, 0, 0).single().map(|dt| dt.timestamp())
}

/// The date that a Unix timestamp falls on in a time zone; `None` where it is
/// out of range.
pub uninterp spec fn civil_in(zone: Seq<char>, ts: i64) -> Option<(i32, u32, u32)>;

/// `chrono::TimeZone::timestamp_opt` on a `chrono_tz::Tz`, and the year, the
/// month and the day of its single result. What they are is named; month and
/// day are those of a calendar, and the timestamp is less than a day before or
/// after that date in UTC, as the offset of a zone from UTC is less than a day.
#[verifier::external_body]
pub(crate) fn civil_date_of(zone: &str, ts: i64) -> (r: Option<(i32, u32, u32)>)
    ensures
        r == civil_in(zone@, ts),
        r matches Some((y, m, d)) ==> {
            &&& -262_144 <= y <= 262_143
            &&& 1 <= m <= 12
            &&& 1 <= d <= days_in_month(y as int, m as int)
            &&& utc_midnight(y as int, m as int, d as int) - 86_400 < ts < utc_midnight(
                y as int,
                m as int,
                d as int,
            ) + 172_800
        },
{
    let tz: chrono_tz::Tz = zone.parse().ok()?;
    let dt = chrono::TimeZone::timestamp_opt(&tz, ts, 0).single()?;
    Some((chrono::Datelike::year(&dt), chrono::Datelike::month(&dt), chrono::Datelike::day(&dt)))
}

// ---------------------------------------------------------------------------
// Laws
// ---------------------------------------------------------------------------
/// Days follow each other, 86400 seconds apart: within a month, from its last day
/// to the first of the next, and from the last day of a year to the first of the
/// next. The first day of 1970 begins with zero.
pub proof fn days_follow_each_other(y: int, m: int, d: int)
    requires
        1 <= m <= 12,
    ensures
        utc_midnight(1970, 1, 1) == 0,
        utc_midnight(y, m, d + 1) == utc_midnight(y, m, d) + 86_400,
        m == 1 || m == 3 || m == 5 || m == 7 || m == 8 || m == 10 ==> utc_midnight(y, m + 1, 1)
            == utc_midnight(y, m, 31) + 86_400,
        m == 4 || m == 6 || m == 9 || m == 11 ==> utc_midnight(y, m + 1, 1) == utc_midnight(
            y,
            m,
            30,
        ) + 86_400,
        m == 2 && (y % 400 == 0 || (y % 4 == 0 && y % 100 != 0)) ==> utc_midnight(y, 3, 1)
            == utc_midnight(y, 2, 29) + 86_400,
        m == 2 && !(y % 400 == 0 || (y % 4 == 0 && y % 100 != 0)) ==> utc_midnight(y, 3, 1)
            == utc_midnight(y, 2, 28) + 86_400,
        m == 12 ==> utc_midnight(y + 1, 1, 1) == utc_midnight(y, 12, 31) + 86_400,
{
    reveal_with_fuel(days_before_month, 13);
    assert(y % 400 == 0 ==> y % 100 == 0);
    assert(y % 100 == 0 ==> y % 4 == 0);
    assert(y % 4 == 0 <==> y / 4 == (y - 1) / 4 + 1);
    assert(y % 4 != 0 ==> y / 4 == (y - 1) / 4);
    assert(y % 100 == 0 ==> y / 100 == (y - 1) / 100 + 1);
    assert(y % 100 != 0 ==> y / 100 == (y - 1) / 100);
    assert(y % 400 == 0 ==> y / 400 == (y - 1) / 400 + 1);
    assert(y % 400 != 0 ==> y / 400 == (y - 1) / 400);
}

/// A date is one that the calendar has: its month has that day.
pub proof fn dates_are_in_the_calendar(y: int, m: int, d: int)
    requires
        -262_143 <= y <= 262_142,
    ensures
        is_date(y, m, d) <==> {
            &&& 1 <= m <= 12
            &&& 1 <= d <= 31
            &&& m == 4 || m == 6 || m == 9 || m == 11 ==> d <= 30
            &&& m == 2 ==> d <= 29
            &&& m == 2 && d == 29 ==> y % 400 == 0 || (y % 4 == 0 && y % 100 != 0)
        },
{
}

} // verus!
