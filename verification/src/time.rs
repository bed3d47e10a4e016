//! Moments in time, as seconds since the beginning of 1970.
use chrono::TimeZone;
use vstd::prelude::*;

verus! {

/// The first moment that `chrono` can tell.
pub const EARLIEST: i64 = -8334601228800;

/// The last moment that `chrono` can tell.
pub const LATEST: i64 = 8210266876799;

/// The year has a 29th of February.
pub open spec fn is_leap(year: int) -> bool {
    year % 4 == 0 && (year % 100 != 0 || year % 400 == 0)
}

/// The number of days in a month.
pub open spec fn month_length(year: int, month: int) -> int {
    if month == 2 {
        if is_leap(year) {
            29
        } else {
            28
        }
    } else if month == 4 || month == 6 || month == 9 || month == 11 {
        30
    } else {
        31
    }
}

/// The number of days in the months before a month.
pub open spec fn days_before_month(year: int, month: int) -> int
    decreases month,
{
    if month <= 1 {
        0
    } else {
        days_before_month(year, month - 1) + month_length(year, month - 1)
    }
}

/// The number of days from the first of January of the year 1 to that of another year.
pub open spec fn days_before_year(year: int) -> int {
    365 * (year - 1) + (year - 1) / 4 - (year - 1) / 100 + (year - 1) / 400
}

/// The number of days from the beginning of 1970 to a day.
pub open spec fn days_since_epoch(year: int, month: int, day: int) -> int {
    days_before_year(year) + days_before_month(year, month) + (day - 1) - 719162
}

/// The calendar has the day, and the day has the time.
pub open spec fn is_moment(
    year: int,
    month: int,
    day: int,
    hour: int,
    minute: int,
    second: int,
) -> bool {
    &&& 1 <= month <= 12
    &&& 1 <= day <= month_length(year, month)
    &&& 0 <= hour < 24
    &&& 0 <= minute < 60
    &&& 0 <= second < 60
}

/// The moment of a time on a day.
pub open spec fn moment(
    year: int,
    month: int,
    day: int,
    hour: int,
    minute: int,
    second: int,
) -> int {
    days_since_epoch(year, month, day) * 86400 + hour * 3600 + minute * 60 + second
}

/// Calls `chrono::NaiveDate::from_ymd_opt` and `chrono::NaiveTime::from_hms_opt`, and takes the
/// timestamp of the two in UTC: nothing where the calendar lacks the day or the day the time.
#[verifier::external_body]
pub(crate) fn utc_moment(year: u16, month: u8, day: u8, hour: u8, minute: u8, second: u8) -> (time:
    Option<i64>)
    ensures
        match time {
            Some(time) => is_moment(
                year as int,
                month as int,
                day as int,
                hour as int,
                minute as int,
                second as int,
            ) && time == moment(
                year as int,
                month as int,
                day as int,
                hour as int,
                minute as int,
                second as int,
            ),
            None => !is_moment(
                year as int,
                month as int,
                day as int,
                hour as int,
                minute as int,
                second as int,
            ),
        },
{
    let date = chrono::NaiveDate::from_ymd_opt(year as i32, month as u32, day as u32)?;
    let time = chrono::NaiveTime::from_hms_opt(hour as u32, minute as u32, second as u32)?;
    Some(chrono::Utc.from_utc_datetime(&date.and_time(time)).timestamp())
}

/// Calls `chrono::DateTime::checked_add_signed`: the moment some seconds later, where `chrono` can
/// tell it.
#[verifier::external_body]
pub(crate) fn moment_after(time: i64, seconds: i64) -> (later: Option<i64>)
    requires
        EARLIEST <= time <= LATEST,
        -1_000_000_000_000_000 <= seconds <= 1_000_000_000_000_000,
    ensures
        later == (if EARLIEST <= time + seconds <= LATEST {
            Some((time + seconds) as i64)
        } else {
            None
        }),
{
    let time = chrono::DateTime::<chrono::Utc>::from_timestamp(time, 0)?;
    let later = time.checked_add_signed(chrono::Duration::try_seconds(seconds)?)?;
    Some(later.timestamp())
}

/// The whole minutes in some seconds, without the fraction.
pub open spec fn minutes_in(seconds: int) -> int {
    if seconds >= 0 {
        seconds / 60
    } else {
        -((-seconds) / 60)
    }
}

/// Calls `chrono::Duration::num_minutes`: the whole minutes in some seconds.
#[verifier::external_body]
pub(crate) fn whole_minutes(seconds: i64) -> (minutes: i64)
    requires
        -1_000_000_000_000_000 <= seconds <= 1_000_000_000_000_000,
    ensures
        minutes == minutes_in(seconds as int),
{
    chrono::Duration::seconds(seconds).num_minutes()
}

/// A moment of the calendar's first 65536 years is one that `chrono` can tell.
pub proof fn lemma_moments_fit(
    year: u16,
    month: int,
    day: int,
    hour: int,
    minute: int,
    second: int,
)
    requires
        is_moment(year as int, month, day, hour, minute, second),
    ensures
        EARLIEST <= moment(year as int, month, day, hour, minute, second) <= LATEST,
{
    reveal_with_fuel(days_before_month, 13);
    assert(0 <= days_before_month(year as int, month) <= 366);
}

} // verus!
