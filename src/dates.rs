//! Turning the requested dates into the millisecond bounds of a request.

use vstd::prelude::*;
use chrono::Datelike;

verus! {

/// Days from the common era of 1970-01-01, the Unix epoch.
pub const EPOCH_DAY: i32 = 719163;

/// Days from the common era of 2016-01-01, the earliest date data is asked for.
pub const EARLIEST_DAY: i32 = 735964;

/// The day, counted from the common era as chrono counts it (0001-01-01 is
/// day 1), of a `YYYY-MM-DD` date as chrono's `%F` reads it; `None` where it
/// cannot be read.
pub uninterp spec fn date_days(s: Seq<char>) -> Option<int>;

/// Relies on chrono's `NaiveDate::parse_from_str` with `%F`, and on
/// `Datelike::num_days_from_ce` of the date it reads.
#[verifier::external_body]
fn parse_day(s: &str) -> (r: Option<i32>)
    ensures
        match r {
            Some(d) => date_days(s@) == Some(d as int),
            None => date_days(s@) is None,
        },
{
    match chrono::NaiveDate::parse_from_str(s, "%F") {
        Ok(d) => Some(d.num_days_from_ce()),
        Err(_) => None,
    }
}

/// A day held within `[EARLIEST_DAY, today]`: earlier days become the
/// earliest, later ones today.
pub open spec fn clamp_day(day: int, today: int) -> int {
    if day < EARLIEST_DAY {
        EARLIEST_DAY as int
    } else if day > today {
        today
    } else {
        day
    }
}

/// Milliseconds since the epoch at `second` seconds past midnight of `day`.
pub open spec fn day_ms(day: int, second: int) -> int {
    ((day - EPOCH_DAY) * 86400 + second) * 1000
}

/// Why the requested dates could not be used.
#[derive(Debug, Clone, Copy, PartialEq, Eq)]
pub enum DateError {
    /// A date is not written `YYYY-MM-DD`, or names no day.
    Format,
}

fn day_to_ms(day: i32, second: i64) -> (r: i64)
    requires
        0 <= second < 86400,
    ensures
        r == day_ms(day as int, second as int),
{
    let days: i64 = day as i64 - EPOCH_DAY as i64;
    assert(-5_000_000_000 < days < 5_000_000_000);
    assert(-500_000_000_000_000 < days * 86400 < 500_000_000_000_000) by (nonlinear_arith)
        requires
            -5_000_000_000 < days < 5_000_000_000,
    ;
    let secs: i64 = days * 86400 + second;
    assert(-1_000_000_000_000_000_000 < secs * 1000 < 1_000_000_000_000_000_000) by (nonlinear_arith)
        requires
            -500_000_000_000_001 < secs < 500_000_000_000_001,
    ;
    secs * 1000
}

/// The millisecond bounds of a request from its start and end dates, each
/// held within `[2016-01-01, today]`: one second past midnight of the start
/// day, two seconds past midnight of the end day. `today` is a day counted as
/// `date_days` counts.
pub fn check_and_transform_dates(start_date: &str, end_date: &str, today: i32) -> (r: Result<(i64, i64), DateError>)
    ensures
        match (date_days(start_date@), date_days(end_date@)) {
            (Some(s), Some(e)) => r == Ok::<(i64, i64), DateError>((
                day_ms(clamp_day(s, today as int), 1) as i64,
                day_ms(clamp_day(e, today as int), 2) as i64,
            )),
            _ => r == Err::<(i64, i64), DateError>(DateError::Format),
        },
{
    let start = match parse_day(start_date) {
        Some(d) => d,
        None => return Err(DateError::Format),
    };
    let end = match parse_day(end_date) {
        Some(d) => d,
        None => return Err(DateError::Format),
    };
    let start = if start < EARLIEST_DAY { EARLIEST_DAY } else if start > today { today } else { start };
    let end = if end < EARLIEST_DAY { EARLIEST_DAY } else if end > today { today } else { end };
    Ok((day_to_ms(start, 1), day_to_ms(end, 2)))
}

} // verus!
