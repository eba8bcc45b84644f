use vstd::prelude::*;

verus! {

/// The earliest year that chrono's `NaiveDate` can hold.
pub const MIN_YEAR: i32 = -262143;

/// The latest year that chrono's `NaiveDate` can hold.
pub const MAX_YEAR: i32 = 262142;

/// Nanoseconds in one second.
pub const NANOS_PER_SEC: u64 = 1_000_000_000;

/// A moment given by its calendar and time-of-day fields, read as UTC in the
/// proleptic Gregorian calendar.
#[derive(Clone, Copy, Debug, PartialEq, Eq)]
pub struct CivilTime {
    pub year: i32,
    pub month: u32,
    pub day: u32,
    pub hour: u32,
    pub minute: u32,
    pub second: u32,
    pub nanosecond: u32,
}

pub open spec fn is_leap_year(y: int) -> bool {
    (y % 4 == 0 && y % 100 != 0) || y % 400 == 0
}

pub open spec fn days_in_month(y: int, m: int) -> int {
    if m == 2 {
        if is_leap_year(y) { 29 } else { 28 }
    } else if m == 4 || m == 6 || m == 9 || m == 11 {
        30
    } else {
        31
    }
}

/// Whether the fields name a date that exists and a time of day without a
/// leap second. The nanosecond field is not part of this.
pub open spec fn valid_civil(c: CivilTime) -> bool {
    &&& MIN_YEAR <= c.year <= MAX_YEAR
    &&& 1 <= c.month <= 12
    &&& 1 <= c.day <= days_in_month(c.year as int, c.month as int)
    &&& c.hour < 24
    &&& c.minute < 60
    &&& c.second < 60
}

/// Leap years among the years `1..=y` (counted backwards for `y < 1`).
pub open spec fn leap_years_through(y: int) -> int {
    y / 4 - y / 100 + y / 400
}

/// Days from 1970-01-01 to the first day of year `y`.
pub open spec fn days_before_year(y: int) -> int {
    365 * (y - 1970) + leap_years_through(y - 1) - leap_years_through(1969)
}

/// Days from the first day of year `y` to the first day of month `m`.
pub open spec fn days_before_month(y: int, m: int) -> int {
    let common: int = if m == 1 { 0 }
        else if m == 2 { 31 }
        else if m == 3 { 59 }
        else if m == 4 { 90 }
        else if m == 5 { 120 }
        else if m == 6 { 151 }
        else if m == 7 { 181 }
        else if m == 8 { 212 }
        else if m == 9 { 243 }
        else if m == 10 { 273 }
        else if m == 11 { 304 }
        else { 334 };
    if m > 2 && is_leap_year(y) { common + 1 } else { common }
}

/// Seconds from the Unix epoch to the moment, leap seconds not counted.
pub open spec fn epoch_seconds(c: CivilTime) -> int {
    (days_before_year(c.year as int) + days_before_month(c.year as int, c.month as int)
        + c.day - 1) * 86400 + c.hour * 3600 + c.minute * 60 + c.second
}

/// Nanoseconds from the Unix epoch to the moment: `None` where the fields do
/// not form a valid date and time, the nanosecond is not one of a second, or
/// the count falls outside `u64`.
pub open spec fn absolute_nanos(c: CivilTime) -> Option<u64> {
    let n = epoch_seconds(c) * NANOS_PER_SEC + c.nanosecond;
    if valid_civil(c) && c.nanosecond < NANOS_PER_SEC && 0 <= epoch_seconds(c) && n <= u64::MAX {
        Some(n as u64)
    } else {
        None
    }
}

/// Relies on chrono's `NaiveDate::from_ymd_opt` (`None` for a day that does
/// not exist or a year out of its range), `NaiveDate::and_hms_opt` (`None` for
/// an invalid hour, minute or second, leap second included) and
/// `DateTime<Utc>::timestamp` (non-leap seconds since 1970-01-01 00:00:00 UTC).
#[verifier::external_body]
fn chrono_epoch_seconds(year: i32, month: u32, day: u32, hour: u32, minute: u32, second: u32)
    -> (r: Option<i64>)
    ensures
        r is Some <==> valid_civil(
            (CivilTime { year, month, day, hour, minute, second, nanosecond: 0 }),
        ),
        r matches Some(s) ==> s == epoch_seconds(
            (CivilTime { year, month, day, hour, minute, second, nanosecond: 0 }),
        ),
{
    chrono::NaiveDate::from_ymd_opt(year, month, day)
        .and_then(|d| d.and_hms_opt(hour, minute, second))
        .map(|t| t.and_utc().timestamp())
}

/// Nanoseconds since the Unix epoch of the moment `c`.
pub fn nanos_since_epoch(c: &CivilTime) -> (r: Option<u64>)
    ensures
        r == absolute_nanos(*c),
{
    if c.nanosecond >= 1_000_000_000 {
        return None;
    }
    let secs = chrono_epoch_seconds(c.year, c.month, c.day, c.hour, c.minute, c.second);
    match secs {
        None => None,
        Some(s) => {
            if s < 0 {
                None
            } else {
                let s = s as u64;
                let ns = c.nanosecond as u64;
                let limit = (u64::MAX - ns) / NANOS_PER_SEC;
                if s > limit {
                    proof {
                        let (si, ni, li) = (s as int, ns as int, limit as int);
                        assert(si * 1_000_000_000 + ni > u64::MAX) by (nonlinear_arith)
                            requires
                                si > li,
                                li == (u64::MAX - ni) / 1_000_000_000,
                                0 <= ni <= u64::MAX;
                    }
                    None
                } else {
                    proof {
                        let (si, ni, li) = (s as int, ns as int, limit as int);
                        assert(si * 1_000_000_000 + ni <= u64::MAX) by (nonlinear_arith)
                            requires
                                si <= li,
                                li == (u64::MAX - ni) / 1_000_000_000,
                                0 <= ni <= u64::MAX;
                    }
                    Some(s * NANOS_PER_SEC + ns)
                }
            }
        }
    }
}

} // verus!
