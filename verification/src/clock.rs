//! Civil time from a Unix epoch instant, for naming snapshots: the
//! time-of-day fields come from exact divisions of the millisecond count,
//! and the date is found by walking years and months from 1970.

use vstd::prelude::*;

verus! {

/// Proleptic Gregorian leap year.
pub open spec fn is_leap_year(y: int) -> bool {
    (y % 4 == 0 && y % 100 != 0) || y % 400 == 0
}

/// Days in a month of a year.
pub open spec fn month_len(y: int, m: int) -> int {
    if m == 2 {
        if is_leap_year(y) {
            29
        } else {
            28
        }
    } else if m == 4 || m == 6 || m == 9 || m == 11 {
        30
    } else {
        31
    }
}

/// Days from 1970-01-01 to January 1st of year `y`.
pub open spec fn days_before_year(y: int) -> int
    decreases y,
{
    if y <= 1970 {
        0
    } else {
        days_before_year(y - 1) + (if is_leap_year(y - 1) {
            366int
        } else {
            365int
        })
    }
}

/// Days from January 1st of year `y` to the 1st of its month `m`.
pub open spec fn days_before_month(y: int, m: int) -> int
    decreases m,
{
    if m <= 1 {
        0
    } else {
        days_before_month(y, m - 1) + month_len(y, m - 1)
    }
}

/// The twelve months of a year cover exactly its days.
pub proof fn lemma_months_cover_year(y: int)
    ensures
        days_before_month(y, 13) == (if is_leap_year(y) {
            366int
        } else {
            365int
        }),
{
    reveal_with_fuel(days_before_month, 13);
}

/// One wall-clock instant, split into civil fields.
pub struct CivilTime {
    pub year: u64,
    pub month: u64,
    pub day: u64,
    pub hour: u64,
    pub minute: u64,
    pub second: u64,
    pub milli: u64,
}

fn month_days(y: u64, m: u64) -> (r: u64)
    requires
        1 <= m <= 12,
    ensures
        r == month_len(y as int, m as int),
        28 <= r <= 31,
{
    if m == 2 {
        if (y % 4 == 0 && y % 100 != 0) || y % 400 == 0 {
            29
        } else {
            28
        }
    } else if m == 4 || m == 6 || m == 9 || m == 11 {
        30
    } else {
        31
    }
}

/// The civil UTC time of the epoch instant `ms` (milliseconds since
/// 1970-01-01 00:00:00). The time-of-day fields are the exact residues of
/// `ms`, and the date fields name the calendar day exactly `ms / 86400000`
/// days after 1970-01-01.
pub fn civil_from_epoch_ms(ms: u64) -> (r: CivilTime)
    ensures
        r.milli == ms % 1000,
        r.second == (ms / 1000) % 60,
        r.minute == (ms / 60000) % 60,
        r.hour == (ms / 3600000) % 24,
        r.year >= 1970,
        1 <= r.month <= 12,
        1 <= r.day <= month_len(r.year as int, r.month as int),
        days_before_year(r.year as int) + days_before_month(r.year as int, r.month as int) + r.day
            - 1 == ms / 86400000,
{
    let milli = ms % 1000;
    let second = (ms / 1000) % 60;
    let minute = (ms / 60000) % 60;
    let hour = (ms / 3600000) % 24;
    let mut days: u64 = ms / 86400000;
    let mut year: u64 = 1970;
    let mut year_len: u64 = 365;
    while days >= year_len
        invariant
            year >= 1970,
            (year - 1970) * 365 + days <= ms / 86400000,
            days_before_year(year as int) + days == ms / 86400000,
            year_len == (if is_leap_year(year as int) {
                366int
            } else {
                365int
            }),
        decreases days,
    {
        days = days - year_len;
        year = year + 1;
        year_len = if (year % 4 == 0 && year % 100 != 0) || year % 400 == 0 {
            366
        } else {
            365
        };
    }
    let ghost year_days = days as int;
    let mut month: u64 = 1;
    let mut mdays: u64 = month_days(year, 1);
    while month < 12 && days >= mdays
        invariant
            1 <= month <= 12,
            mdays == month_len(year as int, month as int),
            days_before_month(year as int, month as int) + days == year_days,
            days_before_year(year as int) + year_days == ms / 86400000,
            year_days < (if is_leap_year(year as int) {
                366int
            } else {
                365int
            }),
        decreases 12 - month,
    {
        days = days - mdays;
        month = month + 1;
        mdays = month_days(year, month);
    }
    proof {
        lemma_months_cover_year(year as int);
        if month == 12 {
            assert(days_before_month(year as int, 13) == days_before_month(year as int, 12)
                + month_len(year as int, 12));
        }
        assert(days < mdays);
    }
    let day = days + 1;
    CivilTime { year, month, day, hour, minute, second, milli }
}

} // verus!
