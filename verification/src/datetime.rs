//! Calendar values and their conversion to and from Unix timestamps.
use vstd::prelude::*;

verus! {

/// A calendar year (proleptic Gregorian).
#[derive(Debug, Clone, Copy, PartialEq, Eq, Structural)]
pub struct Year(pub i32);

/// A month of the year, 1 to 12 when built by [`Month::new`].
#[derive(Debug, Clone, Copy, PartialEq, Eq, Structural)]
pub struct Month(pub u8);

/// A day of the month, 1 to the month's length when built by [`Day::new`].
#[derive(Debug, Clone, Copy, PartialEq, Eq, Structural)]
pub struct Day(pub u8);

/// An hour of the day, 0 to 23 when built by [`Hour24::new`].
#[derive(Debug, Clone, Copy, PartialEq, Eq, Structural)]
pub struct Hour24(pub u8);

/// A minute of the hour, 0 to 59 when built by [`Minute::new`].
#[derive(Debug, Clone, Copy, PartialEq, Eq, Structural)]
pub struct Minute(pub u8);

/// A second of the minute, 0 to 59 when built by [`Second::new`].
#[derive(Debug, Clone, Copy, PartialEq, Eq, Structural)]
pub struct Second(pub u8);

/// A calendar date and wall-clock time, without a time zone.
#[derive(Debug, Clone, Copy, PartialEq, Eq, Structural)]
pub struct DateTime {
    pub year: Year,
    pub month: Month,
    pub day: Day,
    pub hour: Hour24,
    pub minute: Minute,
    pub second: Second,
}

/// Whether `y` is a leap year in the Gregorian calendar.
pub open spec fn spec_is_leap_year(y: int) -> bool {
    (y % 4 == 0 && y % 100 != 0) || (y % 400 == 0)
}

/// Number of days in year `y`.
pub open spec fn year_len(y: int) -> int {
    if spec_is_leap_year(y) {
        366
    } else {
        365
    }
}

/// Length of month `m` in a common (non-leap) year; 0 outside 1..=12.
pub open spec fn common_month_len(m: int) -> int {
    if m == 1 || m == 3 || m == 5 || m == 7 || m == 8 || m == 10 || m == 12 {
        31
    } else if m == 4 || m == 6 || m == 9 || m == 11 {
        30
    } else if m == 2 {
        28
    } else {
        0
    }
}

/// Length of month `m` of year `y`; 0 outside 1..=12.
pub open spec fn month_len(y: int, m: int) -> int {
    if m == 2 && spec_is_leap_year(y) {
        29
    } else {
        common_month_len(m)
    }
}

/// Days in the months of a common year that come before month `m`
/// (every month counts once `m` passes 12).
pub open spec fn common_days_before_month(m: int) -> int
    decreases m,
{
    if m <= 1 {
        0
    } else if m > 13 {
        common_days_before_month(13)
    } else {
        common_days_before_month(m - 1) + common_month_len(m - 1)
    }
}

/// Days of year `y` that come before the first day of month `m`.
pub open spec fn days_before_month(y: int, m: int) -> int {
    common_days_before_month(m) + if m > 2 && spec_is_leap_year(y) {
        1int
    } else {
        0int
    }
}

/// Days from 1970-01-01 to the first day of year `y` (negative before 1970).
pub open spec fn days_before_year(y: int) -> int
    decreases (if y >= 1970 {
        y - 1970
    } else {
        1970 - y
    }),
{
    if y > 1970 {
        days_before_year(y - 1) + year_len(y - 1)
    } else if y < 1970 {
        days_before_year(y + 1) - year_len(y)
    } else {
        0
    }
}

/// Day count from 1970-01-01 of the date in `dt`.
pub open spec fn spec_day_number(dt: DateTime) -> int {
    days_before_year(dt.year.0 as int) + days_before_month(dt.year.0 as int, dt.month.0 as int)
        + dt.day.0 - 1
}

/// Seconds from 1970-01-01 00:00:00 to the date and time in `dt` (negative before it).
pub open spec fn spec_unix_seconds(dt: DateTime) -> int {
    spec_day_number(dt) * 86400 + dt.hour.0 * 3600 + dt.minute.0 * 60 + dt.second.0
}

/// The Unix timestamp of the date and time in `dt`: seconds since 1970-01-01 00:00:00,
/// 0 for moments before it.
pub open spec fn spec_to_unix_timestamp(dt: DateTime) -> int {
    let t = spec_unix_seconds(dt);
    if t < 0 {
        0
    } else {
        t
    }
}

/// Year and day of that year reached from day `d` of year `y` by moving whole years forward.
pub open spec fn civil_year(y: int, d: int) -> (int, int)
    decreases d,
{
    if d < year_len(y) {
        (y, d)
    } else {
        civil_year(y + 1, d - year_len(y))
    }
}

/// Month and day of that month reached from day `r` of month `m` of year `y`
/// by moving whole months forward, up to December.
pub open spec fn civil_month(y: int, r: int, m: int) -> (int, int)
    decreases 12 - m,
{
    if m >= 12 || r < month_len(y, m) {
        (m, r)
    } else {
        civil_month(y, r - month_len(y, m), m + 1)
    }
}

/// The date and time of Unix timestamp `ts`. The day count is taken as an `i32`
/// (truncated); a negative day count leaves 1970-01 and keeps its low byte as the day.
pub open spec fn spec_from_unix_timestamp(ts: u64) -> DateTime {
    let d0 = ((ts / 86400) as i32) as int;
    let (y, r) = civil_year(1970, d0);
    let (m, r2) = civil_month(y, r, 1);
    DateTime {
        year: Year(y as i32),
        month: Month(m as u8),
        day: Day((r2 + 1) as u8),
        hour: Hour24(((ts / 3600) % 24) as u8),
        minute: Minute(((ts / 60) % 60) as u8),
        second: Second((ts % 60) as u8),
    }
}

/// Whether `dt` names an existing date and time of day.
pub open spec fn valid_datetime(dt: DateTime) -> bool {
    &&& 1 <= dt.month.0 <= 12
    &&& 1 <= dt.day.0 <= month_len(dt.year.0 as int, dt.month.0 as int)
    &&& dt.hour.0 < 24
    &&& dt.minute.0 < 60
    &&& dt.second.0 < 60
}

impl Month {
    /// The month `m`, if it is in 1..=12.
    pub fn new(m: u8) -> (res: Option<Self>)
        ensures
            res == (if 1 <= m <= 12 {
                Some(Month(m))
            } else {
                None
            }),
    {
        if 1 <= m && m <= 12 {
            Some(Month(m))
        } else {
            None
        }
    }
}

impl Day {
    /// The day `d` of `month` in `year`, if the month is in 1..=12 and has that day.
    pub fn new(d: u8, year: Year, month: Month) -> (res: Option<Self>)
        ensures
            res == (if 1 <= d <= month_len(year.0 as int, month.0 as int) {
                Some(Day(d))
            } else {
                None
            }),
    {
        let max_days: u8 = match month.0 {
            1 | 3 | 5 | 7 | 8 | 10 | 12 => 31,
            4 | 6 | 9 | 11 => 30,
            2 => {
                if is_leap_year(year.0) {
                    29
                } else {
                    28
                }
            },
            _ => return None,
        };
        if 1 <= d && d <= max_days {
            Some(Day(d))
        } else {
            None
        }
    }
}

impl Hour24 {
    /// The hour `h`, if it is below 24.
    pub fn new(h: u8) -> (res: Option<Self>)
        ensures
            res == (if h < 24 {
                Some(Hour24(h))
            } else {
                None
            }),
    {
        if h < 24 {
            Some(Hour24(h))
        } else {
            None
        }
    }
}

impl Minute {
    /// The minute `m`, if it is below 60.
    pub fn new(m: u8) -> (res: Option<Self>)
        ensures
            res == (if m < 60 {
                Some(Minute(m))
            } else {
                None
            }),
    {
        if m < 60 {
            Some(Minute(m))
        } else {
            None
        }
    }
}

impl Second {
    /// The second `s`, if it is below 60.
    pub fn new(s: u8) -> (res: Option<Self>)
        ensures
            res == (if s < 60 {
                Some(Second(s))
            } else {
                None
            }),
    {
        if s < 60 {
            Some(Second(s))
        } else {
            None
        }
    }
}

proof fn lemma_neg_divisible(x: int, d: int)
    requires
        d > 0,
    ensures
        ((-x) % d == 0) == (x % d == 0),
{
    vstd::arithmetic::div_mod::lemma_fundamental_div_mod(x, d);
    vstd::arithmetic::div_mod::lemma_fundamental_div_mod(-x, d);
    if x % d == 0 {
        let k = x / d;
        assert(-x == (-k) * d) by (nonlinear_arith)
            requires
                x == d * k,
        ;
        vstd::arithmetic::div_mod::lemma_mod_multiples_basic(-k, d);
    }
    if (-x) % d == 0 {
        let k = (-x) / d;
        assert(x == (-k) * d) by (nonlinear_arith)
            requires
                -x == d * k,
        ;
        vstd::arithmetic::div_mod::lemma_mod_multiples_basic(-k, d);
    }
}

/// Gregorian leap-year rule.
pub fn is_leap_year(y: i32) -> (res: bool)
    ensures
        res == spec_is_leap_year(y as int),
{
    proof {
        lemma_neg_divisible(y as int, 4);
        lemma_neg_divisible(y as int, 100);
        lemma_neg_divisible(y as int, 400);
    }
    (y % 4 == 0 && y % 100 != 0) || (y % 400 == 0)
}

/// Length of month `m` in a common year, 0 outside 1..=12.
fn common_month_days(m: usize) -> (res: i64)
    ensures
        res == common_month_len(m as int),
{
    match m {
        1 | 3 | 5 | 7 | 8 | 10 | 12 => 31,
        4 | 6 | 9 | 11 => 30,
        2 => 28,
        _ => 0,
    }
}

proof fn lemma_days_before_year_bounds(y: int)
    ensures
        y >= 1970 ==> 0 <= days_before_year(y),
        y >= 1970 ==> days_before_year(y) <= 366 * (y - 1970),
        y >= 1970 ==> 365 * (y - 1970) <= days_before_year(y),
        y < 1970 ==> -366 * (1970 - y) <= days_before_year(y) <= -365 * (1970 - y),
    decreases (if y >= 1970 {
        y - 1970
    } else {
        1970 - y
    }),
{
    if y > 1970 {
        lemma_days_before_year_bounds(y - 1);
    } else if y < 1970 {
        lemma_days_before_year_bounds(y + 1);
    }
}

proof fn lemma_common_days_before_month_bounds(m: int)
    ensures
        0 <= common_days_before_month(m) <= 365,
    decreases m,
{
    if m > 13 {
        lemma_common_days_before_month_bounds(13);
    } else if m > 1 {
        lemma_common_days_before_month_bounds(m - 1);
        reveal_with_fuel(common_days_before_month, 13);
    }
}

/// Every timestamp of a date and time with a day of at least 1 lies in `0..2^57`.
pub proof fn lemma_unix_timestamp_range(dt: DateTime)
    requires
        dt.day.0 >= 1,
    ensures
        0 <= spec_to_unix_timestamp(dt) < 0x0200_0000_0000_0000,
{
    let y = dt.year.0 as int;
    lemma_days_before_year_bounds(y);
    lemma_common_days_before_month_bounds(dt.month.0 as int);
    let n = spec_day_number(dt);
    if y >= 1970 {
        assert(366 * (y - 1970) <= 366 * 0x8000_0000) by (nonlinear_arith)
            requires
                0 <= y - 1970 <= 0x8000_0000,
        ;
    }
    assert(n <= 366 * 0x8000_0000 + 366 + 255);
    assert(n * 86400 <= (366 * 0x8000_0000 + 366 + 255) * 86400) by (nonlinear_arith)
        requires
            n <= 366 * 0x8000_0000 + 366 + 255,
    ;
}

/// Converts a date and time to a Unix timestamp (seconds since 1970-01-01 00:00:00 UTC);
/// moments before 1970 give 0.
pub fn to_unix_timestamp(dt: DateTime) -> (res: u64)
    requires
        dt.day.0 >= 1,
    ensures
        res == spec_to_unix_timestamp(dt),
{
    let mut days: i64 = 0;
    let mut y: i32 = 1970;
    proof {
        lemma_days_before_year_bounds(dt.year.0 as int);
    }
    while y < dt.year.0
        invariant
            1970 <= y,
            y <= dt.year.0 || y == 1970,
            days == days_before_year(y as int),
            0 <= days <= 366 * (y - 1970),
        decreases dt.year.0 - y,
    {
        days += if is_leap_year(y) {
            366
        } else {
            365
        };
        y += 1;
    }
    if dt.year.0 < 1970 {
        let mut y2: i32 = dt.year.0;
        while y2 < 1970
            invariant
                dt.year.0 <= y2 <= 1970,
                days == days_before_year(dt.year.0 as int) - days_before_year(y2 as int),
                -366 * (y2 - dt.year.0) <= days <= 0,
            decreases 1970 - y2,
        {
            days -= year_days(y2) as i64;
            y2 += 1;
        }
    }
    assert(days == days_before_year(dt.year.0 as int));
    let ghost base = days;
    let mut m: usize = 1;
    let month = dt.month.0 as usize;
    while m < month && m < 13
        invariant
            1 <= m <= 13,
            m <= month || m == 1,
            month == dt.month.0,
            -366 * 0x1_0000_0000 <= base <= 366 * 0x1_0000_0000,
            days == base + common_days_before_month(m as int),
        decreases 13 - m,
    {
        proof {
            lemma_common_days_before_month_bounds(m as int);
        }
        days += common_month_days(m);
        m += 1;
    }
    proof {
        if month > 13 {
            assert(common_days_before_month(month as int) == common_days_before_month(13));
        }
        if month <= 1 {
            assert(common_days_before_month(month as int) == 0);
            assert(m == 1);
        }
        lemma_common_days_before_month_bounds(month as int);
    }
    assert(days == base + common_days_before_month(month as int));
    if dt.month.0 > 2 && is_leap_year(dt.year.0) {
        days += 1;
    }
    days += (dt.day.0 - 1) as i64;
    assert(days == spec_day_number(dt));
    let total_seconds = days * 86400 + (dt.hour.0 as i64 * 3600) + (dt.minute.0 as i64 * 60)
        + (dt.second.0 as i64);
    if total_seconds < 0 {
        0
    } else {
        total_seconds as u64
    }
}

/// Number of days in year `y`.
fn year_days(y: i32) -> (res: i32)
    ensures
        res == year_len(y as int),
{
    if is_leap_year(y) {
        366
    } else {
        365
    }
}

/// Length of month `m` of year `y`, 0 outside 1..=12.
fn month_days(y: i32, m: usize) -> (res: i32)
    ensures
        res == month_len(y as int, m as int),
{
    let common = common_month_days(m) as i32;
    if m == 2 && is_leap_year(y) {
        common + 1
    } else {
        common
    }
}

/// Converts a Unix timestamp to a date and time (UTC).
pub fn from_unix_timestamp(ts: u64) -> (res: DateTime)
    ensures
        res == spec_from_unix_timestamp(ts),
{
    let mut rest = ts;
    let second = Second((rest % 60) as u8);
    rest /= 60;
    let minute = Minute((rest % 60) as u8);
    rest /= 60;
    let hour = Hour24((rest % 24) as u8);
    rest /= 24;
    assert(rest == ts / 86400 && ts / 60 / 60 == ts / 3600) by {
        vstd::arithmetic::div_mod::lemma_div_denominator(ts as int, 60, 60);
        vstd::arithmetic::div_mod::lemma_div_denominator(ts as int, 3600, 24);
    }
    let ghost d0 = ((ts / 86400) as i32) as int;
    let mut days = rest as i32;
    let mut year: i32 = 1970;
    while days >= year_days(year)
        invariant
            1970 <= year,
            days <= d0,
            d0 <= i32::MAX,
            365 * (year - 1970) <= d0 - days,
            civil_year(year as int, days as int) == civil_year(1970, d0),
        decreases days,
    {
        days -= year_days(year);
        year += 1;
    }
    let ghost r0 = days as int;
    let mut month: usize = 1;
    while month < 12 && days >= month_days(year, month)
        invariant
            1 <= month <= 12,
            days <= r0,
            civil_month(year as int, days as int, month as int) == civil_month(year as int, r0, 1),
        decreases 12 - month,
    {
        days -= month_days(year, month);
        month += 1;
    }
    DateTime {
        year: Year(year),
        month: Month(month as u8),
        day: Day((days + 1) as u8),
        hour,
        minute,
        second,
    }
}

proof fn lemma_days_before_month_step(y: int, m: int)
    requires
        1 <= m <= 12,
    ensures
        days_before_month(y, m + 1) == days_before_month(y, m) + month_len(y, m),
        days_before_month(y, 1) == 0,
        days_before_month(y, 13) == year_len(y),
{
    reveal_with_fuel(common_days_before_month, 13);
}

proof fn lemma_days_before_year_step(y: int)
    requires
        y >= 1970,
    ensures
        days_before_year(y + 1) == days_before_year(y) + year_len(y),
{
}

proof fn lemma_days_before_year_mono(y0: int, y: int)
    requires
        1970 <= y0 <= y,
    ensures
        days_before_year(y0) <= days_before_year(y),
        y0 < y ==> days_before_year(y0) + year_len(y0) <= days_before_year(y),
    decreases y - y0,
{
    if y0 < y {
        lemma_days_before_year_mono(y0, y - 1);
    }
}

/// Moving whole years forward from a day count keeps the absolute day number.
proof fn lemma_civil_year_sound(y: int, d: int)
    requires
        y >= 1970,
        d >= 0,
    ensures
        ({
            let (y2, r) = civil_year(y, d);
            &&& y2 >= y
            &&& 0 <= r < year_len(y2)
            &&& days_before_year(y2) + r == days_before_year(y) + d
            &&& 365 * (y2 - y) <= d
        }),
    decreases d,
{
    if d >= year_len(y) {
        lemma_civil_year_sound(y + 1, d - year_len(y));
    }
}

/// Moving whole months forward within a year keeps the day of the year.
proof fn lemma_civil_month_sound(y: int, r: int, m: int)
    requires
        1 <= m <= 12,
        0 <= r,
        days_before_month(y, m) + r < year_len(y),
    ensures
        ({
            let (m2, r2) = civil_month(y, r, m);
            &&& m <= m2 <= 12
            &&& 0 <= r2 < month_len(y, m2)
            &&& days_before_month(y, m2) + r2 == days_before_month(y, m) + r
        }),
    decreases 12 - m,
{
    lemma_days_before_month_step(y, m);
    if m < 12 && r >= month_len(y, m) {
        lemma_civil_month_sound(y, r - month_len(y, m), m + 1);
    }
}

/// From year `y0`, the day count of day `r` of year `y` leads back to year `y` and day `r`.
proof fn lemma_civil_year_exact(y0: int, y: int, r: int)
    requires
        1970 <= y0 <= y,
        0 <= r < year_len(y),
    ensures
        civil_year(y0, days_before_year(y) - days_before_year(y0) + r) == (y, r),
    decreases y - y0,
{
    if y0 < y {
        lemma_days_before_year_mono(y0, y);
        lemma_days_before_year_step(y0);
        lemma_civil_year_exact(y0 + 1, y, r);
    }
}

/// From month `m0`, the day of the year of day `r` of month `m` leads back to month `m` and day `r`.
proof fn lemma_civil_month_exact(y: int, m0: int, m: int, r: int)
    requires
        1 <= m0 <= m <= 12,
        0 <= r < month_len(y, m),
    ensures
        civil_month(y, days_before_month(y, m) - days_before_month(y, m0) + r, m0) == (m, r),
    decreases m - m0,
{
    if m0 < m {
        lemma_days_before_month_step(y, m0);
        assert(days_before_month(y, m0 + 1) <= days_before_month(y, m)) by {
            lemma_days_before_month_mono(y, m0 + 1, m);
        }
        lemma_civil_month_exact(y, m0 + 1, m, r);
    }
}

proof fn lemma_days_before_month_mono(y: int, m0: int, m: int)
    requires
        1 <= m0 <= m <= 13,
    ensures
        days_before_month(y, m0) <= days_before_month(y, m),
    decreases m - m0,
{
    if m0 < m {
        lemma_days_before_month_step(y, m0);
        lemma_days_before_month_mono(y, m0 + 1, m);
    }
}

proof fn lemma_split_seconds(ts: int)
    requires
        ts >= 0,
    ensures
        (ts / 86400) * 86400 + ((ts / 3600) % 24) * 3600 + ((ts / 60) % 60) * 60 + ts % 60 == ts,
{
    vstd::arithmetic::div_mod::lemma_fundamental_div_mod(ts, 60);
    vstd::arithmetic::div_mod::lemma_fundamental_div_mod(ts / 60, 60);
    vstd::arithmetic::div_mod::lemma_fundamental_div_mod(ts / 3600, 24);
    vstd::arithmetic::div_mod::lemma_div_denominator(ts, 60, 60);
    vstd::arithmetic::div_mod::lemma_div_denominator(ts, 3600, 24);
    let a = ts / 86400;
    let b = (ts / 3600) % 24;
    let c = (ts / 60) % 60;
    let e = ts % 60;
    let h = ts / 3600;
    let mi = ts / 60;
    assert(a * 86400 + b * 3600 + c * 60 + e == ts) by (nonlinear_arith)
        requires
            ts == 60 * mi + e,
            mi == 60 * h + c,
            h == 24 * a + b,
    ;
}

/// Law: converting a Unix timestamp to a date and time and back gives the timestamp again,
/// for every timestamp whose day count fits in an `i32`.
pub proof fn lemma_from_to_unix_timestamp(ts: u64)
    requires
        ts / 86400 <= i32::MAX,
    ensures
        spec_to_unix_timestamp(spec_from_unix_timestamp(ts)) == ts,
        valid_datetime(spec_from_unix_timestamp(ts)),
        spec_from_unix_timestamp(ts).year.0 >= 1970,
{
    let d0 = ts / 86400;
    assert(((ts / 86400) as i32) as int == d0);
    lemma_civil_year_sound(1970, d0 as int);
    let (y, r) = civil_year(1970, d0 as int);
    lemma_days_before_month_step(y, 1);
    lemma_civil_month_sound(y, r, 1);
    let (m, r2) = civil_month(y, r, 1);
    lemma_split_seconds(ts as int);
    let dt = spec_from_unix_timestamp(ts);
    assert(dt.year.0 == y);
    assert(dt.month.0 == m);
    assert(dt.day.0 == r2 + 1);
    assert(spec_day_number(dt) == d0);
    vstd::arithmetic::div_mod::lemma_mod_bound(ts as int, 60);
    vstd::arithmetic::div_mod::lemma_mod_bound(ts as int / 60, 60);
    vstd::arithmetic::div_mod::lemma_mod_bound(ts as int / 3600, 24);
}

/// The date of timestamp `ts` is day `ts / 86400` counted from 1970-01-01, for every
/// timestamp whose day count fits in an `i32`.
pub proof fn lemma_day_number_of_timestamp(ts: u64)
    requires
        ts / 86400 <= i32::MAX,
    ensures
        spec_day_number(spec_from_unix_timestamp(ts)) == ts / 86400,
        valid_datetime(spec_from_unix_timestamp(ts)),
{
    lemma_from_to_unix_timestamp(ts);
    lemma_split_seconds(ts as int);
}

/// Law: converting an existing date and time from 1970 on to a Unix timestamp and back gives
/// the same date and time, for every date whose day count fits in an `i32`.
pub proof fn lemma_to_from_unix_timestamp(dt: DateTime)
    requires
        valid_datetime(dt),
        dt.year.0 >= 1970,
        spec_day_number(dt) <= i32::MAX,
    ensures
        spec_from_unix_timestamp(spec_to_unix_timestamp(dt) as u64) == dt,
{
    let y = dt.year.0 as int;
    let m = dt.month.0 as int;
    let n = spec_day_number(dt);
    let sod = dt.hour.0 * 3600 + dt.minute.0 * 60 + dt.second.0;
    let ts = spec_to_unix_timestamp(dt);
    lemma_days_before_year_bounds(y);
    lemma_days_before_month_step(y, m);
    lemma_days_before_month_mono(y, 1, m);
    lemma_days_before_month_mono(y, m + 1, 13);
    lemma_days_before_month_step(y, 1);
    assert(0 <= n);
    assert(0 <= sod < 86400);
    assert(ts == n * 86400 + sod);
    assert(ts / 86400 == n && ts % 86400 == sod) by {
        vstd::arithmetic::div_mod::lemma_fundamental_div_mod_converse(ts, 86400, n, sod);
    }
    assert((ts / 3600) % 24 == dt.hour.0 && (ts / 60) % 60 == dt.minute.0 && ts % 60 == dt.second.0) by {
        let h = dt.hour.0 as int;
        let mi = dt.minute.0 as int;
        let s = dt.second.0 as int;
        vstd::arithmetic::div_mod::lemma_fundamental_div_mod_converse(ts, 60, n * 1440 + h * 60 + mi, s);
        vstd::arithmetic::div_mod::lemma_fundamental_div_mod_converse(ts, 3600, n * 24 + h, mi * 60 + s);
        vstd::arithmetic::div_mod::lemma_fundamental_div_mod_converse(ts / 60, 60, n * 24 + h, mi);
        vstd::arithmetic::div_mod::lemma_fundamental_div_mod_converse(ts / 3600, 24, n, h);
    }
    assert(((ts / 86400) as i32) as int == n);
    lemma_civil_year_exact(1970, y, days_before_month(y, m) + dt.day.0 - 1);
    lemma_civil_month_exact(y, 1, m, dt.day.0 - 1);
}


/// Law: the months have their Gregorian lengths: 31, 28 (29 in a leap year), 31, 30, 31,
/// 30, 31, 31, 30, 31, 30 and 31 days.
pub proof fn lemma_month_lengths(y: int, m: int)
    requires
        1 <= m <= 12,
    ensures
        month_len(y, m) == seq![31int, 28, 31, 30, 31, 30, 31, 31, 30, 31, 30, 31][m - 1] + (
        if m == 2 && spec_is_leap_year(y) {
            1int
        } else {
            0
        }),
{
}

/// Law: the days of a year before each month are 0, 31, 59, 90, 120, 151, 181, 212, 243,
/// 273, 304 and 334 (one more from March on in a leap year), and a whole year has 365
/// (366) days.
pub proof fn lemma_days_before_months(y: int, m: int)
    requires
        1 <= m <= 13,
    ensures
        days_before_month(y, m) == seq![0int, 31, 59, 90, 120, 151, 181, 212, 243, 273, 304, 334, 365][m
            - 1] + (if m > 2 && spec_is_leap_year(y) {
            1int
        } else {
            0
        }),
{
    reveal_with_fuel(common_days_before_month, 13);
}

/// Law: a year has 366 days exactly when it is divisible by 4 and not by 100, or by 400.
pub proof fn lemma_year_lengths(y: int)
    ensures
        year_len(y) == if (y % 4 == 0 && y % 100 != 0) || y % 400 == 0 {
            366int
        } else {
            365int
        },
{
}


/// The number of leap years before year `y`, up to a constant: multiples of 4, less those
/// of 100, plus those of 400 (rounding down, also for years before year 1).
pub open spec fn leap_years_before(y: int) -> int {
    (y - 1) / 4 - (y - 1) / 100 + (y - 1) / 400
}

/// Among `1..=y`, one more multiple of `k` than among `1..y` exactly when `k` divides `y`.
proof fn lemma_multiples_step(y: int, k: int)
    requires
        k >= 1,
    ensures
        y / k - (y - 1) / k == if y % k == 0 {
            1int
        } else {
            0int
        },
{
    vstd::arithmetic::div_mod::lemma_fundamental_div_mod(y, k);
    vstd::arithmetic::div_mod::lemma_fundamental_div_mod(y - 1, k);
    let q = y / k;
    let r = y % k;
    if r == 0 {
        assert(y - 1 == (q - 1) * k + (k - 1)) by (nonlinear_arith)
            requires
                y == k * q + r,
                r == 0,
        ;
        vstd::arithmetic::div_mod::lemma_fundamental_div_mod_converse(y - 1, k, q - 1, k - 1);
    } else {
        assert(y - 1 == q * k + (r - 1)) by (nonlinear_arith)
            requires
                y == k * q + r,
        ;
        vstd::arithmetic::div_mod::lemma_fundamental_div_mod_converse(y - 1, k, q, r - 1);
    }
}

/// A multiple of 400 is one of 100, and a multiple of 100 is one of 4.
proof fn lemma_divisors(y: int)
    ensures
        y % 400 == 0 ==> y % 100 == 0,
        y % 100 == 0 ==> y % 4 == 0,
{
    if y % 400 == 0 {
        vstd::arithmetic::div_mod::lemma_fundamental_div_mod(y, 400);
        vstd::arithmetic::div_mod::lemma_fundamental_div_mod_converse(y, 100, (y / 400) * 4, 0);
    }
    if y % 100 == 0 {
        vstd::arithmetic::div_mod::lemma_fundamental_div_mod(y, 100);
        vstd::arithmetic::div_mod::lemma_fundamental_div_mod_converse(y, 4, (y / 100) * 25, 0);
    }
}

/// Law: the day count of the first day of year `y` is 365 days a year from 1970 plus one
/// for each leap year in between (negative before 1970).
pub proof fn lemma_days_before_year_closed(y: int)
    ensures
        days_before_year(y) == 365 * (y - 1970) + leap_years_before(y) - leap_years_before(1970),
    decreases (if y >= 1970 {
        y - 1970
    } else {
        1970 - y
    }),
{
    if y > 1970 {
        lemma_days_before_year_closed(y - 1);
        let p = y - 1;
        lemma_multiples_step(p, 4);
        lemma_multiples_step(p, 100);
        lemma_multiples_step(p, 400);
        lemma_divisors(p);
    } else if y < 1970 {
        lemma_days_before_year_closed(y + 1);
        lemma_multiples_step(y, 4);
        lemma_multiples_step(y, 100);
        lemma_multiples_step(y, 400);
        lemma_divisors(y);
    }
}

} // verus!
