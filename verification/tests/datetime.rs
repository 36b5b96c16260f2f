use asleep::datetime::{
    from_unix_timestamp, is_leap_year, to_unix_timestamp, DateTime, Day, Hour24, Minute, Month,
    Second, Year,
};

fn dt(y: i32, mo: u8, d: u8, h: u8, mi: u8, s: u8) -> DateTime {
    DateTime {
        year: Year(y),
        month: Month(mo),
        day: Day(d),
        hour: Hour24(h),
        minute: Minute(mi),
        second: Second(s),
    }
}

#[test]
fn leap_years_follow_the_gregorian_rule() {
    assert!(is_leap_year(2024));
    assert!(!is_leap_year(2023));
    assert!(!is_leap_year(1900));
    assert!(is_leap_year(2000));
    assert!(is_leap_year(-4));
    assert!(!is_leap_year(-100));
}

#[test]
fn constructors_check_ranges() {
    assert_eq!(Month::new(0), None);
    assert_eq!(Month::new(1), Some(Month(1)));
    assert_eq!(Month::new(12), Some(Month(12)));
    assert_eq!(Month::new(13), None);
    assert_eq!(Hour24::new(23), Some(Hour24(23)));
    assert_eq!(Hour24::new(24), None);
    assert_eq!(Minute::new(59), Some(Minute(59)));
    assert_eq!(Minute::new(60), None);
    assert_eq!(Second::new(59), Some(Second(59)));
    assert_eq!(Second::new(60), None);
}

#[test]
fn days_depend_on_month_and_leap_year() {
    assert_eq!(Day::new(29, Year(2024), Month(2)), Some(Day(29)));
    assert_eq!(Day::new(29, Year(2023), Month(2)), None);
    assert_eq!(Day::new(31, Year(2023), Month(4)), None);
    assert_eq!(Day::new(30, Year(2023), Month(4)), Some(Day(30)));
    assert_eq!(Day::new(31, Year(2023), Month(12)), Some(Day(31)));
    assert_eq!(Day::new(0, Year(2023), Month(1)), None);
    assert_eq!(Day::new(1, Year(2023), Month(13)), None);
}

#[test]
fn known_timestamps() {
    assert_eq!(to_unix_timestamp(dt(1970, 1, 1, 0, 0, 0)), 0);
    assert_eq!(to_unix_timestamp(dt(2026, 4, 23, 8, 0, 0)), 1776931200);
    assert_eq!(to_unix_timestamp(dt(2099, 1, 1, 12, 0, 0)), 4070952000);
    assert_eq!(to_unix_timestamp(dt(2024, 2, 29, 0, 0, 0)), 1709164800);
}

#[test]
fn moments_before_1970_give_zero() {
    assert_eq!(to_unix_timestamp(dt(1969, 1, 2, 0, 0, 0)), 0);
    assert_eq!(to_unix_timestamp(dt(1969, 12, 31, 23, 59, 59)), 0);
    assert_eq!(to_unix_timestamp(dt(1, 1, 1, 0, 0, 0)), 0);
    assert_eq!(to_unix_timestamp(dt(i32::MIN, 1, 1, 0, 0, 0)), 0);
    assert_eq!(to_unix_timestamp(dt(1970, 1, 1, 0, 0, 1)), 1);
}

#[test]
fn dates_of_known_timestamps() {
    assert_eq!(from_unix_timestamp(0), dt(1970, 1, 1, 0, 0, 0));
    assert_eq!(from_unix_timestamp(1709164800 + 3661), dt(2024, 2, 29, 1, 1, 1));
    assert_eq!(from_unix_timestamp(4070952000), dt(2099, 1, 1, 12, 0, 0));
}

#[test]
fn timestamp_roundtrip() {
    for ts in [0u64, 59, 86399, 86400, 951782400, 1709164800, 1776931200, 4070952000, 253402300799] {
        assert_eq!(to_unix_timestamp(from_unix_timestamp(ts)), ts);
    }
}

#[test]
fn date_roundtrip() {
    for d in [
        dt(1970, 1, 1, 0, 0, 0),
        dt(2000, 2, 29, 23, 59, 59),
        dt(2023, 12, 31, 12, 30, 15),
        dt(2100, 3, 1, 6, 7, 8),
    ] {
        assert_eq!(from_unix_timestamp(to_unix_timestamp(d)), d);
    }
}
