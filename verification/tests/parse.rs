use asleep::datetime::{to_unix_timestamp, DateTime, Day, Hour24, Minute, Month, Second, Year};
use asleep::duration::Seconds;
use asleep::parse::{
    checked_parse_time, parse_datetime, parse_duration, parse_time, ParseDateTimeError,
    ParseDurationError,
};
use chrono::{Local, Offset};

fn local_offset() -> i32 {
    Local::now().offset().fix().local_minus_utc()
}

#[test]
fn test_seconds_only() {
    assert_eq!(parse_duration("90").unwrap(), Seconds(90));
}

#[test]
fn test_single_units() {
    assert_eq!(parse_duration("5s").unwrap(), Seconds(5));
    assert_eq!(parse_duration("5m").unwrap(), Seconds(300));
    assert_eq!(parse_duration("1h").unwrap(), Seconds(3600));
    assert_eq!(parse_duration("1d").unwrap(), Seconds(86400));
}

#[test]
fn test_combined_units() {
    assert_eq!(parse_duration("1h30m").unwrap(), Seconds(3600 + 1800));
    assert_eq!(
        parse_duration("1d2h3m4s").unwrap(),
        Seconds(86400 + 7200 + 180 + 4)
    );
}

#[test]
fn test_whitespace() {
    assert_eq!(parse_duration(" 1h 30m ").unwrap(), Seconds(5400));
}

#[test]
fn test_case_insensitivity() {
    assert_eq!(parse_duration("1H30M").unwrap(), Seconds(5400));
}

#[test]
fn test_empty() {
    assert_eq!(parse_duration(""), Err(ParseDurationError::EmptyInput));
    assert_eq!(parse_duration("   "), Err(ParseDurationError::EmptyInput));
}

#[test]
fn test_invalid() {
    assert!(parse_duration("abc").err().is_some());
    assert!(parse_duration("1x").err().is_some());
}

#[test]
fn test_overflow() {
    assert_eq!(
        parse_duration("1000000000000000000000d").err(),
        Some(ParseDurationError::InvalidNumber)
    );
    assert_eq!(
        parse_duration("9999999999999999999d").err(),
        Some(ParseDurationError::Overflow)
    );
}

#[test]
fn test_parse_datetime_timestamp() {
    let now = 1000;
    let target = parse_datetime("@2000", now, local_offset()).unwrap();
    assert_eq!(target, 2000);
}

#[test]
fn test_parse_datetime_utc_explicit() {
    let now = 0;
    let target_z = parse_datetime("2026-04-23 08:00Z", now, local_offset()).unwrap();
    let expected = to_unix_timestamp(DateTime {
        year: Year(2026),
        month: Month(4),
        day: Day(23),
        hour: Hour24(8),
        minute: Minute(0),
        second: Second(0),
    });
    assert_eq!(target_z, expected);

    let target_utc = parse_datetime("2026-04-23 08:00 UTC", now, local_offset()).unwrap();
    assert_eq!(target_utc, expected);
}

#[test]
fn test_parse_time_utc() {
    let (h, _m, _s, offset) = parse_time("23:59Z").unwrap();
    assert_eq!(offset, Some(0));
    assert_eq!(h, Hour24(23));

    let (h, _m, _s, offset) = parse_time("12:00 UTC").unwrap();
    assert_eq!(offset, Some(0));
    assert_eq!(h, Hour24(12));

    let (_h, _m, _s, offset) = parse_time("08:00").unwrap();
    assert_eq!(offset, None);
}

#[test]
fn test_parse_time_offset() {
    let (_, _, _, offset) = parse_time("12:00+02:00").unwrap();
    assert_eq!(offset, Some(7200));

    let (_, _, _, offset) = parse_time("12:00-05:00").unwrap();
    assert_eq!(offset, Some(-18000));

    let (_, _, _, offset) = parse_time("12:00+0530").unwrap();
    assert_eq!(offset, Some(19800));
}

#[test]
fn test_duration_parsing_mixed_units() {
    assert_eq!(
        parse_duration("1h30m10s").unwrap(),
        Seconds(3600 + 1800 + 10)
    );
    assert_eq!(
        parse_duration("1d2h3m4s").unwrap(),
        Seconds(86400 + 7200 + 180 + 4)
    );
}

#[test]
fn test_duration_parsing_with_standalone_seconds() {
    assert_eq!(parse_duration("500").unwrap(), Seconds(500));
    assert_eq!(parse_duration("1m 1").unwrap(), Seconds(61));
    assert_eq!(parse_duration("2h 10").unwrap(), Seconds(7210));
}

#[test]
fn test_parse_time_am_midnight() {
    let (h, m, _s, _o) = parse_time("12:00am").unwrap();
    assert_eq!(h, Hour24(0));
    assert_eq!(m, Minute(0));

    let (h, m, _s, _o) = parse_time("12:30am").unwrap();
    assert_eq!(h, Hour24(0));
    assert_eq!(m, Minute(30));
}

#[test]
fn test_parse_time_am_morning() {
    let (h, _m, _s, _o) = parse_time("1:00am").unwrap();
    assert_eq!(h, Hour24(1));

    let (h, _m, _s, _o) = parse_time("11:59am").unwrap();
    assert_eq!(h, Hour24(11));
}

#[test]
fn test_parse_time_pm_noon() {
    let (h, m, _s, _o) = parse_time("12:00pm").unwrap();
    assert_eq!(h, Hour24(12));
    assert_eq!(m, Minute(0));

    let (h, m, _s, _o) = parse_time("12:30pm").unwrap();
    assert_eq!(h, Hour24(12));
    assert_eq!(m, Minute(30));
}

#[test]
fn test_parse_time_pm_evening() {
    let (h, _m, _s, _o) = parse_time("1:00pm").unwrap();
    assert_eq!(h, Hour24(13));

    let (h, _m, _s, _o) = parse_time("11:59pm").unwrap();
    assert_eq!(h, Hour24(23));
}

#[test]
fn test_parse_time_am_pm_case_insensitivity() {
    let (h, _m, _s, _o) = parse_time("1:00AM").unwrap();
    assert_eq!(h, Hour24(1));

    let (h, _m, _s, _o) = parse_time("1:00Pm").unwrap();
    assert_eq!(h, Hour24(13));
}

#[test]
fn test_parse_time_am_pm_with_seconds() {
    let (h, _m, s, _o) = parse_time("1:00:05pm").unwrap();
    assert_eq!(h, Hour24(13));
    assert_eq!(s, Second(5));
}

#[test]
fn test_parse_time_am_pm_with_offset() {
    let (_, _, _, offset) = parse_time("1:00pm+02:00").unwrap();
    assert_eq!(offset, Some(7200));
}

#[test]
fn test_parse_time_am_pm_hour_only() {
    let (h, m, _s, _o) = parse_time("6pm").unwrap();
    assert_eq!(h, Hour24(18));
    assert_eq!(m, Minute(0));

    let (h, m, _s, _o) = parse_time("12am").unwrap();
    assert_eq!(h, Hour24(0));
    assert_eq!(m, Minute(0));

    let (h, m, _s, _o) = parse_time("12PM").unwrap();
    assert_eq!(h, Hour24(12));
    assert_eq!(m, Minute(0));
}

#[test]
fn test_parse_time_am_pm_invalid_hours() {
    assert!(parse_time("0:00am").is_err());
    assert!(parse_time("13:00am").is_err());
    assert!(parse_time("0:00pm").is_err());
    assert!(parse_time("13:00pm").is_err());
}

#[test]
fn test_duration_parsing_errors() {
    assert_eq!(parse_duration("abc"), Err(ParseDurationError::InvalidInput));
    assert_eq!(
        parse_duration("-10s"),
        Err(ParseDurationError::InvalidInput)
    );
    assert_eq!(parse_duration("10x"), Err(ParseDurationError::InvalidUnit));
}

#[test]
fn time_fields_out_of_range() {
    assert_eq!(parse_time("256:00"), Err(ParseDateTimeError::InvalidValue));
    assert_eq!(parse_time("12:300"), Err(ParseDateTimeError::InvalidValue));
    assert_eq!(parse_time("12:00:256"), Err(ParseDateTimeError::InvalidValue));
    assert_eq!(parse_time("24:00"), Err(ParseDateTimeError::InvalidValue));
    assert_eq!(parse_time("268pm"), Err(ParseDateTimeError::InvalidValue));
    assert_eq!(parse_time("12"), Err(ParseDateTimeError::InvalidFormat));
    assert_eq!(parse_time("1:2:3:4"), Err(ParseDateTimeError::InvalidFormat));
}

#[test]
fn offsets_beyond_the_range_are_refused() {
    assert_eq!(parse_time("12:00+4294967298:00"), Err(ParseDateTimeError::InvalidFormat));
    assert_eq!(parse_time("12:00+596524:00"), Err(ParseDateTimeError::InvalidFormat));
    let (_, _, _, offset) = parse_time("12:00-596523:14").unwrap();
    assert_eq!(offset, Some(-(596523 * 3600 + 14 * 60)));
    assert_eq!(parse_time("12:00+5"), Err(ParseDateTimeError::InvalidFormat));
}

#[test]
fn checked_time_parsing() {
    assert_eq!(checked_parse_time("12:00+1\u{e9}2"), None);
    assert_eq!(
        checked_parse_time("6pm"),
        Some(Ok((Hour24(18), Minute(0), Second(0), None)))
    );
    assert_eq!(checked_parse_time("x"), Some(Err(ParseDateTimeError::InvalidFormat)));
}
