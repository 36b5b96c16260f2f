use asleep::parse::{checked_parse_datetime, parse_datetime, ParseDateTimeError};

const NOW: i64 = 1_776_931_200; // 2026-04-23 08:00:00 UTC

#[test]
fn unix_timestamps_must_lie_ahead() {
    assert_eq!(parse_datetime("@1776931201", NOW, 0), Ok(1_776_931_201));
    assert_eq!(parse_datetime("@1776931200", NOW, 0), Err(ParseDateTimeError::PastTime));
    assert_eq!(parse_datetime("@0", NOW, 0), Err(ParseDateTimeError::PastTime));
    assert_eq!(parse_datetime("@", NOW, 0), Err(ParseDateTimeError::InvalidFormat));
    assert_eq!(parse_datetime("@12ab", NOW, 0), Err(ParseDateTimeError::InvalidFormat));
}

#[test]
fn before_the_epoch_only_timestamps_are_read() {
    assert_eq!(parse_datetime("@5", -10, 0), Ok(5));
    assert_eq!(parse_datetime("10:00", -10, 0), Err(ParseDateTimeError::InvalidValue));
}

#[test]
fn empty_and_garbage_are_format_errors() {
    assert_eq!(parse_datetime("", NOW, 0), Err(ParseDateTimeError::InvalidFormat));
    assert_eq!(parse_datetime("   ", NOW, 0), Err(ParseDateTimeError::InvalidFormat));
    assert_eq!(parse_datetime("soon", NOW, 0), Err(ParseDateTimeError::InvalidFormat));
    assert_eq!(parse_datetime("25:00", NOW, 0), Err(ParseDateTimeError::InvalidFormat));
}

#[test]
fn time_only_today_or_tomorrow() {
    // 09:00 UTC is one hour ahead.
    assert_eq!(parse_datetime("09:00", NOW, 0), Ok(NOW as u64 + 3600));
    // 07:00 UTC has passed: tomorrow.
    assert_eq!(parse_datetime("07:00", NOW, 0), Ok(NOW as u64 + 23 * 3600));
    // Exactly now is not ahead: tomorrow.
    assert_eq!(parse_datetime("08:00", NOW, 0), Ok(NOW as u64 + 86400));
    // 10:00 at UTC+2 is 08:00 UTC: tomorrow.
    assert_eq!(parse_datetime("10:00", NOW, 7200), Ok(NOW as u64 + 86400));
    assert_eq!(parse_datetime("11:00+02:00", NOW, 0), Ok(NOW as u64 + 3600));
    assert_eq!(parse_datetime("6pm", NOW, 0), Ok(NOW as u64 + 10 * 3600));
}

#[test]
fn time_only_deadlines_stay_within_a_day() {
    for text in ["00:00", "07:59:59", "08:00:01", "23:59:59", "12am", "11:30pm-05:00", "06:00Z"] {
        for local in [-36000, -18000, 0, 19800, 50400] {
            let v = parse_datetime(text, NOW, local).unwrap() as i64;
            assert!(NOW < v && v <= NOW + 86400, "{} at {}", text, local);
        }
    }
}

#[test]
fn tomorrow_is_the_next_local_midnight() {
    assert_eq!(parse_datetime("tomorrow", NOW, 0), Ok(NOW as u64 + 16 * 3600));
    let v = parse_datetime("tomorrow", NOW, 7200).unwrap();
    assert_eq!(v, NOW as u64 + 14 * 3600);
    assert_eq!((v as i64 + 7200) % 86400, 0);
}

#[test]
fn tomorrow_with_a_time() {
    assert_eq!(parse_datetime("tomorrow 8am", NOW, 0), Ok(NOW as u64 + 86400));
    assert_eq!(parse_datetime("tomorrow 10:00Z", NOW, 3600), Ok(NOW as u64 + 86400 + 7200));
    assert_eq!(parse_datetime("tomorrow 25:00", NOW, 0), Err(ParseDateTimeError::InvalidValue));
    assert_eq!(parse_datetime("tomorrow x", NOW, 0), Err(ParseDateTimeError::InvalidFormat));
    assert_eq!(parse_datetime("tomorrow  9:00", NOW, 0), Ok(NOW as u64 + 86400 + 3600));
}

#[test]
fn full_dates() {
    assert_eq!(parse_datetime("2099-01-01 12:00:00", NOW, 0), Ok(4_070_952_000));
    assert_eq!(parse_datetime("2099-01-01 12:00:00", NOW, 3600), Ok(4_070_948_400));
    assert_eq!(parse_datetime("2099-01-01", NOW, 0), Ok(4_070_908_800));
    assert_eq!(parse_datetime("2026-12-25 10:00:00+02:00", NOW, 0), Ok(1_798_185_600));
    assert_eq!(parse_datetime("2020-01-01 00:00", NOW, 0), Err(ParseDateTimeError::PastTime));
    assert_eq!(parse_datetime("2026-02-30", NOW, 0), Err(ParseDateTimeError::InvalidValue));
    assert_eq!(parse_datetime("2026-13-01", NOW, 0), Err(ParseDateTimeError::InvalidValue));
    assert_eq!(parse_datetime("20x6-01-01", NOW, 0), Err(ParseDateTimeError::InvalidFormat));
    assert_eq!(parse_datetime("2099-01-01 99:00", NOW, 0), Err(ParseDateTimeError::InvalidValue));
}

#[test]
fn computations_without_a_result() {
    assert_eq!(checked_parse_datetime("@9223372036854775808", NOW, 0), None);
    assert_eq!(
        checked_parse_datetime("12:00+99999999:00", NOW, 0),
        Some(Err(ParseDateTimeError::InvalidFormat))
    );
    assert_eq!(checked_parse_datetime("12:00+1\u{e9}2", NOW, 0), None);
    assert_eq!(checked_parse_datetime("@9223372036854775807", NOW, 0), Some(Ok(9_223_372_036_854_775_807)));
}

#[test]
fn error_messages() {
    assert_eq!(ParseDateTimeError::InvalidFormat.as_str(), "Invalid datetime format");
    assert_eq!(ParseDateTimeError::InvalidValue.as_str(), "Invalid date/time value");
    assert_eq!(ParseDateTimeError::PastTime.as_str(), "Specified time is in the past");
}

#[test]
fn written_offsets_ignore_the_local_offset() {
    for text in ["09:00Z", "10:00+02:00", "tomorrow 06:00 UTC", "2026-04-23 09:00-01:00", "2030-01-01 00:00Z"] {
        let base = parse_datetime(text, NOW, 0);
        for local in [-43200, -3600, 3600, 19800, 50400] {
            assert_eq!(parse_datetime(text, NOW, local), base, "{} at {}", text, local);
        }
    }
}

#[test]
fn fields_beyond_a_byte_are_out_of_range() {
    assert_eq!(parse_datetime("256:00", NOW, 0), Err(ParseDateTimeError::InvalidFormat));
    assert_eq!(parse_datetime("2099-01-01 256:00", NOW, 0), Err(ParseDateTimeError::InvalidValue));
    assert_eq!(parse_datetime("tomorrow 12:300", NOW, 0), Err(ParseDateTimeError::InvalidValue));
}
