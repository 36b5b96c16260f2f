use asleep::duration::{Days, Hours, Minutes, PollInterval, Seconds};
use asleep::parse::{parse_duration, ParseDurationError};

#[test]
fn test_format_human() {
    assert_eq!(Seconds(0).to_string(), "0s");
    assert_eq!(Seconds(60).to_string(), "1m");
    assert_eq!(Seconds(65).to_string(), "1m5s");
    assert_eq!(Seconds(3600).to_string(), "1h");
    assert_eq!(Seconds(3661).to_string(), "1h1m1s");
    assert_eq!(Seconds(86400).to_string(), "1d");
    assert_eq!(Seconds(86400 + 3600 + 60 + 1).to_string(), "1d1h1m1s");
}

#[test]
fn human_form_skips_zero_parts() {
    assert_eq!(Seconds(86400 + 5).to_string(), "1d5s");
    assert_eq!(Seconds(7200 + 120).to_string(), "2h2m");
    assert_eq!(Seconds(59).to_string(), "59s");
}

#[test]
fn human_form_of_largest_value() {
    assert_eq!(
        Seconds(u64::MAX).to_string(),
        "213503982334601d7h15s"
    );
}

#[test]
fn write_human_appends() {
    let mut buf = b"left: ".to_vec();
    Seconds(3725).write_human(&mut buf);
    assert_eq!(buf, b"left: 1h2m5s".to_vec());
}

#[test]
fn human_form_parses_back() {
    for n in [0u64, 1, 59, 60, 61, 3599, 3600, 86399, 86400, 90061, 1_000_000, u64::MAX] {
        let text = Seconds(n).to_string();
        assert_eq!(parse_duration(&text), Ok(Seconds(n)));
    }
}

#[test]
fn checked_add_detects_overflow() {
    assert_eq!(Seconds(2).checked_add(Seconds(3)), Some(Seconds(5)));
    assert_eq!(Seconds(u64::MAX).checked_add(Seconds(0)), Some(Seconds(u64::MAX)));
    assert_eq!(Seconds(u64::MAX).checked_add(Seconds(1)), None);
}

#[test]
fn poll_interval_defaults_to_one_second() {
    assert_eq!(PollInterval::default(), PollInterval(Seconds(1)));
}

#[test]
fn duration_error_messages() {
    assert_eq!(ParseDurationError::InvalidInput.as_str(), "Invalid input");
    assert_eq!(ParseDurationError::EmptyInput.as_str(), "Empty input");
    assert_eq!(ParseDurationError::InvalidNumber.as_str(), "Invalid number");
    assert_eq!(ParseDurationError::InvalidUnit.as_str(), "Invalid unit");
    assert_eq!(ParseDurationError::Overflow.as_str(), "Duration overflow");
}

#[test]
fn unit_letters_ignore_case() {
    for (upper, lower) in [("1D2H3M4S", "1d2h3m4s"), ("5M", "5m"), ("7X", "7x"), (" 3H ", " 3h ")] {
        assert_eq!(parse_duration(upper), parse_duration(lower));
    }
}

#[test]
fn parts_joined_by_a_space_add_up() {
    for (a, b) in [("1h", "30m"), ("1d2h", "3m4s"), ("5M", "10"), ("0s", "0")] {
        let (da, db) = (parse_duration(a).unwrap(), parse_duration(b).unwrap());
        assert_eq!(
            parse_duration(&format!("{} {}", a, b)),
            Ok(Seconds(da.0 + db.0))
        );
    }
}

#[test]
fn padded_parts_add_up_unless_the_join_is_not_ascii() {
    assert_eq!(parse_duration(" 1h\t"), Ok(Seconds(3600)));
    assert_eq!(parse_duration(&format!("{} {}", " 1h\t", "\n30m ")), Ok(Seconds(5400)));
    assert_eq!(parse_duration("1h\u{a0}"), Ok(Seconds(3600)));
    assert_eq!(
        parse_duration(&format!("{} {}", "1h\u{a0}", "30m")),
        Err(ParseDurationError::InvalidInput)
    );
}

#[test]
fn larger_units_in_seconds() {
    assert_eq!(Minutes(2).to_seconds(), Seconds(120));
    assert_eq!(Hours(3).to_seconds(), Seconds(10800));
    assert_eq!(Days(1).to_seconds(), Seconds(86400));
}
