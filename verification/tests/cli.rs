use asleep::args::{parse, Action, CliError, Config};
use asleep::duration::{PollInterval, Seconds};
use asleep::parse::{ParseDateTimeError, ParseDurationError};
use std::time::{SystemTime, UNIX_EPOCH};

const NOW: i64 = 1_776_931_200; // 2026-04-23 08:00:00 UTC

fn args(list: &[&str]) -> Vec<String> {
    list.iter().map(|s| s.to_string()).collect()
}

fn run(list: &[&str]) -> Action {
    parse(&args(list), NOW, 0, 0)
}

fn sleep_of(action: Action) -> Config {
    match action {
        Action::Sleep(c) => c,
        other => panic!("expected a sleep, got {:?}", other),
    }
}

fn now_parts() -> (i64, u32) {
    let d = SystemTime::now().duration_since(UNIX_EPOCH).unwrap();
    (d.as_secs() as i64, d.subsec_nanos())
}

#[test]
fn test_help() {
    assert!(matches!(run(&["--help"]), Action::ShowHelp));
    assert!(matches!(run(&["-h"]), Action::ShowHelp));
}

#[test]
fn test_version() {
    assert!(matches!(run(&["--version"]), Action::ShowVersion));
    assert!(matches!(run(&["-V"]), Action::ShowVersion));
}

#[test]
fn test_invalid_duration() {
    match run(&["invalid"]) {
        Action::Fail(CliError::BadDuration(s, e)) => {
            assert_eq!(s, "invalid");
            assert_eq!(e, ParseDurationError::InvalidInput);
        }
        other => panic!("unexpected {:?}", other),
    }
}

#[test]
fn test_duration_sleep() {
    let c = sleep_of(run(&["1s", "--no-progress"]));
    assert_eq!(
        c,
        Config {
            duration_nanos: 1_000_000_000,
            poll_interval: PollInterval(Seconds(1)),
            show_progress: false,
            suspend_aware: true,
        }
    );
}

#[test]
fn test_multiple_durations() {
    let c = sleep_of(run(&["1s", "2s", "1s", "--no-progress"]));
    assert_eq!(c.duration_nanos, 4_000_000_000);
}

#[test]
fn test_until_past_fails() {
    match run(&["--until", "@0"]) {
        Action::Fail(CliError::BadDatetime(s, e)) => {
            assert_eq!(s, "@0");
            assert_eq!(e, ParseDateTimeError::PastTime);
            assert!(e.as_str().contains("in the past"));
        }
        other => panic!("unexpected {:?}", other),
    }
}

#[test]
fn test_until_timestamp() {
    let (secs, nanos) = now_parts();
    let future = format!("@{}", secs + 1);
    let c = sleep_of(parse(&args(&["--until", &future, "--no-progress"]), secs, nanos, 0));
    assert_eq!(c.duration_nanos, 1_000_000_000 - nanos as u128);
    assert!(!c.show_progress);
}

#[test]
fn test_until_time_only() {
    let c = sleep_of(run(&["--until", "23:59:59", "--no-progress"]));
    assert_eq!(c.duration_nanos, (15 * 3600 + 59 * 60 + 59) as u128 * 1_000_000_000);
}

#[test]
fn test_until_tomorrow() {
    let c = sleep_of(run(&["--until", "tomorrow 10:00", "--no-progress"]));
    assert_eq!(c.duration_nanos, (86400 + 7200) as u128 * 1_000_000_000);
}

#[test]
fn test_until_full_date() {
    let c = sleep_of(run(&["--until", "2099-01-01 12:00:00", "--no-progress"]));
    assert_eq!(c.duration_nanos, (4_070_952_000 - NOW) as u128 * 1_000_000_000);
}

#[test]
fn test_no_progress_flag() {
    let c = sleep_of(run(&["1s", "--no-progress"]));
    assert!(!c.show_progress);
    assert!(c.suspend_aware);
}

#[test]
fn test_monotonic_flag() {
    let c = sleep_of(run(&["1s", "--monotonic", "--no-progress"]));
    assert!(!c.suspend_aware);
    assert!(!c.show_progress);
}

#[test]
fn test_short_flags() {
    let c = sleep_of(run(&["1s", "-n", "-m"]));
    assert!(!c.show_progress);
    assert!(!c.suspend_aware);
    assert_eq!(c.duration_nanos, 1_000_000_000);
}

#[test]
fn test_until_short_flag() {
    let (secs, nanos) = now_parts();
    let future = format!("@{}", secs + 1);
    let c = sleep_of(parse(&args(&["-u", &future, "-n"]), secs, nanos, 0));
    assert_eq!(c.duration_nanos, 1_000_000_000 - nanos as u128);
    assert!(!c.show_progress);
}

#[test]
fn no_arguments() {
    assert!(matches!(run(&[]), Action::Fail(CliError::NoArguments)));
}

#[test]
fn only_flags() {
    assert!(matches!(run(&["-n", "-m"]), Action::Fail(CliError::NoDuration)));
}

#[test]
fn unknown_flag_is_named() {
    match run(&["1s", "--fast", "--help"]) {
        Action::Fail(CliError::UnknownFlag(s)) => assert_eq!(s, "--fast"),
        other => panic!("unexpected {:?}", other),
    }
}

#[test]
fn first_of_help_and_unknown_wins() {
    assert!(matches!(run(&["--help", "--fast"]), Action::ShowHelp));
    assert!(matches!(run(&["-V", "-h"]), Action::ShowVersion));
}

#[test]
fn until_needs_a_value() {
    assert!(matches!(run(&["--until"]), Action::Fail(CliError::UntilWithoutValue)));
    assert!(matches!(run(&["--until", "-n"]), Action::Fail(CliError::UntilWithoutValue)));
}

#[test]
fn until_and_durations_conflict() {
    assert!(matches!(run(&["5s", "-u", "@2000000000"]), Action::Fail(CliError::DurationAndUntil)));
}

#[test]
fn until_value_words_are_joined() {
    let c = sleep_of(run(&["-u", "tomorrow", "8am", "-n"]));
    assert_eq!(c.duration_nanos, 86400 * 1_000_000_000);
    match run(&["-u", "tomorrow", "8am", "5s"]) {
        Action::Fail(CliError::BadDatetime(s, _)) => assert_eq!(s, "tomorrow 8am 5s"),
        other => panic!("unexpected {:?}", other),
    }
}

#[test]
fn durations_add_up_and_overflow() {
    let c = sleep_of(run(&["1h", "30m", "15"]));
    assert_eq!(c.duration_nanos, 5415 * 1_000_000_000);
    assert!(c.show_progress);
    assert!(matches!(
        run(&["18446744073709551615", "1"]),
        Action::Fail(CliError::DurationOverflow)
    ));
    match run(&["1s", "2y", "x"]) {
        Action::Fail(CliError::BadDuration(s, e)) => {
            assert_eq!(s, "2y");
            assert_eq!(e, ParseDurationError::InvalidUnit);
        }
        other => panic!("unexpected {:?}", other),
    }
}

#[test]
fn deadline_out_of_range() {
    assert!(matches!(
        run(&["-u", "@9223372036854775808"]),
        Action::Fail(CliError::DeadlineOutOfRange)
    ));
}
