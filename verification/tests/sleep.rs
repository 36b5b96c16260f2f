use asleep::display::progress_line;
use asleep::duration::{PollInterval, Seconds};
use asleep::sleep::{next_step, poll_nanos, shows_live_progress, Step};

#[test]
fn test_signal_handling() {
    assert_eq!(
        next_step(true, 10_000_000_000, false, PollInterval(Seconds(1))),
        Step::Exit(130)
    );
    assert_eq!(next_step(true, 0, true, PollInterval(Seconds(1))), Step::Exit(130));
}

#[test]
fn deadline_reached_ends_with_zero() {
    assert_eq!(next_step(false, 0, true, PollInterval(Seconds(1))), Step::Exit(0));
    assert_eq!(next_step(false, 5, false, PollInterval(Seconds(0))), Step::Exit(0));
}

#[test]
fn sleeps_until_deadline_or_next_look() {
    assert_eq!(
        next_step(false, 2_500_000_000, false, PollInterval(Seconds(1))),
        Step::Wait { progress: None, nanos: 1_000_000_000 }
    );
    assert_eq!(
        next_step(false, 300_000_000, false, PollInterval(Seconds(1))),
        Step::Wait { progress: None, nanos: 300_000_000 }
    );
    assert_eq!(
        next_step(false, 3_661_500_000_000, true, PollInterval(Seconds(1))),
        Step::Wait { progress: Some(Seconds(3661)), nanos: 200_000_000 }
    );
    assert_eq!(
        next_step(false, 150_000_000, true, PollInterval(Seconds(1))),
        Step::Wait { progress: Some(Seconds(0)), nanos: 150_000_000 }
    );
}

#[test]
fn polling_pace() {
    assert!(shows_live_progress(true, true));
    assert!(!shows_live_progress(true, false));
    assert!(!shows_live_progress(false, true));
    assert_eq!(poll_nanos(true, PollInterval(Seconds(5))), 200_000_000);
    assert_eq!(poll_nanos(false, PollInterval(Seconds(5))), 5_000_000_000);
}

#[test]
fn countdown_line() {
    assert_eq!(progress_line(Seconds(3725)), b"\r\x1b[K1h2m5s".to_vec());
    assert_eq!(progress_line(Seconds(0)), b"\r\x1b[K0s".to_vec());
}
