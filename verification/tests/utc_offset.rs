use asleep::utc_offset::{utc_offset_from_bias, utc_offset_hours};
use chrono::{Local, Offset};

#[test]
fn test_hours_consistency() {
    let seconds = Local::now().offset().fix().local_minus_utc();
    assert_eq!(utc_offset_hours(seconds), seconds / 3600);
}

#[test]
fn offset_hours_round_toward_zero() {
    assert_eq!(utc_offset_hours(0), 0);
    assert_eq!(utc_offset_hours(7200), 2);
    assert_eq!(utc_offset_hours(19800), 5);
    assert_eq!(utc_offset_hours(-18000), -5);
    assert_eq!(utc_offset_hours(-12600), -3);
    assert_eq!(utc_offset_hours(3599), 0);
    assert_eq!(utc_offset_hours(-3599), 0);
    assert_eq!(utc_offset_hours(i32::MIN), i32::MIN / 3600);
}

#[test]
fn offset_from_time_zone_bias() {
    assert_eq!(utc_offset_from_bias(-60, false, 0, -60), Some(3600));
    assert_eq!(utc_offset_from_bias(300, true, 0, -60), Some(-14400));
    assert_eq!(utc_offset_from_bias(300, false, 0, -60), Some(-18000));
    assert_eq!(utc_offset_from_bias(-330, false, 0, -60), Some(19800));
    assert_eq!(utc_offset_from_bias(i32::MAX, false, 1, 0), None);
    assert_eq!(utc_offset_from_bias(i32::MIN, false, 0, 0), None);
    assert_eq!(utc_offset_from_bias(40_000_000, false, 0, 0), None);
}
