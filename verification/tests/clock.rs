use pullcept::clock::{civil_date, iso_stamp, now_iso, stamp_after};
use std::time::Duration;

#[test]
fn a_moment_is_written_to_the_millisecond() {
    assert_eq!(iso_stamp(0, 0), "1970-01-01T00:00:00.000Z");
    assert_eq!(iso_stamp(951_782_399, 7), "2000-02-28T23:59:59.007Z");
    assert_eq!(iso_stamp(951_782_400, 70), "2000-02-29T00:00:00.070Z");
    assert_eq!(iso_stamp(4_107_542_399, 999), "2100-02-28T23:59:59.999Z");
    assert_eq!(iso_stamp(4_107_542_400, 0), "2100-03-01T00:00:00.000Z");
    assert_eq!(iso_stamp(1_789_603_200, 0), "2026-09-17T00:00:00.000Z");
    assert_eq!(iso_stamp(253_402_300_800, 0), "10000-01-01T00:00:00.000Z");
}

#[test]
fn every_day_follows_the_one_before_it() {
    let mut before = civil_date(0);
    for number in 1..200_000u64 {
        let date = civil_date(number);
        let next_day = date.year == before.year && date.month == before.month
            && date.day == before.day + 1;
        let next_month = date.year == before.year && date.month == before.month + 1
            && date.day == 1 && before.day >= 28;
        let next_year = date.year == before.year + 1 && (date.month, date.day) == (1, 1)
            && (before.month, before.day) == (12, 31);
        assert!(next_day || next_month || next_year, "{number}");
        before = date;
    }
}

#[test]
fn the_present_moment_is_a_stamp_of_this_shape() {
    let text = now_iso();
    assert_eq!(text.len(), 24);
    let shape: String = text
        .chars()
        .map(|c| if c.is_ascii_digit() { '0' } else { c })
        .collect();
    assert_eq!(shape, "0000-00-00T00:00:00.000Z");
    assert!(text.as_str() > "2020");
    let clock = std::time::SystemTime::now()
        .duration_since(std::time::UNIX_EPOCH)
        .expect("after the epoch");
    assert_eq!(text[..10], iso_stamp(clock.as_secs(), 0)[..10]);
}

#[test]
fn a_stretch_of_time_is_written_from_the_epoch_on() {
    assert_eq!(stamp_after(None), "1970-01-01T00:00:00.000Z");
    assert_eq!(
        stamp_after(Some(Duration::new(86_399, 12_999_999))),
        "1970-01-01T23:59:59.012Z"
    );
}

#[test]
fn later_readings_give_later_stamps_of_one_length() {
    let readings = [
        (0, 0),
        (0, 1),
        (59, 999),
        (60, 0),
        (86_399, 999),
        (86_400, 0),
        (951_782_400, 5),
        (1_789_603_200, 0),
        (253_402_300_799, 999),
    ];
    for pair in readings.windows(2) {
        let before = iso_stamp(pair[0].0, pair[0].1);
        let behind = iso_stamp(pair[1].0, pair[1].1);
        assert!(before < behind, "{before} {behind}");
        assert_eq!((before.len(), behind.len()), (24, 24));
    }
}
