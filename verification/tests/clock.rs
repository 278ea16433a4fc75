//! Timestamps of clock readings and the representable range.

use showback_forge::time::{current_timestamp, timestamp_of_reading, MAX_TIMESTAMP, MIN_TIMESTAMP};

#[test]
fn range_is_that_of_chrono() {
    assert_eq!(chrono::DateTime::<chrono::Utc>::MIN_UTC.timestamp(), MIN_TIMESTAMP);
    assert_eq!(chrono::DateTime::<chrono::Utc>::MAX_UTC.timestamp(), MAX_TIMESTAMP);
    assert!(chrono::DateTime::<chrono::Utc>::from_timestamp(MIN_TIMESTAMP, 0).is_some());
    assert!(chrono::DateTime::<chrono::Utc>::from_timestamp(MIN_TIMESTAMP - 1, 0).is_none());
    assert!(chrono::DateTime::<chrono::Utc>::from_timestamp(MAX_TIMESTAMP + 1, 0).is_none());
}

#[test]
fn readings_after_the_epoch_keep_their_whole_seconds() {
    assert_eq!(timestamp_of_reading(false, 1_767_225_600, 999_999_999), 1_767_225_600);
    assert_eq!(timestamp_of_reading(false, 0, 0), 0);
}

#[test]
fn readings_before_the_epoch_round_down() {
    assert_eq!(timestamp_of_reading(true, 10, 0), -10);
    assert_eq!(timestamp_of_reading(true, 10, 1), -11);
    assert_eq!(timestamp_of_reading(true, 0, 500), -1);
}

#[test]
fn readings_out_of_range_are_held_at_its_ends() {
    assert_eq!(timestamp_of_reading(false, u64::MAX, 0), MAX_TIMESTAMP);
    assert_eq!(timestamp_of_reading(true, u64::MAX, 7), MIN_TIMESTAMP);
    assert_eq!(timestamp_of_reading(false, MAX_TIMESTAMP as u64, 5), MAX_TIMESTAMP);
    assert_eq!(timestamp_of_reading(true, (-MIN_TIMESTAMP) as u64, 0), MIN_TIMESTAMP);
    assert_eq!(timestamp_of_reading(true, (-MIN_TIMESTAMP) as u64, 1), MIN_TIMESTAMP);
}

#[test]
fn current_timestamp_is_the_clock() {
    let before = chrono::Utc::now().timestamp();
    let now = current_timestamp();
    let after = chrono::Utc::now().timestamp();
    assert!(before <= now && now <= after);
}
