use autocitefetch::{BlockingTimer, Clock, SystemClock, Timestamp};
use autocitefetch::env::clock_reading;
use std::time::Duration;

#[test]
fn now_is_a_plausible_epoch_millisecond_value() {
    let ms = SystemClock.now().as_millis();
    // 2020-01-01 .. 2100-01-01, in ms since the epoch. Wide enough not to
    // be flaky, narrow enough to catch a seconds/nanos unit mix-up.
    assert!(
        (1_577_836_800_000..4_102_444_800_000).contains(&ms),
        "implausible timestamp: {ms}"
    );
}

#[test]
fn now_is_non_decreasing() {
    let a = SystemClock.now().as_millis();
    let b = SystemClock.now().as_millis();
    assert!(b >= a, "clock went backwards: {a} then {b}");
}

#[test]
fn a_clock_before_the_epoch_reads_as_the_epoch() {
    assert_eq!(clock_reading(None), Timestamp::from_millis(0));
    assert_eq!(
        clock_reading(Some(Duration::from_micros(1_999))),
        Timestamp::from_millis(1)
    );
    assert_eq!(clock_reading(Some(Duration::MAX)), Timestamp::from_millis(i64::MAX));
}

#[test]
fn only_a_wait_of_zero_needs_no_sleep() {
    let timer = BlockingTimer::new();
    assert!(!timer.needs_sleep(Duration::ZERO));
    assert!(timer.needs_sleep(Duration::from_nanos(1)));
}
