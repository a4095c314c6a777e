use chess_core::time_control::{deadline_passed, SearchLimits, TimeControl};
use std::time::Duration;

#[test]
fn test_search_limits_depth_only() {
    let limits = SearchLimits::depth(5);
    assert_eq!(limits.depth, 5);
    assert!(limits.move_time.is_none());
    assert!(!limits.should_stop());
}

#[test]
fn test_search_limits_with_time() {
    let limits = SearchLimits::depth_and_time(4, Duration::from_millis(100));
    assert_eq!(limits.depth, 4);
    assert_eq!(limits.move_time, Some(Duration::from_millis(100)));
}

#[test]
fn test_time_control_manual_stop() {
    let tc = TimeControl::new(None);
    tc.start();
    assert!(!tc.is_stopped());
    tc.stop();
    assert!(tc.is_stopped());
}

#[test]
fn time_limit_reached_stops() {
    let tc = TimeControl::new(Some(Duration::from_millis(0)));
    tc.start();
    assert!(tc.check_time());
    assert!(tc.is_stopped());
}

#[test]
fn no_limit_never_stops_by_itself() {
    let tc = TimeControl::new(None);
    tc.start();
    assert!(!tc.check_time());
    assert!(tc.remaining().is_none());
}

#[test]
fn check_interval_is_1024_nodes() {
    let tc = TimeControl::new(None);
    assert!(tc.should_check_time(0));
    assert!(!tc.should_check_time(1));
    assert!(tc.should_check_time(2048));
}

#[test]
fn time_only_limits_have_no_depth_cap() {
    let limits = SearchLimits::time(Duration::from_millis(5));
    assert_eq!(limits.depth, u8::MAX);
    let tc = TimeControl::new(Some(Duration::from_secs(3600)));
    tc.start();
    assert!(tc.remaining().unwrap() <= Duration::from_secs(3600));
}

#[test]
fn deadline_rule() {

    assert!(!deadline_passed(0, 500, 10));
    assert!(!deadline_passed(100, 105, 10));
    assert!(deadline_passed(100, 110, 10));
    assert!(!deadline_passed(100, 90, 0));
}
