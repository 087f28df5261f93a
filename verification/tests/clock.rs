use dl_omni::clock::{current_time, utc_time_of};

#[test]
fn converts_seconds_and_nanoseconds() {
    assert_eq!(utc_time_of(0, 0), Some((0, 0)));
    assert_eq!(utc_time_of(1_700_000_000, 123_456_789), Some((1_700_000_000, 1_700_000_000_123)));
    assert_eq!(utc_time_of(u64::MAX, 0), None);
    assert_eq!(utc_time_of(i64::MAX as u64, 0), None);
}

#[test]
fn reads_the_current_time() {
    let (s, ms) = current_time().expect("the system clock is readable");
    let expected = chrono::Utc::now().timestamp();
    assert!((s - expected).abs() <= 2);
    assert!(s * 1000 <= ms && ms < s * 1000 + 1000);
}
