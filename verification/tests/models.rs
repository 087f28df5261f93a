use dl_omni::models::{Task, TaskStatus};

#[test]
fn new_task_is_pending_and_stamped_now() {
    let before = chrono::Utc::now().timestamp_millis();
    let t = Task::new(
        "a".to_string(),
        "https://x/y.mp4".to_string(),
        "Y".to_string(),
        Some("thumb".to_string()),
        "direct".to_string(),
        Some("1-3".to_string()),
        Some("{\"Referer\":\"r\"}".to_string()),
    )
    .expect("the system clock is readable");
    let after = chrono::Utc::now().timestamp_millis();
    assert_eq!(t.status, TaskStatus::Pending);
    assert_eq!(t.total_bytes, 0);
    assert_eq!(t.downloaded_bytes, 0);
    assert_eq!(t.eta, 0);
    assert!(t.error_msg.is_none());
    assert_eq!(t.thumbnail.as_deref(), Some("thumb"));
    assert_eq!(t.playlist_items.as_deref(), Some("1-3"));
    assert!(before <= t.created_at && t.created_at <= after);
}

#[test]
fn task_with_given_time() {
    let t = Task::with_creation_time(
        "b".to_string(),
        "u".to_string(),
        "t".to_string(),
        None,
        "f".to_string(),
        None,
        None,
        1234,
    );
    assert_eq!(t.created_at, 1234);
    assert_eq!(t.status, TaskStatus::Pending);
}
