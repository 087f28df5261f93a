use dl_omni::dispatch::{choose_engine, failure_message, settle_task, start_task, Engine};
use dl_omni::models::{Task, TaskStatus};

fn task(format_id: &str, headers: Option<&str>) -> Task {
    Task::with_creation_time(
        "id1".to_string(),
        "https://example.com/v".to_string(),
        "title".to_string(),
        None,
        format_id.to_string(),
        None,
        headers.map(|h| h.to_string()),
        0,
    )
}

#[test]
fn m3u8_never_goes_native() {
    assert_eq!(choose_engine(&task("direct", Some("{}")), true, true), Engine::YtDlp);
    assert_eq!(choose_engine(&task("best", None), true, false), Engine::YtDlp);
}

#[test]
fn native_when_forced_or_direct() {
    assert_eq!(choose_engine(&task("direct", None), false, false), Engine::Native);
    assert_eq!(choose_engine(&task("best", Some("{}")), false, false), Engine::Native);
    assert_eq!(choose_engine(&task("best", None), false, true), Engine::Native);
    assert_eq!(choose_engine(&task("best", None), false, false), Engine::YtDlp);
}

#[test]
fn start_marks_downloading() {
    let mut t = task("best", None);
    start_task(&mut t);
    assert_eq!(t.status, TaskStatus::Downloading);
    assert_eq!(t.id, "id1");
}

#[test]
fn settled_states() {
    let mut t = task("best", None);
    t.total_bytes = 77;
    assert_eq!(settle_task(&t, &Ok(123)), (TaskStatus::Completed, 123));
    assert_eq!(settle_task(&t, &Err("boom".to_string())), (TaskStatus::Error, 77));
}

#[test]
fn failure_text() {
    assert_eq!(failure_message("timeout"), "下载失败: timeout");
}
