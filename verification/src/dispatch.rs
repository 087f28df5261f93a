//! The scheduler's decisions: which engine downloads a task, and what the
//! task's final state is once the engine has finished.

use vstd::prelude::*;

use crate::models::{Task, TaskStatus};
use crate::text::{append_str, chars_equal, chars_of, string_of};

verus! {

/// The engine that downloads a task.
#[derive(Debug, Clone, Copy, PartialEq, Eq, Structural)]
pub enum Engine {
    /// The built-in multi-connection HTTP downloader.
    Native,
    /// The external yt-dlp program.
    YtDlp,
}

/// Which engine downloads a task. An HLS (`m3u8`) link always goes to
/// yt-dlp; otherwise a task with captured request headers, a task whose
/// format is `direct`, or a direct file link goes to the native engine.
pub open spec fn engine_for(
    has_headers: bool,
    format_id: Seq<char>,
    is_m3u8_link: bool,
    is_direct_link: bool,
) -> Engine {
    let forced_native = (has_headers || format_id == "direct"@) && !is_m3u8_link;
    let direct = is_direct_link && !is_m3u8_link;
    if forced_native || direct {
        Engine::Native
    } else {
        Engine::YtDlp
    }
}

/// Chooses the engine for `task`, given whether its URL is an HLS playlist
/// and whether it is a direct file link.
pub fn choose_engine(task: &Task, is_m3u8_link: bool, is_direct_link: bool) -> (r: Engine)
    ensures
        r == engine_for(task.http_headers is Some, task.format_id@, is_m3u8_link, is_direct_link),
        is_m3u8_link ==> r == Engine::YtDlp,
        (r == Engine::Native) == ((task.http_headers is Some || task.format_id@ == "direct"@
            || is_direct_link) && !is_m3u8_link),
{
    let forced_native = (task.http_headers.is_some() || chars_equal(
        &chars_of(task.format_id.as_str()),
        &chars_of("direct"),
    )) && !is_m3u8_link;
    let direct = is_direct_link && !is_m3u8_link;
    if forced_native || direct {
        Engine::Native
    } else {
        Engine::YtDlp
    }
}

/// A link that is not an HLS playlist goes to the native engine exactly when
/// the task carries captured headers, asks for the `direct` format, or is a
/// direct file link; every other task, and every HLS playlist, goes to
/// yt-dlp.
pub proof fn law_engine_choice(
    has_headers: bool,
    format_id: Seq<char>,
    is_m3u8_link: bool,
    is_direct_link: bool,
)
    ensures
        (engine_for(has_headers, format_id, is_m3u8_link, is_direct_link) == Engine::Native) == ((
        has_headers || format_id == "direct"@ || is_direct_link) && !is_m3u8_link),
        engine_for(has_headers, format_id, is_m3u8_link, is_direct_link) == Engine::Native
            || engine_for(has_headers, format_id, is_m3u8_link, is_direct_link) == Engine::YtDlp,
{
}

/// Marks a task as being downloaded.
pub fn start_task(task: &mut Task)
    ensures
        final(task).status == TaskStatus::Downloading,
        final(task).id == old(task).id,
        final(task).url == old(task).url,
        final(task).title == old(task).title,
        final(task).thumbnail == old(task).thumbnail,
        final(task).format_id == old(task).format_id,
        final(task).playlist_items == old(task).playlist_items,
        final(task).http_headers == old(task).http_headers,
        final(task).total_bytes == old(task).total_bytes,
        final(task).downloaded_bytes == old(task).downloaded_bytes,
        final(task).eta == old(task).eta,
        final(task).created_at == old(task).created_at,
        final(task).error_msg == old(task).error_msg,
{
    task.status = TaskStatus::Downloading;
}

/// The final status of a task and the byte count reported with it: a
/// finished download is `Completed` at its size; a failed one is `Error` at
/// the task's known total size.
pub fn settle_task(task: &Task, result: &Result<u64, String>) -> (r: (TaskStatus, u64))
    ensures
        match result {
            Ok(size) => r == (TaskStatus::Completed, *size),
            Err(_) => r == (TaskStatus::Error, task.total_bytes),
        },
{
    match result {
        Ok(size) => (TaskStatus::Completed, *size),
        Err(_) => (TaskStatus::Error, task.total_bytes),
    }
}

/// The error text shown for a failed task: `下载失败: ` and the engine's
/// error.
pub fn failure_message(error: &str) -> (r: String)
    ensures
        r@ == "下载失败: "@ + error@,
{
    let mut out = chars_of("下载失败: ");
    append_str(&mut out, error);
    string_of(&out)
}

} // verus!
