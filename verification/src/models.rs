//! The records that the downloader keeps about tasks, formats, settings and
//! resources found by the sniffer.

use std::collections::HashMap;
use vstd::prelude::*;

use crate::clock::{current_time, MAX_EPOCH_SECONDS};

verus! {

/// Where a download task stands.
#[derive(Debug, Clone, Copy, PartialEq, Eq, Structural)]
pub enum TaskStatus {
    Pending,
    Downloading,
    Paused,
    Merging,
    Error,
    Completed,
}

/// A download task. Its transfer speed, a floating-point figure for display,
/// is kept by the application beside it.
#[derive(Debug, Clone)]
pub struct Task {
    pub id: String,
    pub url: String,
    pub title: String,
    pub thumbnail: Option<String>,
    pub status: TaskStatus,
    pub format_id: String,
    pub playlist_items: Option<String>,
    /// Request headers captured by the sniffer, as a JSON object of strings.
    pub http_headers: Option<String>,
    pub total_bytes: u64,
    pub downloaded_bytes: u64,
    pub eta: u64,
    /// Milliseconds since the Unix epoch.
    pub created_at: i64,
    pub error_msg: Option<String>,
}

impl Task {
    /// A pending task with no progress, created at `created_at` (milliseconds
    /// since the Unix epoch).
    pub fn with_creation_time(
        id: String,
        url: String,
        title: String,
        thumbnail: Option<String>,
        format_id: String,
        playlist_items: Option<String>,
        http_headers: Option<String>,
        created_at: i64,
    ) -> (t: Task)
        ensures
            t.id == id,
            t.url == url,
            t.title == title,
            t.thumbnail == thumbnail,
            t.status == TaskStatus::Pending,
            t.format_id == format_id,
            t.playlist_items == playlist_items,
            t.http_headers == http_headers,
            t.total_bytes == 0,
            t.downloaded_bytes == 0,
            t.eta == 0,
            t.created_at == created_at,
            t.error_msg is None,
    {
        Task {
            id,
            url,
            title,
            thumbnail,
            status: TaskStatus::Pending,
            format_id,
            playlist_items,
            http_headers,
            total_bytes: 0,
            downloaded_bytes: 0,
            eta: 0,
            created_at,
            error_msg: None,
        }
    }

    /// A pending task with no progress, created now (its creation time in
    /// milliseconds since the Unix epoch); `None` when the clock cannot be
    /// read (a system clock before 1970 or beyond chrono's range).
    pub fn new(
        id: String,
        url: String,
        title: String,
        thumbnail: Option<String>,
        format_id: String,
        playlist_items: Option<String>,
        http_headers: Option<String>,
    ) -> (r: Option<Task>)
        ensures
            r matches Some(t) ==> {
                &&& t.id == id
                &&& t.url == url
                &&& t.title == title
                &&& t.thumbnail == thumbnail
                &&& t.status == TaskStatus::Pending
                &&& t.format_id == format_id
                &&& t.playlist_items == playlist_items
                &&& t.http_headers == http_headers
                &&& t.total_bytes == 0
                &&& t.downloaded_bytes == 0
                &&& t.eta == 0
                &&& 0 <= t.created_at < MAX_EPOCH_SECONDS * 1000 + 1000
                &&& t.error_msg is None
            },
    {
        match current_time() {
            Some((_, millis)) => Some(
                Task::with_creation_time(
                    id,
                    url,
                    title,
                    thumbnail,
                    format_id,
                    playlist_items,
                    http_headers,
                    millis,
                ),
            ),
            None => None,
        }
    }
}

/// One format offered for a media item.
#[derive(Debug, Clone)]
pub struct MediaFormat {
    pub format_id: String,
    pub ext: String,
    pub resolution: String,
    pub filesize: Option<u64>,
    pub vcodec: String,
    pub acodec: String,
    pub format_note: Option<String>,
}

/// The user's settings.
#[derive(Debug, Clone)]
pub struct Config {
    pub default_download_path: String,
    pub max_concurrent_tasks: u8,
    pub max_threads_per_task: u8,
    pub proxy_url: Option<String>,
    pub theme: String,
    pub yt_dlp_version: Option<String>,
    pub split_audio_video: bool,
    pub video_quality: String,
    pub audio_quality: String,
    pub browser_cookie: Option<String>,
    pub include_metadata: bool,
}

/// A media resource that the sniffer window reported.
#[derive(Debug, Clone)]
pub struct SniffedResource {
    pub url: String,
    /// The kind of resource (`type` in the sniffer's messages).
    pub resource_type: String,
    pub filename: String,
    /// The request headers the page used for it.
    pub headers: Option<HashMap<String, String>>,
}

} // verus!
