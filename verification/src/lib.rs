//! Download-engine logic of the DL-Omni downloader: task models, request
//! header selection, download planning, file naming and cookie export.
//!
//! - `text`: character-level string operations (replace, trim, split,
//!   decimal notation) with their mathematical meaning.
//! - `models`: tasks, formats, settings and sniffed resources.
//! - `downloader`: the native engine's decisions and the laws of its
//!   byte-range split.
//! - `dispatch`: which engine runs a task and how the task ends.
//! - `cookies`: the Netscape cookie file written for the sniffer.
//! - `clock`, `json`, `http_header`: the calls into `chrono`, `serde_json`
//!   and `reqwest`, with what is assumed of them.

pub mod clock;
pub mod cookies;
pub mod dispatch;
pub mod downloader;
pub mod http_header;
pub mod json;
pub mod models;
pub mod text;
