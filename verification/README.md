# dl_omni

The decision logic of the DL-Omni desktop downloader, verified with Verus.

- `src/` is the library: every function there carries a contract that
  Verus proves. It decides which request headers to send, how large a
  remote file is, how to split it into byte ranges, what to name the saved
  file, whether a transfer succeeded, which engine runs a task, and what
  cookie file the sniffer writes. Calls into `chrono`, `serde_json` and
  `reqwest` sit in `clock.rs`, `json.rs` and `http_header.rs`, each with the
  contract that is assumed of it.
- `app/` is the asynchronous I/O around it: HTTP transfers with `reqwest`
  and `tokio`, files, progress reports and the sniffer window. The services
  of the surrounding desktop application (settings, task database, events,
  windows, yt-dlp and URL helpers) reach it through the `Host` trait.
- `tests/` runs the library on concrete values.
