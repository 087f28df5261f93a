use dl_omni::downloader::{
    base_file_name_of, content_range_total_of, finish_download, merge_range_probe,
    needs_range_probe, plan_segments, plan_thread_count, probed_size_of, progress_finished,
    range_header_value, remote_file_from_head, remove_line_breaks, request_headers,
    resolve_file_name, select_headers, ResponseInfo, SegmentTransfer, MAX_SEGMENT_FAILURES,
    MULTI_THREAD_MIN_SIZE,
};

fn pair(a: &str, b: &str) -> (String, String) {
    (a.to_string(), b.to_string())
}

#[test]
fn line_breaks_are_removed() {
    assert_eq!(remove_line_breaks("a\r\nb\nc\r"), "abc");
    assert_eq!(remove_line_breaks("plain"), "plain");
}

#[test]
fn headers_are_normalized_and_filtered() {
    let entries = vec![
        pair("Referer", "https://example.com/page"),
        pair("User-Agent", "Mozilla/5.0\r\n"),
        pair("Bad Name", "x"),
        pair("", "x"),
        pair("Cookie", "a=1; b=\u{7f}"),
        pair("X-Tab", "a\tb"),
        pair("X-Uni", "值"),
    ];
    let r = select_headers(&entries);
    assert_eq!(
        r,
        vec![
            pair("referer", "https://example.com/page"),
            pair("user-agent", "Mozilla/5.0"),
            pair("x-tab", "a\tb"),
            pair("x-uni", "值"),
        ]
    );
}

#[test]
fn request_headers_from_json() {
    let json = Some(r#"{"Referer":"https://a.example/","Cookie":"sid=1\nx"}"#.to_string());
    let mut r = request_headers(&json);
    r.sort();
    assert_eq!(r, vec![pair("cookie", "sid=1x"), pair("referer", "https://a.example/")]);
    assert!(request_headers(&None).is_empty());
    assert!(request_headers(&Some("not json".to_string())).is_empty());
    assert!(request_headers(&Some(r#"{"a":1}"#.to_string())).is_empty());
    assert!(request_headers(&Some("{}".to_string())).is_empty());
}

#[test]
fn content_range_totals() {
    assert_eq!(content_range_total_of("bytes 0-0/12345"), 12345);
    assert_eq!(content_range_total_of("bytes 0-0/*"), 0);
    assert_eq!(content_range_total_of("12"), 12);
    assert_eq!(content_range_total_of("bytes 0-0/"), 0);
    assert_eq!(content_range_total_of("a/b/77"), 77);
}

#[test]
fn probed_size_falls_back_to_length() {
    assert_eq!(probed_size_of(&Some("bytes 0-0/500".to_string()), Some(1)), 500);
    assert_eq!(probed_size_of(&Some("bytes 0-0/*".to_string()), Some(9)), 9);
    assert_eq!(probed_size_of(&None, Some(3)), 3);
    assert_eq!(probed_size_of(&None, None), 0);
}

fn info(len: Option<u64>, range: Option<&str>, name: Option<&str>, ext: Option<&str>) -> ResponseInfo {
    ResponseInfo {
        content_length: len,
        content_range: range.map(|s| s.to_string()),
        file_name: name.map(|s| s.to_string()),
        extension: ext.map(|s| s.to_string()),
    }
}

#[test]
fn head_then_probe() {
    let f = remote_file_from_head(Some(info(Some(2048), None, Some("a.mp4"), None)));
    assert_eq!(f.total_size, 2048);
    assert_eq!(f.file_name.as_deref(), Some("a.mp4"));
    assert!(!needs_range_probe(&f));

    let f = remote_file_from_head(None);
    assert!(needs_range_probe(&f));
    let f = merge_range_probe(f, Some(info(Some(1), Some("bytes 0-0/4096"), Some("b.mkv"), Some("mkv"))));
    assert_eq!(f.total_size, 4096);
    assert_eq!(f.file_name.as_deref(), Some("b.mkv"));
    assert_eq!(f.extension.as_deref(), Some("mkv"));

    let f = remote_file_from_head(Some(info(None, None, Some("keep.mp4"), None)));
    let f = merge_range_probe(f, Some(info(None, None, Some("other.flv"), Some("flv"))));
    assert_eq!(f.total_size, 0);
    assert_eq!(f.file_name.as_deref(), Some("keep.mp4"));
    assert_eq!(f.extension.as_deref(), Some("flv"));

    let f = remote_file_from_head(None);
    let f = merge_range_probe(f, None);
    assert_eq!(f.total_size, 0);
    assert!(f.file_name.is_none());
}

#[test]
fn thread_counts() {
    assert_eq!(plan_thread_count(0, 8), 1);
    assert_eq!(plan_thread_count(MULTI_THREAD_MIN_SIZE - 1, 8), 1);
    assert_eq!(plan_thread_count(MULTI_THREAD_MIN_SIZE, 8), 8);
    assert_eq!(plan_thread_count(MULTI_THREAD_MIN_SIZE, 0), 0);
}

#[test]
fn segments_split_the_file() {
    assert_eq!(plan_segments(10, 3), vec![(0, 2), (3, 5), (6, 9)]);
    assert_eq!(plan_segments(1, 1), vec![(0, 0)]);
    assert_eq!(plan_segments(4, 4), vec![(0, 0), (1, 1), (2, 2), (3, 3)]);
    let total = 5 * 1024 * 1024 + 7;
    let segs = plan_segments(total, 8);
    assert_eq!(segs.len(), 8);
    assert_eq!(segs[0].0, 0);
    assert_eq!(segs[7].1, total - 1);
    for w in segs.windows(2) {
        assert_eq!(w[1].0, w[0].1 + 1);
    }
    let covered: u64 = segs.iter().map(|(s, e)| e - s + 1).sum();
    assert_eq!(covered, total);
}

#[test]
fn range_headers() {
    assert_eq!(range_header_value(0, 0), "bytes=0-0");
    assert_eq!(range_header_value(3, 5), "bytes=3-5");
    let v = range_header_value(655360, 1310719);
    assert_eq!(v, "bytes=655360-1310719");
}

#[test]
fn base_names() {
    assert_eq!(base_file_name_of("My Video", "ignored.mp4"), "My Video");
    assert_eq!(base_file_name_of("", "from_url.mp4"), "from_url.mp4");
    assert_eq!(base_file_name_of("unknown_file", "u.bin"), "u.bin");
    assert_eq!(base_file_name_of("嗅探资源 [Fetch MIME]", "clip.m3u8"), "clip.m3u8");
    assert_eq!(base_file_name_of("Show.unknown.unknown", "x"), "Show");
    assert_eq!(base_file_name_of("Show.unknown", "x"), "Show");
    assert_eq!(base_file_name_of("Page - ", "x"), "Page");
    assert_eq!(base_file_name_of("Page - Clip -", "x"), "Page - Clip");
    assert_eq!(base_file_name_of(" - ", "x"), "download_file");
    assert_eq!(base_file_name_of("", ""), "download_file");
    assert_eq!(base_file_name_of("x -  -", "u"), "x - ");
}

#[test]
fn final_names() {
    let some = |s: &str| Some(s.to_string());
    assert_eq!(resolve_file_name("Clip", &some("server.name.MP4"), &some("mkv")), "Clip.MP4");
    assert_eq!(resolve_file_name("Clip", &some("noext"), &some("webm")), "Clip.webm");
    assert_eq!(resolve_file_name("Clip", &some("noext"), &None), "Clip.mp4");
    assert_eq!(resolve_file_name("Clip.v2", &some("noext"), &None), "Clip.v2");
    assert_eq!(resolve_file_name("Clip", &None, &some("mp3")), "Clip.mp3");
    assert_eq!(resolve_file_name("a.b", &None, &None), "a.b");
    assert_eq!(resolve_file_name("Clip", &some("trailing."), &None), "Clip.");
}

#[test]
fn names_always_have_an_extension_dot() {
    for title in ["", "a", "b -", "c.unknown", "嗅探资源 x"] {
        let base = base_file_name_of(title, "");
        assert!(!base.is_empty());
        assert!(!base.ends_with(" -"));
        let name = resolve_file_name(&base, &None, &None);
        assert!(name.starts_with(&base));
        assert!(name.contains('.'));
    }
}

#[test]
fn outcomes() {
    let failed = Err("下载失败: 链接已失效、服务器断开连接或任务被取消".to_string());
    assert_eq!(finish_download(100, 100), Ok(100));
    assert_eq!(finish_download(100, 0), failed);
    assert_eq!(finish_download(100, 99), failed);
    assert_eq!(finish_download(100, 101), Ok(100));
    assert_eq!(finish_download(0, 42), Ok(42));
    assert_eq!(finish_download(0, 0), failed);
}

#[test]
fn progress_stop() {
    assert!(progress_finished(10, 10));
    assert!(progress_finished(10, 11));
    assert!(!progress_finished(10, 9));
    assert!(!progress_finished(0, 100));
}

#[test]
fn broken_range_is_requested_again_from_where_it_stopped() {
    let mut t = SegmentTransfer::new(100, 199);
    assert_eq!(t.next_request(), Some((100, 199)));
    t.record_request(30);
    assert_eq!(t.next_request(), Some((130, 199)));
    t.record_request(0);
    t.record_request(0);
    assert_eq!(t.failures, 2);
    assert_eq!(t.next_request(), Some((130, 199)));
    t.record_request(70);
    assert_eq!(t.failures, 0);
    assert_eq!(t.received, 100);
    assert_eq!(t.next_request(), None);
}

#[test]
fn range_is_given_up_after_failures_in_a_row() {
    let mut t = SegmentTransfer::new(0, 9);
    for _ in 0..MAX_SEGMENT_FAILURES {
        assert!(t.next_request().is_some());
        t.record_request(0);
    }
    assert_eq!(t.next_request(), None);
    assert_eq!(t.received, 0);
}

#[test]
fn one_byte_range() {
    let mut t = SegmentTransfer::new(0, 0);
    assert_eq!(t.next_request(), Some((0, 0)));
    t.record_request(1);
    assert_eq!(t.next_request(), None);
}
