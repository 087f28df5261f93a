use dl_omni::cookies::{
    cookie_entries_of, cookie_file_content, cookie_file_for_event, cookie_lines_at,
    format_cookie_to_netscape, netscape_cookie_line, COOKIE_LIFETIME_SECONDS,
};

fn pair(a: &str, b: &str) -> (String, String) {
    (a.to_string(), b.to_string())
}

#[test]
fn entries_follow_split_trim_and_first_equals() {
    let r = cookie_entries_of(" a=1; b = 2 ;;  ; =x; c; d=e=f");
    assert_eq!(r, vec![pair("a", "1"), pair("b ", " 2"), pair("c", ""), pair("d", "e=f")]);
    assert!(cookie_entries_of("").is_empty());
}

#[test]
fn netscape_lines_have_seven_fields() {
    assert_eq!(
        netscape_cookie_line("example.com", "sid", "abc", 1700000000),
        "._example.com".replace('_', "") + "\tTRUE\t/\tFALSE\t1700000000\tsid\tabc\n"
    );
    assert_eq!(
        netscape_cookie_line(".example.com", "k", "", -5),
        ".example.com\tTRUE\t/\tFALSE\t-5\tk\t\n"
    );
}

fn check_lines(out: &str, domain_col: &str, pairs: &[(&str, &str)]) {
    let lines: Vec<&str> = out.split_terminator('\n').collect();
    assert_eq!(lines.len(), pairs.len());
    let now = chrono::Utc::now().timestamp();
    for (line, (n, v)) in lines.iter().zip(pairs) {
        let cols: Vec<&str> = line.split('\t').collect();
        assert_eq!(cols.len(), 7);
        assert_eq!(cols[0], domain_col);
        assert_eq!(&cols[1..4], &["TRUE", "/", "FALSE"]);
        let expiry: i64 = cols[4].parse().unwrap();
        assert!((expiry - COOKIE_LIFETIME_SECONDS - now).abs() <= 5);
        assert_eq!(cols[5], *n);
        assert_eq!(cols[6], *v);
    }
}

#[test]
fn formats_each_cookie_with_a_year_of_validity() {
    let out = format_cookie_to_netscape("www.site.org", "a=1; b=2").unwrap();
    check_lines(&out, ".www.site.org", &[("a", "1"), ("b", "2")]);
    assert_eq!(format_cookie_to_netscape("x", " ; ;"), Some(String::new()));
}

#[test]
fn cookie_file_has_header() {
    let out = cookie_file_content(".site.org", "z=9").unwrap();
    let header = "# Netscape HTTP Cookie File\n# This file was generated by DL-Omni Internal Sniffer\n\n";
    assert!(out.starts_with(header));
    check_lines(&out[header.len()..], ".site.org", &[("z", "9")]);
}

#[test]
fn event_payloads() {
    let out = cookie_file_for_event(r#"{"domain":"v.example","cookie":"t=1"}"#).unwrap();
    assert!(out.contains(".v.example\tTRUE\t/\tFALSE\t"));
    assert!(out.ends_with("\tt\t1\n"));
    assert!(cookie_file_for_event(r#"{"domain":"v.example"}"#).is_none());
    assert!(cookie_file_for_event(r#"{"domain":1,"cookie":"t=1"}"#).is_none());
    assert!(cookie_file_for_event("nonsense").is_none());
}

#[test]
fn lines_at_a_given_time() {
    assert_eq!(
        cookie_lines_at("a.org", "x=1; y", 1000),
        ".a.org\tTRUE\t/\tFALSE\t31537000\tx\t1\n.a.org\tTRUE\t/\tFALSE\t31537000\ty\t\n"
    );
    assert_eq!(cookie_lines_at("a.org", "", 0), "");
}

#[test]
fn lines_join_at_a_semicolon() {
    let (a, b) = ("k=v; =skip", " m=n=o ;");
    assert_eq!(
        cookie_lines_at("d.example", &format!("{};{}", a, b), 77),
        cookie_lines_at("d.example", a, 77) + &cookie_lines_at("d.example", b, 77)
    );
}

#[test]
fn domain_gets_one_leading_dot() {
    assert_eq!(cookie_lines_at(".d.example", "k=v", 5), cookie_lines_at("d.example", "k=v", 5));
    assert!(cookie_lines_at("d.example", "k=v", 5).starts_with(".d.example\t"));
}

#[test]
fn event_without_cookies_gives_the_bare_header() {
    let header = "# Netscape HTTP Cookie File\n# This file was generated by DL-Omni Internal Sniffer\n\n";
    assert_eq!(cookie_file_for_event(r#"{"domain":"v.example","cookie":""}"#).as_deref(), Some(header));
    assert_eq!(cookie_file_for_event(r#"{"domain":"v.example","cookie":" ; ;"}"#).as_deref(), Some(header));
}
