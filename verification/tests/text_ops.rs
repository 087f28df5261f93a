use dl_omni::text::{
    chars_of, contains_char, first_index_of_char, has_prefix_chars, i64_decimal,
    is_white_space_char, last_index_of_char, parse_u64_chars, replace_all_chars, split_chars,
    string_of, strip_suffix_all_chars, trim_chars, u64_decimal,
};

fn cs(s: &str) -> Vec<char> {
    s.chars().collect()
}

fn st(v: &[char]) -> String {
    v.iter().collect()
}

#[test]
fn chars_round_trip_keeps_unicode() {
    let v = chars_of("嗅探资源 [DOM]");
    assert_eq!(v, cs("嗅探资源 [DOM]"));
    assert_eq!(string_of(&v), "嗅探资源 [DOM]");
}

#[test]
fn replace_scans_left_to_right_without_overlap() {
    let r = replace_all_chars(&cs("aaaa"), &cs("aa"), &cs("b"));
    assert_eq!(st(&r), "bb");
    let r = replace_all_chars(&cs("x.unknown.unknown.mp4"), &cs(".unknown"), &cs(""));
    assert_eq!(st(&r), "x.mp4");
    let r = replace_all_chars(&cs("abc"), &cs("zz"), &cs("y"));
    assert_eq!(st(&r), "abc");
}

#[test]
fn strip_suffix_removes_every_trailing_copy() {
    let r = strip_suffix_all_chars(cs("Title - - "), &cs(" - "));
    assert_eq!(st(&r), "Title -");
    let r = strip_suffix_all_chars(cs("aaa"), &cs("aa"));
    assert_eq!(st(&r), "a");
    let r = strip_suffix_all_chars(cs("keep"), &cs(" -"));
    assert_eq!(st(&r), "keep");
}

#[test]
fn character_searches() {
    let v = cs("a.b.c");
    assert_eq!(last_index_of_char(&v, '.'), Some(3));
    assert_eq!(first_index_of_char(&v, '.'), Some(1));
    assert_eq!(last_index_of_char(&v, '/'), None);
    assert_eq!(first_index_of_char(&v, '/'), None);
    assert!(contains_char(&v, 'c'));
    assert!(!contains_char(&v, 'z'));
    assert!(has_prefix_chars(&v, &cs("a.")));
    assert!(!has_prefix_chars(&v, &cs("b")));
    assert!(has_prefix_chars(&v, &cs("")));
}

#[test]
fn white_space_matches_std() {
    for c in ['\t', '\n', '\u{b}', '\u{c}', '\r', ' ', '\u{85}', '\u{a0}', '\u{1680}', '\u{2000}',
        '\u{200a}', '\u{2028}', '\u{2029}', '\u{202f}', '\u{205f}', '\u{3000}', 'a', '\u{200b}',
        '\u{feff}', '0', '_']
    {
        assert_eq!(is_white_space_char(c), c.is_whitespace(), "char {:?}", c);
    }
}

#[test]
fn trim_matches_std() {
    for s in ["  a b  ", "\u{3000}x\u{a0}", "", "   ", "none"] {
        assert_eq!(st(&trim_chars(&cs(s))), s.trim());
    }
}

#[test]
fn split_keeps_empty_pieces() {
    let parts = split_chars(&cs("a;;b;"), ';');
    let got: Vec<String> = parts.iter().map(|p| st(p)).collect();
    assert_eq!(got, vec!["a", "", "b", ""]);
    let parts = split_chars(&cs(""), ';');
    assert_eq!(parts.len(), 1);
    assert!(parts[0].is_empty());
}

#[test]
fn decimal_notation() {
    assert_eq!(st(&u64_decimal(0)), "0");
    assert_eq!(st(&u64_decimal(1234)), "1234");
    assert_eq!(st(&u64_decimal(u64::MAX)), u64::MAX.to_string());
    assert_eq!(st(&i64_decimal(-1)), "-1");
    assert_eq!(st(&i64_decimal(i64::MIN)), i64::MIN.to_string());
    assert_eq!(st(&i64_decimal(1735689600)), "1735689600");
}

#[test]
fn parse_matches_std() {
    for s in ["0", "42", "+7", "+", "", "-1", "12a", "007", "18446744073709551615",
        "18446744073709551616", "99999999999999999999x", " 1"]
    {
        assert_eq!(parse_u64_chars(&cs(s)), s.parse::<u64>().ok(), "input {:?}", s);
    }
}

#[test]
fn decimal_reads_back() {
    for n in [0u64, 9, 10, 5242880, u64::MAX] {
        assert_eq!(parse_u64_chars(&u64_decimal(n)), Some(n));
    }
}
