//! HTTP header names and values, checked by `reqwest` (its `http` types).

use std::str::FromStr;
use vstd::prelude::*;

verus! {

/// The longest header name that `http` accepts.
pub const MAX_HEADER_NAME_LEN: usize = 65535;

/// The characters that may stand in a header name (RFC 7230 `tchar`).
pub open spec fn is_token_char(c: char) -> bool {
    ||| 'a' <= c <= 'z'
    ||| 'A' <= c <= 'Z'
    ||| '0' <= c <= '9'
    ||| c == '!' || c == '#' || c == '$' || c == '%' || c == '&' || c == '\''
    ||| c == '*' || c == '+' || c == '-' || c == '.' || c == '^' || c == '_'
    ||| c == '`' || c == '|' || c == '~'
}

/// The names that `HeaderName::from_str` accepts.
pub open spec fn is_header_name(s: Seq<char>) -> bool {
    &&& 1 <= s.len() <= MAX_HEADER_NAME_LEN
    &&& forall|i: int| 0 <= i < s.len() ==> is_token_char(#[trigger] s[i])
}

/// `c` with ASCII upper-case letters made lower-case.
pub open spec fn lower_char(c: char) -> char {
    if 'A' <= c <= 'Z' {
        ((c as u32) + 32) as char
    } else {
        c
    }
}

/// `s` with ASCII upper-case letters made lower-case.
pub open spec fn ascii_lower(s: Seq<char>) -> Seq<char> {
    s.map_values(|c: char| lower_char(c))
}

/// The characters that `HeaderValue::from_bytes` accepts in the UTF-8
/// encoding of a value: a tab, or anything from the space upwards except
/// DEL (every byte of a multi-byte character is 0x80 or more).
pub open spec fn is_header_value_char(c: char) -> bool {
    c == '\t' || (c as u32 >= 32 && c as u32 != 127)
}

/// The values that `HeaderValue::from_bytes` accepts.
pub open spec fn is_header_value(s: Seq<char>) -> bool {
    forall|i: int| 0 <= i < s.len() ==> is_header_value_char(#[trigger] s[i])
}

/// `reqwest::header::HeaderName::from_str(name)`, then `as_str`: `Some` of
/// the normalized (ASCII lower-case) name when the name is valid, `None`
/// when `from_str` returns an error.
#[verifier::external_body]
pub fn normalize_header_name(name: &str) -> (r: Option<String>)
    ensures
        r is Some <==> is_header_name(name@),
        r matches Some(n) ==> n@ == ascii_lower(name@),
{
    reqwest::header::HeaderName::from_str(name).ok().map(|h| h.as_str().to_string())
}

/// `reqwest::header::HeaderValue::from_bytes(value.as_bytes()).is_ok()`:
/// whether the UTF-8 bytes of `value` make a valid header value.
#[verifier::external_body]
pub fn header_value_is_valid(value: &str) -> (r: bool)
    ensures
        r == is_header_value(value@),
{
    reqwest::header::HeaderValue::from_bytes(value.as_bytes()).is_ok()
}

} // verus!
