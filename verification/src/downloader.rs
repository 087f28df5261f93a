//! The decisions of the native download engine: which request headers to
//! send, how large the remote file is, how to split it into byte ranges,
//! what to name the file and whether the transfer succeeded.

use vstd::prelude::*;

use crate::http_header::{
    ascii_lower, header_value_is_valid, is_header_name, is_header_value, is_header_value_char,
    normalize_header_name,
};
use crate::json::{enumerates, json_string_object, pair_views, parse_string_object};
use crate::text::{
    append_chars, chars_equal, chars_of, contains_char, decimal, has_prefix, has_prefix_chars, has_suffix,
    last_index_of, last_index_of_char, replace_all, replace_all_chars, strip_suffix_all,
    strip_suffix_all_chars, is_digit, lemma_decimal_digits, lemma_parse_decimal, lemma_split_count, parse_u64,
    parse_u64_chars, push_decimal, split_chars, split_on, string_of,
};

verus! {

// ----------------------------------------------------------------------------
// Request headers
// ----------------------------------------------------------------------------

/// Holds of every character but line feed and carriage return.
pub open spec fn not_line_break() -> spec_fn(char) -> bool {
    |c: char| c != '\n' && c != '\r'
}

/// `s` with every line feed and carriage return removed.
pub open spec fn without_line_breaks(s: Seq<char>) -> Seq<char> {
    s.filter(not_line_break())
}

/// The header that one captured entry becomes: its name normalized and its
/// value stripped of line breaks, when both are acceptable to HTTP.
pub open spec fn header_entry(name: Seq<char>, value: Seq<char>) -> Option<(Seq<char>, Seq<char>)> {
    let clean = without_line_breaks(value);
    if is_header_name(name) && is_header_value(clean) {
        Some((ascii_lower(name), clean))
    } else {
        None
    }
}

/// The headers that a list of captured entries yields, in the same order.
pub open spec fn accepted_headers(entries: Seq<(Seq<char>, Seq<char>)>) -> Seq<(Seq<char>, Seq<char>)>
    decreases entries.len(),
{
    if entries.len() == 0 {
        Seq::empty()
    } else {
        let prev = accepted_headers(entries.drop_last());
        match header_entry(entries.last().0, entries.last().1) {
            Some(h) => prev.push(h),
            None => prev,
        }
    }
}

/// `value.replace('\n', "").replace('\r', "")`.
pub fn remove_line_breaks(value: &str) -> (r: String)
    ensures
        r@ == without_line_breaks(value@),
{
    let cs = chars_of(value);
    let n = cs.len();
    let mut out = String::new();
    let mut i: usize = 0;
    assert(cs@.take(0) =~= Seq::<char>::empty());
    assert(without_line_breaks(Seq::<char>::empty()) =~= Seq::<char>::empty());
    while i < n
        invariant
            n == cs@.len(),
            cs@ == value@,
            i <= n,
            out@ == without_line_breaks(cs@.take(i as int)),
        decreases n - i,
    {
        let c = cs[i];
        assert(cs@.take(i + 1).drop_last() =~= cs@.take(i as int));
        proof {
            reveal(Seq::filter);
        }
        if c != '\n' && c != '\r' {
            out.push(c);
        }
        i = i + 1;
    }
    assert(cs@.take(n as int) =~= cs@);
    out
}

/// Every accepted header has a valid lower-case name and a value without
/// line breaks.
pub proof fn lemma_accepted_headers_clean(entries: Seq<(Seq<char>, Seq<char>)>)
    ensures
        forall|i: int|
            0 <= i < accepted_headers(entries).len() ==> {
                let h = #[trigger] accepted_headers(entries)[i];
                &&& !h.1.contains('\n')
                &&& !h.1.contains('\r')
                &&& is_header_value(h.1)
                &&& exists|name: Seq<char>| is_header_name(name) && h.0 == ascii_lower(name)
            },
    decreases entries.len(),
{
    if entries.len() > 0 {
        lemma_accepted_headers_clean(entries.drop_last());
        let prev = accepted_headers(entries.drop_last());
        let last = entries.last();
        let clean = without_line_breaks(last.1);
        assert forall|i: int| 0 <= i < clean.len() implies clean[i] != '\n' && clean[i] != '\r' by {
            last.1.lemma_filter_pred(not_line_break(), i);
        }
    }
}

/// The headers to send from captured `entries`: each entry whose name and
/// cleaned value HTTP accepts, in order.
pub fn select_headers(entries: &Vec<(String, String)>) -> (r: Vec<(String, String)>)
    ensures
        pair_views(r@) == accepted_headers(pair_views(entries@)),
{
    let n = entries.len();
    let mut out: Vec<(String, String)> = Vec::new();
    let mut i: usize = 0;
    assert(pair_views(entries@).take(0) =~= Seq::<(Seq<char>, Seq<char>)>::empty());
    assert(pair_views(out@) =~= Seq::<(Seq<char>, Seq<char>)>::empty());
    while i < n
        invariant
            n == entries@.len(),
            i <= n,
            pair_views(out@) == accepted_headers(pair_views(entries@).take(i as int)),
        decreases n - i,
    {
        let name = &entries[i].0;
        let value = &entries[i].1;
        let ghost es = pair_views(entries@);
        assert(es.take(i + 1).drop_last() =~= es.take(i as int));
        assert(es.take(i + 1).last() == (name@, value@));
        let clean = remove_line_breaks(value.as_str());
        let lowered = normalize_header_name(name.as_str());
        match lowered {
            Some(lower) => {
                if header_value_is_valid(clean.as_str()) {
                    let ghost before = out@;
                    out.push((lower, clean));
                    assert(pair_views(out@) =~= pair_views(before).push((ascii_lower(name@), without_line_breaks(value@))));
                }
            },
            None => {},
        }
        i = i + 1;
    }
    assert(pair_views(entries@).take(n as int) =~= pair_views(entries@));
    out
}

/// The extra request headers for a task: those of its captured header JSON
/// that HTTP accepts. Headers that are missing or do not parse add nothing.
/// The parsed object's entries come in an order that the parser does not
/// fix; the result follows that order.
pub fn request_headers(headers_json: &Option<String>) -> (r: Vec<(String, String)>)
    ensures
        match headers_json {
            None => r@.len() == 0,
            Some(text) => match json_string_object(text@) {
                None => r@.len() == 0,
                Some(m) => exists|entries: Seq<(Seq<char>, Seq<char>)>|
                    enumerates(entries, m) && pair_views(r@) == accepted_headers(entries),
            },
        },
        forall|i: int|
            0 <= i < r@.len() ==> !(#[trigger] r@[i]).1@.contains('\n') && !r@[i].1@.contains('\r')
                && is_header_value(r@[i].1@),
{
    match headers_json {
        Some(text) => match parse_string_object(text.as_str()) {
            Some(entries) => {
                let r = select_headers(&entries);
                proof {
                    lemma_accepted_headers_clean(pair_views(entries@));
                    assert forall|i: int| 0 <= i < r@.len() implies !(#[trigger] r@[i]).1@.contains(
                        '\n',
                    ) && !r@[i].1@.contains('\r') && is_header_value(r@[i].1@) by {
                        assert(pair_views(r@)[i] == (r@[i].0@, r@[i].1@));
                    }
                }
                r
            },
            None => Vec::new(),
        },
        None => Vec::new(),
    }
}

} // verus!

verus! {

// ----------------------------------------------------------------------------
// File size
// ----------------------------------------------------------------------------

/// The total size that a `Content-Range` header announces: the number after
/// its last `/`, or 0 when that is not a number (`*` for an unknown size).
pub open spec fn content_range_total(header: Seq<char>) -> u64 {
    match parse_u64(split_on(header, '/').last()) {
        Some(n) => n,
        None => 0,
    }
}

/// The size that a one-byte range probe reveals: the `Content-Range` total,
/// and failing that the `Content-Length`, and failing that 0.
pub open spec fn probed_size(content_range: Option<Seq<char>>, content_length: Option<u64>) -> u64 {
    let from_range = match content_range {
        Some(h) => content_range_total(h),
        None => 0,
    };
    if from_range != 0 {
        from_range
    } else {
        match content_length {
            Some(n) => n,
            None => 0,
        }
    }
}

/// After a separator, text that holds no separator is the last piece.
pub proof fn lemma_split_last_piece(p: Seq<char>, d: Seq<char>, c: char)
    requires
        !d.contains(c),
    ensures
        split_on(p.push(c) + d, c).last() == d,
    decreases d.len(),
{
    let s = p.push(c) + d;
    if d.len() == 0 {
        assert(s =~= p.push(c));
        assert(s.drop_last() =~= p);
        lemma_split_count(p, c);
    } else {
        let d0 = d.drop_last();
        assert(!d0.contains(c)) by {
            if d0.contains(c) {
                let k = choose|k: int| 0 <= k < d0.len() && d0[k] == c;
                assert(d[k] == c);
            }
        }
        lemma_split_last_piece(p, d0, c);
        assert(s.drop_last() =~= p.push(c) + d0);
        assert(s.last() == d.last());
        assert(d.last() != c) by {
            assert(d[d.len() - 1] == d.last());
        }
        lemma_split_count(s.drop_last(), c);
        assert(d0.push(d.last()) =~= d);
    }
}

/// A digit is never a `/`.
pub proof fn lemma_decimal_has_no_slash(n: nat)
    ensures
        !decimal(n).contains('/'),
{
    lemma_decimal_digits(n);
    if decimal(n).contains('/') {
        let k = choose|k: int| 0 <= k < decimal(n).len() && decimal(n)[k] == '/';
        assert(is_digit(decimal(n)[k]));
    }
}

/// A `Content-Range` header that ends in `/` and the decimal size announces
/// that size, whatever precedes the `/`.
pub proof fn lemma_content_range_total(prefix: Seq<char>, total: u64)
    ensures
        content_range_total(prefix.push('/') + decimal(total as nat)) == total,
{
    lemma_decimal_has_no_slash(total as nat);
    lemma_split_last_piece(prefix, decimal(total as nat), '/');
    lemma_parse_decimal(total);
}

/// The total size in a `Content-Range` header value, as
/// `header.split('/').last()` parsed as a `u64`, with 0 when it does not parse.
pub fn content_range_total_of(header: &str) -> (r: u64)
    ensures
        r == content_range_total(header@),
{
    let cs = chars_of(header);
    let pieces = split_chars(&cs, '/');
    proof {
        lemma_split_count(cs@, '/');
    }
    let last = &pieces[pieces.len() - 1];
    assert(last@ == split_on(header@, '/').last());
    match parse_u64_chars(last) {
        Some(n) => n,
        None => 0,
    }
}

/// The file size found by a one-byte range request: the total in its
/// `Content-Range` header (when the header was readable text), else its
/// `Content-Length`, else 0.
pub fn probed_size_of(content_range: &Option<String>, content_length: Option<u64>) -> (r: u64)
    ensures
        r == probed_size(
            match content_range {
                Some(h) => Some(h@),
                None => None,
            },
            content_length,
        ),
{
    let from_range = match content_range {
        Some(h) => content_range_total_of(h.as_str()),
        None => 0,
    };
    if from_range != 0 {
        from_range
    } else {
        match content_length {
            Some(n) => n,
            None => 0,
        }
    }
}

// ----------------------------------------------------------------------------
// Splitting the transfer
// ----------------------------------------------------------------------------

/// Files smaller than this (5 MiB) are fetched over a single connection.
pub const MULTI_THREAD_MIN_SIZE: u64 = 5242880;

/// How many connections fetch a file of `total_size` bytes (0 when the size
/// is unknown) when the settings allow `max_threads`.
pub open spec fn thread_count(total_size: u64, max_threads: u8) -> u64 {
    if total_size == 0 || total_size < MULTI_THREAD_MIN_SIZE {
        1
    } else {
        max_threads as u64
    }
}

/// The number of connections for a file of `total_size` bytes: one for an
/// unknown size or a file under 5 MiB, else the configured maximum.
pub fn plan_thread_count(total_size: u64, max_threads: u8) -> (r: u64)
    ensures
        r == thread_count(total_size, max_threads),
        total_size < 5242880 ==> r == 1,
        total_size >= 5242880 ==> r == max_threads as u64,
{
    if total_size == 0 || total_size < MULTI_THREAD_MIN_SIZE {
        1
    } else {
        max_threads as u64
    }
}

/// The inclusive byte range that connection `i` of `threads` fetches from a
/// file of `total` bytes: equal shares of `total / threads` bytes, the last
/// one running to the end of the file.
pub open spec fn segment(total: u64, threads: u64, i: int) -> (int, int) {
    let chunk = total / threads;
    let start = i * chunk;
    let end = if i == threads - 1 {
        total - 1
    } else {
        (i + 1) * chunk - 1
    };
    (start, end)
}

/// `threads` shares of `total` bytes fit in the file.
pub proof fn lemma_shares_fit(total: u64, threads: u64, i: int)
    requires
        0 < threads <= total,
        0 <= i <= threads,
    ensures
        1 <= total / threads,
        i * (total / threads) <= total,
        (threads as int) * (total / threads) <= total,
        0 < i ==> 1 <= i * (total / threads),
{
    let chunk = total / threads;
    assert(0 < i ==> 1 <= i * chunk) by (nonlinear_arith)
        requires
            chunk == total / threads,
            0 < threads <= total,
            0 <= i,
    ;
    assert((threads as int) * chunk <= total) by (nonlinear_arith)
        requires
            chunk == total / threads,
            threads > 0,
    ;
    assert(1 <= chunk) by (nonlinear_arith)
        requires
            chunk == total / threads,
            0 < threads <= total,
    ;
    assert(i * chunk <= threads * chunk) by (nonlinear_arith)
        requires
            0 <= i <= threads,
            chunk >= 0,
    ;
}

/// The byte ranges for `threads` connections fetching a file of `total`
/// bytes, in order (connection `i` gets `segment(total, threads, i)`).
pub fn plan_segments(total: u64, threads: u64) -> (r: Vec<(u64, u64)>)
    requires
        0 < threads <= total,
    ensures
        r@.len() == threads,
        forall|i: int|
            #![trigger r@[i]]
            0 <= i < threads ==> r@[i].0 == segment(total, threads, i).0 && r@[i].1 == segment(
                total,
                threads,
                i,
            ).1,
{
    let chunk = total / threads;
    let mut out: Vec<(u64, u64)> = Vec::new();
    let mut i: u64 = 0;
    while i < threads
        invariant
            0 < threads <= total,
            chunk == total / threads,
            i <= threads,
            out@.len() == i,
            forall|j: int|
                0 <= j < i ==> #[trigger] out@[j].0 == segment(total, threads, j).0 && out@[j].1
                    == segment(total, threads, j).1,
        decreases threads - i,
    {
        proof {
            lemma_shares_fit(total, threads, i as int);
            lemma_shares_fit(total, threads, i + 1);
        }
        let start = i * chunk;
        let end = if i == threads - 1 {
            total - 1
        } else {
            (i + 1) * chunk - 1
        };
        assert(start == segment(total, threads, i as int).0);
        assert(end == segment(total, threads, i as int).1);
        let ghost before = out@;
        out.push((start, end));
        assert(forall|j: int| 0 <= j < i ==> out@[j] == before[j]);
        i = i + 1;
    }
    out
}

/// The connection whose range holds byte `b`.
pub open spec fn owner(total: u64, threads: u64, b: int) -> int {
    let q = b / ((total / threads) as int);
    if q < threads - 1 {
        q
    } else {
        threads - 1
    }
}

/// The ranges of the connections split the file exactly: together they
/// cover every byte from 0 to `total - 1` (byte `b` lies in the range of
/// connection `owner(total, threads, b)`), follow one another without gaps,
/// are each nonempty, and share no byte.
pub proof fn lemma_segments_partition(total: u64, threads: u64)
    requires
        0 < threads <= total,
    ensures
        segment(total, threads, 0).0 == 0,
        segment(total, threads, threads - 1).1 == total - 1,
        forall|i: int|
            0 <= i < threads ==> #[trigger] segment(total, threads, i).0 <= segment(
                total,
                threads,
                i,
            ).1,
        forall|i: int|
            0 <= i < threads - 1 ==> #[trigger] segment(total, threads, i + 1).0 == segment(
                total,
                threads,
                i,
            ).1 + 1,
        forall|b: int|
            0 <= b < total ==> 0 <= #[trigger] owner(total, threads, b) < threads && segment(
                total,
                threads,
                owner(total, threads, b),
            ).0 <= b <= segment(total, threads, owner(total, threads, b)).1,
        forall|i: int, j: int|
            0 <= i < j < threads ==> #[trigger] segment(total, threads, i).1 < #[trigger] segment(
                total,
                threads,
                j,
            ).0,
{
    let chunk = total / threads;
    lemma_shares_fit(total, threads, threads as int);
    assert forall|i: int| 0 <= i < threads implies #[trigger] segment(total, threads, i).0
        <= segment(total, threads, i).1 by {
        lemma_shares_fit(total, threads, i);
        lemma_shares_fit(total, threads, i + 1);
        assert(i * chunk + chunk == (i + 1) * chunk) by (nonlinear_arith);
        if i == threads - 1 {
            assert(i * chunk + chunk <= total);
        }
    }
    assert forall|i: int| 0 <= i < threads - 1 implies #[trigger] segment(total, threads, i + 1).0
        == segment(total, threads, i).1 + 1 by {
        assert(i * chunk + chunk == (i + 1) * chunk) by (nonlinear_arith);
    }
    assert forall|b: int| 0 <= b < total implies 0 <= #[trigger] owner(total, threads, b) < threads
        && segment(total, threads, owner(total, threads, b)).0 <= b <= segment(
        total,
        threads,
        owner(total, threads, b),
    ).1 by {
        let q = b / (chunk as int);
        let i = owner(total, threads, b);
        assert(q * chunk <= b < (q + 1) * chunk) by (nonlinear_arith)
            requires
                q == b / (chunk as int),
                chunk >= 1,
                b >= 0,
        ;
        assert(q >= 0) by (nonlinear_arith)
            requires
                q == b / (chunk as int),
                chunk >= 1,
                b >= 0,
        ;
        if q >= threads - 1 {
            assert(i * chunk <= q * chunk) by (nonlinear_arith)
                requires
                    i <= q,
                    chunk >= 1,
                    i >= 0,
            ;
        }
        assert(segment(total, threads, i).0 <= b <= segment(total, threads, i).1);
    }
    assert forall|i: int, j: int| 0 <= i < j < threads implies #[trigger] segment(
        total,
        threads,
        i,
    ).1 < #[trigger] segment(total, threads, j).0 by {
        assert((i + 1) * chunk <= j * chunk) by (nonlinear_arith)
            requires
                i + 1 <= j,
                chunk >= 1,
        ;
    }
}

/// The `Range` header value `bytes=<start>-<end>`.
pub open spec fn range_header(start: u64, end: u64) -> Seq<char> {
    "bytes="@ + decimal(start as nat) + seq!['-'] + decimal(end as nat)
}

/// The `Range` header value asking for bytes `start` through `end`.
pub fn range_header_value(start: u64, end: u64) -> (r: String)
    ensures
        r@ == range_header(start, end),
{
    let mut cs = chars_of("bytes=");
    push_decimal(&mut cs, start);
    cs.push('-');
    push_decimal(&mut cs, end);
    assert(cs@ =~= range_header(start, end));
    string_of(&cs)
}

} // verus!

verus! {

// ----------------------------------------------------------------------------
// File name
// ----------------------------------------------------------------------------

/// Titles that say nothing about the file: empty, the placeholder
/// `unknown_file`, or the sniffer's generic `嗅探资源 [...]` label.
pub open spec fn is_placeholder_title(title: Seq<char>) -> bool {
    title.len() == 0 || title == "unknown_file"@ || has_prefix(title, "嗅探资源"@)
}

/// The name a file is saved under, before its extension is settled: the
/// title (or, for a placeholder title, the name taken from the URL), without
/// the `.unknown` markers that name templates leave, without trailing ` - `
/// and ` -` left by empty template fields, and `download_file` if nothing
/// remains.
pub open spec fn base_file_name(title: Seq<char>, url_file_name: Seq<char>) -> Seq<char> {
    let chosen = if is_placeholder_title(title) {
        url_file_name
    } else {
        title
    };
    let unmarked = replace_all(
        replace_all(chosen, ".unknown.unknown"@, Seq::empty()),
        ".unknown"@,
        Seq::empty(),
    );
    let trimmed = strip_suffix_all(strip_suffix_all(unmarked, " - "@), " -"@);
    if trimmed.len() == 0 {
        "download_file"@
    } else {
        trimmed
    }
}

/// The extension to add when the server names none: the one its MIME type
/// suggests, or `mp4`.
pub open spec fn default_extension(mime_extension: Option<Seq<char>>) -> Seq<char> {
    match mime_extension {
        Some(e) => e,
        None => "mp4"@,
    }
}

/// `base` with `.` and the default extension, unless it already holds a `.`.
pub open spec fn with_extension(base: Seq<char>, mime_extension: Option<Seq<char>>) -> Seq<char> {
    if base.contains('.') {
        base
    } else {
        base + seq!['.'] + default_extension(mime_extension)
    }
}

/// The final file name: when the server's (sanitized) file name has an
/// extension, the base name followed by that extension (from its last `.`);
/// otherwise the base name, given an extension if it has no `.`.
pub open spec fn final_file_name(
    base: Seq<char>,
    server_file_name: Option<Seq<char>>,
    mime_extension: Option<Seq<char>>,
) -> Seq<char> {
    match server_file_name {
        Some(name) => match last_index_of(name, '.') {
            Some(i) => base + name.skip(i),
            None => with_extension(base, mime_extension),
        },
        None => with_extension(base, mime_extension),
    }
}

/// After all trailing copies of `pat` are stripped, none is left.
pub proof fn lemma_strip_suffix_all(s: Seq<char>, pat: Seq<char>)
    requires
        pat.len() > 0,
    ensures
        !has_suffix(strip_suffix_all(s, pat), pat),
        strip_suffix_all(s, pat).len() <= s.len(),
        has_prefix(s, strip_suffix_all(s, pat)),
    decreases s.len(),
{
    if has_suffix(s, pat) {
        let t = s.take(s.len() - pat.len());
        lemma_strip_suffix_all(t, pat);
        let r = strip_suffix_all(t, pat);
        assert(s.take(r.len() as int) =~= t.take(r.len() as int));
    } else {
        assert(s.take(s.len() as int) =~= s);
    }
}

/// The position that `last_index_of` reports holds the character.
pub proof fn lemma_last_index_of(s: Seq<char>, c: char)
    ensures
        match last_index_of(s, c) {
            Some(i) => 0 <= i < s.len() && s[i] == c && forall|j: int| i < j < s.len() ==> s[j] != c,
            None => !s.contains(c),
        },
    decreases s.len(),
{
    if s.len() > 0 && s.last() != c {
        lemma_last_index_of(s.drop_last(), c);
        match last_index_of(s.drop_last(), c) {
            Some(i) => {
                assert forall|j: int| i < j < s.len() implies s[j] != c by {
                    if j < s.len() - 1 {
                        assert(s[j] == s.drop_last()[j]);
                    }
                }
            },
            None => {},
        }
        if s.contains(c) {
            let k = choose|k: int| 0 <= k < s.len() && s[k] == c;
            assert(k < s.len() - 1);
            assert(s.drop_last()[k] == c);
        }
    }
}

/// A base file name is never empty and never ends in ` -`.
pub proof fn lemma_base_file_name(title: Seq<char>, url_file_name: Seq<char>)
    ensures
        base_file_name(title, url_file_name).len() > 0,
        !has_suffix(base_file_name(title, url_file_name), " -"@),
{
    reveal_strlit(" -");
    reveal_strlit(" - ");
    reveal_strlit("download_file");
    let chosen = if is_placeholder_title(title) {
        url_file_name
    } else {
        title
    };
    let unmarked = replace_all(
        replace_all(chosen, ".unknown.unknown"@, Seq::empty()),
        ".unknown"@,
        Seq::empty(),
    );
    let once = strip_suffix_all(unmarked, " - "@);
    lemma_strip_suffix_all(once, " -"@);
    let b = base_file_name(title, url_file_name);
    if b == "download_file"@ {
        assert(b.skip(b.len() - 2)[1] == 'e');
    }
}

/// A final file name starts with the base name, is longer than nothing and
/// holds a `.` before its extension.
pub proof fn lemma_final_file_name(
    base: Seq<char>,
    server_file_name: Option<Seq<char>>,
    mime_extension: Option<Seq<char>>,
)
    ensures
        has_prefix(final_file_name(base, server_file_name, mime_extension), base),
        final_file_name(base, server_file_name, mime_extension).contains('.'),
        final_file_name(base, server_file_name, mime_extension).len() >= base.len(),
{
    let f = final_file_name(base, server_file_name, mime_extension);
    let w = with_extension(base, mime_extension);
    if !base.contains('.') {
        assert(w[base.len() as int] == '.');
    }
    assert(w.take(base.len() as int) =~= base);
    match server_file_name {
        Some(name) => {
            lemma_last_index_of(name, '.');
            match last_index_of(name, '.') {
                Some(i) => {
                    assert(f[base.len() as int] == name[i]);
                    assert(f.take(base.len() as int) =~= base);
                },
                None => {},
            }
        },
        None => {},
    }
}

/// The base file name for a task titled `title` whose URL names the file
/// `url_file_name`.
pub fn base_file_name_of(title: &str, url_file_name: &str) -> (r: String)
    ensures
        r@ == base_file_name(title@, url_file_name@),
        r@.len() > 0,
        !has_suffix(r@, " -"@),
{
    proof {
        lemma_base_file_name(title@, url_file_name@);
    }
    let t = chars_of(title);
    let placeholder = t.len() == 0 || chars_equal(&t, &chars_of("unknown_file")) || has_prefix_chars(
        &t,
        &chars_of("嗅探资源"),
    );
    let chosen = if placeholder {
        chars_of(url_file_name)
    } else {
        t
    };
    let empty: Vec<char> = Vec::new();
    let double_marker = chars_of(".unknown.unknown");
    let marker = chars_of(".unknown");
    proof {
        reveal_strlit(".unknown.unknown");
        reveal_strlit(".unknown");
        reveal_strlit(" - ");
        reveal_strlit(" -");
    }
    let once = replace_all_chars(&chosen, &double_marker, &empty);
    let unmarked = replace_all_chars(&once, &marker, &empty);
    let dash_space = chars_of(" - ");
    let dash = chars_of(" -");
    let trimmed = strip_suffix_all_chars(strip_suffix_all_chars(unmarked, &dash_space), &dash);
    assert(empty@ =~= Seq::<char>::empty());
    if trimmed.len() == 0 {
        String::from_str("download_file")
    } else {
        string_of(&trimmed)
    }
}

/// The file name to save under: `base` with the extension of the server's
/// sanitized file name when it has one, else `base` given the MIME type's
/// extension (or `mp4`) unless it already holds a `.`.
pub fn resolve_file_name(
    base: &str,
    server_file_name: &Option<String>,
    mime_extension: &Option<String>,
) -> (r: String)
    ensures
        r@ == final_file_name(
            base@,
            match server_file_name {
                Some(n) => Some(n@),
                None => None,
            },
            match mime_extension {
                Some(e) => Some(e@),
                None => None,
            },
        ),
        has_prefix(r@, base@),
        r@.contains('.'),
{
    let ghost server = match server_file_name {
        Some(n) => Some(n@),
        None => None::<Seq<char>>,
    };
    let ghost mime = match mime_extension {
        Some(e) => Some(e@),
        None => None::<Seq<char>>,
    };
    proof {
        lemma_final_file_name(base@, server, mime);
    }
    let b = chars_of(base);
    if let Some(name) = server_file_name {
        let n = chars_of(name.as_str());
        if let Some(i) = last_index_of_char(&n, '.') {
            proof {
                lemma_last_index_of(n@, '.');
            }
            let mut tail: Vec<char> = Vec::new();
            let mut k: usize = i;
            while k < n.len()
                invariant
                    i <= k <= n@.len(),
                    tail@ == n@.subrange(i as int, k as int),
                decreases n@.len() - k,
            {
                tail.push(n[k]);
                assert(n@.subrange(i as int, k + 1) =~= n@.subrange(i as int, k as int).push(
                    n@[k as int],
                ));
                k = k + 1;
            }
            assert(n@.subrange(i as int, n@.len() as int) =~= n@.skip(i as int));
            let mut out = b;
            append_chars(&mut out, &tail);
            return string_of(&out);
        }
    }
    if contains_char(&b, '.') {
        return string_of(&b);
    }
    let mut out = b;
    out.push('.');
    let ext = match mime_extension {
        Some(e) => chars_of(e.as_str()),
        None => chars_of("mp4"),
    };
    append_chars(&mut out, &ext);
    assert(out@ =~= with_extension(base@, mime));
    string_of(&out)
}

} // verus!

verus! {

// ----------------------------------------------------------------------------
// What the server says about the file
// ----------------------------------------------------------------------------

/// What one HTTP response told about the remote file.
pub struct ResponseInfo {
    /// The `Content-Length` header.
    pub content_length: Option<u64>,
    /// The `Content-Range` header, when it was readable text.
    pub content_range: Option<String>,
    /// The file name given by the `Content-Disposition` header.
    pub file_name: Option<String>,
    /// The extension that the `Content-Type` header suggests.
    pub extension: Option<String>,
}

/// What is known of the remote file.
pub struct RemoteFile {
    /// The size in bytes, 0 when unknown.
    pub total_size: u64,
    pub file_name: Option<String>,
    pub extension: Option<String>,
}

/// What a `HEAD` request tells (nothing when it failed): the size from
/// `Content-Length`, and the name and extension from the headers.
pub fn remote_file_from_head(head: Option<ResponseInfo>) -> (r: RemoteFile)
    ensures
        match head {
            Some(h) => r.total_size == (match h.content_length {
                Some(n) => n,
                None => 0,
            }) && r.file_name == h.file_name && r.extension == h.extension,
            None => r.total_size == 0 && r.file_name is None && r.extension is None,
        },
{
    match head {
        Some(h) => RemoteFile {
            total_size: match h.content_length {
                Some(n) => n,
                None => 0,
            },
            file_name: h.file_name,
            extension: h.extension,
        },
        None => RemoteFile { total_size: 0, file_name: None, extension: None },
    }
}

/// Whether the size is still unknown, so that a one-byte range request
/// (`Range: bytes=0-0`) must be tried.
pub fn needs_range_probe(file: &RemoteFile) -> (r: bool)
    ensures
        r == (file.total_size == 0),
{
    file.total_size == 0
}

/// What is known after the one-byte range request (nothing when it failed):
/// its size as `probed_size` reads it, and the name and extension from it
/// where the `HEAD` request gave none.
pub fn merge_range_probe(file: RemoteFile, probe: Option<ResponseInfo>) -> (r: RemoteFile)
    ensures
        match probe {
            Some(p) => {
                &&& r.total_size == probed_size(
                    match p.content_range {
                        Some(h) => Some(h@),
                        None => None,
                    },
                    p.content_length,
                )
                &&& r.file_name == (if file.file_name is Some {
                    file.file_name
                } else {
                    p.file_name
                })
                &&& r.extension == (if file.extension is Some {
                    file.extension
                } else {
                    p.extension
                })
            },
            None => r == file,
        },
{
    match probe {
        Some(p) => {
            let total_size = probed_size_of(&p.content_range, p.content_length);
            let file_name = if file.file_name.is_some() {
                file.file_name
            } else {
                p.file_name
            };
            let extension = if file.extension.is_some() {
                file.extension
            } else {
                p.extension
            };
            RemoteFile { total_size, file_name, extension }
        },
        None => file,
    }
}

// ----------------------------------------------------------------------------
// Outcome
// ----------------------------------------------------------------------------

/// The message for a transfer that produced nothing usable.
pub open spec fn download_failed_message() -> Seq<char> {
    "下载失败: 链接已失效、服务器断开连接或任务被取消"@
}

/// The outcome of a transfer of a file of `total_size` bytes (0 for an
/// unknown size, fetched as one stream) after `received_bytes` arrived: it
/// failed when nothing arrived or fewer bytes than the known size did;
/// otherwise the file is complete at its known size, or at the bytes
/// received when the size was unknown.
pub open spec fn download_outcome(total_size: u64, received_bytes: u64) -> Result<u64, Seq<char>> {
    if received_bytes == 0 || (total_size > 0 && received_bytes < total_size) {
        Err(download_failed_message())
    } else if total_size > 0 {
        Ok(total_size)
    } else {
        Ok(received_bytes)
    }
}

/// Decides whether the transfer succeeded and at which size.
pub fn finish_download(total_size: u64, received_bytes: u64) -> (r: Result<u64, String>)
    ensures
        match r {
            Ok(n) => download_outcome(total_size, received_bytes) == Ok::<u64, Seq<char>>(n),
            Err(m) => download_outcome(total_size, received_bytes) == Err::<u64, Seq<char>>(m@),
        },
        r matches Ok(n) ==> n > 0 && received_bytes >= n && (total_size > 0 ==> n == total_size) && (
        total_size == 0 ==> n == received_bytes),
{
    if received_bytes == 0 || (total_size > 0 && received_bytes < total_size) {
        Err(String::from_str("下载失败: 链接已失效、服务器断开连接或任务被取消"))
    } else if total_size > 0 {
        Ok(total_size)
    } else {
        Ok(received_bytes)
    }
}

} // verus!

verus! {

// ----------------------------------------------------------------------------
// Progress
// ----------------------------------------------------------------------------

/// Whether the progress reporter can stop: the size is known and at least
/// that many bytes have arrived. A transfer of unknown size is reported on
/// until the transfer itself ends.
pub fn progress_finished(total_size: u64, downloaded: u64) -> (r: bool)
    ensures
        r == (total_size > 0 && downloaded >= total_size),
{
    total_size > 0 && downloaded >= total_size
}

} // verus!

verus! {

// ----------------------------------------------------------------------------
// Repairing a broken range
// ----------------------------------------------------------------------------

/// How many requests in a row may bring no bytes before a range is given up.
pub const MAX_SEGMENT_FAILURES: u32 = 3;

/// The transfer of one byte range `start..=end`: how many bytes of it have
/// arrived, and how many requests in a row have brought none.
pub struct SegmentTransfer {
    pub start: u64,
    pub end: u64,
    pub received: u64,
    pub failures: u32,
}

impl SegmentTransfer {
    /// The range has arrived whole.
    pub open spec fn is_complete(self) -> bool {
        self.received > self.end - self.start
    }

    /// The request to send next: the part of the range still missing, from
    /// the first byte not yet received to the end, unless the range is
    /// complete or too many requests in a row brought nothing.
    pub open spec fn pending_request(self) -> Option<(u64, u64)> {
        if self.is_complete() || self.failures >= MAX_SEGMENT_FAILURES {
            None
        } else {
            Some(((self.start + self.received) as u64, self.end))
        }
    }

    /// The transfer after a request that brought `bytes` bytes.
    pub open spec fn after_request(self, bytes: u64) -> SegmentTransfer {
        SegmentTransfer {
            start: self.start,
            end: self.end,
            received: if self.received + bytes > u64::MAX {
                u64::MAX
            } else {
                (self.received + bytes) as u64
            },
            failures: if bytes > 0 {
                0
            } else if self.failures == u32::MAX {
                u32::MAX
            } else {
                (self.failures + 1) as u32
            },
        }
    }

    /// How much work is left, in requests: each missing byte may cost a run
    /// of failed requests and one that brings it.
    pub open spec fn work_left(self) -> nat {
        let missing = if self.is_complete() {
            0
        } else {
            (self.end - self.start + 1 - self.received) as nat
        };
        let failures_left = if self.failures >= MAX_SEGMENT_FAILURES {
            0
        } else {
            (MAX_SEGMENT_FAILURES - self.failures) as nat
        };
        missing * (MAX_SEGMENT_FAILURES + 1) as nat + failures_left
    }

    /// A transfer of `start..=end` with nothing received yet.
    pub fn new(start: u64, end: u64) -> (r: SegmentTransfer)
        requires
            start <= end,
        ensures
            r.start == start,
            r.end == end,
            r.received == 0,
            r.failures == 0,
    {
        SegmentTransfer { start, end, received: 0, failures: 0 }
    }

    /// The `(from, to)` byte range to request next, if any: the missing
    /// tail of the range.
    pub fn next_request(&self) -> (r: Option<(u64, u64)>)
        requires
            self.start <= self.end,
        ensures
            r == self.pending_request(),
            r matches Some((from, to)) ==> from == self.start + self.received && to == self.end
                && self.start <= from <= to,
    {
        if self.received > self.end - self.start || self.failures >= MAX_SEGMENT_FAILURES {
            None
        } else {
            Some((self.start + self.received, self.end))
        }
    }

    /// Records a request that brought `bytes` bytes.
    pub fn record_request(&mut self, bytes: u64)
        ensures
            *final(self) == old(self).after_request(bytes),
    {
        self.received = self.received.saturating_add(bytes);
        self.failures = if bytes > 0 {
            0
        } else {
            self.failures.saturating_add(1)
        };
    }
}

/// Every request that a range transfer sends leaves less work: so a range
/// is requested at most `work_left` times before it is complete or given up.
/// (A range of a file ends before the last `u64`, as a file has fewer than
/// `u64::MAX` bytes.)
pub proof fn lemma_segment_transfer_ends(t: SegmentTransfer, bytes: u64)
    requires
        t.start <= t.end < u64::MAX,
        t.pending_request() is Some,
    ensures
        t.after_request(bytes).work_left() < t.work_left(),
{
    let a = t.after_request(bytes);
    let len = t.end - t.start + 1;
    let k = (MAX_SEGMENT_FAILURES + 1) as nat;
    if bytes > 0 {
        let m0 = (len - t.received) as nat;
        let m1: nat = if a.is_complete() {
            0
        } else {
            (len - a.received) as nat
        };
        assert(!t.is_complete());
        if t.received + bytes > u64::MAX {
            assert(a.received == u64::MAX);
            assert(a.is_complete());
        } else {
            assert(a.received == t.received + bytes);
        }
        assert(a.received >= t.received + 1 || a.is_complete());
        assert(m1 + 1 <= m0);
        assert(m1 * k + k <= m0 * k) by (nonlinear_arith)
            requires
                m1 + 1 <= m0,
                k > 0,
        ;
    }
}

} // verus!

verus! {

// ----------------------------------------------------------------------------
// Laws of the decisions, stated in terms of their inputs
// ----------------------------------------------------------------------------

/// A file of known size from 5 MiB up is fetched over exactly the configured
/// number of connections, whatever that number is; a smaller or unknown one
/// over a single connection.
pub proof fn law_thread_count(total_size: u64, max_threads: u8)
    ensures
        total_size >= 5242880 ==> thread_count(total_size, max_threads) == max_threads as u64,
        total_size < 5242880 ==> thread_count(total_size, max_threads) == 1,
{
}

/// When the server's file name has a `.`, the last one at `i`, the file is
/// named exactly the base name followed by the server's name from `i` on,
/// whether or not the base name holds a `.` already, and whatever the MIME
/// type suggests.
pub proof fn law_file_name_takes_server_extension(
    base: Seq<char>,
    server_name: Seq<char>,
    mime_extension: Option<Seq<char>>,
    i: int,
)
    requires
        0 <= i < server_name.len(),
        server_name[i] == '.',
        forall|j: int| i < j < server_name.len() ==> server_name[j] != '.',
    ensures
        final_file_name(base, Some(server_name), mime_extension) == base + server_name.skip(i),
{
    lemma_last_index_of(server_name, '.');
    match last_index_of(server_name, '.') {
        Some(k) => {
            if k < i {
                assert(server_name[i] != '.');
            }
            if k > i {
                assert(server_name[k] != '.');
            }
        },
        None => {
            assert(server_name.contains('.')) by {
                assert(server_name[i] == '.');
            }
        },
    }
}

/// When the server gives no file name with a `.`, a base name that holds a
/// `.` is kept as it is, and any other gets `.` and the MIME type's
/// extension, or `.mp4` without one.
pub proof fn law_file_name_without_server_extension(
    base: Seq<char>,
    server_name: Option<Seq<char>>,
    mime_extension: Option<Seq<char>>,
)
    requires
        server_name matches Some(n) ==> !n.contains('.'),
    ensures
        base.contains('.') ==> final_file_name(base, server_name, mime_extension) == base,
        !base.contains('.') && mime_extension is None ==> final_file_name(
            base,
            server_name,
            mime_extension,
        ) == base + ".mp4"@,
        !base.contains('.') && mime_extension is Some ==> final_file_name(
            base,
            server_name,
            mime_extension,
        ) == base + seq!['.'] + mime_extension->0,
{
    reveal_strlit(".mp4");
    reveal_strlit("mp4");
    match server_name {
        Some(n) => {
            lemma_last_index_of(n, '.');
        },
        None => {},
    }
    assert(seq!['.'] + "mp4"@ =~= ".mp4"@);
    assert(base + seq!['.'] + "mp4"@ =~= base + ".mp4"@);
}

/// One captured entry gives its header exactly when HTTP accepts its name
/// and its value with line breaks removed: then the header is the name in
/// lower case with that value.
pub proof fn law_header_of_one_entry(name: Seq<char>, value: Seq<char>)
    ensures
        is_header_name(name) && is_header_value(without_line_breaks(value)) ==> accepted_headers(
            seq![(name, value)],
        ) == seq![(ascii_lower(name), without_line_breaks(value))],
        !(is_header_name(name) && is_header_value(without_line_breaks(value))) ==> accepted_headers(
            seq![(name, value)],
        ).len() == 0,
{
    let e = seq![(name, value)];
    assert(e.drop_last() =~= Seq::<(Seq<char>, Seq<char>)>::empty());
    assert(e.last() == (name, value));
    assert(accepted_headers(e.drop_last()) =~= Seq::<(Seq<char>, Seq<char>)>::empty());
    if is_header_name(name) && is_header_value(without_line_breaks(value)) {
        assert(accepted_headers(e) =~= Seq::<(Seq<char>, Seq<char>)>::empty().push(
            (ascii_lower(name), without_line_breaks(value)),
        ));
        assert(accepted_headers(e) =~= seq![(ascii_lower(name), without_line_breaks(value))]);
    }
}

/// The headers of entries laid end to end are the headers of each, in order:
/// every entry is judged on its own.
pub proof fn law_headers_concat(a: Seq<(Seq<char>, Seq<char>)>, b: Seq<(Seq<char>, Seq<char>)>)
    ensures
        accepted_headers(a + b) == accepted_headers(a) + accepted_headers(b),
    decreases b.len(),
{
    if b.len() == 0 {
        assert(a + b =~= a);
        assert(accepted_headers(a) + accepted_headers(b) =~= accepted_headers(a));
    } else {
        law_headers_concat(a, b.drop_last());
        assert((a + b).drop_last() =~= a + b.drop_last());
        assert((a + b).last() == b.last());
        match header_entry(b.last().0, b.last().1) {
            Some(h) => {
                assert(accepted_headers(a) + accepted_headers(b) =~= (accepted_headers(a)
                    + accepted_headers(b.drop_last())).push(h));
            },
            None => {},
        }
    }
}

/// A value made of tabs, line breaks and characters from the space upwards
/// other than DEL (semicolons, `=`, non-ASCII text such as a cookie's) is
/// always kept, under a valid name, with its line breaks removed.
pub proof fn law_printable_values_are_kept(name: Seq<char>, value: Seq<char>)
    requires
        is_header_name(name),
        forall|k: int|
            0 <= k < value.len() ==> (#[trigger] value[k] == '\t' || value[k] == '\n' || value[k]
                == '\r' || (value[k] as u32 >= 32 && value[k] as u32 != 127)),
    ensures
        accepted_headers(seq![(name, value)]) == seq![(ascii_lower(name), without_line_breaks(value))],
{
    let clean = without_line_breaks(value);
    assert forall|k: int| 0 <= k < clean.len() implies is_header_value_char(#[trigger] clean[k]) by {
        value.lemma_filter_pred(not_line_break(), k);
        assert(clean.contains(clean[k]));
        value.lemma_filter_contains_rev(not_line_break(), clean[k]);
        let m = choose|m: int| 0 <= m < value.len() && value[m] == clean[k];
        assert(value[m] == clean[k]);
    }
    law_header_of_one_entry(name, value);
}

} // verus!
