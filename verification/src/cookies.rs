//! Export of the cookies that the sniffer window reports, in the Netscape
//! cookie-file format that yt-dlp reads.

use vstd::prelude::*;

use crate::clock::{current_time, MAX_EPOCH_SECONDS};
use crate::json::{json_string_field, pair_views, read_string_field};
use crate::text::{
    append_chars, append_str, chars_of, first_index_of, first_index_of_char, i64_decimal,
    lemma_first_index_of, lemma_split_concat, signed_decimal, split_chars, split_on, string_of,
    trim, trim_chars,
};

verus! {

/// How long an exported cookie stays valid: one year, in seconds.
pub const COOKIE_LIFETIME_SECONDS: i64 = 31536000;

/// The name and value in one `;`-separated part of a `Cookie` string: the
/// trimmed part up to its first `=` and the rest after it (an empty value
/// when there is no `=`). Blank parts and parts with an empty name give none.
pub open spec fn cookie_entry(part: Seq<char>) -> Option<(Seq<char>, Seq<char>)> {
    let kv = trim(part);
    if kv.len() == 0 {
        None
    } else {
        match first_index_of(kv, '=') {
            Some(i) => if i == 0 {
                None
            } else {
                Some((kv.take(i), kv.skip(i + 1)))
            },
            None => Some((kv, Seq::empty())),
        }
    }
}

/// The cookies in a list of parts, in order.
pub open spec fn cookie_entries_of_parts(parts: Seq<Seq<char>>) -> Seq<(Seq<char>, Seq<char>)>
    decreases parts.len(),
{
    if parts.len() == 0 {
        Seq::empty()
    } else {
        let prev = cookie_entries_of_parts(parts.drop_last());
        match cookie_entry(parts.last()) {
            Some(e) => prev.push(e),
            None => prev,
        }
    }
}

/// The cookies in a `Cookie` string such as `document.cookie`.
pub open spec fn cookie_entries(raw: Seq<char>) -> Seq<(Seq<char>, Seq<char>)> {
    cookie_entries_of_parts(split_on(raw, ';'))
}

/// The domain column: the domain with a leading `.`, so that it covers
/// subdomains.
pub open spec fn netscape_domain(domain: Seq<char>) -> Seq<char> {
    if domain.len() > 0 && domain[0] == '.' {
        domain
    } else {
        seq!['.'] + domain
    }
}

/// One line of a Netscape cookie file: domain, subdomains included (`TRUE`),
/// path `/`, not secure-only (`FALSE`), expiry, name and value, separated by
/// tabs and ended by a line feed.
pub open spec fn netscape_line(domain: Seq<char>, name: Seq<char>, value: Seq<char>, expiry: int) -> Seq<char> {
    netscape_domain(domain) + "\tTRUE\t/\tFALSE\t"@ + signed_decimal(expiry) + seq!['\t'] + name
        + seq!['\t'] + value + seq!['\n']
}

/// The lines for `entries`, the `i`-th expiring a year after `times[i]`.
pub open spec fn netscape_lines(
    domain: Seq<char>,
    entries: Seq<(Seq<char>, Seq<char>)>,
    times: Seq<i64>,
) -> Seq<char>
    decreases entries.len(),
{
    if entries.len() == 0 {
        Seq::empty()
    } else {
        netscape_lines(domain, entries.drop_last(), times.drop_last()) + netscape_line(
            domain,
            entries.last().0,
            entries.last().1,
            times.last() + COOKIE_LIFETIME_SECONDS,
        )
    }
}

/// The header lines of an exported cookie file.
pub open spec fn cookie_file_header() -> Seq<char> {
    "# Netscape HTTP Cookie File\n# This file was generated by DL-Omni Internal Sniffer\n\n"@
}

/// The name and value in one part of a `Cookie` string, if it holds one.
pub fn cookie_entry_of(part: &Vec<char>) -> (r: Option<(Vec<char>, Vec<char>)>)
    ensures
        match r {
            Some(e) => cookie_entry(part@) == Some((e.0@, e.1@)),
            None => cookie_entry(part@) is None,
        },
{
    let kv = trim_chars(part);
    if kv.len() == 0 {
        return None;
    }
    proof {
        lemma_first_index_of(kv@, '=');
    }
    match first_index_of_char(&kv, '=') {
        Some(i) => {
            if i == 0 {
                return None;
            }
            let mut name: Vec<char> = Vec::new();
            let mut value: Vec<char> = Vec::new();
            let mut k: usize = 0;
            while k < kv.len()
                invariant
                    0 < i < kv@.len(),
                    k <= kv@.len(),
                    k <= i ==> name@ == kv@.take(k as int) && value@.len() == 0,
                    k > i ==> name@ == kv@.take(i as int) && value@ == kv@.subrange(
                        i + 1,
                        k as int,
                    ),
                decreases kv@.len() - k,
            {
                if k < i {
                    name.push(kv[k]);
                    assert(kv@.take(k + 1) =~= kv@.take(k as int).push(kv@[k as int]));
                } else if k > i {
                    value.push(kv[k]);
                    assert(kv@.subrange(i + 1, k + 1) =~= kv@.subrange(i + 1, k as int).push(
                        kv@[k as int],
                    ));
                } else {
                    assert(kv@.subrange(i + 1, k + 1) =~= Seq::<char>::empty());
                }
                k = k + 1;
            }
            assert(kv@.subrange(i + 1, kv@.len() as int) =~= kv@.skip(i + 1));
            Some((name, value))
        },
        None => {
            let empty: Vec<char> = Vec::new();
            assert(empty@ =~= Seq::<char>::empty());
            Some((kv, empty))
        },
    }
}

/// The cookies in a `Cookie` string, in order.
pub fn cookie_entries_of(raw: &str) -> (r: Vec<(String, String)>)
    ensures
        pair_views(r@) == cookie_entries(raw@),
{
    let cs = chars_of(raw);
    let parts = split_chars(&cs, ';');
    let ghost ps = split_on(raw@, ';');
    let n = parts.len();
    let mut out: Vec<(String, String)> = Vec::new();
    let mut i: usize = 0;
    assert(ps.take(0) =~= Seq::<Seq<char>>::empty());
    assert(pair_views(out@) =~= Seq::<(Seq<char>, Seq<char>)>::empty());
    while i < n
        invariant
            n == parts@.len(),
            ps == parts@.map_values(|x: Vec<char>| x@),
            i <= n,
            pair_views(out@) == cookie_entries_of_parts(ps.take(i as int)),
        decreases n - i,
    {
        assert(ps.take(i + 1).drop_last() =~= ps.take(i as int));
        assert(ps.take(i + 1).last() == parts@[i as int]@);
        match cookie_entry_of(&parts[i]) {
            Some(e) => {
                let ghost before = out@;
                let name = string_of(&e.0);
                let value = string_of(&e.1);
                out.push((name, value));
                assert(pair_views(out@) =~= pair_views(before).push((e.0@, e.1@)));
            },
            None => {},
        }
        i = i + 1;
    }
    assert(ps.take(n as int) =~= ps);
    out
}

/// One line of a Netscape cookie file for the cookie `name=value` of
/// `domain`, expiring at `expiry` (seconds since the Unix epoch).
pub fn netscape_cookie_line(domain: &str, name: &str, value: &str, expiry: i64) -> (r: String)
    ensures
        r@ == netscape_line(domain@, name@, value@, expiry as int),
{
    let mut out: Vec<char> = Vec::new();
    append_netscape_line(&mut out, domain, name, value, expiry);
    assert(out@ =~= netscape_line(domain@, name@, value@, expiry as int));
    string_of(&out)
}

/// Appends one cookie line to `out`.
fn append_netscape_line(out: &mut Vec<char>, domain: &str, name: &str, value: &str, expiry: i64)
    ensures
        final(out)@ == old(out)@ + netscape_line(domain@, name@, value@, expiry as int),
{
    let d = chars_of(domain);
    if !(d.len() > 0 && d[0] == '.') {
        out.push('.');
    }
    append_chars(out, &d);
    append_str(out, "\tTRUE\t/\tFALSE\t");
    let e = i64_decimal(expiry);
    append_chars(out, &e);
    out.push('\t');
    append_str(out, name);
    out.push('\t');
    append_str(out, value);
    out.push('\n');
    assert(final(out)@ =~= old(out)@ + netscape_line(domain@, name@, value@, expiry as int));
}

/// The cookie lines for the entries of `raw_cookie` of `domain`, the `i`-th
/// written at `times[i]` (seconds since the Unix epoch) and so expiring a
/// year later.
pub fn cookie_lines_with_times(domain: &str, raw_cookie: &str, times: &Vec<i64>) -> (r: String)
    requires
        times@.len() == cookie_entries(raw_cookie@).len(),
        forall|i: int|
            0 <= i < times@.len() ==> #[trigger] times@[i] <= i64::MAX - COOKIE_LIFETIME_SECONDS,
    ensures
        r@ == netscape_lines(domain@, cookie_entries(raw_cookie@), times@),
{
    let entries = cookie_entries_of(raw_cookie);
    let ghost es = pair_views(entries@);
    let mut out: Vec<char> = Vec::new();
    let n = entries.len();
    let mut i: usize = 0;
    assert(es.take(0) =~= Seq::<(Seq<char>, Seq<char>)>::empty());
    assert(out@ =~= netscape_lines(domain@, es.take(0), times@.take(0)));
    while i < n
        invariant
            n == entries@.len(),
            es == pair_views(entries@),
            es == cookie_entries(raw_cookie@),
            times@.len() == n,
            forall|j: int|
                0 <= j < times@.len() ==> #[trigger] times@[j] <= i64::MAX - COOKIE_LIFETIME_SECONDS,
            i <= n,
            out@ == netscape_lines(domain@, es.take(i as int), times@.take(i as int)),
        decreases n - i,
    {
        let expiry = times[i] + COOKIE_LIFETIME_SECONDS;
        append_netscape_line(&mut out, domain, entries[i].0.as_str(), entries[i].1.as_str(), expiry);
        assert(es.take(i + 1).drop_last() =~= es.take(i as int));
        assert(times@.take(i + 1).drop_last() =~= times@.take(i as int));
        assert(es.take(i + 1).last() == es[i as int]);
        assert(es[i as int] == (entries@[i as int].0@, entries@[i as int].1@));
        i = i + 1;
    }
    assert(es.take(n as int) =~= es);
    assert(times@.take(n as int) =~= times@);
    string_of(&out)
}

/// The cookie lines of a Netscape cookie file for the `Cookie` string
/// `raw_cookie` of `domain`: one line per cookie, each expiring a year after
/// the clock time read for it; `None` when the clock cannot be read.
pub fn format_cookie_to_netscape(domain: &str, raw_cookie: &str) -> (r: Option<String>)
    ensures
        r matches Some(lines) ==> exists|times: Seq<i64>|
            times.len() == cookie_entries(raw_cookie@).len() && (forall|i: int|
                0 <= i < times.len() ==> 0 <= #[trigger] times[i] <= MAX_EPOCH_SECONDS)
                && lines@ == netscape_lines(domain@, cookie_entries(raw_cookie@), times),
        cookie_entries(raw_cookie@).len() == 0 ==> (r matches Some(lines) && lines@.len() == 0),
{
    let n = cookie_entries_of(raw_cookie).len();
    let mut times: Vec<i64> = Vec::new();
    while times.len() < n
        invariant
            n == cookie_entries(raw_cookie@).len(),
            times@.len() <= n,
            forall|j: int| 0 <= j < times@.len() ==> 0 <= #[trigger] times@[j] <= MAX_EPOCH_SECONDS,
        decreases n - times@.len(),
    {
        match current_time() {
            Some((secs, _)) => times.push(secs),
            None => {
                return None;
            },
        }
    }
    let lines = cookie_lines_with_times(domain, raw_cookie, &times);
    assert(n == 0 ==> netscape_lines(domain@, cookie_entries(raw_cookie@), times@).len() == 0);
    Some(lines)
}

/// The cookie lines for the `Cookie` string `raw` of `domain`, all written
/// at time `now`.
pub open spec fn cookie_lines(domain: Seq<char>, raw: Seq<char>, now: int) -> Seq<char> {
    netscape_lines(domain, cookie_entries(raw), Seq::new(cookie_entries(raw).len(), |i: int| now as i64))
}

/// The cookie lines for the `Cookie` string `raw_cookie` of `domain`, all
/// written at `now` (seconds since the Unix epoch) and so expiring at
/// `now` plus one year.
pub fn cookie_lines_at(domain: &str, raw_cookie: &str, now: i64) -> (r: String)
    requires
        now <= i64::MAX - COOKIE_LIFETIME_SECONDS,
    ensures
        r@ == cookie_lines(domain@, raw_cookie@, now as int),
{
    let n = cookie_entries_of(raw_cookie).len();
    let mut times: Vec<i64> = Vec::new();
    while times.len() < n
        invariant
            times@.len() <= n,
            times@ == Seq::new(times@.len(), |i: int| now),
        decreases n - times@.len(),
    {
        times.push(now);
        assert(times@ =~= Seq::new(times@.len(), |i: int| now));
    }
    assert(times@ =~= Seq::new(cookie_entries(raw_cookie@).len(), |i: int| (now as int) as i64));
    cookie_lines_with_times(domain, raw_cookie, &times)
}

/// The whole cookie file for the cookies of `domain`: the Netscape header
/// and then the cookie lines; `None` when the clock cannot be read.
pub fn cookie_file_content(domain: &str, raw_cookie: &str) -> (r: Option<String>)
    ensures
        r matches Some(content) ==> exists|times: Seq<i64>|
            times.len() == cookie_entries(raw_cookie@).len() && (forall|i: int|
                0 <= i < times.len() ==> 0 <= #[trigger] times[i] <= MAX_EPOCH_SECONDS)
                && content@ == cookie_file_header() + netscape_lines(
                domain@,
                cookie_entries(raw_cookie@),
                times,
            ),
        cookie_entries(raw_cookie@).len() == 0 ==> (r matches Some(content) && content@
            == cookie_file_header()),
{
    match format_cookie_to_netscape(domain, raw_cookie) {
        Some(lines) => {
            let mut out = chars_of(
                "# Netscape HTTP Cookie File\n# This file was generated by DL-Omni Internal Sniffer\n\n",
            );
            append_str(&mut out, lines.as_str());
            Some(string_of(&out))
        },
        None => None,
    }
}

/// The cookie file to write for a `sniffed_cookie` event whose JSON payload
/// is `payload`: present when the payload holds both a `domain` and a
/// `cookie` string and the clock can be read (a cookie string without
/// cookies reads no clock and always gives the bare header).
pub fn cookie_file_for_event(payload: &str) -> (r: Option<String>)
    ensures
        r is Some ==> json_string_field(payload@, "domain"@) is Some && json_string_field(
            payload@,
            "cookie"@,
        ) is Some,
        r matches Some(content) ==> exists|times: Seq<i64>|
            times.len() == cookie_entries(json_string_field(payload@, "cookie"@)->0).len()
                && (forall|i: int|
                0 <= i < times.len() ==> 0 <= #[trigger] times[i] <= MAX_EPOCH_SECONDS)
                && content@ == cookie_file_header() + netscape_lines(
                json_string_field(payload@, "domain"@)->0,
                cookie_entries(json_string_field(payload@, "cookie"@)->0),
                times,
            ),
        json_string_field(payload@, "domain"@) is Some && json_string_field(payload@, "cookie"@) is Some
            && cookie_entries(json_string_field(payload@, "cookie"@)->0).len() == 0 ==> (r matches Some(
            content) && content@ == cookie_file_header()),
{
    let domain = read_string_field(payload, "domain");
    let cookie = read_string_field(payload, "cookie");
    match (domain, cookie) {
        (Some(d), Some(c)) => cookie_file_content(d.as_str(), c.as_str()),
        _ => None,
    }
}

/// Cookie parts join: the entries of parts laid end to end are the entries
/// of each, in order.
pub proof fn lemma_entries_concat(p: Seq<Seq<char>>, q: Seq<Seq<char>>)
    ensures
        cookie_entries_of_parts(p + q) == cookie_entries_of_parts(p) + cookie_entries_of_parts(q),
    decreases q.len(),
{
    if q.len() == 0 {
        assert(p + q =~= p);
        assert(cookie_entries_of_parts(p) + cookie_entries_of_parts(q) =~= cookie_entries_of_parts(p));
    } else {
        lemma_entries_concat(p, q.drop_last());
        assert((p + q).drop_last() =~= p + q.drop_last());
        assert((p + q).last() == q.last());
        match cookie_entry(q.last()) {
            Some(e) => {
                assert(cookie_entries_of_parts(p) + cookie_entries_of_parts(q) =~= (
                cookie_entries_of_parts(p) + cookie_entries_of_parts(q.drop_last())).push(e));
            },
            None => {},
        }
    }
}

/// Lines join: the lines of entries laid end to end, with their times laid
/// end to end, are the lines of each, in order.
pub proof fn lemma_lines_concat(
    domain: Seq<char>,
    e: Seq<(Seq<char>, Seq<char>)>,
    te: Seq<i64>,
    f: Seq<(Seq<char>, Seq<char>)>,
    tf: Seq<i64>,
)
    requires
        te.len() == e.len(),
        tf.len() == f.len(),
    ensures
        netscape_lines(domain, e + f, te + tf) == netscape_lines(domain, e, te) + netscape_lines(
            domain,
            f,
            tf,
        ),
    decreases f.len(),
{
    if f.len() == 0 {
        assert(e + f =~= e);
        assert(te + tf =~= te);
        assert(netscape_lines(domain, e, te) + netscape_lines(domain, f, tf) =~= netscape_lines(
            domain,
            e,
            te,
        ));
    } else {
        lemma_lines_concat(domain, e, te, f.drop_last(), tf.drop_last());
        assert((e + f).drop_last() =~= e + f.drop_last());
        assert((te + tf).drop_last() =~= te + tf.drop_last());
        assert((e + f).last() == f.last());
        assert((te + tf).last() == tf.last());
        let l = netscape_line(domain, f.last().0, f.last().1, tf.last() + COOKIE_LIFETIME_SECONDS);
        assert(netscape_lines(domain, e, te) + netscape_lines(domain, f, tf) =~= (netscape_lines(
            domain,
            e,
            te,
        ) + netscape_lines(domain, f.drop_last(), tf.drop_last())) + l);
    }
}

/// Cookie strings join at a `;`: the lines for `a;b`, whatever times they
/// were written at, are lines for `a` followed by lines for `b` at those
/// times. So every result of `format_cookie_to_netscape` for `a;b` is a
/// result for `a` followed by a result for `b`.
pub proof fn lemma_cookie_lines_split(
    domain: Seq<char>,
    a: Seq<char>,
    b: Seq<char>,
    ta: Seq<i64>,
    tb: Seq<i64>,
)
    requires
        ta.len() == cookie_entries(a).len(),
        tb.len() == cookie_entries(b).len(),
    ensures
        cookie_entries(a.push(';') + b) == cookie_entries(a) + cookie_entries(b),
        netscape_lines(domain, cookie_entries(a.push(';') + b), ta + tb) == netscape_lines(
            domain,
            cookie_entries(a),
            ta,
        ) + netscape_lines(domain, cookie_entries(b), tb),
{
    lemma_split_concat(a, b, ';');
    lemma_entries_concat(split_on(a, ';'), split_on(b, ';'));
    lemma_lines_concat(domain, cookie_entries(a), ta, cookie_entries(b), tb);
}

/// Written at one time, the lines for `a;b` are the lines for `a` followed
/// by the lines for `b`.
pub proof fn lemma_cookie_lines_split_at(domain: Seq<char>, a: Seq<char>, b: Seq<char>, now: int)
    ensures
        cookie_lines(domain, a.push(';') + b, now) == cookie_lines(domain, a, now) + cookie_lines(
            domain,
            b,
            now,
        ),
{
    let ta = Seq::new(cookie_entries(a).len(), |i: int| now as i64);
    let tb = Seq::new(cookie_entries(b).len(), |i: int| now as i64);
    lemma_cookie_lines_split(domain, a, b, ta, tb);
    assert(ta + tb =~= Seq::new(cookie_entries(a.push(';') + b).len(), |i: int| now as i64));
}

/// A domain gets exactly one leading `.`: whatever times the lines are
/// written at, the lines for `.domain` and for `domain` agree.
pub proof fn lemma_cookie_domain_dot(
    domain: Seq<char>,
    entries: Seq<(Seq<char>, Seq<char>)>,
    times: Seq<i64>,
)
    requires
        !(domain.len() > 0 && domain[0] == '.'),
    ensures
        netscape_lines(seq!['.'] + domain, entries, times) == netscape_lines(domain, entries, times),
    decreases entries.len(),
{
    let dotted = seq!['.'] + domain;
    assert(netscape_domain(dotted) == netscape_domain(domain));
    if entries.len() > 0 {
        lemma_cookie_domain_dot(domain, entries.drop_last(), times.drop_last());
    }
}

} // verus!
