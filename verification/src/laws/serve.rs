//! What a request is answered, and what the answer says.

use crate::cli::http::path_part;
use crate::cli::serve::{
    answer_headers, answer_to, below, common_head, escaped, extension, header_says, listing_page,
    listing_rows, page_headers, range_of, reason_of, request_words, segments, status_body,
    status_of, target_segments, type_of, under, unescaped, word_end, word_from, Answer, Found, Said,
};
use crate::text::{
    begins, decimal, decimal_parses, decimal_reads_back, first_of, first_of_unique, is_digit,
    is_space, last_of, last_of_is_last, lowered, occurs, trimmed, trimmed_end,
};
use super::text::tight_text_stays;
use vstd::prelude::*;

verus! {

/// The answer to a GET carries its body, whether it is a listing, a whole file or
/// a part; the answer to a HEAD carries none.
pub proof fn a_get_carries_a_body_and_a_head_none(range: Option<Seq<char>>, found: Found)
    ensures
        match answer_to("GET"@, range, found) {
            Answer::Listing { send_body } => send_body,
            Answer::Whole { send_body, .. } => send_body,
            Answer::Part { send_body, .. } => send_body,
            _ => true,
        },
        match answer_to("HEAD"@, range, found) {
            Answer::Listing { send_body } => !send_body,
            Answer::Whole { send_body, .. } => !send_body,
            Answer::Part { send_body, .. } => !send_body,
            _ => true,
        },
        status_of(answer_to("GET"@, range, found)) == status_of(answer_to("HEAD"@, range, found)),
{
    lemma_methods();
}

proof fn lemma_methods()
    ensures
        "GET"@ != "HEAD"@,
        "GET"@ != "OPTIONS"@,
        "HEAD"@ != "OPTIONS"@,
{
    reveal_strlit("GET");
    reveal_strlit("HEAD");
    reveal_strlit("OPTIONS");
    assert("GET"@.len() == 3 && "HEAD"@.len() == 4 && "OPTIONS"@.len() == 7);
}

/// What each method and each kind of target is answered with.
pub proof fn every_target_has_its_status(
    method: Seq<char>,
    range: Option<Seq<char>>,
    found: Found,
    size: u64,
)
    ensures
        status_of(answer_to("OPTIONS"@, range, found)) == 204,
        method != "GET"@ && method != "HEAD"@ && method != "OPTIONS"@ ==> status_of(
            answer_to(method, range, found),
        ) == 405,
        method == "GET"@ || method == "HEAD"@ ==> {
            &&& status_of(answer_to(method, range, Found::Refused)) == 403
            &&& status_of(answer_to(method, range, Found::Missing)) == 404
            &&& status_of(answer_to(method, range, Found::Directory)) == 200
            &&& answer_to(method, range, Found::Directory) is Listing
            &&& status_of(answer_to(method, None, Found::File { size })) == 200
            &&& answer_to(method, None, Found::File { size }) matches Answer::Whole {
                size: n,
                ..
            } && n == size
        },
{
    lemma_methods();
}

/// The reason of an answer goes with its status.
pub proof fn reasons_go_with_their_status(a: Answer)
    ensures
        status_of(a) == 200 ==> reason_of(a) == "OK"@,
        status_of(a) == 204 ==> reason_of(a) == "No Content"@,
        status_of(a) == 206 ==> reason_of(a) == "Partial Content"@,
        status_of(a) == 403 ==> reason_of(a) == "Forbidden"@,
        status_of(a) == 404 ==> reason_of(a) == "Not Found"@,
        status_of(a) == 405 ==> reason_of(a) == "Method Not Allowed"@,
        status_of(a) == 416 ==> reason_of(a) == "Range Not Satisfiable"@,
        a is Whole ==> status_of(a) == 200,
        a is Part ==> status_of(a) == 206,
        a is Unsatisfiable ==> status_of(a) == 416,
        a is NotFound ==> status_of(a) == 404,
        a is Forbidden ==> status_of(a) == 403,
        a is BadMethod ==> status_of(a) == 405,
        status_body(a) == decimal(status_of(a) as nat) + " "@ + reason_of(a) + "\n"@,
{
}

proof fn lemma_span(first: Seq<char>, last: Seq<char>)
    requires
        forall|i: int| 0 <= i < first.len() ==> is_digit(#[trigger] first[i]),
        forall|i: int| 0 <= i < last.len() ==> is_digit(#[trigger] last[i]),
    ensures
        ({
            let h = "bytes="@ + first + "-"@ + last;
            let t = first + "-"@ + last;
            &&& begins(h, "bytes="@)
            &&& t.len() == first.len() + 1 + last.len()
            &&& trimmed(h.skip(6)) == t
            &&& !occurs(t, ","@)
            &&& first_of(t, '-') == first.len()
            &&& t.take(first.len() as int) == first
            &&& t.skip(first.len() as int + 1) == last
        }),
{
    reveal_strlit("bytes=");
    reveal_strlit("-");
    reveal_strlit(",");
    let b = "bytes="@;
    let dash = "-"@;
    assert(b.len() == 6 && dash.len() == 1 && dash[0] == '-');
    let h = b + first + dash + last;
    let t = first + dash + last;
    assert(h.take(6) =~= b);
    assert(h.skip(6) =~= t);
    assert forall|i: int| 0 <= i < t.len() implies is_digit(#[trigger] t[i]) || t[i] == '-' by {
        if i < first.len() {
            assert(t[i] == first[i]);
        } else if i > first.len() {
            assert(t[i] == last[i - first.len() - 1]);
        }
    }
    assert(!is_space(t[0]) && !is_space(t[t.len() - 1]));
    tight_text_stays(t);
    assert(","@.len() == 1 && ","@[0] == ',');
    if occurs(t, ","@) {
        let at = choose|at: int| crate::text::occurs_at(t, ","@, at);
        assert(t.subrange(at, at + 1)[0] == t[at]);
        assert(false);
    }
    assert(t[first.len() as int] == '-');
    assert forall|i: int| 0 <= i < first.len() implies t[i] != '-' by {
        assert(t[i] == first[i]);
        assert(is_digit(first[i]));
    }
    first_of_unique(t, '-', first.len() as int);
    assert(t.take(first.len() as int) =~= first);
    assert(t.skip(first.len() as int + 1) =~= last);
}

/// A range from one byte to another is granted as far as the object goes, and not
/// where it starts behind the end or ends before its start.
pub proof fn a_range_is_granted_as_far_as_the_object_goes(a: nat, b: nat, size: u64)
    requires
        a <= u64::MAX,
        b <= u64::MAX,
    ensures
        range_of("bytes="@ + decimal(a) + "-"@ + decimal(b), size) == if a <= b && a < size {
            Some(
                (
                    a as int,
                    if b < size {
                        b as int
                    } else {
                        size - 1
                    },
                ),
            )
        } else {
            None
        },
{
    decimal_reads_back(a);
    decimal_reads_back(b);
    decimal_parses(a, u64::MAX as nat);
    decimal_parses(b, u64::MAX as nat);
    lemma_span(decimal(a), decimal(b));
}

/// A range without an end goes to the end of the object.
pub proof fn an_open_range_goes_to_the_end(a: nat, size: u64)
    requires
        a <= u64::MAX,
    ensures
        range_of("bytes="@ + decimal(a) + "-"@ + Seq::empty(), size) == if a < size {
            Some((a as int, size - 1))
        } else {
            None
        },
{
    decimal_reads_back(a);
    decimal_parses(a, u64::MAX as nat);
    lemma_span(decimal(a), Seq::empty());
}

/// A range without a start is so many bytes off the end, or the whole object where
/// it has no more.
pub proof fn a_suffix_is_taken_off_the_end(n: nat, size: u64)
    requires
        n <= u64::MAX,
    ensures
        range_of("bytes="@ + Seq::empty() + "-"@ + decimal(n), size) == if n == 0 || size == 0 {
            None
        } else {
            Some(
                (
                    if n < size {
                        size - n
                    } else {
                        0
                    },
                    size - 1,
                ),
            )
        },
{
    decimal_reads_back(n);
    decimal_parses(n, u64::MAX as nat);
    lemma_span(Seq::empty(), decimal(n));
}

/// Only a range of bytes is granted, and only one.
pub proof fn other_ranges_are_refused(header: Seq<char>, size: u64)
    ensures
        !begins(header, "bytes="@) ==> range_of(header, size) is None,
        occurs(trimmed(header.skip(6)), ","@) ==> range_of(header, size) is None,
        size == 0 ==> range_of(header, size) is None,
{
}

/// A range that is granted is answered with that part of the file, one that is not
/// with the size that the file has.
pub proof fn a_granted_range_is_answered_with_its_part(method: Seq<char>, range: Seq<char>, size: u64)
    requires
        method == "GET"@ || method == "HEAD"@,
    ensures
        match range_of(range, size) {
            Some((first, last)) => answer_to(method, Some(range), Found::File { size }) matches Answer::Part {
                start,
                end,
                size: n,
                ..
            } && start == first as u64 && end == last as u64 && n == size,
            None => answer_to(method, Some(range), Found::File { size }) == (Answer::Unsatisfiable {
                size,
            }),
        },
{
    lemma_methods();
}

/// The head of every answer: its status line, the CORS headers, the cache policy
/// where there is one, and what becomes of the connection.
pub proof fn every_head_says_what_a_browser_needs(
    status: u16,
    reason: Seq<char>,
    cors: Seq<char>,
    cache: u32,
    keep_alive: bool,
)
    ensures
        begins(
            common_head(status, reason, cors, cache, keep_alive),
            "HTTP/1.1 "@ + decimal(status as nat) + " "@ + reason + "\r\n"@,
        ),
        occurs(
            common_head(status, reason, cors, cache, keep_alive),
            "Access-Control-Allow-Origin: "@ + cors
                + "\r\nAccess-Control-Allow-Methods: GET, HEAD, OPTIONS\r\nAccess-Control-Allow-Headers: Range, Content-Type\r\nAccess-Control-Expose-Headers: Content-Range, Content-Length, Accept-Ranges\r\n"@,
        ),
        cache > 0 ==> occurs(
            common_head(status, reason, cors, cache, keep_alive),
            "Cache-Control: public, max-age="@ + decimal(cache as nat) + ", immutable\r\n"@,
        ),
        keep_alive ==> crate::text::ends(
            common_head(status, reason, cors, cache, keep_alive),
            "Connection: "@ + "keep-alive"@ + "\r\n"@,
        ),
        !keep_alive ==> crate::text::ends(
            common_head(status, reason, cors, cache, keep_alive),
            "Connection: "@ + "close"@ + "\r\n"@,
        ),
{
    let h = common_head(status, reason, cors, cache, keep_alive);
    let line = "HTTP/1.1 "@ + decimal(status as nat) + " "@ + reason + "\r\n"@;
    let rules = "Access-Control-Allow-Origin: "@ + cors
        + "\r\nAccess-Control-Allow-Methods: GET, HEAD, OPTIONS\r\nAccess-Control-Allow-Headers: Range, Content-Type\r\nAccess-Control-Expose-Headers: Content-Range, Content-Length, Accept-Ranges\r\n"@;
    let policy = if cache > 0 {
        "Cache-Control: public, max-age="@ + decimal(cache as nat) + ", immutable\r\n"@
    } else {
        Seq::empty()
    };
    let end = "Connection: "@ + (if keep_alive {
        "keep-alive"@
    } else {
        "close"@
    }) + "\r\n"@;
    assert(h =~= line + rules + policy + end);
    assert(h.take(line.len() as int) =~= line);
    let n = line.len() as int;
    let m = n + rules.len();
    assert(h.subrange(n, m) =~= rules);
    assert(crate::text::occurs_at(h, rules, n));
    assert(h.subrange(m, m + policy.len()) =~= policy);
    assert(crate::text::occurs_at(h, policy, m));
    assert(h.skip(h.len() - end.len()) =~= end);
}

/// The headers of a whole file, of a part and of a range that cannot be granted
/// state the sizes that are sent.
pub proof fn headers_state_the_sizes(start: u64, end: u64, size: u64, send_body: bool, mime: Seq<char>)
    requires
        start <= end < size,
    ensures
        answer_headers(Answer::Whole { size, send_body }, mime) == "Content-Type: "@ + mime
            + "\r\nContent-Length: "@ + decimal(size as nat) + "\r\nAccept-Ranges: bytes\r\n\r\n"@,
        answer_headers(Answer::Part { start, end, size, send_body }, mime) == "Content-Type: "@
            + mime + "\r\nContent-Length: "@ + decimal((end + 1 - start) as nat)
            + "\r\nAccept-Ranges: bytes\r\nContent-Range: bytes "@ + decimal(start as nat) + "-"@
            + decimal(end as nat) + "/"@ + decimal(size as nat) + "\r\n\r\n"@,
        answer_headers(Answer::Unsatisfiable { size }, mime) == "Content-Range: bytes */"@
            + decimal(size as nat) + "\r\n\r\n"@,
        answer_headers(Answer::Preflight, mime) == "Content-Length: 0\r\n\r\n"@,
        page_headers(size as nat) == "Content-Type: text/html; charset=utf-8\r\nContent-Length: "@
            + decimal(size as nat) + "\r\n\r\n"@,
{
}

/// A file is sent as what the end of its name says.
pub proof fn files_are_sent_as_what_their_names_say(stem: Seq<char>, ext: Seq<char>)
    requires
        stem.len() > 0,
        forall|i: int| 0 <= i < ext.len() ==> #[trigger] ext[i] != '.',
        ext.len() > 0,
    ensures
        extension(stem + "."@ + ext) == ext,
        type_of("json"@) == "application/json"@,
        type_of("html"@) == "text/html; charset=utf-8"@,
        type_of("png"@) == "image/png"@,
        ext != "json"@ && ext != "html"@ && ext != "js"@ && ext != "mjs"@ && ext != "css"@ && ext
            != "txt"@ && ext != "md"@ && ext != "wasm"@ && ext != "xml"@ && ext != "svg"@ && ext
            != "png"@ && ext != "jpg"@ && ext != "jpeg"@ && ext != "webp"@ && ext != "ico"@ && ext
            != "woff2"@ ==> type_of(ext) == "application/octet-stream"@,
        type_of("js"@) == "text/javascript; charset=utf-8"@,
        type_of("mjs"@) == "text/javascript; charset=utf-8"@,
        type_of("css"@) == "text/css; charset=utf-8"@,
        type_of("txt"@) == "text/plain; charset=utf-8"@,
        type_of("md"@) == "text/plain; charset=utf-8"@,
        type_of("wasm"@) == "application/wasm"@,
        type_of("xml"@) == "application/xml"@,
        type_of("svg"@) == "image/svg+xml"@,
        type_of("jpg"@) == "image/jpeg"@,
        type_of("jpeg"@) == "image/jpeg"@,
        type_of("webp"@) == "image/webp"@,
        type_of("ico"@) == "image/x-icon"@,
        type_of("woff2"@) == "font/woff2"@,
{
    lemma_extensions();
    reveal_strlit(".");
    reveal_strlit("..");
    let dot = "."@;
    assert(dot.len() == 1 && dot[0] == '.');
    assert(".."@.len() == 2 && ".."@[1] == '.');
    let name = stem + dot + ext;
    let n = stem.len() as int;
    last_of_is_last(name, '.');
    assert(name[n] == '.');
    assert forall|i: int| n < i < name.len() implies name[i] != '.' by {
        assert(name[i] == ext[i - n - 1]);
    }
    assert(last_of(name, '.') == n) by {
        let at = last_of(name, '.');
        if at != n && at >= 0 {
            assert(name[at] == '.');
        }
    }
    assert(name[name.len() - 1] == ext[ext.len() - 1]);
    assert(name != ".."@);
    assert(name.skip(n + 1) =~= ext);
}

proof fn lemma_extensions()
    ensures
        type_of("json"@) == "application/json"@,
        type_of("html"@) == "text/html; charset=utf-8"@,
        type_of("png"@) == "image/png"@,
        type_of("js"@) == "text/javascript; charset=utf-8"@,
        type_of("mjs"@) == "text/javascript; charset=utf-8"@,
        type_of("css"@) == "text/css; charset=utf-8"@,
        type_of("txt"@) == "text/plain; charset=utf-8"@,
        type_of("md"@) == "text/plain; charset=utf-8"@,
        type_of("wasm"@) == "application/wasm"@,
        type_of("xml"@) == "application/xml"@,
        type_of("svg"@) == "image/svg+xml"@,
        type_of("jpg"@) == "image/jpeg"@,
        type_of("jpeg"@) == "image/jpeg"@,
        type_of("webp"@) == "image/webp"@,
        type_of("ico"@) == "image/x-icon"@,
        type_of("woff2"@) == "font/woff2"@,
{
    reveal_strlit("json");
    reveal_strlit("html");
    reveal_strlit("js");
    reveal_strlit("mjs");
    reveal_strlit("css");
    reveal_strlit("txt");
    reveal_strlit("md");
    reveal_strlit("wasm");
    reveal_strlit("xml");
    reveal_strlit("svg");
    reveal_strlit("png");
    reveal_strlit("jpg");
    reveal_strlit("jpeg");
    reveal_strlit("webp");
    reveal_strlit("ico");
    reveal_strlit("woff2");
    assert("json"@.len() == 4 && "html"@.len() == 4 && "wasm"@.len() == 4 && "jpeg"@.len() == 4
        && "webp"@.len() == 4);
    assert("mjs"@.len() == 3 && "css"@.len() == 3 && "txt"@.len() == 3 && "xml"@.len() == 3
        && "svg"@.len() == 3 && "png"@.len() == 3 && "jpg"@.len() == 3 && "ico"@.len() == 3);
    assert("js"@.len() == 2 && "md"@.len() == 2 && "woff2"@.len() == 5);
    assert("json"@[0] == 'j' && "json"@[1] == 's' && "html"@[0] == 'h' && "wasm"@[0] == 'w'
        && "wasm"@[1] == 'a' && "jpeg"@[0] == 'j' && "jpeg"@[1] == 'p' && "webp"@[0] == 'w'
        && "webp"@[1] == 'e');
    assert("mjs"@[0] == 'm' && "css"@[0] == 'c' && "txt"@[0] == 't' && "xml"@[0] == 'x'
        && "svg"@[0] == 's' && "png"@[0] == 'p' && "jpg"@[0] == 'j' && "ico"@[0] == 'i');
    assert("js"@[0] == 'j' && "md"@[0] == 'm');
}

/// The value of a digit, and the digit of a value.
pub open spec fn hex_char(v: int) -> u8 {
    if v < 10 {
        (48 + v) as u8
    } else {
        (55 + v) as u8
    }
}

/// Bytes with each of them escaped.
pub open spec fn escapes(b: Seq<u8>) -> Seq<u8>
    decreases b.len(),
{
    if b.len() == 0 {
        Seq::empty()
    } else {
        seq![37u8, hex_char(b[0] as int / 16), hex_char(b[0] as int % 16)] + escapes(b.skip(1))
    }
}

/// What was escaped is unescaped, and what holds no escape is left as it is.
pub proof fn escapes_are_undone(b: Seq<u8>, front: Seq<u8>)
    ensures
        unescaped(front + escapes(b), front.len() as int) == b,
    decreases b.len(),
{
    let s = front + escapes(b);
    let n = front.len() as int;
    if b.len() == 0 {
        assert(unescaped(s, n) =~= b);
    } else {
        let v = b[0] as int;
        assert(s[n] == 37 && s[n + 1] == hex_char(v / 16) && s[n + 2] == hex_char(v % 16));
        assert(escaped(s[n + 1], s[n + 2]) == Some(b[0]));
        let next = s.take(n + 3);
        let rest = b.skip(1);
        assert(s =~= next + escapes(rest));
        escapes_are_undone(rest, next);
        assert(unescaped(s, n) =~= b);
    }
}

/// Bytes without a percent sign are left as they are.
pub proof fn plain_bytes_stay(s: Seq<u8>, i: int)
    requires
        0 <= i <= s.len(),
        forall|j: int| 0 <= j < s.len() ==> #[trigger] s[j] != 37,
    ensures
        unescaped(s, i) == s.skip(i),
    decreases s.len() - i,
{
    if i < s.len() {
        plain_bytes_stay(s, i + 1);
        assert(s.skip(i) =~= seq![s[i]] + s.skip(i + 1));
    } else {
        assert(s.skip(i) =~= Seq::empty());
    }
}

/// Segments with a separator before each.
pub open spec fn path_of(parts: Seq<Seq<char>>) -> Seq<char>
    decreases parts.len(),
{
    if parts.len() == 0 {
        Seq::empty()
    } else {
        seq!['/'] + parts[0] + path_of(parts.skip(1))
    }
}

/// Whether a segment is followed as it is: it is not empty, it holds no separator,
/// and it neither stays nor climbs.
pub open spec fn is_plain(part: Seq<char>) -> bool {
    part.len() > 0 && part != "."@ && part != ".."@ && forall|i: int|
        0 <= i < part.len() ==> #[trigger] part[i] != '/'
}

proof fn lemma_part(s: Seq<char>, from: int, end: int, i: int)
    requires
        0 <= from <= i <= end <= s.len(),
        forall|j: int| from <= j < end ==> #[trigger] s[j] != '/',
    ensures
        segments(s, from, i) == segments(s, from, end),
    decreases end - i,
{
    if i < end {
        assert(s[i] != '/');
        lemma_part(s, from, end, i + 1);
    }
}

/// A path of plain segments is followed segment by segment.
pub proof fn plain_paths_are_followed(front: Seq<char>, parts: Seq<Seq<char>>)
    requires
        forall|k: int| 0 <= k < parts.len() ==> is_plain(#[trigger] parts[k]),
    ensures
        parts.len() > 0 ==> segments(
            front + path_of(parts),
            front.len() as int,
            front.len() as int,
        ) == Some(parts),
        segments(front, front.len() as int, front.len() as int) == Some(Seq::<Seq<char>>::empty()),
    decreases parts.len(),
{
    let n = front.len() as int;
    let none = Seq::<Seq<char>>::empty();
    assert(front.subrange(n, n) =~= Seq::empty());
    reveal_strlit("..");
    assert(".."@.len() == 2);
    if parts.len() > 0 {
        let s = front + path_of(parts);
        let part = parts[0];
        let rest = parts.skip(1);
        assert(is_plain(part));
        let m = n + 1 + part.len();
        assert(s[n] == '/');
        assert(s.subrange(n, n) =~= Seq::empty());
        assert(segments(s, n, n) == segments(s, n + 1, n + 1));
        assert forall|j: int| n + 1 <= j < m implies #[trigger] s[j] != '/' by {
            assert(s[j] == part[j - n - 1]);
        }
        lemma_part(s, n + 1, m, n + 1);
        assert(s.subrange(n + 1, m) =~= part);
        let next = s.take(m);
        assert(s =~= next + path_of(rest));
        assert forall|k: int| 0 <= k < rest.len() implies is_plain(#[trigger] rest[k]) by {
            assert(rest[k] == parts[k + 1]);
        }
        plain_paths_are_followed(next, rest);
        if rest.len() > 0 {
            // the separator before the rest ends the segment
            assert(path_of(rest)[0] == '/');
            assert(s[m] == '/');
            assert(s.subrange(m, m) =~= Seq::empty());
            assert(segments(s, m, m) == segments(s, m + 1, m + 1));
            assert(segments(s, m + 1, m + 1) == Some(rest));
            assert(segments(s, n + 1, m) == Some(seq![part] + rest));
            assert(seq![part] + rest =~= parts);
        } else {
            assert(s.len() == m);
            assert(seq![part] + none =~= parts);
        }
    }
}

/// A path below a root starts with the root and steps into each segment in turn.
pub proof fn paths_go_down_from_the_root(root: Seq<char>, parts: Seq<Seq<char>>, part: Seq<char>)
    ensures
        begins(below(root, parts), root),
        below(root, Seq::empty()) == root,
        below(root, parts.push(part)) == under(below(root, parts), part),
        root.len() > 0 && root[root.len() - 1] != '/' ==> under(root, part) == root + "/"@ + part,
        root.len() > 0 && root[root.len() - 1] == '/' ==> under(root, part) == root + part,
    decreases parts.len(),
{
    assert(parts.push(part).drop_last() =~= parts);
    assert(root.take(root.len() as int) =~= root);
    if parts.len() > 0 {
        let before = below(root, parts.drop_last());
        paths_go_down_from_the_root(root, parts.drop_last(), part);
        let b = below(root, parts);
        assert(b.take(root.len() as int) =~= before.take(root.len() as int));
    }
}

/// The query of a target does not decide where it leads.
pub proof fn a_query_leads_nowhere(target: Seq<char>)
    ensures
        target_segments(path_part(target)) == target_segments(target),
{
    super::http::a_path_stops_at_its_query(target);
    let p = path_part(target);
    super::http::a_path_stops_at_its_query(p);
    let q = path_part(p);
    if q.len() < p.len() {
        assert(p[q.len() as int] == '?' || p[q.len() as int] == '#');
        assert(false);
    }
    assert(q =~= p);
}

/// A line of the head: its name decides whatever its case, and its value is
/// trimmed.
pub proof fn a_header_is_known_by_its_name(name: Seq<char>, value: Seq<char>)
    requires
        forall|i: int| 0 <= i < name.len() ==> #[trigger] name[i] != ':',
        value.len() > 0,
        !is_space(value[0]),
        !is_space(value[value.len() - 1]),
    ensures
        ({
            let said = header_says(name + ":"@ + value);
            &&& lowered(name) == "range"@ ==> said == Said::Range(value)
            &&& lowered(name) == "connection"@ && lowered(value) == "close"@ ==> said == Said::Close
            &&& lowered(name) != "range"@ && lowered(name) != "connection"@ ==> said
                == Said::Nothing
            &&& lowered(name) == "connection"@ && lowered(value) != "close"@ ==> said
                == Said::Nothing
        }),
        header_says(Seq::empty()) == Said::End,
        header_says("\r\n"@) == Said::End,
{
    reveal_strlit(":");
    reveal_strlit("range");
    reveal_strlit("connection");
    reveal_strlit("close");
    reveal_strlit("\r\n");
    assert(lowered("range"@) =~= "range"@);
    assert(lowered("connection"@) =~= "connection"@);
    assert(lowered("close"@) =~= "close"@);
    assert("range"@.len() == 5 && "connection"@.len() == 10);
    let colon = ":"@;
    assert(colon.len() == 1 && colon[0] == ':');
    let h = name + colon + value;
    assert(h[h.len() - 1] == value[value.len() - 1]);
    assert(trimmed_end(h) == h);
    assert(h[name.len() as int] == ':');
    first_of_unique(h, ':', name.len() as int);
    assert(h.take(name.len() as int) =~= name);
    assert(h.skip(name.len() as int + 1) =~= value);
    tight_text_stays(value);
    let e = "\r\n"@;
    assert(e.len() == 2 && e[0] == '\r' && e[1] == '\n');
    let one = e.drop_last();
    assert(one.len() == 1 && one.last() == '\r');
    let none = one.drop_last();
    assert(trimmed_end(none) == none);
    assert(trimmed_end(one) == none);
    assert(trimmed_end(e) == none);
}

/// The first two words of a request are its method and its target.
pub proof fn a_request_starts_with_its_method(method: Seq<char>, target: Seq<char>, rest: Seq<char>)
    requires
        method.len() > 0,
        target.len() > 0,
        forall|i: int| 0 <= i < method.len() ==> !is_space(#[trigger] method[i]),
        forall|i: int| 0 <= i < target.len() ==> !is_space(#[trigger] target[i]),
    ensures
        request_words(method + " "@ + target + " "@ + rest) == (method, target),
{
    reveal_strlit(" ");
    let gap = " "@;
    assert(gap.len() == 1 && gap[0] == ' ');
    let line = method + gap + target + gap + rest;
    let b = method.len() as int;
    let c = b + 1;
    let d = c + target.len();
    assert(line[0] == method[0]);
    assert(word_from(line, 0) == 0);
    assert forall|i: int| 0 <= i < b implies !is_space(#[trigger] line[i]) by {
        assert(line[i] == method[i]);
    }
    assert(line[b] == ' ');
    lemma_word_end(line, 0, b);
    assert(line[c] == target[0]);
    assert(word_from(line, c) == c);
    assert(word_from(line, b) == c);
    assert forall|i: int| c <= i < d implies !is_space(#[trigger] line[i]) by {
        assert(line[i] == target[i - c]);
    }
    assert(line[d] == ' ');
    lemma_word_end(line, c, d);
    assert(line.subrange(0, b) =~= method);
    assert(line.subrange(c, d) =~= target);
}

proof fn lemma_word_end(s: Seq<char>, i: int, end: int)
    requires
        0 <= i <= end < s.len(),
        is_space(s[end]),
        forall|j: int| i <= j < end ==> !is_space(#[trigger] s[j]),
    ensures
        word_end(s, i) == end,
    decreases end - i,
{
    if i < end {
        assert(!is_space(s[i]));
        lemma_word_end(s, i + 1, end);
    }
}

/// A listing has one row for each entry, in order, with its name as the link and,
/// where it is a file, its size.
pub proof fn a_listing_names_every_entry(
    base: Seq<char>,
    entries: Seq<(String, Option<u64>)>,
    i: int,
)
    requires
        0 <= i < entries.len(),
    ensures
        occurs(
            listing_page(base, entries),
            "<tr><td><a href=\""@ + entries[i].0@ + "\">"@ + entries[i].0@ + "</a></td><td>"@,
        ),
{
    let rows = listing_rows(entries);
    let row = "<tr><td><a href=\""@ + entries[i].0@ + "\">"@ + entries[i].0@ + "</a></td><td>"@;
    let at = lemma_row(entries, i);
    let page = listing_page(base, entries);
    let n = page.len() - rows.len() - "</table>"@.len();
    assert(page.subrange(n, n + rows.len()) =~= rows);
    assert(page.subrange(n + at, n + at + row.len()) =~= rows.subrange(at, at + row.len()));
    assert(crate::text::occurs_at(page, row, n + at));
}

proof fn lemma_row(entries: Seq<(String, Option<u64>)>, i: int) -> (at: int)
    requires
        0 <= i < entries.len(),
    ensures
        crate::text::occurs_at(
            listing_rows(entries),
            "<tr><td><a href=\""@ + entries[i].0@ + "\">"@ + entries[i].0@ + "</a></td><td>"@,
            at,
        ),
    decreases entries.len(),
{
    let before = entries.drop_last();
    let row = "<tr><td><a href=\""@ + entries[i].0@ + "\">"@ + entries[i].0@ + "</a></td><td>"@;
    let all = listing_rows(entries);
    let rows = listing_rows(before);
    if i == entries.len() - 1 {
        let at = rows.len() as int;
        assert(all.subrange(at, at + row.len()) =~= row);
        at
    } else {
        let at = lemma_row(before, i);
        assert(before[i] == entries[i]);
        assert(all.subrange(at, at + row.len()) =~= rows.subrange(at, at + row.len()));
        at
    }
}

/// A range whose end is no number is refused.
pub proof fn a_range_to_no_number_is_refused(a: nat, w: Seq<char>, size: u64)
    requires
        w.len() > 0,
        forall|i: int|
            0 <= i < w.len() ==> !is_space(#[trigger] w[i]) && !is_digit(w[i]) && w[i] != '+'
                && w[i] != ',' && w[i] != '-',
    ensures
        range_of("bytes="@ + decimal(a) + "-"@ + w, size) is None,
{
    reveal_strlit("bytes=");
    reveal_strlit("-");
    assert("bytes="@.len() == 6 && "-"@.len() == 1 && "-"@[0] == '-');
    let d = decimal(a);
    crate::text::decimal_reads_back(a);
    let t = d + "-"@ + w;
    let h = "bytes="@ + d + "-"@ + w;
    assert(h.skip(6) =~= t);
    assert(t[0] == d[0] && is_digit(d[0]));
    assert(t[t.len() - 1] == w[w.len() - 1]);
    tight_text_stays(t);
    assert forall|i: int| 0 <= i < d.len() implies t[i] != '-' by {
        assert(t[i] == d[i] && is_digit(d[i]));
    }
    assert(t[d.len() as int] == '-');
    first_of_unique(t, '-', d.len() as int);
    assert(t.take(d.len() as int) =~= d);
    assert(t.skip(d.len() as int + 1) =~= w);
    super::text::numbers_are_digits(w, u64::MAX as nat);
    assert(!is_digit(w[0]));
}

/// The rows of a listing stand in order: a link with the name of the entry, and its
/// size where it has one.
pub proof fn a_row_has_a_link_and_a_size(
    entries: Seq<(String, Option<u64>)>,
    name: String,
    size: Option<u64>,
)
    ensures
        listing_rows(Seq::empty()).len() == 0,
        size matches Some(n) ==> listing_rows(entries.push((name, size))) == listing_rows(entries)
            + ("<tr><td><a href=\""@ + name@ + "\">"@ + name@ + "</a></td><td>"@
            + crate::cli::out::size_text(n as nat) + "</td></tr>"@),
        size is None ==> listing_rows(entries.push((name, size))) == listing_rows(entries) + (
        "<tr><td><a href=\""@ + name@ + "\">"@ + name@ + "</a></td><td>"@ + Seq::<char>::empty()
            + "</td></tr>"@),
{
    assert(entries.push((name, size)).drop_last() =~= entries);
}

/// Blanks before the words of a request line do not count.
pub proof fn blanks_before_a_request_do_not_count(method: Seq<char>, target: Seq<char>)
    requires
        method.len() > 0,
        target.len() > 0,
        forall|i: int| 0 <= i < method.len() ==> !is_space(#[trigger] method[i]),
        forall|i: int| 0 <= i < target.len() ==> !is_space(#[trigger] target[i]),
    ensures
        request_words(seq![' '] + method + seq![' ', ' '] + target + seq![' ']) == (method, target),
{
    let s = seq![' '] + method + seq![' ', ' '] + target + seq![' '];
    let n = method.len() as int;
    assert(s[1] == method[0]);
    assert(is_space(s[0]));
    assert(crate::cli::serve::word_from(s, 1) == 1);
    assert(crate::cli::serve::word_from(s, 0) == 1);
    assert forall|i: int| 1 <= i < n + 1 implies !is_space(#[trigger] s[i]) by {
        assert(s[i] == method[i - 1]);
    }
    assert(is_space(s[n + 1]) && is_space(s[n + 2]));
    lemma_word_end(s, 1, n + 1);
    assert(s[n + 3] == target[0]);
    assert(crate::cli::serve::word_from(s, n + 3) == n + 3);
    assert(crate::cli::serve::word_from(s, n + 2) == n + 3);
    assert(crate::cli::serve::word_from(s, n + 1) == n + 3);
    assert forall|i: int| n + 3 <= i < s.len() - 1 implies !is_space(#[trigger] s[i]) by {
        assert(s[i] == target[i - n - 3]);
    }
    assert(is_space(s[s.len() - 1]));
    lemma_word_end(s, n + 3, s.len() - 1);
    assert(s.subrange(1, n + 1) =~= method);
    assert(s.subrange(n + 3, s.len() - 1) =~= target);
}

/// The segments of a target are those of its path from the start, its escapes undone.
pub proof fn a_target_is_its_path_undone(target: Seq<char>)
    ensures
        target_segments(target) == crate::cli::serve::segments(
            crate::cli::serve::percent_decoded(path_part(target)),
            0,
            0,
        ),
{
}

} // verus!
