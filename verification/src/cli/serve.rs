//! A static server that gets three things right: byte ranges, CORS, and not
//! re-compressing what is already compressed.
//!
//! The socket and the files belong to the program. What is asked, what is
//! answered and where a target leads are decided here.

use super::http::{path_part, without_query};
use super::out::{bytes, size_text};
use crate::text::{
    begins, cat2, cat3, cat4, cat5, cat7,
    chars_of, decimal, decimal_of, find_from, first_of, is_space,
    is_white, last_of, lossy, lossy_text, lowered, occurs, parse_chars, rfind, same,
    same_ignoring_case, starts_with, string_of, to_lower, trim, trim_end, trim_range,
    trimmed,
    trimmed_end, unsigned,
};
use vstd::prelude::*;
use vstd::string::*;

verus! {

/// The value of a hexadecimal digit.
pub open spec fn hex_value(b: u8) -> Option<u8> {
    if 48 <= b <= 57 {
        Some((b - 48) as u8)
    } else if 65 <= b <= 70 {
        Some((b - 55) as u8)
    } else if 97 <= b <= 102 {
        Some((b - 87) as u8)
    } else {
        None
    }
}

fn hex_digit(b: u8) -> (r: Option<u8>)
    ensures
        r == hex_value(b),
        r matches Some(v) ==> v < 16,
{
    if 48 <= b && b <= 57 {
        Some(b - 48)
    } else if 65 <= b && b <= 70 {
        Some(b - 55)
    } else if 97 <= b && b <= 102 {
        Some(b - 87)
    } else {
        None
    }
}

/// What two bytes after a percent sign stand for: two hexadecimal digits, the
/// first of which may be a plus sign.
pub open spec fn escaped(a: u8, b: u8) -> Option<u8> {
    match (hex_value(a), hex_value(b)) {
        (Some(x), Some(y)) => Some((16 * x + y) as u8),
        (None, Some(y)) => if a == 43 {
            Some(y)
        } else {
            None
        },
        _ => None,
    }
}

/// Bytes with their percent escapes replaced, from `i` on.
pub open spec fn unescaped(s: Seq<u8>, i: int) -> Seq<u8>
    decreases s.len() - i,
{
    if i >= s.len() {
        Seq::empty()
    } else if s[i] == 37 && i + 2 < s.len() && escaped(s[i + 1], s[i + 2]) is Some {
        seq![escaped(s[i + 1], s[i + 2])->0] + unescaped(s, i + 3)
    } else {
        seq![s[i]] + unescaped(s, i + 1)
    }
}

/// A string with its percent escapes replaced.
pub open spec fn percent_decoded(text: Seq<char>) -> Seq<char> {
    lossy_text(unescaped(vstd::utf8::encode_utf8(text), 0))
}

/// A string with its percent escapes replaced.
pub fn percent_decode(text: &str) -> (out: String)
    ensures
        out@ == percent_decoded(text@),
{
    let s = text.as_bytes();
    let n: usize = s.len();
    let mut out: Vec<u8> = Vec::new();
    let mut i: usize = 0;
    assert(out@ + unescaped(s@, 0) =~= unescaped(s@, 0));
    while i < n
        invariant
            i <= n,
            n == s@.len(),
            s@.len() == s.len(),
            out@ + unescaped(s@, i as int) == unescaped(s@, 0),
        decreases n - i,
    {
        let ghost before = out@;
        if s[i] == 37 && n - i > 2 {
            let (a, b): (u8, u8) = (s[i + 1], s[i + 2]);
            let value: Option<u8> = match hex_digit(b) {
                None => None,
                Some(y) => match hex_digit(a) {
                    Some(x) => Some(16 * x + y),
                    None => if a == 43 {
                        Some(y)
                    } else {
                        None
                    },
                },
            };
            assert(value == escaped(a, b));
            if let Some(v) = value {
                out.push(v);
                assert(out@ + unescaped(s@, i + 3) =~= before + unescaped(s@, i as int));
                i = i + 3;
                continue ;
            }
        }
        out.push(s[i]);
        assert(out@ + unescaped(s@, i + 1) =~= before + unescaped(s@, i as int));
        i = i + 1;
    }
    assert(out@ + Seq::<u8>::empty() =~= out@);
    lossy(out.as_slice())
}

/// The segments of a path from `i` on, `from` being where the current one
/// started: empty ones and dots left out, and nothing at all where one of them
/// climbs.
pub open spec fn segments(s: Seq<char>, from: int, i: int) -> Option<Seq<Seq<char>>>
    decreases s.len() - i,
{
    if 0 <= from <= i <= s.len() {
        let part = s.subrange(from, i);
        if i == s.len() || s[i] == '/' {
            let rest = if i == s.len() {
                Some(Seq::empty())
            } else {
                segments(s, i + 1, i + 1)
            };
            if part == ".."@ || rest is None {
                None
            } else if part.len() == 0 || part == "."@ {
                rest
            } else {
                Some(seq![part] + rest->0)
            }
        } else {
            segments(s, from, i + 1)
        }
    } else {
        None
    }
}

/// Several strings, each as its characters.
pub open spec fn texts(list: Seq<String>) -> Seq<Seq<char>> {
    list.map_values(|s: String| s@)
}

/// The segments of a path below a root, or `None` where the path climbs.
fn split_path(s: &Vec<char>, from: usize) -> (r: Option<Vec<String>>)
    requires
        from <= s.len(),
    ensures
        match r {
            Some(list) => segments(s@, from as int, from as int) == Some(texts(list@)),
            None => segments(s@, from as int, from as int) is None,
        },
    decreases s.len() - from,
{
    let mut i: usize = from;
    while i < s.len() && s[i] != '/'
        invariant
            from <= i <= s.len(),
            segments(s@, from as int, from as int) == segments(s@, from as int, i as int),
        decreases s.len() - i,
    {
        i = i + 1;
    }
    let part = string_of(s, from, i);
    let rest = if i < s.len() {
        split_path(s, i + 1)
    } else {
        let none: Vec<String> = Vec::new();
        assert(texts(none@) =~= Seq::<Seq<char>>::empty());
        Some(none)
    };
    if same(part.as_str(), "..") {
        return None;
    }
    match rest {
        None => None,
        Some(tail) => if part.as_str().is_empty() || same(part.as_str(), ".") {
            Some(tail)
        } else {
            let mut out: Vec<String> = Vec::new();
            out.push(part);
            let ghost head = out@;
            let mut more = tail;
            out.append(&mut more);
            assert(texts(out@) =~= seq![part@] + texts(tail@));
            Some(out)
        },
    }
}

/// Where a request target leads below the root: the segments to follow.
pub open spec fn target_segments(target: Seq<char>) -> Option<Seq<Seq<char>>> {
    segments(percent_decoded(path_part(target)), 0, 0)
}

/// The segments of a request target below the root, refusing any that climbs.
pub fn target_path(target: &str) -> (r: Option<Vec<String>>)
    ensures
        match r {
            Some(list) => target_segments(target@) == Some(texts(list@)),
            None => target_segments(target@) is None,
        },
{
    let path = without_query(target);
    let decoded = percent_decode(path.as_str());
    let cs = chars_of(decoded.as_str());
    split_path(&cs, 0)
}

/// A root with some segments below it.
pub open spec fn below(root: Seq<char>, parts: Seq<Seq<char>>) -> Seq<char>
    decreases parts.len(),
{
    if parts.len() == 0 {
        root
    } else {
        under(below(root, parts.drop_last()), parts.last())
    }
}

/// One segment below a directory. A separator comes between, unless the
/// directory ends in one or is empty.
pub open spec fn under(dir: Seq<char>, part: Seq<char>) -> Seq<char> {
    if dir.len() == 0 || dir.last() == '/' {
        dir + part
    } else {
        dir + "/"@ + part
    }
}

fn step_into(dir: &str, part: &str) -> (r: String)
    ensures
        r@ == under(dir@, part@),
{
    let cs = chars_of(dir);
    if cs.len() == 0 || cs[cs.len() - 1] == '/' {
        cat2(dir, part)
    } else {
        cat3(dir, "/", part)
    }
}

/// Resolve a request target under the root, refusing anything that escapes.
pub fn resolve(root: &str, target: &str) -> (r: Option<String>)
    ensures
        match r {
            Some(p) => target_segments(target@) matches Some(parts) && p@ == below(root@, parts),
            None => target_segments(target@) is None,
        },
{
    let list = match target_path(target) {
        Some(list) => list,
        None => {
            return None;
        },
    };
    let mut out = root.to_owned();
    let mut i: usize = 0;
    let ghost parts = texts(list@);
    assert(parts.take(0) =~= Seq::<Seq<char>>::empty());
    while i < list.len()
        invariant
            i <= list.len(),
            parts == texts(list@),
            out@ == below(root@, parts.take(i as int)),
        decreases list.len() - i,
    {
        assert(parts.take(i + 1).drop_last() =~= parts.take(i as int));
        assert(parts.take(i + 1).last() == list@[i as int]@);
        out = step_into(out.as_str(), list[i].as_str());
        i = i + 1;
    }
    assert(parts.take(i as int) =~= parts);
    Some(out)
}

/// No segment of a resolved target climbs, stays, or holds a separator, however
/// the target was spelled: the path stays below the root.
pub proof fn resolved_paths_stay_below(target: Seq<char>, k: int)
    requires
        target_segments(target) matches Some(parts) && 0 <= k < parts.len(),
    ensures
        ({
            let part = target_segments(target)->0[k];
            &&& part.len() > 0
            &&& part != ".."@
            &&& part != "."@
            &&& forall|j: int| 0 <= j < part.len() ==> #[trigger] part[j] != '/'
        }),
{
    lemma_segments_are_plain(percent_decoded(path_part(target)), 0, 0, k);
}

proof fn lemma_segments_are_plain(s: Seq<char>, from: int, i: int, k: int)
    requires
        segments(s, from, i) matches Some(parts) && 0 <= k < parts.len(),
        0 <= from <= i <= s.len(),
        forall|j: int| from <= j < i ==> s[j] != '/',
    ensures
        ({
            let part = segments(s, from, i)->0[k];
            &&& part.len() > 0
            &&& part != ".."@
            &&& part != "."@
            &&& forall|j: int| 0 <= j < part.len() ==> #[trigger] part[j] != '/'
        }),
    decreases s.len() - i,
{
    let part = s.subrange(from, i);
    let all = segments(s, from, i)->0;
    if i == s.len() || s[i] == '/' {
        let kept = !(part.len() == 0 || part == "."@);
        if i < s.len() {
            let rest = segments(s, i + 1, i + 1)->0;
            if kept && k == 0 {
                assert(all[0] == part);
            } else if kept {
                assert(all[k] == rest[k - 1]);
                lemma_segments_are_plain(s, i + 1, i + 1, k - 1);
            } else {
                lemma_segments_are_plain(s, i + 1, i + 1, k);
            }
        } else {
            assert(all[0] == part);
        }
    } else {
        lemma_segments_are_plain(s, from, i + 1, k);
    }
}

/// The extension of a file name: what follows its last dot, unless the dot
/// starts the name.
pub open spec fn extension(name: Seq<char>) -> Seq<char> {
    let dot = last_of(name, '.');
    if dot <= 0 || name == ".."@ {
        Seq::empty()
    } else {
        name.skip(dot + 1)
    }
}

/// The content type of a lower-case extension.
pub open spec fn type_of(ext: Seq<char>) -> Seq<char> {
    if ext == "json"@ {
        "application/json"@
    } else if ext == "html"@ {
        "text/html; charset=utf-8"@
    } else if ext == "js"@ || ext == "mjs"@ {
        "text/javascript; charset=utf-8"@
    } else if ext == "css"@ {
        "text/css; charset=utf-8"@
    } else if ext == "txt"@ || ext == "md"@ {
        "text/plain; charset=utf-8"@
    } else if ext == "wasm"@ {
        "application/wasm"@
    } else if ext == "xml"@ {
        "application/xml"@
    } else if ext == "svg"@ {
        "image/svg+xml"@
    } else if ext == "png"@ {
        "image/png"@
    } else if ext == "jpg"@ || ext == "jpeg"@ {
        "image/jpeg"@
    } else if ext == "webp"@ {
        "image/webp"@
    } else if ext == "ico"@ {
        "image/x-icon"@
    } else if ext == "woff2"@ {
        "font/woff2"@
    } else {
        "application/octet-stream"@
    }
}

/// Content type of a file, by its name.
pub fn content_type(name: &str) -> (t: &'static str)
    ensures
        t@ == type_of(lowered(extension(name@))),
{
    let cs = chars_of(name);
    let n: usize = cs.len();
    let mut ext = String::new();
    if let Some(dot) = rfind(&cs, '.') {
        if dot > 0 && !same(name, "..") {
            ext = string_of(&cs, dot + 1, n);
            assert(name@.subrange(dot + 1, n as int) =~= name@.skip(dot + 1));
        }
    }
    let ext = to_lower(ext.as_str());
    let e = ext.as_str();
    if same(e, "json") {
        "application/json"
    } else if same(e, "html") {
        "text/html; charset=utf-8"
    } else if same(e, "js") || same(e, "mjs") {
        "text/javascript; charset=utf-8"
    } else if same(e, "css") {
        "text/css; charset=utf-8"
    } else if same(e, "txt") || same(e, "md") {
        "text/plain; charset=utf-8"
    } else if same(e, "wasm") {
        "application/wasm"
    } else if same(e, "xml") {
        "application/xml"
    } else if same(e, "svg") {
        "image/svg+xml"
    } else if same(e, "png") {
        "image/png"
    } else if same(e, "jpg") || same(e, "jpeg") {
        "image/jpeg"
    } else if same(e, "webp") {
        "image/webp"
    } else if same(e, "ico") {
        "image/x-icon"
    } else if same(e, "woff2") {
        "font/woff2"
    } else {
        "application/octet-stream"
    }
}

/// The range that a header asks of an object of some size: first and last byte.
pub open spec fn range_of(header: Seq<char>, size: u64) -> Option<(int, int)> {
    let spec_text = trimmed(header.skip(6));
    let dash = first_of(spec_text, '-');
    let first = spec_text.take(dash);
    let last = spec_text.skip(dash + 1);
    let a = unsigned(first, u64::MAX as nat);
    let b = unsigned(last, u64::MAX as nat);
    if !begins(header, "bytes="@) || occurs(spec_text, ","@) || dash >= spec_text.len() || size
        == 0 {
        None
    } else if first.len() == 0 {
        if b is None || b->0 == 0 {
            None
        } else {
            Some(
                (
                    if b->0 < size {
                        size - b->0
                    } else {
                        0
                    },
                    size - 1,
                ),
            )
        }
    } else if a is None || (last.len() > 0 && b is None) {
        None
    } else {
        let end = if last.len() > 0 && b->0 < size {
            b->0 as int
        } else {
            size - 1
        };
        if a->0 > end {
            None
        } else {
            Some((a->0 as int, end))
        }
    }
}

/// `bytes=start-end`, `bytes=start-`, `bytes=-suffix`.
pub fn parse_range(header: &str, size: u64) -> (r: Option<(u64, u64)>)
    ensures
        match r {
            Some((start, end)) => range_of(header@, size) == Some((start as int, end as int)),
            None => range_of(header@, size) is None,
        },
{
    proof {
        reveal_strlit("bytes=");
        reveal_strlit(",");
    }
    if !starts_with(header, "bytes=") || size == 0 {
        return None;
    }
    let hs = chars_of(header);
    let spec_text = trim(string_of(&hs, 6, hs.len()).as_str());
    assert(header@.subrange(6, header@.len() as int) =~= header@.skip(6));
    if crate::text::contains(spec_text.as_str(), ",") {
        return None;
    }
    let cs = chars_of(spec_text.as_str());
    let n: usize = cs.len();
    let dash = find_from(&cs, '-', 0);
    assert(cs@.skip(0) =~= cs@);
    if dash >= n {
        return None;
    }
    assert(cs@.subrange(0, dash as int) =~= cs@.take(dash as int));
    assert(cs@.subrange(dash + 1, n as int) =~= cs@.skip(dash + 1));
    let a = parse_chars(&cs, 0, dash, u64::MAX);
    let b = parse_chars(&cs, dash + 1, n, u64::MAX);
    if dash == 0 {
        return match b {
            Some(suffix) => if suffix == 0 {
                None
            } else if suffix < size {
                Some((size - suffix, size - 1))
            } else {
                Some((0, size - 1))
            },
            None => None,
        };
    }
    let start: u64 = match a {
        Some(v) => v,
        None => {
            return None;
        },
    };
    let end: u64 = if dash + 1 == n {
        size - 1
    } else {
        match b {
            Some(v) => if v < size {
                v
            } else {
                size - 1
            },
            None => {
                return None;
            },
        }
    };
    if start > end {
        None
    } else {
        Some((start, end))
    }
}

/// A range that is granted lies within the object and is not empty.
pub proof fn ranges_lie_within(header: Seq<char>, size: u64)
    ensures
        range_of(header, size) matches Some((start, end)) ==> 0 <= start <= end < size,
{
}

/// What a client asked.
#[derive(Debug)]
pub struct Request {
    pub method: String,
    pub target: String,
    pub range: Option<String>,
    pub keep_alive: bool,
}

/// How many characters of white space a string starts with, from `i` on.
pub open spec fn word_from(s: Seq<char>, i: int) -> int
    decreases s.len() - i,
{
    if 0 <= i < s.len() && is_space(s[i]) {
        word_from(s, i + 1)
    } else {
        i
    }
}

/// Where the word that starts at `i` stops.
pub open spec fn word_end(s: Seq<char>, i: int) -> int
    decreases s.len() - i,
{
    if 0 <= i < s.len() && !is_space(s[i]) {
        word_end(s, i + 1)
    } else {
        i
    }
}

/// The method and the target of a request line.
pub open spec fn request_words(line: Seq<char>) -> (Seq<char>, Seq<char>) {
    let a = word_from(line, 0);
    let b = word_end(line, a);
    let c = word_from(line, b);
    let d = word_end(line, c);
    (
        line.subrange(a, b),
        if c == d {
            "/"@
        } else {
            line.subrange(c, d)
        },
    )
}

fn next_word(s: &Vec<char>, i: usize) -> (r: (usize, usize))
    requires
        i <= s.len(),
    ensures
        i <= r.0 <= r.1 <= s.len(),
        r.0 == word_from(s@, i as int),
        r.1 == word_end(s@, r.0 as int),
{
    let mut a: usize = i;
    while a < s.len() && is_white(s[a])
        invariant
            i <= a <= s.len(),
            word_from(s@, i as int) == word_from(s@, a as int),
        decreases s.len() - a,
    {
        a = a + 1;
    }
    let mut b: usize = a;
    while b < s.len() && !is_white(s[b])
        invariant
            a <= b <= s.len(),
            word_end(s@, a as int) == word_end(s@, b as int),
        decreases s.len() - b,
    {
        b = b + 1;
    }
    (a, b)
}

/// What one header line says.
pub enum Said {
    /// The head of the request ends here.
    End,
    /// Nothing that matters.
    Nothing,
    /// A range is asked for.
    Range(Seq<char>),
    /// The connection is to be closed.
    Close,
}

/// What one header line says.
pub open spec fn header_says(line: Seq<char>) -> Said {
    let h = trimmed_end(line);
    let colon = first_of(h, ':');
    let name = h.take(colon);
    let value = trimmed(h.skip(colon + 1));
    if h.len() == 0 {
        Said::End
    } else if colon >= h.len() {
        Said::Nothing
    } else if lowered(name) == lowered("range"@) {
        Said::Range(value)
    } else if lowered(name) == lowered("connection"@) && lowered(value) == lowered("close"@) {
        Said::Close
    } else {
        Said::Nothing
    }
}

/// A string that may be missing.
pub open spec fn range_text(r: Option<String>) -> Option<Seq<char>> {
    match r {
        Some(s) => Some(s@),
        None => None,
    }
}

impl Request {
    /// The request that a request line starts.
    pub fn start(line: &str) -> (r: Self)
        ensures
            (r.method@, r.target@) == request_words(line@),
            r.range is None,
            r.keep_alive,
    {
        let cs = chars_of(line);
        let m = next_word(&cs, 0);
        let t = next_word(&cs, m.1);
        let target = if t.0 == t.1 {
            "/".to_owned()
        } else {
            string_of(&cs, t.0, t.1)
        };
        Request { method: string_of(&cs, m.0, m.1), target, range: None, keep_alive: true }
    }

    /// Takes one header line in. Returns whether the head ends with it.
    pub fn header(&mut self, line: &str) -> (end: bool)
        ensures
            final(self).method == old(self).method,
            final(self).target == old(self).target,
            end == (header_says(line@) is End),
            range_text(final(self).range) == match header_says(line@) {
                Said::Range(v) => Some(v),
                _ => range_text(old(self).range),
            },
            final(self).keep_alive == match header_says(line@) {
                Said::Close => false,
                _ => old(self).keep_alive,
            },
    {
        let h = trim_end(line);
        let cs = chars_of(h.as_str());
        let n: usize = cs.len();
        if n == 0 {
            return true;
        }
        let colon = find_from(&cs, ':', 0);
        assert(cs@.skip(0) =~= cs@);
        if colon >= n {
            return false;
        }
        let name = string_of(&cs, 0, colon);
        assert(cs@.subrange(0, colon as int) =~= cs@.take(colon as int));
        let v = trim_range(&cs, colon + 1, n);
        assert(cs@.subrange(colon + 1, n as int) =~= cs@.skip(colon + 1));
        let value = string_of(&cs, v.0, v.1);
        if same_ignoring_case(name.as_str(), "range") {
            self.range = Some(value);
        } else if same_ignoring_case(name.as_str(), "connection") && same_ignoring_case(
            value.as_str(),
            "close",
        ) {
            self.keep_alive = false;
        }
        false
    }
}

/// What a resolved target turned out to be.
#[derive(Debug, Clone, Copy, PartialEq, Eq, Structural)]
pub enum Found {
    /// Nothing that may be served.
    Refused,
    /// A directory.
    Directory,
    /// No readable file.
    Missing,
    /// A file of this many bytes.
    File { size: u64 },
}

/// What to answer.
#[derive(Debug, Clone, Copy, PartialEq, Eq, Structural)]
pub enum Answer {
    /// An empty answer to a preflight.
    Preflight,
    /// The method is not one of those served.
    BadMethod,
    /// The target escapes the root.
    Forbidden,
    /// A listing of a directory, or the index inside it.
    Listing { send_body: bool },
    /// There is no such file.
    NotFound,
    /// The whole file.
    Whole { size: u64, send_body: bool },
    /// The range cannot be satisfied.
    Unsatisfiable { size: u64 },
    /// A range of the file, first and last byte.
    Part { start: u64, end: u64, size: u64, send_body: bool },
}

/// What a request is answered with, given what its target turned out to be.
pub open spec fn answer_to(method: Seq<char>, range: Option<Seq<char>>, found: Found) -> Answer {
    let send_body = method == "GET"@;
    if method == "OPTIONS"@ {
        Answer::Preflight
    } else if method != "GET"@ && method != "HEAD"@ {
        Answer::BadMethod
    } else {
        match found {
            Found::Refused => Answer::Forbidden,
            Found::Directory => Answer::Listing { send_body },
            Found::Missing => Answer::NotFound,
            Found::File { size } => match range {
                None => Answer::Whole { size, send_body },
                Some(r) => match range_of(r, size) {
                    None => Answer::Unsatisfiable { size },
                    Some((start, end)) => Answer::Part {
                        start: start as u64,
                        end: end as u64,
                        size,
                        send_body,
                    },
                },
            },
        }
    }
}

/// Whether a request's target has to be looked up at all.
pub fn wants_file(request: &Request) -> (r: bool)
    ensures
        r == (request.method@ == "GET"@ || request.method@ == "HEAD"@),
{
    same(request.method.as_str(), "GET") || same(request.method.as_str(), "HEAD")
}

/// What a request is answered with, given what its target turned out to be.
pub fn handle_request(request: &Request, found: Found) -> (a: Answer)
    ensures
        a == answer_to(request.method@, range_text(request.range), found),
{
    proof {
        reveal_strlit("OPTIONS");
        reveal_strlit("GET");
        reveal_strlit("HEAD");
        assert("OPTIONS"@.len() != "GET"@.len());
        assert("GET"@.len() != "HEAD"@.len());
    }
    let send_body = same(request.method.as_str(), "GET");
    if same(request.method.as_str(), "OPTIONS") {
        return Answer::Preflight;
    }
    if !send_body && !same(request.method.as_str(), "HEAD") {
        return Answer::BadMethod;
    }
    match found {
        Found::Refused => Answer::Forbidden,
        Found::Directory => Answer::Listing { send_body },
        Found::Missing => Answer::NotFound,
        Found::File { size } => match &request.range {
            None => Answer::Whole { size, send_body },
            Some(r) => match parse_range(r.as_str(), size) {
                None => Answer::Unsatisfiable { size },
                Some((start, end)) => Answer::Part { start, end, size, send_body },
            },
        },
    }
}

/// The status of an answer.
pub open spec fn status_of(a: Answer) -> u16 {
    match a {
        Answer::Preflight => 204,
        Answer::BadMethod => 405,
        Answer::Forbidden => 403,
        Answer::Listing { .. } => 200,
        Answer::NotFound => 404,
        Answer::Whole { .. } => 200,
        Answer::Unsatisfiable { .. } => 416,
        Answer::Part { .. } => 206,
    }
}

/// The reason that goes with a status.
pub open spec fn reason_of(a: Answer) -> Seq<char> {
    match a {
        Answer::Preflight => "No Content"@,
        Answer::BadMethod => "Method Not Allowed"@,
        Answer::Forbidden => "Forbidden"@,
        Answer::Listing { .. } => "OK"@,
        Answer::NotFound => "Not Found"@,
        Answer::Whole { .. } => "OK"@,
        Answer::Unsatisfiable { .. } => "Range Not Satisfiable"@,
        Answer::Part { .. } => "Partial Content"@,
    }
}

/// What every response starts with: the status line, the CORS headers, the
/// cache policy where there is one, and whether the connection stays open.
pub open spec fn common_head(
    status: u16,
    reason: Seq<char>,
    cors: Seq<char>,
    cache: u32,
    keep_alive: bool,
) -> Seq<char> {
    let a = "HTTP/1.1 "@ + decimal(status as nat) + " "@ + reason + "\r\n"@;
    let b = a + "Access-Control-Allow-Origin: "@ + cors
        + "\r\nAccess-Control-Allow-Methods: GET, HEAD, OPTIONS\r\nAccess-Control-Allow-Headers: Range, Content-Type\r\nAccess-Control-Expose-Headers: Content-Range, Content-Length, Accept-Ranges\r\n"@;
    let c = if cache > 0 {
        b + "Cache-Control: public, max-age="@ + decimal(cache as nat) + ", immutable\r\n"@
    } else {
        b
    };
    c + "Connection: "@ + (if keep_alive {
        "keep-alive"@
    } else {
        "close"@
    }) + "\r\n"@
}

/// What every response starts with.
pub fn respond(status: u16, reason: &str, cors: &str, cache: u32, keep_alive: bool) -> (out: String)
    ensures
        out@ == common_head(status, reason@, cors@, cache, keep_alive),
{
    let s = decimal_of(status as u64);
    let mut out = cat5("HTTP/1.1 ", s.as_str(), " ", reason, "\r\n");
    out.append("Access-Control-Allow-Origin: ");
    out.append(cors);
    out.append(
        "\r\nAccess-Control-Allow-Methods: GET, HEAD, OPTIONS\r\nAccess-Control-Allow-Headers: Range, Content-Type\r\nAccess-Control-Expose-Headers: Content-Range, Content-Length, Accept-Ranges\r\n",
    );
    if cache > 0 {
        let n = decimal_of(cache as u64);
        out.append("Cache-Control: public, max-age=");
        out.append(n.as_str());
        out.append(", immutable\r\n");
    }
    out.append("Connection: ");
    if keep_alive {
        out.append("keep-alive");
    } else {
        out.append("close");
    }
    out.append("\r\n");
    out
}

/// The body of a response that carries nothing but its status.
pub open spec fn status_body(a: Answer) -> Seq<char> {
    decimal(status_of(a) as nat) + " "@ + reason_of(a) + "\n"@
}

/// The headers of an answer of its own, after the common ones, up to and with
/// the line that ends them. A listing states its own.
pub open spec fn answer_headers(a: Answer, mime: Seq<char>) -> Seq<char> {
    match a {
        Answer::Preflight => "Content-Length: 0\r\n\r\n"@,
        Answer::BadMethod | Answer::Forbidden | Answer::NotFound =>
            "Content-Type: text/plain; charset=utf-8\r\nContent-Length: "@ + decimal(
            vstd::utf8::encode_utf8(status_body(a)).len(),
        ) + "\r\n\r\n"@,
        Answer::Listing { .. } => Seq::empty(),
        Answer::Whole { size, .. } => "Content-Type: "@ + mime + "\r\nContent-Length: "@ + decimal(
            size as nat,
        ) + "\r\nAccept-Ranges: bytes\r\n\r\n"@,
        Answer::Unsatisfiable { size } => "Content-Range: bytes */"@ + decimal(size as nat)
            + "\r\n\r\n"@,
        Answer::Part { start, end, size, .. } => "Content-Type: "@ + mime
            + "\r\nContent-Length: "@ + decimal((end - start + 1) as nat)
            + "\r\nAccept-Ranges: bytes\r\nContent-Range: bytes "@ + decimal(start as nat) + "-"@
            + decimal(end as nat) + "/"@ + decimal(size as nat) + "\r\n\r\n"@,
    }
}

fn status_text(a: Answer) -> (out: String)
    ensures
        out@ == status_body(a),
{
    let (status, reason): (u16, &str) = status_and_reason(a);
    let s = decimal_of(status as u64);
    cat4(s.as_str(), " ", reason, "\n")
}

/// The status of an answer, and the reason that goes with it.
pub fn status_and_reason(a: Answer) -> (r: (u16, &'static str))
    ensures
        r.0 == status_of(a),
        r.1@ == reason_of(a),
{
    match a {
        Answer::Preflight => (204, "No Content"),
        Answer::BadMethod => (405, "Method Not Allowed"),
        Answer::Forbidden => (403, "Forbidden"),
        Answer::Listing { .. } => (200, "OK"),
        Answer::NotFound => (404, "Not Found"),
        Answer::Whole { .. } => (200, "OK"),
        Answer::Unsatisfiable { .. } => (416, "Range Not Satisfiable"),
        Answer::Part { .. } => (206, "Partial Content"),
    }
}

/// The whole head of an answer, and the text that follows it where the answer
/// carries one of its own.
pub fn respond_text(
    a: Answer,
    mime: &str,
    cors: &str,
    cache: u32,
    keep_alive: bool,
) -> (out: String)
    requires
        a matches Answer::Part { start, end, .. } ==> start <= end && end - start < u64::MAX,
    ensures
        out@ == common_head(status_of(a), reason_of(a), cors@, cache, keep_alive) + answer_headers(
            a,
            mime@,
        ) + (if a is BadMethod || a is Forbidden || a is NotFound {
            status_body(a)
        } else {
            Seq::empty()
        }),
{
    let (status, reason) = status_and_reason(a);
    let mut out = respond(status, reason, cors, cache, keep_alive);
    let ghost head = out@;
    match a {
        Answer::Preflight => {
            out.append("Content-Length: 0\r\n\r\n");
        },
        Answer::BadMethod | Answer::Forbidden | Answer::NotFound => {
            let body = status_text(a);
            let n = decimal_of(body.as_str().as_bytes().len() as u64);
            let own = cat3(
                "Content-Type: text/plain; charset=utf-8\r\nContent-Length: ",
                n.as_str(),
                "\r\n\r\n",
            );
            out.append(own.as_str());
            out.append(body.as_str());
        },
        Answer::Listing { .. } => {},
        Answer::Whole { size, .. } => {
            let n = decimal_of(size);
            let own = cat5(
                "Content-Type: ",
                mime,
                "\r\nContent-Length: ",
                n.as_str(),
                "\r\nAccept-Ranges: bytes\r\n\r\n",
            );
            out.append(own.as_str());
        },
        Answer::Unsatisfiable { size } => {
            let n = decimal_of(size);
            let own = cat3("Content-Range: bytes */", n.as_str(), "\r\n\r\n");
            out.append(own.as_str());
        },
        Answer::Part { start, end, size, .. } => {
            let n = decimal_of(end - start + 1);
            let s = decimal_of(start);
            let e = decimal_of(end);
            let t = decimal_of(size);
            let mut own = cat5(
                "Content-Type: ",
                mime,
                "\r\nContent-Length: ",
                n.as_str(),
                "\r\nAccept-Ranges: bytes\r\nContent-Range: bytes ",
            );
            own.append(s.as_str());
            own.append("-");
            own.append(e.as_str());
            own.append("/");
            own.append(t.as_str());
            own.append("\r\n\r\n");
            out.append(own.as_str());
        },
    }
    assert(out@ =~= head + answer_headers(a, mime@) + (if a is BadMethod || a is Forbidden
        || a is NotFound {
        status_body(a)
    } else {
        Seq::empty()
    }));
    out
}

/// The headers of a page that is a directory's index or its listing, given how
/// many bytes the page has.
pub open spec fn page_headers(len: nat) -> Seq<char> {
    "Content-Type: text/html; charset=utf-8\r\nContent-Length: "@ + decimal(len) + "\r\n\r\n"@
}

/// The headers of a page that is a directory's index or its listing.
pub fn page_head(len: u64) -> (out: String)
    ensures
        out@ == page_headers(len as nat),
{
    let n = decimal_of(len);
    cat3(
        "Content-Type: text/html; charset=utf-8\r\nContent-Length: ",
        n.as_str(),
        "\r\n\r\n",
    )
}

/// The rows of a listing.
pub open spec fn listing_rows(entries: Seq<(String, Option<u64>)>) -> Seq<char>
    decreases entries.len(),
{
    if entries.len() == 0 {
        Seq::empty()
    } else {
        let (name, size) = entries.last();
        listing_rows(entries.drop_last()) + ("<tr><td><a href=\""@ + name@ + "\">"@ + name@
            + "</a></td><td>"@ + (match size {
            Some(n) => size_text(n as nat),
            None => Seq::empty(),
        }) + "</td></tr>"@)
    }
}

/// The page that lists a directory.
pub open spec fn listing_page(base: Seq<char>, entries: Seq<(String, Option<u64>)>) -> Seq<char> {
    "<!doctype html><meta charset=utf-8><title>"@ + base
        + "</title><style>body{font:14px ui-monospace,monospace;padding:2rem;max-width:60rem}a{text-decoration:none}td{padding:.15rem 1.5rem .15rem 0}</style><h1>"@
        + base + "</h1><table>"@ + listing_rows(entries) + "</table>"@
}

/// The page that lists a directory, its entries in the order given.
pub fn listing(target: &str, entries: &Vec<(String, Option<u64>)>) -> (out: String)
    ensures
        out@ == listing_page(path_part(target@), entries@),
{
    let base = without_query(target);
    let mut rows = String::new();
    let mut i: usize = 0;
    assert(entries@.take(0) =~= Seq::<(String, Option<u64>)>::empty());
    while i < entries.len()
        invariant
            i <= entries.len(),
            rows@ == listing_rows(entries@.take(i as int)),
        decreases entries.len() - i,
    {
        assert(entries@.take(i + 1).drop_last() =~= entries@.take(i as int));
        let size = match entries[i].1 {
            Some(n) => bytes(n),
            None => String::new(),
        };
        let name = entries[i].0.as_str();
        let row = cat7(
            "<tr><td><a href=\"",
            name,
            "\">",
            name,
            "</a></td><td>",
            size.as_str(),
            "</td></tr>",
        );
        rows.append(row.as_str());
        i = i + 1;
    }
    assert(entries@.take(i as int) =~= entries@);
    let b = base.as_str();
    cat7(
        "<!doctype html><meta charset=utf-8><title>",
        b,
        "</title><style>body{font:14px ui-monospace,monospace;padding:2rem;max-width:60rem}a{text-decoration:none}td{padding:.15rem 1.5rem .15rem 0}</style><h1>",
        b,
        "</h1><table>",
        rows.as_str(),
        "</table>",
    )
}

} // verus!
