//! What a file says about its coordinate reference system.
//!
//! Declaration, not projection: reading a CRS out of a file is a little
//! parsing, and projecting through one is another job.

use crate::text::{
    cat2, cat4, chars_of, decimal, decimal_of, find, find_from, first_of, is_digit, lower_char, lowered,
    parse_chars, same, seek, skip_white, string_of, trim,
    trim_range, trimmed, trimmed_start, unsigned, upper_range, uppered,
};
use vstd::prelude::*;

verus! {

/// How a file spelled its CRS.
#[derive(Debug, Clone, Copy, PartialEq, Eq, Structural)]
pub enum CrsFormat {
    /// An EPSG code.
    Epsg,
    /// OGC Well-Known Text.
    Wkt,
    /// A proj4 string: `"+proj=utm +zone=12 +datum=NAD83"`.
    Proj4,
    /// Something was declared and none of the above recognised it.
    Unknown,
}

impl CrsFormat {
    pub open spec fn spelling(self) -> Seq<char> {
        match self {
            CrsFormat::Epsg => "epsg"@,
            CrsFormat::Wkt => "wkt"@,
            CrsFormat::Proj4 => "proj4"@,
            CrsFormat::Unknown => "unknown"@,
        }
    }

    pub fn name(self) -> (s: &'static str)
        ensures
            s@ == self.spelling(),
    {
        match self {
            CrsFormat::Epsg => "epsg",
            CrsFormat::Wkt => "wkt",
            CrsFormat::Proj4 => "proj4",
            CrsFormat::Unknown => "unknown",
        }
    }
}

/// A cloud's coordinate reference system, as declared.
#[derive(Debug, Clone)]
pub struct Crs {
    pub format: CrsFormat,
    /// Verbatim, whatever the file held. The only lossless field here.
    pub raw: String,
    /// EPSG code of the horizontal system, when it could be determined.
    pub epsg: Option<u32>,
    /// EPSG code of the vertical system, separately, when one was declared.
    pub vertical_epsg: Option<u32>,
    /// The human name the file gave, when it gave one.
    pub name: Option<String>,
}

/// A declaration, as the values it holds.
pub struct Declared {
    pub format: CrsFormat,
    pub raw: Seq<char>,
    pub epsg: Option<u32>,
    pub vertical_epsg: Option<u32>,
    pub name: Option<Seq<char>>,
}

/// A string that may be missing, as its characters.
pub open spec fn text_of(s: Option<String>) -> Option<Seq<char>> {
    match s {
        Some(t) => Some(t@),
        None => None,
    }
}

impl View for Crs {
    type V = Declared;

    open spec fn view(&self) -> Declared {
        Declared {
            format: self.format,
            raw: self.raw@,
            epsg: self.epsg,
            vertical_epsg: self.vertical_epsg,
            name: text_of(self.name),
        }
    }
}

/// What an OGC WKT string declares.
pub open spec fn wkt_declares(wkt: Seq<char>) -> Declared {
    Declared {
        format: CrsFormat::Wkt,
        raw: wkt,
        epsg: horizontal_code(wkt),
        vertical_epsg: vertical_code(wkt),
        name: outer_name(wkt),
    }
}

/// What an EPSG code declares.
pub open spec fn epsg_declares(epsg: u32) -> Declared {
    Declared {
        format: CrsFormat::Epsg,
        raw: "EPSG:"@ + decimal(epsg as nat),
        epsg: Some(epsg),
        vertical_epsg: None,
        name: None,
    }
}

/// What a string declares when nothing is known of it but its kind.
pub open spec fn bare(format: CrsFormat, raw: Seq<char>) -> Declared {
    Declared { format, raw, epsg: None, vertical_epsg: None, name: None }
}

/// What a manifest field declares, its kind taken from its shape.
pub open spec fn string_declares(text: Seq<char>) -> Option<Declared> {
    let raw = trimmed(text);
    if raw.len() == 0 {
        None
    } else if raw[0] == '+' {
        Some(bare(CrsFormat::Proj4, raw))
    } else if code_only(raw) is Some {
        Some(epsg_declares(code_only(raw)->0))
    } else if is_wkt(raw) {
        Some(wkt_declares(raw))
    } else {
        Some(bare(CrsFormat::Unknown, raw))
    }
}

/// What a declaration is called in one line.
pub open spec fn label_of(d: Declared) -> Seq<char> {
    match (d.name, d.epsg) {
        (Some(name), Some(code)) => name + " (EPSG:"@ + decimal(code as nat) + ")"@,
        (Some(name), None) => name,
        (None, Some(code)) => "EPSG:"@ + decimal(code as nat),
        (None, None) => d.format.spelling() + " (unresolved)"@,
    }
}

impl Crs {
    /// Build a declaration from an OGC WKT string.
    pub fn from_wkt(wkt: &str) -> (c: Self)
        ensures
            c@ == wkt_declares(wkt@),
    {
        Crs {
            format: CrsFormat::Wkt,
            raw: wkt.to_owned(),
            epsg: horizontal_epsg(wkt),
            vertical_epsg: vertical_epsg(wkt),
            name: wkt_name(wkt),
        }
    }

    /// Build a declaration from an EPSG code.
    pub fn from_epsg(epsg: u32) -> (c: Self)
        ensures
            c@ == epsg_declares(epsg),
    {
        let code = decimal_of(epsg as u64);
        Crs {
            format: CrsFormat::Epsg,
            raw: cat2("EPSG:", code.as_str()),
            epsg: Some(epsg),
            vertical_epsg: None,
            name: None,
        }
    }

    /// Build a declaration from whatever a manifest field held.
    ///
    /// `None` for an empty string, which is not a declaration at all.
    pub fn from_string(text: &str) -> (c: Option<Self>)
        ensures
            match c {
                Some(d) => string_declares(text@) == Some(d@),
                None => string_declares(text@) is None,
            },
    {
        let raw = trim(text);
        let cs = chars_of(raw.as_str());
        if cs.len() == 0 {
            return None;
        }
        if cs[0] == '+' {
            return Some(Crs::undetermined(CrsFormat::Proj4, raw));
        }
        if let Some(code) = epsg_only(raw.as_str()) {
            return Some(Crs::from_epsg(code));
        }
        if looks_like_wkt(raw.as_str()) {
            return Some(Crs::from_wkt(raw.as_str()));
        }
        Some(Crs::undetermined(CrsFormat::Unknown, raw))
    }

    fn undetermined(format: CrsFormat, raw: String) -> (c: Self)
        ensures
            c@ == bare(format, raw@),
    {
        Crs { format, raw, epsg: None, vertical_epsg: None, name: None }
    }

    /// What to show a human in one line.
    pub fn label(&self) -> (out: String)
        ensures
            out@ == label_of(self@),
    {
        match &self.name {
            Some(name) => match self.epsg {
                Some(code) => {
                    let code = decimal_of(code as u64);
                    cat4(name.as_str(), " (EPSG:", code.as_str(), ")")
                },
                None => name.clone(),
            },
            None => match self.epsg {
                Some(code) => {
                    let code = decimal_of(code as u64);
                    cat2("EPSG:", code.as_str())
                },
                None => cat2(self.format.name(), " (unresolved)"),
            },
        }
    }

    /// A declaration that says the same.
    pub fn duplicate(&self) -> (c: Self)
        ensures
            c@ == self@,
    {
        Crs {
            format: self.format,
            raw: self.raw.clone(),
            epsg: self.epsg,
            vertical_epsg: self.vertical_epsg,
            name: match &self.name {
                Some(n) => Some(n.clone()),
                None => None,
            },
        }
    }
}

/// The run of digits at the start of a string.
pub open spec fn leading_digits(s: Seq<char>) -> Seq<char>
    decreases s.len(),
{
    if s.len() > 0 && is_digit(s[0]) {
        seq![s[0]] + leading_digits(s.skip(1))
    } else {
        Seq::empty()
    }
}

/// The code of a string that is `EPSG:1234` and nothing else.
pub open spec fn code_only(raw: Seq<char>) -> Option<u32> {
    if raw.len() > 5 && (raw.take(5) == "EPSG:"@ || raw.take(5) == "epsg:"@) && leading_digits(
        raw.skip(5),
    ) == raw.skip(5) && unsigned(raw.skip(5), u32::MAX as nat) is Some {
        Some(unsigned(raw.skip(5), u32::MAX as nat)->0 as u32)
    } else {
        None
    }
}

/// Where the digits from `from` on stop.
fn skip_digits(s: &Vec<char>, from: usize) -> (at: usize)
    requires
        from <= s.len(),
    ensures
        from <= at <= s.len(),
        leading_digits(s@.skip(from as int)) == s@.subrange(from as int, at as int),
    decreases s.len() - from,
{
    if from < s.len() && '0' <= s[from] && s[from] <= '9' {
        let at = skip_digits(s, from + 1);
        assert(s@.skip(from as int).skip(1) =~= s@.skip(from + 1));
        assert(seq![s@[from as int]] + s@.subrange(from + 1, at as int) =~= s@.subrange(
            from as int,
            at as int,
        ));
        at
    } else {
        assert(s@.subrange(from as int, from as int) =~= Seq::<char>::empty());
        from
    }
}

/// `EPSG:1234` and nothing else.
fn epsg_only(raw: &str) -> (r: Option<u32>)
    ensures
        r == code_only(raw@),
{
    proof {
        reveal_strlit("EPSG:");
        reveal_strlit("epsg:");
    }
    let cs = chars_of(raw);
    let n: usize = cs.len();
    if n <= 5 {
        return None;
    }
    let head = string_of(&cs, 0, 5);
    assert(raw@.subrange(0, 5) =~= raw@.take(5));
    if !same(head.as_str(), "EPSG:") && !same(head.as_str(), "epsg:") {
        return None;
    }
    let end = skip_digits(&cs, 5);
    assert(raw@.subrange(5, n as int) =~= raw@.skip(5));
    if end != n {
        assert(leading_digits(raw@.skip(5)).len() != raw@.skip(5).len());
        return None;
    }
    match parse_chars(&cs, 5, n, u32::MAX as u64) {
        Some(v) => Some(v as u32),
        None => None,
    }
}

/// Whether a character may stand in a WKT keyword.
pub open spec fn is_keyword_char(c: char) -> bool {
    ('A' <= c && c <= 'Z') || c == '_'
}

/// How many keyword characters a string starts with.
pub open spec fn keyword_len(s: Seq<char>) -> int
    decreases s.len(),
{
    if s.len() > 0 && is_keyword_char(s[0]) {
        1 + keyword_len(s.skip(1))
    } else {
        0
    }
}

/// Whether a string starts with a keyword and a bracket, white space allowed.
pub open spec fn is_wkt(raw: Seq<char>) -> bool {
    let rest = trimmed_start(raw);
    let n = keyword_len(rest);
    let after = trimmed_start(rest.skip(n));
    n > 0 && after.len() > 0 && after[0] == '['
}

fn skip_keyword(s: &Vec<char>, from: usize) -> (at: usize)
    requires
        from <= s.len(),
    ensures
        from <= at <= s.len(),
        at == from + keyword_len(s@.skip(from as int)),
    decreases s.len() - from,
{
    if from < s.len() && (('A' <= s[from] && s[from] <= 'Z') || s[from] == '_') {
        let at = skip_keyword(s, from + 1);
        assert(s@.skip(from as int).skip(1) =~= s@.skip(from + 1));
        at
    } else {
        from
    }
}

/// A leading `KEYWORD[`, allowing whitespace.
fn looks_like_wkt(raw: &str) -> (r: bool)
    ensures
        r == is_wkt(raw@),
{
    let cs = chars_of(raw);
    let start = skip_white(&cs, 0);
    assert(raw@.skip(0) =~= raw@);
    let stop = skip_keyword(&cs, start);
    let at = skip_white(&cs, stop);
    assert(raw@.skip(start as int).skip(stop - start) =~= raw@.skip(stop as int));
    if at < cs.len() {
        assert(raw@.skip(at as int)[0] == cs@[at as int]);
    }
    start < stop && at < cs.len() && cs[at] == '['
}

/// Where the bracket that closes the node closes, scanning from `i` with
/// `depth` brackets open; -1 when nothing closes it. Quoted text is skipped.
pub open spec fn close_from(s: Seq<char>, i: int, depth: int, quoted: bool) -> int
    decreases s.len() - i,
{
    if i >= s.len() {
        -1
    } else if s[i] == '"' {
        close_from(s, i + 1, depth, !quoted)
    } else if quoted {
        close_from(s, i + 1, depth, quoted)
    } else if s[i] == '[' {
        close_from(s, i + 1, depth + 1, quoted)
    } else if s[i] == ']' {
        if depth == 1 {
            i
        } else {
            close_from(s, i + 1, depth - 1, quoted)
        }
    } else {
        close_from(s, i + 1, depth, quoted)
    }
}

/// The text of the first node with this keyword, brackets balanced.
pub open spec fn node_named(wkt: Seq<char>, keyword: Seq<char>) -> Option<Seq<char>> {
    let start = seek(wkt, keyword + "["@, 0);
    let close = close_from(wkt, start + keyword.len() + 1, 1, false);
    if start >= 0 && close >= 0 {
        Some(wkt.subrange(start, close + 1))
    } else {
        None
    }
}

/// The first of two keywords that has a node.
pub open spec fn node_of(wkt: Seq<char>, a: Seq<char>, b: Seq<char>) -> Option<Seq<char>> {
    if node_named(wkt, a) is Some {
        node_named(wkt, a)
    } else {
        node_named(wkt, b)
    }
}

/// The text of the first node with this keyword.
fn named_node(wkt: &Vec<char>, keyword: &str) -> (r: Option<Vec<char>>)
    ensures
        match r {
            Some(n) => node_named(wkt@, keyword@) == Some(n@),
            None => node_named(wkt@, keyword@) is None,
        },
{
    let pattern = chars_of(cat2(keyword, "[").as_str());
    proof {
        reveal_strlit("[");
    }
    let start: usize = match find(wkt, &pattern) {
        Some(at) => at,
        None => {
            return None;
        },
    };
    assert(start + pattern.len() <= wkt.len());
    let begin: usize = start + pattern.len();
    let mut i: usize = begin;
    let mut depth: usize = 1;
    let mut quoted: bool = false;
    while i < wkt.len()
        invariant
            start <= begin <= i <= wkt.len(),
            1 <= depth <= i - begin + 1,
            close_from(wkt@, begin as int, 1, false) == close_from(
                wkt@,
                i as int,
                depth as int,
                quoted,
            ),
            seek(wkt@, keyword@ + "["@, 0) == start,
            begin == start + keyword@.len() + 1,
        decreases wkt.len() - i,
    {
        let c = wkt[i];
        if c == '"' {
            quoted = !quoted;
        } else if quoted {
        } else if c == '[' {
            depth = depth + 1;
        } else if c == ']' {
            if depth == 1 {
                let mut out: Vec<char> = Vec::new();
                let mut k: usize = start;
                while k < i + 1
                    invariant
                        start <= k <= i + 1 <= wkt.len(),
                        out@ == wkt@.subrange(start as int, k as int),
                    decreases i + 1 - k,
                {
                    out.push(wkt[k]);
                    assert(out@ =~= wkt@.subrange(start as int, k + 1));
                    k = k + 1;
                }
                return Some(out);
            }
            depth = depth - 1;
        }
        i = i + 1;
    }
    None
}

/// The text of the first node with one of two keywords, brackets balanced.
fn first_node(wkt: &Vec<char>, a: &str, b: &str) -> (r: Option<Vec<char>>)
    ensures
        match r {
            Some(n) => node_of(wkt@, a@, b@) == Some(n@),
            None => node_of(wkt@, a@, b@) is None,
        },
{
    match named_node(wkt, a) {
        Some(n) => Some(n),
        None => named_node(wkt, b),
    }
}

/// A string without a double quote at its start.
pub open spec fn unquoted(s: Seq<char>) -> Seq<char> {
    if s.len() > 0 && s[0] == '"' {
        s.skip(1)
    } else {
        s
    }
}

/// The code in `"EPSG","1234"]`, quotes optional on either side.
pub open spec fn epsg_in(text: Seq<char>) -> Option<u32> {
    let a = unquoted(trimmed_start(text));
    let b = trimmed_start(unquoted(trimmed_start(a.skip(4))));
    let c = unquoted(trimmed_start(b.skip(1)));
    let d = leading_digits(c);
    let e = trimmed_start(unquoted(trimmed_start(c.skip(d.len() as int))));
    if a.len() >= 4 && lowered(a.take(4)) == "epsg"@ && b.len() > 0 && b[0] == ',' && d.len() > 0
        && e.len() > 0 && e[0] == ']' && unsigned(d, u32::MAX as nat) is Some {
        Some(unsigned(d, u32::MAX as nat)->0 as u32)
    } else {
        None
    }
}

fn skip_quote(s: &Vec<char>, from: usize) -> (at: usize)
    requires
        from <= s.len(),
    ensures
        from <= at <= s.len(),
        s@.skip(at as int) == unquoted(s@.skip(from as int)),
{
    if from < s.len() && s[from] == '"' {
        assert(s@.skip(from as int).skip(1) =~= s@.skip(from + 1));
        from + 1
    } else {
        from
    }
}

/// `"EPSG","1234"]` or `EPSG,1234]`, with the quotes optional on either side.
fn epsg_argument(s: &Vec<char>, from: usize) -> (r: Option<u32>)
    requires
        from <= s.len(),
    ensures
        r == epsg_in(s@.skip(from as int)),
{
    proof {
        reveal_strlit("epsg");
    }
    let n: usize = s.len();
    let w = skip_white(s, from);
    let a = skip_quote(s, w);
    if n - a < 4 {
        return None;
    }
    let ghost head = s@.skip(a as int).take(4);
    assert(head[0] == s@[a as int] && head[1] == s@[a + 1] && head[2] == s@[a + 2] && head[3]
        == s@[a + 3]);
    if !(lower_char(s[a]) == 'e' && lower_char(s[a + 1]) == 'p' && lower_char(s[a + 2]) == 's'
        && lower_char(s[a + 3]) == 'g') {
        proof {
            let l = lowered(head);
            assert(l[0] != 'e' || l[1] != 'p' || l[2] != 's' || l[3] != 'g');
            assert("epsg"@[0] == 'e' && "epsg"@[1] == 'p' && "epsg"@[2] == 's' && "epsg"@[3]
                == 'g');
            assert(l != "epsg"@);
        }
        return None;
    }
    assert(lowered(head) =~= "epsg"@);
    assert(s@.skip(a as int).skip(4) =~= s@.skip(a + 4));
    let w2 = skip_white(s, a + 4);
    let q = skip_quote(s, w2);
    let b = skip_white(s, q);
    if b >= n || s[b] != ',' {
        return None;
    }
    assert(s@.skip(b as int)[0] == ',');
    assert(s@.skip(b as int).skip(1) =~= s@.skip(b + 1));
    let w3 = skip_white(s, b + 1);
    let c = skip_quote(s, w3);
    let d = skip_digits(s, c);
    if d == c {
        return None;
    }
    assert(s@.skip(c as int).skip(d - c) =~= s@.skip(d as int));
    let w4 = skip_white(s, d);
    let q2 = skip_quote(s, w4);
    let e = skip_white(s, q2);
    if e >= n || s[e] != ']' {
        return None;
    }
    assert(s@.skip(e as int)[0] == ']');
    match parse_chars(s, c, d, u32::MAX as u64) {
        Some(v) => Some(v as u32),
        None => None,
    }
}

/// Whether a character is an ASCII letter or an underscore.
pub open spec fn is_word_char(c: char) -> bool {
    ('A' <= c && c <= 'Z') || ('a' <= c && c <= 'z') || c == '_'
}

/// Where the word that ends before `at` starts.
pub open spec fn word_start(s: Seq<char>, at: int) -> int
    decreases at,
{
    if 0 < at <= s.len() && is_word_char(s[at - 1]) {
        word_start(s, at - 1)
    } else {
        at
    }
}

/// The bare keyword immediately before an opening bracket, in upper case.
pub open spec fn keyword_before(s: Seq<char>, bracket: int) -> Seq<char> {
    uppered(s.subrange(word_start(s, bracket), bracket))
}

/// The bare keyword immediately before an opening bracket.
fn keyword_ending_at(s: &Vec<char>, bracket: usize) -> (out: String)
    requires
        bracket <= s.len(),
    ensures
        out@ == keyword_before(s@, bracket as int),
{
    let mut start: usize = bracket;
    while start > 0 && (('A' <= s[start - 1] && s[start - 1] <= 'Z') || ('a' <= s[start - 1]
        && s[start - 1] <= 'z') || s[start - 1] == '_')
        invariant
            start <= bracket <= s.len(),
            word_start(s@, start as int) == word_start(s@, bracket as int),
        decreases start,
    {
        start = start - 1;
    }
    upper_range(s, start, bracket)
}

/// Whether the bracket at `i` opens an authority that names a code above zero.
pub open spec fn authority_at(s: Seq<char>, i: int) -> Option<u32> {
    let keyword = keyword_before(s, i);
    let value = epsg_in(s.skip(i + 1));
    if (keyword == "AUTHORITY"@ || keyword == "ID"@) && value is Some && value->0 > 0 {
        value
    } else {
        None
    }
}

/// The last authority that is a direct child of a node, scanning from `i` with
/// `depth` brackets open and `code` found so far.
pub open spec fn authority_from(
    s: Seq<char>,
    i: int,
    depth: int,
    quoted: bool,
    code: Option<u32>,
) -> Option<u32>
    decreases s.len() - i,
{
    if i >= s.len() {
        code
    } else if s[i] == '"' {
        authority_from(s, i + 1, depth, !quoted, code)
    } else if quoted {
        authority_from(s, i + 1, depth, quoted, code)
    } else if s[i] == '[' {
        let next = if depth == 1 && authority_at(s, i) is Some {
            authority_at(s, i)
        } else {
            code
        };
        authority_from(s, i + 1, depth + 1, quoted, next)
    } else if s[i] == ']' {
        if depth == 1 {
            code
        } else {
            authority_from(s, i + 1, depth - 1, quoted, code)
        }
    } else {
        authority_from(s, i + 1, depth, quoted, code)
    }
}

/// The code of the authority that is a direct child of a node.
pub open spec fn direct_authority(node: Seq<char>) -> Option<u32> {
    let open = first_of(node, '[');
    if open < node.len() {
        authority_from(node, open + 1, 1, false, None)
    } else {
        None
    }
}

/// The `AUTHORITY["EPSG",n]` / `ID["EPSG",n]` that is a *direct child* of a
/// node, and not one that a unit or a datum inside it carries.
fn direct_authority_in(node: &Vec<char>) -> (r: Option<u32>)
    ensures
        r == direct_authority(node@),
{
    let open = find_from(node, '[', 0);
    assert(node@.skip(0) =~= node@);
    if open >= node.len() {
        return None;
    }
    let mut i: usize = open + 1;
    let mut depth: usize = 1;
    let mut quoted: bool = false;
    let mut code: Option<u32> = None;
    while i < node.len()
        invariant
            open < i <= node.len(),
            1 <= depth <= i - open,
            authority_from(node@, open + 1, 1, false, None) == authority_from(
                node@,
                i as int,
                depth as int,
                quoted,
                code,
            ),
            open == first_of(node@, '['),
        decreases node.len() - i,
    {
        let c = node[i];
        if c == '"' {
            quoted = !quoted;
        } else if quoted {
        } else if c == '[' {
            if depth == 1 {
                let keyword = keyword_ending_at(node, i);
                if same(keyword.as_str(), "AUTHORITY") || same(keyword.as_str(), "ID") {
                    if let Some(value) = epsg_argument(node, i + 1) {
                        if value > 0 {
                            code = Some(value);
                        }
                    }
                }
            }
            depth = depth + 1;
        } else if c == ']' {
            if depth == 1 {
                return code;
            }
            depth = depth - 1;
        }
        i = i + 1;
    }
    code
}

/// The EPSG code of a WKT's horizontal system: the projected one, or the
/// geographic one when there is none.
pub open spec fn horizontal_code(wkt: Seq<char>) -> Option<u32> {
    let projected = node_of(wkt, "PROJCS"@, "PROJCRS"@);
    let geographic = node_of(wkt, "GEOGCS"@, "GEOGCRS"@);
    if projected is Some {
        direct_authority(projected->0)
    } else if geographic is Some {
        direct_authority(geographic->0)
    } else {
        None
    }
}

/// The EPSG code of a WKT's horizontal system.
pub fn horizontal_epsg(wkt: &str) -> (r: Option<u32>)
    ensures
        r == horizontal_code(wkt@),
{
    let cs = chars_of(wkt);
    match first_node(&cs, "PROJCS", "PROJCRS") {
        Some(node) => direct_authority_in(&node),
        None => match first_node(&cs, "GEOGCS", "GEOGCRS") {
            Some(node) => direct_authority_in(&node),
            None => None,
        },
    }
}

/// The EPSG code of a WKT's vertical system.
pub open spec fn vertical_code(wkt: Seq<char>) -> Option<u32> {
    let node = node_of(wkt, "VERT_CS"@, "VERTCRS"@);
    if node is Some {
        direct_authority(node->0)
    } else {
        None
    }
}

/// The EPSG code of a WKT's vertical system, when it declares one.
pub fn vertical_epsg(wkt: &str) -> (r: Option<u32>)
    ensures
        r == vertical_code(wkt@),
{
    let cs = chars_of(wkt);
    match first_node(&cs, "VERT_CS", "VERTCRS") {
        Some(node) => direct_authority_in(&node),
        None => None,
    }
}

/// The quoted name that the outermost node carries.
pub open spec fn outer_name(wkt: Seq<char>) -> Option<Seq<char>> {
    let open = first_of(wkt, '[');
    let head = trimmed(wkt.take(open));
    let rest = trimmed_start(wkt.skip(open + 1));
    let name = rest.skip(1);
    let end = first_of(name, '"');
    if open < wkt.len() && head.len() > 0 && keyword_len(head) == head.len() && rest.len() > 0
        && rest[0] == '"' && end < name.len() {
        Some(name.take(end))
    } else {
        None
    }
}

/// The name the outermost node carries.
pub fn wkt_name(wkt: &str) -> (r: Option<String>)
    ensures
        text_of(r) == outer_name(wkt@),
{
    let cs = chars_of(wkt);
    let n: usize = cs.len();
    let open = find_from(&cs, '[', 0);
    assert(wkt@.skip(0) =~= wkt@);
    if open >= n {
        return None;
    }
    let head = trim_range(&cs, 0, open);
    assert(wkt@.subrange(0, open as int) =~= wkt@.take(open as int));
    let head = chars_of(string_of(&cs, head.0, head.1).as_str());
    let stop = skip_keyword(&head, 0);
    assert(head@.skip(0) =~= head@);
    if head.len() == 0 || stop != head.len() {
        return None;
    }
    let rest = skip_white(&cs, open + 1);
    if rest >= n || cs[rest] != '"' {
        return None;
    }
    assert(wkt@.skip(rest as int)[0] == '"');
    let end = find_from(&cs, '"', rest + 1);
    assert(wkt@.skip(rest as int).skip(1) =~= wkt@.skip(rest + 1));
    if end >= n {
        return None;
    }
    assert(wkt@.skip(rest + 1).take(end - rest - 1) =~= wkt@.subrange(rest + 1, end as int));
    Some(string_of(&cs, rest + 1, end))
}

/// The codes read from a system's text are never zero: zero is how a writer says
/// that there is none.
pub proof fn codes_are_positive(wkt: Seq<char>)
    ensures
        horizontal_code(wkt) != Some(0u32),
        vertical_code(wkt) != Some(0u32),
{
    let p = node_of(wkt, "PROJCS"@, "PROJCRS"@);
    let g = node_of(wkt, "GEOGCS"@, "GEOGCRS"@);
    let v = node_of(wkt, "VERT_CS"@, "VERTCRS"@);
    if p is Some {
        lemma_authority_positive(p->0, first_of(p->0, '[') + 1, 1, false, None);
    }
    if g is Some {
        lemma_authority_positive(g->0, first_of(g->0, '[') + 1, 1, false, None);
    }
    if v is Some {
        lemma_authority_positive(v->0, first_of(v->0, '[') + 1, 1, false, None);
    }
}

proof fn lemma_authority_positive(
    s: Seq<char>,
    i: int,
    depth: int,
    quoted: bool,
    code: Option<u32>,
)
    requires
        code != Some(0u32),
    ensures
        authority_from(s, i, depth, quoted, code) != Some(0u32),
    decreases s.len() - i,
{
    if i < s.len() {
        if s[i] == '"' {
            lemma_authority_positive(s, i + 1, depth, !quoted, code);
        } else if quoted {
            lemma_authority_positive(s, i + 1, depth, quoted, code);
        } else if s[i] == '[' {
            let next = if depth == 1 && authority_at(s, i) is Some {
                authority_at(s, i)
            } else {
                code
            };
            lemma_authority_positive(s, i + 1, depth + 1, quoted, next);
        } else if s[i] == ']' {
            if depth != 1 {
                lemma_authority_positive(s, i + 1, depth - 1, quoted, code);
            }
        } else {
            lemma_authority_positive(s, i + 1, depth, quoted, code);
        }
    }
}

} // verus!
