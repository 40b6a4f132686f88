//! Text, character by character.
//!
//! Every function speaks of a string as the sequence of its characters. The
//! parsers here accept exactly what the standard library's accept, leading
//! plus sign included.

use vstd::prelude::*;
use vstd::string::*;

verus! {

/// `String::push`: the character is appended to the string.
pub assume_specification[ String::push ](s: &mut String, c: char)
    ensures
        final(s)@ == old(s)@.push(c),
;

/// The characters of a string, in order.
pub fn chars_of(s: &str) -> (out: Vec<char>)
    ensures
        out@ == s@,
{
    let mut out: Vec<char> = Vec::new();
    for c in it: s.chars()
        invariant
            it.seq() == s@,
            out@ == s@.take(it.index() as int),
    {
        assert(s@.take(it.index() as int).push(c) =~= s@.take(it.index() + 1));
        out.push(c);
    }
    assert(s@.take(s@.len() as int) =~= s@);
    out
}

/// The string whose characters are `s[from..to]`.
pub fn string_of(s: &[char], from: usize, to: usize) -> (out: String)
    requires
        from <= to <= s.len(),
    ensures
        out@ == s@.subrange(from as int, to as int),
{
    let mut out = String::new();
    let mut i: usize = from;
    while i < to
        invariant
            from <= i <= to <= s.len(),
            out@ == s@.subrange(from as int, i as int),
        decreases to - i,
    {
        out.push(s[i]);
        assert(s@.subrange(from as int, i as int).push(s@[i as int]) =~= s@.subrange(
            from as int,
            i + 1,
        ));
        i = i + 1;
    }
    out
}

/// What `String::from_utf8_lossy` makes of bytes that are not UTF-8.
pub uninterp spec fn replaced_text(bytes: Seq<u8>) -> Seq<char>;

/// Text from bytes: the characters that the bytes encode, where they are
/// UTF-8.
pub open spec fn lossy_text(bytes: Seq<u8>) -> Seq<char> {
    if vstd::utf8::valid_utf8(bytes) {
        vstd::utf8::decode_utf8(bytes)
    } else {
        replaced_text(bytes)
    }
}

/// `String::from_utf8_lossy`: text from bytes, the same text from the same
/// bytes. Bytes that are UTF-8 give the characters they encode; what stands in
/// for bytes that are not is left to the standard library.
#[verifier::external_body]
pub(crate) fn lossy(bytes: &[u8]) -> (out: String)
    ensures
        out@ == if vstd::utf8::valid_utf8(bytes@) {
            vstd::utf8::decode_utf8(bytes@)
        } else {
            replaced_text(bytes@)
        },
{
    String::from_utf8_lossy(bytes).into_owned()
}

/// What the `Debug` form of a string is.
pub uninterp spec fn quoted_text(s: Seq<char>) -> Seq<char>;

/// The `Debug` form of a string: the same form for the same string. The
/// escapes it uses are left to the standard library.
#[verifier::external_body]
pub(crate) fn quoted(s: &str) -> (out: String)
    ensures
        out@ == quoted_text(s@),
{
    format!("{s:?}")
}

/// Several strings, each as its characters.
pub open spec fn texts(list: Seq<String>) -> Seq<Seq<char>> {
    list.map_values(|s: String| s@)
}

/// Adds a string to a list.
pub fn add_text(list: &mut Vec<String>, s: String)
    ensures
        texts(final(list)@) == texts(old(list)@).push(s@),
{
    list.push(s);
    assert(texts(list@) =~= texts(old(list)@).push(s@));
}

/// Whether two strings hold the same characters.
pub fn same(a: &str, b: &str) -> (r: bool)
    ensures
        r == (a@ == b@),
{
    a.to_owned() == b.to_owned()
}

/// `a` and `b`, one after the other.
pub fn cat2(a: &str, b: &str) -> (out: String)
    ensures
        out@ == a@ + b@,
{
    let mut out = a.to_owned();
    out.append(b);
    out
}

/// Three strings, one after the other.
pub fn cat3(a: &str, b: &str, c: &str) -> (out: String)
    ensures
        out@ == a@ + b@ + c@,
{
    let mut out = cat2(a, b);
    out.append(c);
    out
}

/// Four strings, one after the other.
pub fn cat4(a: &str, b: &str, c: &str, d: &str) -> (out: String)
    ensures
        out@ == a@ + b@ + c@ + d@,
{
    let mut out = cat3(a, b, c);
    out.append(d);
    out
}

/// Five strings, one after the other.
pub fn cat5(a: &str, b: &str, c: &str, d: &str, e: &str) -> (out: String)
    ensures
        out@ == a@ + b@ + c@ + d@ + e@,
{
    let mut out = cat4(a, b, c, d);
    out.append(e);
    out
}

/// Seven strings, one after the other.
pub fn cat7(a: &str, b: &str, c: &str, d: &str, e: &str, f: &str, g: &str) -> (out: String)
    ensures
        out@ == a@ + b@ + c@ + d@ + e@ + f@ + g@,
{
    let mut out = cat5(a, b, c, d, e);
    out.append(f);
    out.append(g);
    out
}

/// The decimal digit of a number below ten.
pub open spec fn digit_char(d: nat) -> char {
    (48 + d) as char
}

/// A number in decimal, with no leading zeros.
pub open spec fn decimal(n: nat) -> Seq<char>
    decreases n,
{
    if n < 10 {
        seq![digit_char(n)]
    } else {
        decimal(n / 10).push(digit_char(n % 10))
    }
}

/// `n` in decimal.
pub fn decimal_of(n: u64) -> (out: String)
    ensures
        out@ == decimal(n as nat),
    decreases n,
{
    let low: u8 = (n % 10) as u8;
    let c: char = (48 + low) as char;
    if n < 10 {
        let mut out = String::new();
        out.push(c);
        assert(out@ =~= seq![digit_char(n as nat)]);
        out
    } else {
        let mut out = decimal_of(n / 10);
        out.push(c);
        out
    }
}

/// A whole number in decimal, with a minus sign below zero.
pub open spec fn signed_decimal(n: int) -> Seq<char> {
    if n < 0 {
        "-"@ + decimal((-n) as nat)
    } else {
        decimal(n as nat)
    }
}

/// `n` in decimal.
pub fn signed_decimal_of(n: i32) -> (out: String)
    ensures
        out@ == signed_decimal(n as int),
{
    if n < 0 {
        let m: u64 = (-(n as i64)) as u64;
        let d = decimal_of(m);
        cat2("-", d.as_str())
    } else {
        decimal_of(n as u64)
    }
}

/// Whether a character is an ASCII digit.
pub open spec fn is_digit(c: char) -> bool {
    '0' <= c && c <= '9'
}

/// The number that a run of decimal digits writes.
pub open spec fn digits_value(s: Seq<char>) -> nat
    decreases s.len(),
{
    if s.len() == 0 {
        0
    } else {
        digits_value(s.drop_last()) * 10 + ((s.last() as int - 48) as nat)
    }
}

/// The digits after an optional plus sign.
pub open spec fn without_plus(s: Seq<char>) -> Seq<char> {
    if s.len() > 0 && s[0] == '+' {
        s.skip(1)
    } else {
        s
    }
}

/// Whether a string is a run of digits with nothing else in it.
pub open spec fn all_digits(s: Seq<char>) -> bool {
    forall|i: int| 0 <= i < s.len() ==> is_digit(#[trigger] s[i])
}

/// What a string reads as, as an unsigned number no larger than `max`.
pub open spec fn unsigned(s: Seq<char>, max: nat) -> Option<nat> {
    let d = without_plus(s);
    if d.len() > 0 && all_digits(d) && digits_value(d) <= max {
        Some(digits_value(d))
    } else {
        None
    }
}

proof fn lemma_digits_value_grows(s: Seq<char>, n: int)
    requires
        0 <= n <= s.len(),
        all_digits(s),
    ensures
        digits_value(s.take(n)) <= digits_value(s),
    decreases s.len() - n,
{
    if n < s.len() {
        lemma_digits_value_grows(s, n + 1);
        assert(s.take(n + 1).drop_last() =~= s.take(n));
        assert(is_digit(s[n]));
    } else {
        assert(s.take(n) =~= s);
    }
}

/// The digits of a number read back as the number.
pub proof fn decimal_reads_back(n: nat)
    ensures
        all_digits(decimal(n)),
        digits_value(decimal(n)) == n,
        decimal(n).len() > 0,
        decimal(n)[0] != '+',
    decreases n,
{
    if n < 10 {
        assert(decimal(n).drop_last() =~= Seq::<char>::empty());
        assert(digits_value(Seq::<char>::empty()) == 0);
    } else {
        decimal_reads_back(n / 10);
        assert(decimal(n).drop_last() =~= decimal(n / 10));
        assert(decimal(n)[0] == decimal(n / 10)[0]);
        assert forall|i: int| 0 <= i < decimal(n).len() implies is_digit(
            #[trigger] decimal(n)[i],
        ) by {
            if i < decimal(n / 10).len() {
                assert(decimal(n)[i] == decimal(n / 10)[i]);
            }
        }
    }
}

/// Every number written in decimal parses to itself, whatever the limit.
pub proof fn decimal_parses(n: nat, max: nat)
    requires
        n <= max,
    ensures
        unsigned(decimal(n), max) == Some(n),
{
    decimal_reads_back(n);
}

/// `str::parse::<u64>`, limited further to `max`.
pub fn parse_unsigned(s: &str, max: u64) -> (r: Option<u64>)
    ensures
        match r {
            Some(v) => unsigned(s@, max as nat) == Some(v as nat),
            None => unsigned(s@, max as nat) is None,
        },
{
    let cs = chars_of(s);
    assert(cs@.subrange(0, cs@.len() as int) =~= s@);
    parse_chars(&cs, 0, cs.len(), max)
}

/// The unsigned number written at `s[from..to]`.
pub fn parse_chars(s: &Vec<char>, from: usize, to: usize, max: u64) -> (r: Option<u64>)
    requires
        from <= to <= s.len(),
    ensures
        match r {
            Some(v) => unsigned(s@.subrange(from as int, to as int), max as nat) == Some(v as nat),
            None => unsigned(s@.subrange(from as int, to as int), max as nat) is None,
        },
{
    let ghost all = s@.subrange(from as int, to as int);
    let ghost d = without_plus(all);
    let start: usize = if from < to && s[from] == '+' {
        from + 1
    } else {
        from
    };
    assert(d =~= s@.subrange(start as int, to as int));
    if start == to {
        return None;
    }
    let mut value: u64 = 0;
    let mut i: usize = start;
    while i < to
        invariant
            from <= start <= i <= to <= s.len(),
            d == s@.subrange(start as int, to as int),
            d == without_plus(s@.subrange(from as int, to as int)),
            all_digits(d.take(i - start)),
            value == digits_value(d.take(i - start)),
            value <= max,
        decreases to - i,
    {
        let c = s[i];
        proof {
            assert(d[i - start] == c);
            assert(d.take(i - start + 1).drop_last() =~= d.take(i - start));
            assert(d.take(i - start + 1).last() == c);
        }
        if c < '0' || '9' < c {
            assert(!is_digit(d[i - start]));
            return None;
        }
        assert forall|k: int| 0 <= k < i - start + 1 implies is_digit(
            #[trigger] d.take(i - start + 1)[k],
        ) by {
            if k < i - start {
                assert(d.take(i - start)[k] == d[k]);
            }
        }
        let low: u64 = c as u64 - 48;
        assert(digits_value(d.take(i - start + 1)) == value * 10 + low);
        if low > max || value > max / 10 || value * 10 > max - low {
            proof {
                if all_digits(d) {
                    lemma_digits_value_grows(d, i - start + 1);
                }
            }
            return None;
        }
        value = value * 10 + low;
        i = i + 1;
    }
    assert(d.take(to - start) =~= d);
    Some(value)
}

/// Whether one string begins with another.
pub open spec fn begins(s: Seq<char>, p: Seq<char>) -> bool {
    p.len() <= s.len() && s.take(p.len() as int) == p
}

/// Whether one string ends with another.
pub open spec fn ends(s: Seq<char>, p: Seq<char>) -> bool {
    p.len() <= s.len() && s.skip(s.len() - p.len()) == p
}

/// Whether `p` stands at place `at` of `s`.
pub open spec fn occurs_at(s: Seq<char>, p: Seq<char>, at: int) -> bool {
    0 <= at && at + p.len() <= s.len() && s.subrange(at, at + p.len()) == p
}

/// Whether `p` stands anywhere in `s`.
pub open spec fn occurs(s: Seq<char>, p: Seq<char>) -> bool {
    exists|at: int| occurs_at(s, p, at)
}

/// Whether `p` stands at place `at` of `s`.
pub fn stands_at(s: &Vec<char>, p: &Vec<char>, at: usize) -> (r: bool)
    ensures
        r == occurs_at(s@, p@, at as int),
{
    if p.len() > s.len() || at > s.len() - p.len() {
        return false;
    }
    let mut i: usize = 0;
    while i < p.len()
        invariant
            i <= p.len(),
            at + p.len() <= s.len(),
            forall|j: int| 0 <= j < i ==> s@[at + j] == p@[j],
        decreases p.len() - i,
    {
        if s[at + i] != p[i] {
            assert(s@.subrange(at as int, at + p@.len())[i as int] != p@[i as int]);
            return false;
        }
        i = i + 1;
    }
    assert(s@.subrange(at as int, at + p@.len()) =~= p@);
    true
}

/// `str::starts_with`, for a string pattern.
pub fn starts_with(s: &str, p: &str) -> (r: bool)
    ensures
        r == begins(s@, p@),
{
    let a = chars_of(s);
    let b = chars_of(p);
    let r = stands_at(&a, &b, 0);
    proof {
        if p@.len() <= s@.len() {
            assert(s@.subrange(0, p@.len() as int) =~= s@.take(p@.len() as int));
        }
    }
    r
}

/// `str::ends_with`, for a string pattern.
pub fn ends_with(s: &str, p: &str) -> (r: bool)
    ensures
        r == ends(s@, p@),
{
    let a = chars_of(s);
    let b = chars_of(p);
    if b.len() > a.len() {
        return false;
    }
    let at: usize = a.len() - b.len();
    let r = stands_at(&a, &b, at);
    proof {
        assert(s@.subrange(at as int, at + p@.len()) =~= s@.skip(at as int));
    }
    r
}

/// `str::contains`, for a string pattern.
pub fn contains(s: &str, p: &str) -> (r: bool)
    ensures
        r == occurs(s@, p@),
{
    let a = chars_of(s);
    let b = chars_of(p);
    if b.len() > a.len() {
        return false;
    }
    let last: usize = a.len() - b.len();
    let mut at: usize = 0;
    while at <= last
        invariant
            at <= last + 1,
            last == a.len() - b.len(),
            a@ == s@,
            b@ == p@,
            forall|j: int| 0 <= j < at ==> !occurs_at(s@, p@, j),
        decreases last + 1 - at,
    {
        if stands_at(&a, &b, at) {
            return true;
        }
        if at == last {
            assert forall|j: int| !occurs_at(s@, p@, j) by {
                if 0 <= j && j + p@.len() <= s@.len() {
                    assert(j <= last);
                }
            }
            return false;
        }
        at = at + 1;
    }
    false
}

/// The place of the first `c` in `s`, or its length.
pub open spec fn first_of(s: Seq<char>, c: char) -> int
    decreases s.len(),
{
    if s.len() == 0 || s[0] == c {
        0
    } else {
        1 + first_of(s.skip(1), c)
    }
}

/// The place of the last `c` in `s`, or -1.
pub open spec fn last_of(s: Seq<char>, c: char) -> int
    decreases s.len(),
{
    if s.len() == 0 {
        -1
    } else if s.last() == c {
        s.len() - 1
    } else {
        last_of(s.drop_last(), c)
    }
}

/// Where `first_of` points.
pub proof fn first_of_is_first(s: Seq<char>, c: char)
    ensures
        0 <= first_of(s, c) <= s.len(),
        forall|i: int| 0 <= i < first_of(s, c) ==> s[i] != c,
        first_of(s, c) < s.len() ==> s[first_of(s, c)] == c,
    decreases s.len(),
{
    if s.len() > 0 && s[0] != c {
        first_of_is_first(s.skip(1), c);
        assert forall|i: int| 0 <= i < first_of(s, c) implies s[i] != c by {
            if i > 0 {
                assert(s[i] == s.skip(1)[i - 1]);
            }
        }
    }
}

/// Where `last_of` points.
pub proof fn last_of_is_last(s: Seq<char>, c: char)
    ensures
        -1 <= last_of(s, c) < s.len(),
        forall|i: int| last_of(s, c) < i < s.len() ==> s[i] != c,
        last_of(s, c) >= 0 ==> s[last_of(s, c)] == c,
    decreases s.len(),
{
    if s.len() > 0 && s.last() != c {
        last_of_is_last(s.drop_last(), c);
        assert forall|i: int| last_of(s, c) < i < s.len() implies s[i] != c by {
            if i < s.len() - 1 {
                assert(s[i] == s.drop_last()[i]);
            }
        }
    }
}

/// The first place of a character, found from the facts that pin it.
pub proof fn first_of_unique(s: Seq<char>, c: char, at: int)
    requires
        0 <= at <= s.len(),
        forall|i: int| 0 <= i < at ==> s[i] != c,
        at < s.len() ==> s[at] == c,
    ensures
        first_of(s, c) == at,
{
    first_of_is_first(s, c);
}

/// The first `c` at or after `from`, or the length of `s`.
pub fn find_from(s: &Vec<char>, c: char, from: usize) -> (at: usize)
    requires
        from <= s.len(),
    ensures
        at == from + first_of(s@.skip(from as int), c),
        from <= at <= s.len(),
{
    let mut i: usize = from;
    while i < s.len() && s[i] != c
        invariant
            from <= i <= s.len(),
            forall|j: int| from <= j < i ==> s@[j] != c,
        decreases s.len() - i,
    {
        i = i + 1;
    }
    proof {
        first_of_unique(s@.skip(from as int), c, i - from);
    }
    i
}

/// The last `c` in `s`.
pub fn rfind(s: &Vec<char>, c: char) -> (at: Option<usize>)
    ensures
        match at {
            Some(i) => last_of(s@, c) == i && i < s.len(),
            None => last_of(s@, c) == -1,
        },
{
    let mut i: usize = s.len();
    while i > 0 && s[i - 1] != c
        invariant
            i <= s.len(),
            forall|j: int| i <= j < s.len() ==> s@[j] != c,
        decreases i,
    {
        i = i - 1;
    }
    proof {
        last_of_is_last(s@, c);
    }
    if i == 0 {
        None
    } else {
        Some(i - 1)
    }
}

/// An ASCII letter in lower case, any other character as it is.
pub open spec fn lower(c: char) -> char {
    if 'A' <= c && c <= 'Z' {
        (c as int + 32) as char
    } else {
        c
    }
}

/// A string with its ASCII letters in lower case.
pub open spec fn lowered(s: Seq<char>) -> Seq<char> {
    s.map_values(|c: char| lower(c))
}

/// `char::to_ascii_lowercase`.
pub fn lower_char(c: char) -> (r: char)
    ensures
        r == lower(c),
{
    if 'A' <= c && c <= 'Z' {
        let b: u8 = c as u8;
        (b + 32) as char
    } else {
        c
    }
}

/// `str::to_ascii_lowercase`.
pub fn to_lower(s: &str) -> (out: String)
    ensures
        out@ == lowered(s@),
{
    let cs = chars_of(s);
    let mut out = String::new();
    let mut i: usize = 0;
    while i < cs.len()
        invariant
            i <= cs.len(),
            cs@ == s@,
            out@ == lowered(s@.take(i as int)),
        decreases cs.len() - i,
    {
        out.push(lower_char(cs[i]));
        assert(lowered(s@.take(i + 1)) =~= lowered(s@.take(i as int)).push(lower(s@[i as int])));
        i = i + 1;
    }
    assert(s@.take(i as int) =~= s@);
    out
}

/// `str::eq_ignore_ascii_case`.
pub fn same_ignoring_case(a: &str, b: &str) -> (r: bool)
    ensures
        r == (lowered(a@) == lowered(b@)),
{
    to_lower(a) == to_lower(b)
}

/// An ASCII letter in upper case, any other character as it is.
pub open spec fn upper(c: char) -> char {
    if 'a' <= c && c <= 'z' {
        (c as int - 32) as char
    } else {
        c
    }
}

/// A string with its ASCII letters in upper case.
pub open spec fn uppered(s: Seq<char>) -> Seq<char> {
    s.map_values(|c: char| upper(c))
}

/// `str::to_ascii_uppercase`, of `s[from..to]`.
pub fn upper_range(s: &Vec<char>, from: usize, to: usize) -> (out: String)
    requires
        from <= to <= s.len(),
    ensures
        out@ == uppered(s@.subrange(from as int, to as int)),
{
    let mut out = String::new();
    let mut i: usize = from;
    assert(out@ =~= uppered(s@.subrange(from as int, from as int)));
    while i < to
        invariant
            from <= i <= to <= s.len(),
            out@ == uppered(s@.subrange(from as int, i as int)),
        decreases to - i,
    {
        let c = s[i];
        let u = if 'a' <= c && c <= 'z' {
            let b: u8 = c as u8;
            (b - 32) as char
        } else {
            c
        };
        out.push(u);
        assert(out@ =~= uppered(s@.subrange(from as int, i + 1)));
        i = i + 1;
    }
    out
}

/// The first place from `at` on where `p` stands in `s`, or -1.
pub open spec fn seek(s: Seq<char>, p: Seq<char>, at: int) -> int
    decreases s.len() - at,
{
    if at + p.len() > s.len() {
        -1
    } else if occurs_at(s, p, at) {
        at
    } else if at < s.len() {
        seek(s, p, at + 1)
    } else {
        -1
    }
}

/// `str::find`, for a string pattern.
pub fn find(s: &Vec<char>, p: &Vec<char>) -> (r: Option<usize>)
    ensures
        match r {
            Some(at) => seek(s@, p@, 0) == at && occurs_at(s@, p@, at as int),
            None => seek(s@, p@, 0) == -1,
        },
{
    if p.len() > s.len() {
        return None;
    }
    let last: usize = s.len() - p.len();
    let mut at: usize = 0;
    loop
        invariant
            at <= last,
            last == s.len() - p.len(),
            seek(s@, p@, 0) == seek(s@, p@, at as int),
        decreases last - at,
    {
        if stands_at(s, p, at) {
            return Some(at);
        }
        if at == last {
            assert(last < s@.len() ==> seek(s@, p@, last + 1) == -1);
            return None;
        }
        at = at + 1;
    }
}

/// A string with `w` in place of each `p`, from the left.
pub open spec fn replaced(s: Seq<char>, p: Seq<char>, w: Seq<char>) -> Seq<char>
    decreases s.len(),
{
    let at = seek(s, p, 0);
    if at < 0 || at + p.len() > s.len() || p.len() == 0 {
        s
    } else {
        s.take(at) + w + replaced(s.skip((at + p.len()) as int), p, w)
    }
}

/// `str::replace`, for a pattern that is not empty.
pub fn replace(s: &str, p: &str, w: &str) -> (out: String)
    requires
        p@.len() > 0,
    ensures
        out@ == replaced(s@, p@, w@),
{
    let mut rest = chars_of(s);
    let pattern = chars_of(p);
    let mut out = String::new();
    assert(out@ + replaced(rest@, p@, w@) =~= replaced(s@, p@, w@));
    loop
        invariant
            pattern@ == p@,
            p@.len() > 0,
            out@ + replaced(rest@, p@, w@) == replaced(s@, p@, w@),
        decreases rest.len(),
    {
        match find(&rest, &pattern) {
            None => {
                let tail = string_of(rest.as_slice(), 0, rest.len());
                assert(rest@.subrange(0, rest@.len() as int) =~= rest@);
                out.append(tail.as_str());
                return out;
            },
            Some(at) => {
                let front = string_of(rest.as_slice(), 0, at);
                let ghost before = out@;
                out.append(front.as_str());
                out.append(w);
                let mut next: Vec<char> = Vec::new();
                let mut i: usize = at + pattern.len();
                let ghost from = i as int;
                assert(next@ =~= rest@.subrange(from, from));
                while i < rest.len()
                    invariant
                        from <= i <= rest.len(),
                        0 <= from,
                        next@ == rest@.subrange(from, i as int),
                    decreases rest.len() - i,
                {
                    next.push(rest[i]);
                    assert(next@ =~= rest@.subrange(from, i + 1));
                    i = i + 1;
                }
                proof {
                    assert(rest@.subrange(0, at as int) =~= rest@.take(at as int));
                    assert(next@ =~= rest@.skip(from));
                    assert(before + (rest@.take(at as int) + w@ + replaced(next@, p@, w@)) =~= (
                    before + rest@.take(at as int) + w@) + replaced(next@, p@, w@));
                }
                rest = next;
            },
        }
    }
}

/// Where the text of `s` continues after white space at `from`.
pub fn skip_white(s: &Vec<char>, from: usize) -> (at: usize)
    requires
        from <= s.len(),
    ensures
        from <= at <= s.len(),
        s@.skip(at as int) == trimmed_start(s@.skip(from as int)),
{
    let mut at: usize = from;
    while at < s.len() && is_white(s[at])
        invariant
            from <= at <= s.len(),
            trimmed_start(s@.skip(from as int)) == trimmed_start(s@.skip(at as int)),
        decreases s.len() - at,
    {
        assert(s@.skip(at as int).skip(1) =~= s@.skip(at + 1));
        at = at + 1;
    }
    at
}

/// The characters that Unicode calls white space.
pub open spec fn is_space(c: char) -> bool {
    let n = c as int;
    ||| 9 <= n <= 13
    ||| n == 0x20
    ||| n == 0x85
    ||| n == 0xa0
    ||| n == 0x1680
    ||| 0x2000 <= n <= 0x200a
    ||| n == 0x2028
    ||| n == 0x2029
    ||| n == 0x202f
    ||| n == 0x205f
    ||| n == 0x3000
}

/// `char::is_whitespace`.
pub fn is_white(c: char) -> (r: bool)
    ensures
        r == is_space(c),
{
    let n: u32 = c as u32;
    (9 <= n && n <= 13) || n == 0x20 || n == 0x85 || n == 0xa0 || n == 0x1680 || (0x2000 <= n && n
        <= 0x200a) || n == 0x2028 || n == 0x2029 || n == 0x202f || n == 0x205f || n == 0x3000
}

/// A string without the white space at its end.
pub open spec fn trimmed_end(s: Seq<char>) -> Seq<char>
    decreases s.len(),
{
    if s.len() > 0 && is_space(s.last()) {
        trimmed_end(s.drop_last())
    } else {
        s
    }
}

/// A string without the white space at its start.
pub open spec fn trimmed_start(s: Seq<char>) -> Seq<char>
    decreases s.len(),
{
    if s.len() > 0 && is_space(s[0]) {
        trimmed_start(s.skip(1))
    } else {
        s
    }
}

/// A string without the white space at either end.
pub open spec fn trimmed(s: Seq<char>) -> Seq<char> {
    trimmed_end(trimmed_start(s))
}

/// Where the text of `s[from..to]` starts and stops once trimmed.
pub fn trim_range(s: &Vec<char>, from: usize, to: usize) -> (r: (usize, usize))
    requires
        from <= to <= s.len(),
    ensures
        from <= r.0 <= r.1 <= to,
        s@.subrange(r.0 as int, r.1 as int) == trimmed(s@.subrange(from as int, to as int)),
{
    let mut a: usize = from;
    while a < to && is_white(s[a])
        invariant
            from <= a <= to <= s.len(),
            trimmed_start(s@.subrange(from as int, to as int)) == trimmed_start(
                s@.subrange(a as int, to as int),
            ),
        decreases to - a,
    {
        assert(s@.subrange(a as int, to as int).skip(1) =~= s@.subrange(a + 1, to as int));
        a = a + 1;
    }
    let ghost left = s@.subrange(a as int, to as int);
    assert(trimmed_start(s@.subrange(from as int, to as int)) == left);
    let mut b: usize = to;
    while a < b && is_white(s[b - 1])
        invariant
            a <= b <= to <= s.len(),
            trimmed_end(left) == trimmed_end(s@.subrange(a as int, b as int)),
        decreases b - a,
    {
        assert(s@.subrange(a as int, b as int).drop_last() =~= s@.subrange(a as int, b - 1));
        b = b - 1;
    }
    (a, b)
}

/// A string without the `a` and `b` at its end.
pub open spec fn without_tail(s: Seq<char>, a: char, b: char) -> Seq<char>
    decreases s.len(),
{
    if s.len() > 0 && (s.last() == a || s.last() == b) {
        without_tail(s.drop_last(), a, b)
    } else {
        s
    }
}

/// `str::trim_end_matches`, for two characters.
pub fn trim_tail(s: &str, a: char, b: char) -> (out: String)
    ensures
        out@ == without_tail(s@, a, b),
{
    let cs = chars_of(s);
    let mut n: usize = cs.len();
    assert(s@.take(n as int) =~= s@);
    while 0 < n && (cs[n - 1] == a || cs[n - 1] == b)
        invariant
            n <= cs.len(),
            cs@ == s@,
            without_tail(s@, a, b) == without_tail(s@.take(n as int), a, b),
        decreases n,
    {
        assert(s@.take(n as int).drop_last() =~= s@.take(n - 1));
        n = n - 1;
    }
    assert(s@.subrange(0, n as int) =~= s@.take(n as int));
    string_of(&cs, 0, n)
}

/// `str::trim_end`.
pub fn trim_end(s: &str) -> (out: String)
    ensures
        out@ == trimmed_end(s@),
{
    let cs = chars_of(s);
    let mut b: usize = cs.len();
    assert(s@.take(b as int) =~= s@);
    while 0 < b && is_white(cs[b - 1])
        invariant
            b <= cs.len(),
            cs@ == s@,
            trimmed_end(s@) == trimmed_end(s@.take(b as int)),
        decreases b,
    {
        assert(s@.take(b as int).drop_last() =~= s@.take(b - 1));
        b = b - 1;
    }
    assert(s@.subrange(0, b as int) =~= s@.take(b as int));
    string_of(&cs, 0, b)
}

/// `str::trim`.
pub fn trim(s: &str) -> (out: String)
    ensures
        out@ == trimmed(s@),
{
    let cs = chars_of(s);
    let n: usize = cs.len();
    let r = trim_range(&cs, 0, n);
    assert(s@.subrange(0, n as int) =~= s@);
    string_of(&cs, r.0, r.1)
}

} // verus!
