//! What text is made of and how it is taken apart.

use crate::text::{
    begins, decimal, ends, is_digit, is_space, lowered, occurs, replaced, signed_decimal, trimmed,
    trimmed_end, trimmed_start, unsigned, uppered, without_tail,
};
use vstd::prelude::*;

verus! {

/// Lower case changes the letters from A to Z and nothing else, and upper case
/// those from a to z.
pub proof fn case_is_that_of_ascii_letters(s: Seq<char>, i: int)
    requires
        0 <= i < s.len(),
    ensures
        lowered(s).len() == s.len(),
        uppered(s).len() == s.len(),
        'A' <= s[i] && s[i] <= 'Z' ==> lowered(s)[i] as int == s[i] as int + 32,
        !('A' <= s[i] && s[i] <= 'Z') ==> lowered(s)[i] == s[i],
        'a' <= s[i] && s[i] <= 'z' ==> uppered(s)[i] as int == s[i] as int - 32,
        !('a' <= s[i] && s[i] <= 'z') ==> uppered(s)[i] == s[i],
{
}

/// A text without letters in upper case is its own lower case.
pub proof fn lower_case_stays(s: Seq<char>)
    requires
        forall|i: int| 0 <= i < s.len() ==> !('A' <= #[trigger] s[i] && s[i] <= 'Z'),
    ensures
        lowered(s) == s,
{
    assert(lowered(s) =~= s);
}

/// A text begins or ends with what is put before or behind it, and what is put
/// between two texts stands in all three.
pub proof fn parts_are_found(a: Seq<char>, p: Seq<char>, b: Seq<char>)
    ensures
        begins(p + b, p),
        ends(a + p, p),
        occurs(a + p + b, p),
        begins(a, p) ==> exists|rest: Seq<char>| a == p + rest,
        ends(a, p) ==> exists|front: Seq<char>| a == front + p,
{
    assert((p + b).take(p.len() as int) =~= p);
    assert((a + p).skip(a.len() as int) =~= p);
    assert((a + p + b).subrange(a.len() as int, (a.len() + p.len()) as int) =~= p);
    assert(crate::text::occurs_at(a + p + b, p, a.len() as int));
    if begins(a, p) {
        assert(a =~= p + a.skip(p.len() as int));
    }
    if ends(a, p) {
        assert(a =~= a.take(a.len() - p.len()) + p);
    }
}

/// Trimming takes white space off both ends and nothing else.
pub proof fn trimming_takes_white_space_off(s: Seq<char>)
    ensures
        exists|a: int, b: int| #[trigger] is_trim(s, a, b) && trimmed(s) == s.subrange(a, b),
    decreases s.len(),
{
    let t = trimmed_start(s);
    let a = lemma_start(s);
    let n = lemma_end(t);
    assert(t == s.skip(a));
    assert(trimmed(s) =~= s.subrange(a, a + n));
    assert forall|i: int| a + n <= i < s.len() implies is_space(#[trigger] s[i]) by {
        assert(t[i - a] == s[i]);
    }
    if n > 0 {
        assert(t[n - 1] == s[a + n - 1]);
        assert(t[0] == s[a]);
    }
    assert(is_trim(s, a, a + n));
}

/// Whether what lies outside of two places is white space, and what lies at them
/// is not.
pub open spec fn is_trim(s: Seq<char>, a: int, b: int) -> bool {
    &&& 0 <= a <= b <= s.len()
    &&& forall|i: int| 0 <= i < a ==> is_space(#[trigger] s[i])
    &&& forall|i: int| b <= i < s.len() ==> is_space(#[trigger] s[i])
    &&& a < b ==> !is_space(s[a]) && !is_space(s[b - 1])
}

proof fn lemma_start(s: Seq<char>) -> (a: int)
    ensures
        0 <= a <= s.len(),
        trimmed_start(s) == s.skip(a),
        forall|i: int| 0 <= i < a ==> is_space(#[trigger] s[i]),
        a < s.len() ==> !is_space(s[a]),
    decreases s.len(),
{
    if s.len() > 0 && is_space(s[0]) {
        let r = s.skip(1);
        let a = lemma_start(r);
        assert(r.skip(a) =~= s.skip(a + 1));
        assert forall|i: int| 0 <= i < a + 1 implies is_space(#[trigger] s[i]) by {
            if i > 0 {
                assert(r[i - 1] == s[i]);
            }
        }
        if a < r.len() {
            assert(r[a] == s[a + 1]);
        }
        a + 1
    } else {
        assert(s.skip(0) =~= s);
        0
    }
}

proof fn lemma_end(s: Seq<char>) -> (n: int)
    ensures
        0 <= n <= s.len(),
        trimmed_end(s) == s.take(n),
        forall|i: int| n <= i < s.len() ==> is_space(#[trigger] s[i]),
        n > 0 ==> !is_space(s[n - 1]),
    decreases s.len(),
{
    if s.len() > 0 && is_space(s.last()) {
        let r = s.drop_last();
        let n = lemma_end(r);
        assert(r.take(n) =~= s.take(n));
        assert forall|i: int| n <= i < s.len() implies is_space(#[trigger] s[i]) by {
            if i < r.len() {
                assert(r[i] == s[i]);
            }
        }
        n
    } else {
        assert(s.take(s.len() as int) =~= s);
        s.len() as int
    }
}

/// A text whose ends are not white space is left as it is.
pub proof fn tight_text_stays(s: Seq<char>)
    requires
        s.len() > 0 ==> !is_space(s[0]) && !is_space(s[s.len() - 1]),
    ensures
        trimmed(s) == s,
        trimmed_end(s) == s,
{
    assert(trimmed_start(s) == s);
}

/// White space is the blank, the tab, the line ends, and what Unicode adds to
/// those; no letter, digit or sign is.
pub proof fn white_space_is_what_unicode_says(c: char)
    ensures
        c == ' ' || c == '\t' || c == '\n' || c == '\r' ==> is_space(c),
        0x21 <= c as int <= 0x7e ==> !is_space(c),
        is_digit(c) <==> 0x30 <= c as int <= 0x39,
{
}

/// A number is written with its last digit last, and a number below zero behind
/// a sign.
pub proof fn decimals_are_written_from_the_left(n: nat)
    ensures
        n < 10 ==> decimal(n) == seq![(48 + n) as char],
        n >= 10 ==> decimal(n) == decimal(n / 10) + decimal(n % 10),
        signed_decimal(n as int) == decimal(n),
        n > 0 ==> signed_decimal(-(n as int)) == "-"@ + decimal(n),
{
    if n >= 10 {
        assert(decimal(n) =~= decimal(n / 10) + decimal(n % 10));
    }
}

/// What reads as a number is digits, with or without a plus before them, and no
/// greater than it may be.
pub proof fn numbers_are_digits(s: Seq<char>, max: nat)
    ensures
        unsigned(s, max) matches Some(n) ==> n <= max && s.len() > 0 && forall|i: int|
            0 <= i < s.len() ==> is_digit(#[trigger] s[i]) || (i == 0 && s[i] == '+'),
        s.len() == 0 ==> unsigned(s, max) is None,
{
    if unsigned(s, max) is Some && s[0] == '+' {
        let d = s.skip(1);
        assert forall|i: int| 0 < i < s.len() implies is_digit(#[trigger] s[i]) by {
            assert(d[i - 1] == s[i]);
        }
    }
}

/// Where a text does not occur nothing is replaced.
pub proof fn nothing_is_replaced_where_nothing_occurs(s: Seq<char>, p: Seq<char>, w: Seq<char>)
    requires
        p.len() > 0,
        !occurs(s, p),
    ensures
        replaced(s, p, w) == s,
{
    lemma_seek(s, p, 0);
}

proof fn lemma_seek(s: Seq<char>, p: Seq<char>, at: int)
    requires
        p.len() > 0,
        0 <= at,
        !occurs(s, p),
    ensures
        crate::text::seek(s, p, at) == -1,
    decreases s.len() - at,
{
    if at + p.len() <= s.len() {
        assert(!crate::text::occurs_at(s, p, at));
        lemma_seek(s, p, at + 1);
    }
}

/// What stands first is replaced, and the rest is looked through.
pub proof fn what_occurs_is_replaced(a: Seq<char>, p: Seq<char>, b: Seq<char>, w: Seq<char>)
    requires
        p.len() > 0,
        forall|at: int| 0 <= at < a.len() ==> !#[trigger] crate::text::occurs_at(a + p + b, p, at),
    ensures
        replaced(a + p + b, p, w) == a + w + replaced(b, p, w),
{
    let s = a + p + b;
    let n = a.len() as int;
    assert(s.subrange(n, n + p.len()) =~= p);
    assert(crate::text::occurs_at(s, p, n));
    lemma_seek_to(s, p, 0, n);
    assert(s.take(n) =~= a);
    assert(s.skip(n + p.len()) =~= b);
}

proof fn lemma_seek_to(s: Seq<char>, p: Seq<char>, at: int, n: int)
    requires
        0 <= at <= n,
        crate::text::occurs_at(s, p, n),
        forall|i: int| at <= i < n ==> !#[trigger] crate::text::occurs_at(s, p, i),
    ensures
        crate::text::seek(s, p, at) == n,
    decreases n - at,
{
    if at < n {
        assert(!crate::text::occurs_at(s, p, at));
        lemma_seek_to(s, p, at + 1, n);
    }
}

/// A tail is taken off as long as it is made of two characters.
pub proof fn tails_are_taken_off(s: Seq<char>, a: char, b: char)
    ensures
        without_tail(s, a, b).is_prefix_of(s),
        without_tail(s, a, b).len() > 0 ==> without_tail(s, a, b).last() != a && without_tail(
            s,
            a,
            b,
        ).last() != b,
        forall|i: int|
            without_tail(s, a, b).len() <= i < s.len() ==> #[trigger] s[i] == a || s[i] == b,
    decreases s.len(),
{
    if s.len() > 0 && (s.last() == a || s.last() == b) {
        let r = s.drop_last();
        tails_are_taken_off(r, a, b);
        let t = without_tail(r, a, b);
        assert(t =~= s.take(t.len() as int));
        assert forall|i: int| t.len() <= i < s.len() implies #[trigger] s[i] == a || s[i] == b by {
            if i < r.len() {
                assert(r[i] == s[i]);
            }
        }
    } else {
        assert(s =~= s.take(s.len() as int));
    }
}

} // verus!
