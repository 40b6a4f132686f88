//! What an HTTP exchange is taken to mean, and where a target leads.

use crate::cli::http::{
    fetchable, header_named, joined, path_part, probed, range_fault, range_total, span_text,
    stated_size, target_parts,
};
use crate::text::{decimal, decimal_parses, decimal_reads_back, last_of, last_of_is_last, lowered};
use super::text::tight_text_stays;
use vstd::prelude::*;

verus! {

/// Only the two schemes of the web are fetched.
pub proof fn only_web_targets_are_fetched(rest: Seq<char>, target: Seq<char>)
    ensures
        fetchable("http://"@ + rest),
        fetchable("https://"@ + rest),
        target.len() < 7 ==> !fetchable(target),
        target.len() >= 7 && target[0] != 'h' ==> !fetchable(target),
        fetchable(target) ==> target[4] == ':' || target[5] == ':',
{
    reveal_strlit("http://");
    reveal_strlit("https://");
    let a = "http://"@;
    let b = "https://"@;
    assert(a.len() == 7 && b.len() == 8 && a[0] == 'h' && b[0] == 'h' && a[4] == ':' && b[5] == ':');
    assert((a + rest).take(7) =~= a);
    assert((b + rest).take(8) =~= b);
    if crate::text::begins(target, a) {
        assert(target.take(7)[0] == target[0] && target.take(7)[4] == target[4]);
    }
    if crate::text::begins(target, b) {
        assert(target.take(8)[0] == target[0] && target.take(8)[5] == target[5]);
    }
}

/// The query and the fragment of an address are no part of its path, and the path
/// is everything before them.
pub proof fn a_path_stops_at_its_query(s: Seq<char>)
    ensures
        path_part(s).is_prefix_of(s),
        forall|i: int|
            0 <= i < path_part(s).len() ==> #[trigger] path_part(s)[i] != '?' && path_part(s)[i]
                != '#',
        path_part(s).len() < s.len() ==> s[path_part(s).len() as int] == '?' || s[path_part(
            s,
        ).len() as int] == '#',
    decreases s.len(),
{
    lemma_path(s);
    let n = crate::cli::http::path_len(s);
    assert(path_part(s) =~= s.take(n));
}

proof fn lemma_path(s: Seq<char>)
    ensures
        0 <= crate::cli::http::path_len(s) <= s.len(),
        forall|i: int|
            0 <= i < crate::cli::http::path_len(s) ==> #[trigger] s[i] != '?' && s[i] != '#',
        crate::cli::http::path_len(s) < s.len() ==> s[crate::cli::http::path_len(s)] == '?'
            || s[crate::cli::http::path_len(s)] == '#',
    decreases s.len(),
{
    if s.len() > 0 && s[0] != '?' && s[0] != '#' {
        let r = s.skip(1);
        lemma_path(r);
        let n = crate::cli::http::path_len(r);
        assert forall|i: int| 0 <= i < n + 1 implies #[trigger] s[i] != '?' && s[i] != '#' by {
            if i > 0 {
                assert(r[i - 1] == s[i]);
            }
        }
        if n < r.len() {
            assert(r[n] == s[n + 1]);
        }
    }
}

/// A relative path follows the path of its base, with one separator between them
/// where the base does not end in one.
pub proof fn a_relative_path_follows_its_base(base: Seq<char>, relative: Seq<char>)
    requires
        relative.len() > 0,
    ensures
        path_part(base).len() > 0 && path_part(base).last() == '/' ==> joined(base, relative)
            == path_part(base) + relative,
        !(path_part(base).len() > 0 && path_part(base).last() == '/') ==> joined(base, relative)
            == path_part(base) + "/"@ + relative,
        joined(base, Seq::empty()) == path_part(base),
{
}

/// What a viewer asks of a cloud lies in the directory of the cloud's manifest;
/// without a path of its own it is the target itself.
pub proof fn a_probe_lies_beside_the_manifest(target: Seq<char>, path: Seq<char>)
    ensures
        probed(target, None) == target,
        path.len() > 0 ==> probed(target, Some(path)) == joined(target_parts(target).0, path),
        path.len() == 0 ==> probed(target, Some(path)) == target,
        path_part(target).len() > 0 && path_part(target).last() == '/' ==> target_parts(target).0
            == path_part(target) && target_parts(target).1.len() == 0,
{
}

/// The first header with a name counts, whatever the case of either.
pub proof fn the_first_header_of_a_name_counts(headers: Seq<(String, String)>, name: Seq<char>)
    ensures
        match header_named(headers, name) {
            Some(v) => exists|i: int|
                0 <= i < headers.len() && (#[trigger] headers[i]).1@ == v && lowered(headers[i].0@)
                    == lowered(name) && forall|j: int|
                    0 <= j < i ==> lowered((#[trigger] headers[j]).0@) != lowered(name),
            None => forall|j: int|
                0 <= j < headers.len() ==> lowered((#[trigger] headers[j]).0@) != lowered(name),
        },
    decreases headers.len(),
{
    if headers.len() > 0 {
        if lowered(headers[0].0@) == lowered(name) {
            assert(headers[0].1@ == header_named(headers, name)->0);
        } else {
            let rest = headers.skip(1);
            the_first_header_of_a_name_counts(rest, name);
            match header_named(rest, name) {
                Some(v) => {
                    let i = choose|i: int|
                        0 <= i < rest.len() && (#[trigger] rest[i]).1@ == v && lowered(rest[i].0@)
                            == lowered(name) && forall|j: int|
                            0 <= j < i ==> lowered((#[trigger] rest[j]).0@) != lowered(name);
                    assert(headers[i + 1] == rest[i]);
                    assert forall|j: int| 0 <= j < i + 1 implies lowered(
                        (#[trigger] headers[j]).0@,
                    ) != lowered(name) by {
                        if j > 0 {
                            assert(rest[j - 1] == headers[j]);
                        }
                    }
                },
                None => {
                    assert forall|j: int| 0 <= j < headers.len() implies lowered(
                        (#[trigger] headers[j]).0@,
                    ) != lowered(name) by {
                        if j > 0 {
                            assert(rest[j - 1] == headers[j]);
                        }
                    }
                },
            }
        }
    }
}

/// An answer to a ranged request is taken exactly where it is partial content of
/// the length that was asked for.
pub proof fn only_the_range_that_was_asked_for_is_taken(
    error: Option<Seq<char>>,
    status: u16,
    got: nat,
    url: Seq<char>,
    offset: u64,
    end: u64,
    len: nat,
)
    ensures
        range_fault(error, status, got, url, offset, end, len) is None <==> error is None && status
            == 206 && got == len,
        error is None && status == 206 && got != len ==> range_fault(
            error,
            status,
            got,
            url,
            offset,
            end,
            len,
        ) matches Some(crate::error::Failure::Truncated { .. }),
        span_text(offset, end) == decimal(offset as nat) + "-"@ + decimal(end as nat),
{
}

/// The size of an object is the number behind the slash of its range, or its
/// length where the range was ignored.
pub proof fn a_size_stands_behind_the_slash(
    front: Seq<char>,
    size: nat,
    status: u16,
    headers: Seq<(String, String)>,
)
    requires
        size <= u64::MAX,
    ensures
        range_total(front + "/"@ + decimal(size)) == Some(size),
        header_named(headers, "content-range"@) == Some(front + "/"@ + decimal(size)) ==> stated_size(
            status,
            headers,
        ) == Some(size),
        header_named(headers, "content-range"@) is None && header_named(headers, "content-length"@)
            == Some(decimal(size)) ==> stated_size(status, headers) == if status == 200 {
            Some(size)
        } else {
            None
        },
        header_named(headers, "content-range"@) is None && header_named(
            headers,
            "content-length"@,
        ) is None ==> stated_size(status, headers) is None,
{
    reveal_strlit("/");
    let slash = "/"@;
    assert(slash.len() == 1 && slash[0] == '/');
    let d = decimal(size);
    let v = front + slash + d;
    decimal_reads_back(size);
    decimal_parses(size, u64::MAX as nat);
    let n = front.len() as int;
    last_of_is_last(v, '/');
    assert(v[n] == '/');
    assert forall|i: int| n < i < v.len() implies v[i] != '/' by {
        assert(v[i] == d[i - n - 1]);
        assert(crate::text::is_digit(d[i - n - 1]));
    }
    assert(last_of(v, '/') == n) by {
        let at = last_of(v, '/');
        if at != n {
            if at >= 0 {
                assert(v[at] == '/');
            }
        }
    }
    assert(v.skip(n + 1) =~= d);
    assert(crate::text::is_digit(d[0]) && crate::text::is_digit(d[d.len() - 1]));
    tight_text_stays(d);
}

/// A target is cut behind its last slash, but for those of its scheme: what is before
/// it is the directory, and what is behind it the name.
pub proof fn a_target_is_cut_at_its_last_slash(folder: Seq<char>, name: Seq<char>)
    requires
        vstd::utf8::encode_utf8(folder).len() > 8,
        name.len() > 0,
        forall|i: int| 0 <= i < name.len() ==> #[trigger] name[i] != '/',
        path_part(folder + seq!['/'] + name) == folder + seq!['/'] + name,
    ensures
        target_parts(folder + seq!['/'] + name) == (folder + seq!['/'], name),
{
    let t = folder + seq!['/'] + name;
    let n = folder.len() as int;
    last_of_is_last(t, '/');
    assert(t[n] == '/');
    assert forall|i: int| n < i < t.len() implies t[i] != '/' by {
        assert(t[i] == name[i - n - 1]);
    }
    assert(last_of(t, '/') == n);
    assert(t.take(n) =~= folder);
    assert(t.take(n + 1) =~= folder + seq!['/']);
    assert(t.skip(n + 1) =~= name);
    assert(t.last() == name.last());
    assert(name[name.len() - 1] != '/');
}

/// A target without a slash of its own is a directory.
pub proof fn a_target_without_a_slash_is_a_directory(name: Seq<char>)
    requires
        forall|i: int| 0 <= i < name.len() ==> #[trigger] name[i] != '/',
        path_part(name) == name,
    ensures
        target_parts(name).0 == name + "/"@,
        target_parts(name).1.len() == 0,
{
    last_of_is_last(name, '/');
    if name.len() > 0 {
        assert(name[name.len() - 1] != '/');
    }
}

} // verus!
