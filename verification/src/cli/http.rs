//! URLs, and HTTP exchanges as a diagnosis sees them.

use crate::error::{Error, Failure};
use crate::text::{
    begins, cat2, cat3, cat4, cat5, chars_of, decimal, decimal_of, last_of, lowered, rfind, same_ignoring_case,
    starts_with, string_of,
};
use vstd::prelude::*;
use vstd::string::*;

verus! {

/// Sent on every request.
pub fn user_agent() -> (s: String)
    ensures
        s@ == "voxelkloud/0.1.0"@,
{
    "voxelkloud/0.1.0".to_owned()
}

/// Whether a target is something to fetch.
pub open spec fn fetchable(target: Seq<char>) -> bool {
    begins(target, "http://"@) || begins(target, "https://"@)
}

/// Is this string something we would fetch?
pub fn is_url(target: &str) -> (r: bool)
    ensures
        r == fetchable(target@),
{
    starts_with(target, "http://") || starts_with(target, "https://")
}

/// The length of a string up to its query or fragment.
pub open spec fn path_len(s: Seq<char>) -> int
    decreases s.len(),
{
    if s.len() == 0 || s[0] == '?' || s[0] == '#' {
        0
    } else {
        1 + path_len(s.skip(1))
    }
}

/// A string up to its query or fragment.
pub open spec fn path_part(s: Seq<char>) -> Seq<char> {
    s.take(path_len(s))
}

/// A string up to its query or fragment.
pub fn without_query(s: &str) -> (out: String)
    ensures
        out@ == path_part(s@),
{
    let cs = chars_of(s);
    let mut i: usize = 0;
    assert(s@.skip(0) =~= s@);
    while i < cs.len() && cs[i] != '?' && cs[i] != '#'
        invariant
            i <= cs.len(),
            cs@ == s@,
            path_len(s@) == i + path_len(s@.skip(i as int)),
        decreases cs.len() - i,
    {
        assert(s@.skip(i as int)[0] == cs@[i as int]);
        assert(s@.skip(i as int).skip(1) =~= s@.skip(i + 1));
        i = i + 1;
    }
    if i < cs.len() {
        assert(s@.skip(i as int)[0] == cs@[i as int]);
    }
    assert(s@.subrange(0, i as int) =~= s@.take(i as int));
    string_of(&cs, 0, i)
}

/// A relative path on a base that names a directory.
pub open spec fn joined(base: Seq<char>, relative: Seq<char>) -> Seq<char> {
    let clean = path_part(base);
    if relative.len() == 0 {
        clean
    } else if clean.len() > 0 && clean.last() == '/' {
        clean + relative
    } else {
        clean + "/"@ + relative
    }
}

/// Join a relative path onto a base that names a directory. A query string on
/// the base is dropped from the join.
pub fn join(base: &str, relative: &str) -> (out: String)
    ensures
        out@ == joined(base@, relative@),
{
    let clean = without_query(base);
    if relative.is_empty() {
        return clean;
    }
    let cs = chars_of(clean.as_str());
    if cs.len() > 0 && cs[cs.len() - 1] == '/' {
        cat2(clean.as_str(), relative)
    } else {
        cat3(clean.as_str(), "/", relative)
    }
}

/// The directory a target lives in, and the name inside it.
pub open spec fn target_parts(target: Seq<char>) -> (Seq<char>, Seq<char>) {
    let clean = path_part(target);
    let at = last_of(clean, '/');
    if clean.len() > 0 && clean.last() == '/' {
        (clean, Seq::empty())
    } else if at >= 0 && vstd::utf8::encode_utf8(clean.take(at)).len() > 8 {
        (clean.take(at + 1), clean.skip(at + 1))
    } else {
        (clean + "/"@, Seq::empty())
    }
}

/// The directory the target lives in, and the name inside it.
///
/// A trailing slash means the whole thing is a directory. A slash that belongs
/// to the scheme does not split anything.
pub fn split_target(target: &str) -> (r: (String, String))
    ensures
        (r.0@, r.1@) == target_parts(target@),
{
    let clean = without_query(target);
    let cs = chars_of(clean.as_str());
    let n: usize = cs.len();
    if n > 0 && cs[n - 1] == '/' {
        return (clean, String::new());
    }
    if let Some(at) = rfind(&cs, '/') {
        let head = string_of(&cs, 0, at);
        assert(clean@.subrange(0, at as int) =~= clean@.take(at as int));
        let bytes = head.as_str().as_bytes();
        if bytes.len() > 8 {
            assert(clean@.subrange(0, at + 1) =~= clean@.take(at + 1));
            assert(clean@.subrange(at + 1, n as int) =~= clean@.skip(at + 1));
            return (string_of(&cs, 0, at + 1), string_of(&cs, at + 1, n));
        }
    }
    (cat2(clean.as_str(), "/"), String::new())
}

/// The two parts of a target that names a file join to the target again.
pub proof fn split_then_join(target: Seq<char>)
    requires
        target_parts(target).1.len() > 0,
        path_part(target_parts(target).0) == target_parts(target).0,
    ensures
        joined(target_parts(target).0, target_parts(target).1) == path_part(target),
{
    let clean = path_part(target);
    let at = last_of(clean, '/');
    crate::text::last_of_is_last(clean, '/');
    assert(clean.take(at + 1).last() == '/');
    assert(clean.take(at + 1) + clean.skip(at + 1) =~= clean);
}

/// One HTTP exchange.
#[derive(Debug)]
pub struct Probe {
    pub url: String,
    pub status: u16,
    pub headers: Vec<(String, String)>,
    /// What came back, as much of it as was asked for.
    pub body: Vec<u8>,
    /// Wall clock for the whole exchange, in microseconds.
    pub elapsed_micros: u64,
    /// A transport failure: DNS, TLS, refused, timed out. A 404 is not one.
    pub error: Option<String>,
}

/// The address that stands for what a viewer asks of a cloud: a path under where
/// the target lies, or the target itself where it names the only object.
pub open spec fn probed(target: Seq<char>, path: Option<Seq<char>>) -> Seq<char> {
    match path {
        Some(p) => if p.len() == 0 {
            target
        } else {
            joined(target_parts(target).0, p)
        },
        None => target,
    }
}

/// The address to probe for a cloud.
pub fn probe_url(target: &str, path: Option<&str>) -> (url: String)
    ensures
        url@ == probed(
            target@,
            match path {
                Some(p) => Some(p@),
                None => None,
            },
        ),
{
    match path {
        Some(p) => {
            if p.is_empty() {
                target.to_owned()
            } else {
                let (base, _) = split_target(target);
                join(base.as_str(), p)
            }
        },
        None => target.to_owned(),
    }
}

/// The value of the first header with a name, whatever its case.
pub open spec fn header_named(headers: Seq<(String, String)>, name: Seq<char>) -> Option<Seq<char>>
    decreases headers.len(),
{
    if headers.len() == 0 {
        None
    } else if lowered(headers[0].0@) == lowered(name) {
        Some(headers[0].1@)
    } else {
        header_named(headers.skip(1), name)
    }
}

impl Probe {
    /// The value of a header.
    pub fn header(&self, name: &str) -> (r: Option<&str>)
        ensures
            match r {
                Some(v) => header_named(self.headers@, name@) == Some(v@),
                None => header_named(self.headers@, name@) is None,
            },
    {
        let ghost all = self.headers@;
        assert(all.skip(0) =~= all);
        let mut i: usize = 0;
        while i < self.headers.len()
            invariant
                i <= self.headers.len(),
                all == self.headers@,
                header_named(all, name@) == header_named(all.skip(i as int), name@),
            decreases self.headers.len() - i,
        {
            assert(all.skip(i as int)[0] == all[i as int]);
            if same_ignoring_case(self.headers[i].0.as_str(), name) {
                return Some(self.headers[i].1.as_str());
            }
            assert(all.skip(i as int).skip(1) =~= all.skip(i + 1));
            i = i + 1;
        }
        None
    }

    /// Whether the server answered with success.
    pub fn ok(&self) -> (r: bool)
        ensures
            r == (self.error is None && 200 <= self.status < 300),
    {
        self.error.is_none() && 200 <= self.status && self.status < 300
    }

    pub fn body_len(&self) -> (n: usize)
        ensures
            n == self.body@.len(),
    {
        self.body.len()
    }
}

/// What a ranged read is answered with.
#[derive(Debug, Clone, Copy, PartialEq, Eq, Structural)]
pub enum Ranged {
    /// The bytes that were asked for.
    Whole,
    /// The server ignored the range.
    Ignored,
    /// The range is past the end of the object.
    PastEnd,
    /// Some other status.
    Refused,
    /// A range of the wrong length.
    Cut,
}

/// How an answer to a request for `len` bytes is taken.
pub fn judge_range(status: u16, got: usize, len: usize) -> (r: Ranged)
    ensures
        r == if status == 206 {
            if got == len {
                Ranged::Whole
            } else {
                Ranged::Cut
            }
        } else if status == 200 {
            Ranged::Ignored
        } else if status == 416 {
            Ranged::PastEnd
        } else {
            Ranged::Refused
        },
{
    match status {
        206 => if got == len {
            Ranged::Whole
        } else {
            Ranged::Cut
        },
        200 => Ranged::Ignored,
        416 => Ranged::PastEnd,
        _ => Ranged::Refused,
    }
}

/// The total that a `Content-Range` ends with.
pub open spec fn range_total(value: Seq<char>) -> Option<nat> {
    crate::text::unsigned(
        crate::text::trimmed(value.skip(last_of(value, '/') + 1)),
        u64::MAX as nat,
    )
}

/// The size that an answer to a one-byte range states: the end of its
/// `Content-Range`, or its `Content-Length` when the server ignored the range.
pub open spec fn stated_size(status: u16, headers: Seq<(String, String)>) -> Option<nat> {
    let range = header_named(headers, "content-range"@);
    let length = header_named(headers, "content-length"@);
    if range is Some && range_total(range->0) is Some {
        range_total(range->0)
    } else if status == 200 && length is Some {
        crate::text::unsigned(length->0, u64::MAX as nat)
    } else {
        None
    }
}

/// The size of the object behind an answer to a one-byte range.
pub fn object_size(probe: &Probe) -> (r: Option<u64>)
    ensures
        match r {
            Some(n) => stated_size(probe.status, probe.headers@) == Some(n as nat),
            None => stated_size(probe.status, probe.headers@) is None,
        },
{
    if let Some(value) = probe.header("content-range") {
        let cs = chars_of(value);
        let start: usize = match rfind(&cs, '/') {
            Some(at) => at + 1,
            None => 0,
        };
        let t = crate::text::trim_range(&cs, start, cs.len());
        assert(value@.subrange(start as int, value@.len() as int) =~= value@.skip(start as int));
        if let Some(total) = crate::text::parse_chars(&cs, t.0, t.1, u64::MAX) {
            return Some(total);
        }
    }
    if probe.status == 200 {
        if let Some(value) = probe.header("content-length") {
            return crate::text::parse_unsigned(value, u64::MAX);
        }
    }
    None
}

/// The `Range` header that asks for the bytes from one to another.
pub fn range_text(offset: u64, end: u64) -> (out: String)
    ensures
        out@ == "bytes="@ + span_text(offset, end),
{
    let from = decimal_of(offset);
    let to = decimal_of(end);
    cat4("bytes=", from.as_str(), "-", to.as_str())
}

/// The bytes from one to another, as they are spelled.
pub open spec fn span_text(offset: u64, end: u64) -> Seq<char> {
    decimal(offset as nat) + "-"@ + decimal(end as nat)
}

/// What is wrong with an answer to a request for `len` bytes, from one to
/// another, of a URL.
pub open spec fn range_fault(
    error: Option<Seq<char>>,
    status: u16,
    got: nat,
    url: Seq<char>,
    offset: u64,
    end: u64,
    len: nat,
) -> Option<Failure> {
    let span = span_text(offset, end);
    if let Some(why) = error {
        Some(Failure::Source(url + ": "@ + why))
    } else if status == 200 {
        Some(
            Failure::Source(
                url
                    + ": the server answered 200 to a Range request, so it does not support byte ranges. Run `voxelkloud doctor` against it."@,
            ),
        )
    } else if status == 416 {
        Some(Failure::Source(url + ": range "@ + span + " is past the end of the object"@))
    } else if status != 206 {
        Some(
            Failure::Source(
                url + ": HTTP "@ + decimal(status as nat) + " for range "@ + span,
            ),
        )
    } else if got != len {
        Some(
            Failure::Truncated {
                need: len as u64,
                got: got as u64,
                what: url + " range "@ + span,
            },
        )
    } else {
        None
    }
}

/// What a probe failed with, as its text.
pub open spec fn fault_of(probe: Probe) -> Option<Seq<char>> {
    match probe.error {
        Some(e) => Some(e@),
        None => None,
    }
}

/// Whether an answer is the `len` bytes, from one to another, that were asked for.
pub fn check_ranged(probe: &Probe, url: &str, offset: u64, end: u64, len: usize) -> (r: Result<
    (),
    Error,
>)
    ensures
        match r {
            Ok(_) => range_fault(
                fault_of(*probe),
                probe.status,
                probe.body@.len(),
                url@,
                offset,
                end,
                len as nat,
            ) is None,
            Err(e) => range_fault(
                fault_of(*probe),
                probe.status,
                probe.body@.len(),
                url@,
                offset,
                end,
                len as nat,
            ) == Some(e@),
        },
{
    if let Some(why) = &probe.error {
        return Err(Error::Source(cat3(url, ": ", why.as_str())));
    }
    let from = decimal_of(offset);
    let to = decimal_of(end);
    let span = cat3(from.as_str(), "-", to.as_str());
    match judge_range(probe.status, probe.body.len(), len) {
        Ranged::Whole => Ok(()),
        Ranged::Ignored => Err(
            Error::Source(
                cat2(
                    url,
                    ": the server answered 200 to a Range request, so it does not support byte ranges. Run `voxelkloud doctor` against it.",
                ),
            ),
        ),
        Ranged::PastEnd => Err(
            Error::Source(cat4(url, ": range ", span.as_str(), " is past the end of the object")),
        ),
        Ranged::Refused => {
            let status = decimal_of(probe.status as u64);
            Err(
                Error::Source(
                    cat5(url, ": HTTP ", status.as_str(), " for range ", span.as_str()),
                ),
            )
        },
        Ranged::Cut => Err(
            Error::Truncated {
                need: len as u64,
                got: probe.body.len() as u64,
                what: cat3(url, " range ", span.as_str()),
            },
        ),
    }
}

/// The size that an answer to a one-byte range gives of a URL.
pub fn taken_size(probe: &Probe, url: &str) -> (r: Result<u64, Error>)
    ensures
        match r {
            Ok(n) => fault_of(*probe) is None && stated_size(probe.status, probe.headers@) == Some(
                n as nat,
            ),
            Err(e) => match fault_of(*probe) {
                Some(why) => e@ == Failure::Source(url@ + ": "@ + why),
                None => stated_size(probe.status, probe.headers@) is None && e@ == Failure::Source(
                    url@ + ": HTTP "@ + decimal(probe.status as nat)
                        + " and no Content-Range or Content-Length, so the size is unknown"@,
                ),
            },
        },
{
    if let Some(why) = &probe.error {
        return Err(Error::Source(cat3(url, ": ", why.as_str())));
    }
    match object_size(probe) {
        Some(n) => Ok(n),
        None => {
            let status = decimal_of(probe.status as u64);
            Err(
                Error::Source(
                    cat4(
                        url,
                        ": HTTP ",
                        status.as_str(),
                        " and no Content-Range or Content-Length, so the size is unknown",
                    ),
                ),
            )
        },
    }
}

/// Whether an answer is the whole of a URL.
pub fn check_whole(probe: &Probe, url: &str) -> (r: Result<(), Error>)
    ensures
        match r {
            Ok(_) => fault_of(*probe) is None && probe.status == 200,
            Err(e) => match fault_of(*probe) {
                Some(why) => e@ == Failure::Source(url@ + ": "@ + why),
                None => probe.status != 200 && e@ == Failure::Source(
                    url@ + ": HTTP "@ + decimal(probe.status as nat),
                ),
            },
        },
{
    if let Some(why) = &probe.error {
        return Err(Error::Source(cat3(url, ": ", why.as_str())));
    }
    if probe.status != 200 {
        let status = decimal_of(probe.status as u64);
        return Err(Error::Source(cat3(url, ": HTTP ", status.as_str())));
    }
    Ok(())
}

} // verus!
