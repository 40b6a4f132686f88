//! `doctor`: why does this deployment feel broken?
//!
//! Every streaming format rests on a small set of HTTP behaviours, and when one
//! is missing the failure surfaces as something else entirely. The questions are
//! asked elsewhere; what the answers mean, and what to change, is decided here.

use super::http::{header_named, Probe};
use super::out::{bytes, count, grouped, pad, padded, painted, row, size_text, Output};
use crate::cloud::{sum, wrap64, CloudInfo, FormatId, HierarchyStats};
use crate::json::{trees, Fields, Json, Tree};
use crate::text::{
    add_text, cat2, cat3, cat4, cat5, cat7, chars_of, contains, decimal, decimal_of, lowered, occurs, same,
    same_ignoring_case, texts, to_lower,
};
use crate::warning::Notice;
use vstd::prelude::*;
use vstd::string::*;

verus! {

/// How bad a finding is.
#[derive(Debug, Clone, Copy, PartialEq, Eq, Structural)]
pub enum Level {
    /// Nothing to do.
    Pass,
    /// Works, and will cost something: latency, bandwidth, a stall.
    Warn,
    /// Streaming is broken, or will be for some clients.
    Fail,
}

impl Level {
    pub open spec fn rank(self) -> int {
        match self {
            Level::Pass => 0,
            Level::Warn => 1,
            Level::Fail => 2,
        }
    }

    pub open spec fn spelling(self) -> Seq<char> {
        match self {
            Level::Pass => "pass"@,
            Level::Warn => "warn"@,
            Level::Fail => "fail"@,
        }
    }

    pub fn name(self) -> (s: &'static str)
        ensures
            s@ == self.spelling(),
    {
        match self {
            Level::Pass => "pass",
            Level::Warn => "warn",
            Level::Fail => "fail",
        }
    }

    /// The worse of two levels.
    pub open spec fn worse(self, other: Level) -> Level {
        if other.rank() > self.rank() {
            other
        } else {
            self
        }
    }

    fn or_worse(self, other: Level) -> (l: Level)
        ensures
            l == self.worse(other),
    {
        match (self, other) {
            (Level::Fail, _) => Level::Fail,
            (_, Level::Fail) => Level::Fail,
            (Level::Warn, _) => Level::Warn,
            (_, Level::Warn) => Level::Warn,
            _ => Level::Pass,
        }
    }
}

/// One thing that was found.
#[derive(Debug)]
pub struct Finding {
    pub level: Level,
    /// Stable identifier, for a job that wants to allow one.
    pub code: &'static str,
    pub title: String,
    pub detail: String,
    /// What to change. Empty when there is nothing to do.
    pub fix: String,
}

/// A finding, as the values it holds.
pub struct Found {
    pub level: Level,
    pub code: Seq<char>,
    pub title: Seq<char>,
    pub detail: Seq<char>,
    pub fix: Seq<char>,
}

impl View for Finding {
    type V = Found;

    open spec fn view(&self) -> Found {
        Found {
            level: self.level,
            code: self.code@,
            title: self.title@,
            detail: self.detail@,
            fix: self.fix@,
        }
    }
}

/// Several findings, each as the values it holds.
pub open spec fn found(list: Seq<Finding>) -> Seq<Found> {
    list.map_values(|f: Finding| f@)
}

/// Something that is as it should be.
pub open spec fn passes(code: Seq<char>, title: Seq<char>, detail: Seq<char>) -> Found {
    Found { level: Level::Pass, code, title, detail, fix: Seq::empty() }
}

/// Something that will cost.
pub open spec fn warns(code: Seq<char>, title: Seq<char>, detail: Seq<char>, fix: Seq<char>)
    -> Found {
    Found { level: Level::Warn, code, title, detail, fix }
}

/// Something that is broken.
pub open spec fn fails(code: Seq<char>, title: Seq<char>, detail: Seq<char>, fix: Seq<char>)
    -> Found {
    Found { level: Level::Fail, code, title, detail, fix }
}

impl Finding {
    fn pass(code: &'static str, title: &str, detail: String) -> (f: Self)
        ensures
            f@ == passes(code@, title@, detail@),
    {
        let f = Finding {
            level: Level::Pass,
            code,
            title: title.to_owned(),
            detail,
            fix: String::new(),
        };
        assert(f.fix@ =~= Seq::<char>::empty());
        f
    }

    fn warn(code: &'static str, title: &str, detail: String, fix: &str) -> (f: Self)
        ensures
            f@ == warns(code@, title@, detail@, fix@),
    {
        Finding {
            level: Level::Warn,
            code,
            title: title.to_owned(),
            detail,
            fix: fix.to_owned(),
        }
    }

    fn fail(code: &'static str, title: &str, detail: String, fix: &str) -> (f: Self)
        ensures
            f@ == fails(code@, title@, detail@, fix@),
    {
        Finding {
            level: Level::Fail,
            code,
            title: title.to_owned(),
            detail,
            fix: fix.to_owned(),
        }
    }
}

fn note(list: &mut Vec<Finding>, f: Finding)
    ensures
        found(final(list)@) == found(old(list)@).push(f@),
{
    list.push(f);
    assert(found(list@) =~= found(old(list)@).push(f@));
}

/// What is found where the payload cannot be fetched at all.
pub open spec fn unreachable_found(ranged: Probe, error: Seq<char>) -> Found {
    fails(
        "unreachable"@,
        "the payload could not be fetched"@,
        ranged.url@ + ": "@ + error,
        "Check the URL, DNS and TLS before anything else here means much."@,
    )
}

/// Whether the payload could be fetched. Where it could not, nothing else is
/// worth asking.
pub fn reach(ranged: &Probe, findings: &mut Vec<Finding>) -> (r: bool)
    ensures
        r == (ranged.error is None),
        found(final(findings)@) == match ranged.error {
            Some(error) => found(old(findings)@).push(unreachable_found(*ranged, error@)),
            None => found(old(findings)@),
        },
{
    match &ranged.error {
        Some(error) => {
            note(
                findings,
                Finding::fail(
                    "unreachable",
                    "the payload could not be fetched",
                    cat3(ranged.url.as_str(), ": ", error.as_str()),
                    "Check the URL, DNS and TLS before anything else here means much.",
                ),
            );
            false
        },
        None => true,
    }
}

/// The value of a header, or nothing.
pub open spec fn value_or_empty(p: Probe, name: Seq<char>) -> Seq<char> {
    match header_named(p.headers@, name) {
        Some(v) => v,
        None => Seq::empty(),
    }
}

/// What the status of a ranged answer means.
pub open spec fn range_found(ranged: Probe, url: Seq<char>) -> Seq<Found> {
    let n = decimal(ranged.body@.len());
    let status = decimal(ranged.status as nat);
    if ranged.status == 206 {
        let ok = seq![
            passes(
                "range"@,
                "byte ranges"@,
                "206 Partial Content, "@ + n + " bytes, Content-Range: "@ + value_or_empty(
                    ranged,
                    "content-range"@,
                ),
            ),
        ];
        if ranged.body@.len() != 16 {
            ok.push(
                warns(
                    "range-length"@,
                    "the range came back the wrong size"@,
                    "Asked for 16 bytes and got "@ + n
                        + ". Something between here and the file is rewriting the body."@,
                    "Look for a proxy or CDN transforming responses."@,
                ),
            )
        } else {
            ok
        }
    } else if ranged.status == 200 {
        seq![
            fails(
                "no-range"@,
                "the server ignores Range"@,
                "Asked for bytes 0-15 and got 200 with "@ + n
                    + " bytes. Every format here streams by asking for pieces of a file; without 206 the viewer must download whole files."@,
                "Enable byte ranges. nginx: on by default unless `gzip` rewrites the body. `python -m http.server`: no; use `voxelkloud serve`. S3/GCS/R2: supported, so a 200 means a proxy in front is stripping the header."@,
            ),
        ]
    } else if ranged.status == 403 || ranged.status == 404 {
        seq![
            fails(
                "payload-missing"@,
                "HTTP "@ + status + " for the payload"@,
                url + " answered "@ + status
                    + ". The manifest resolved, so the cloud is deployed with its data files missing or unreadable."@,
                "Check that the whole directory was uploaded, and that its objects are as public as the manifest is."@,
            ),
        ]
    } else {
        seq![
            fails(
                "payload-status"@,
                "HTTP "@ + status + " for the payload"@,
                url + " answered "@ + status + "."@,
                ""@,
            ),
        ]
    }
}

fn check_range(ranged: &Probe, url: &str, findings: &mut Vec<Finding>)
    ensures
        found(final(findings)@) == found(old(findings)@) + range_found(*ranged, url@),
{
    let n = decimal_of(ranged.body_len() as u64);
    let status = decimal_of(ranged.status as u64);
    if ranged.status == 206 {
        let range: &str = match ranged.header("content-range") {
            Some(v) => v,
            None => "",
        };
        proof {
            reveal_strlit("");
            assert(""@ =~= Seq::<char>::empty());
        }
        note(
            findings,
            Finding::pass(
                "range",
                "byte ranges",
                cat4("206 Partial Content, ", n.as_str(), " bytes, Content-Range: ", range),
            ),
        );
        if ranged.body_len() != 16 {
            note(
                findings,
                Finding::warn(
                    "range-length",
                    "the range came back the wrong size",
                    cat3(
                        "Asked for 16 bytes and got ",
                        n.as_str(),
                        ". Something between here and the file is rewriting the body.",
                    ),
                    "Look for a proxy or CDN transforming responses.",
                ),
            );
        }
    } else if ranged.status == 200 {
        note(
            findings,
            Finding::fail(
                "no-range",
                "the server ignores Range",
                cat3(
                    "Asked for bytes 0-15 and got 200 with ",
                    n.as_str(),
                    " bytes. Every format here streams by asking for pieces of a file; without 206 the viewer must download whole files.",
                ),
                "Enable byte ranges. nginx: on by default unless `gzip` rewrites the body. `python -m http.server`: no; use `voxelkloud serve`. S3/GCS/R2: supported, so a 200 means a proxy in front is stripping the header.",
            ),
        );
    } else if ranged.status == 403 || ranged.status == 404 {
        let title = cat3("HTTP ", status.as_str(), " for the payload");
        note(
            findings,
            Finding::fail(
                "payload-missing",
                title.as_str(),
                cat4(
                    url,
                    " answered ",
                    status.as_str(),
                    ". The manifest resolved, so the cloud is deployed with its data files missing or unreadable.",
                ),
                "Check that the whole directory was uploaded, and that its objects are as public as the manifest is.",
            ),
        );
    } else {
        let title = cat3("HTTP ", status.as_str(), " for the payload");
        note(
            findings,
            Finding::fail(
                "payload-status",
                title.as_str(),
                cat4(url, " answered ", status.as_str(), "."),
                "",
            ),
        );
    }
    assert(found(findings@) =~= found(old(findings)@) + range_found(*ranged, url@));
}

/// What the encoding of a ranged answer means. The worst failure of all, since
/// everything still looks fine.
pub open spec fn encoding_found(ranged: Probe) -> Found {
    let encoding = value_or_empty(ranged, "content-encoding"@);
    if header_named(ranged.headers@, "content-encoding"@) is Some && lowered(encoding) != lowered(
        "identity"@,
    ) {
        fails(
            "range-encoded"@,
            "the payload is transport-compressed"@,
            "The ranged response carries Content-Encoding: "@ + encoding
                + ". Byte offsets then address the compressed stream, which is not what any reader computed \u{2014} and the payload is already compressed by its own format, so this buys nothing."@,
            "Exclude point cloud payloads from compression. nginx: drop `application/octet-stream` from `gzip_types` and set `gzip off` for `.bin`/`.laz`. Cloudflare and friends: turn off auto-compression for these paths."@,
        )
    } else {
        passes(
            "range-encoded"@,
            "no transport compression on the payload"@,
            "The bytes on the wire are the bytes in the file."@,
        )
    }
}

fn check_encoding(ranged: &Probe, findings: &mut Vec<Finding>)
    ensures
        found(final(findings)@) == found(old(findings)@).push(encoding_found(*ranged)),
{
    if let Some(encoding) = ranged.header("content-encoding") {
        if !same_ignoring_case(encoding, "identity") {
            note(
                findings,
                Finding::fail(
                    "range-encoded",
                    "the payload is transport-compressed",
                    cat3(
                        "The ranged response carries Content-Encoding: ",
                        encoding,
                        ". Byte offsets then address the compressed stream, which is not what any reader computed \u{2014} and the payload is already compressed by its own format, so this buys nothing.",
                    ),
                    "Exclude point cloud payloads from compression. nginx: drop `application/octet-stream` from `gzip_types` and set `gzip off` for `.bin`/`.laz`. Cloudflare and friends: turn off auto-compression for these paths.",
                ),
            );
            return;
        }
    }
    note(
        findings,
        Finding::pass(
            "range-encoded",
            "no transport compression on the payload",
            "The bytes on the wire are the bytes in the file.".to_owned(),
        ),
    );
}

/// Whether a policy exposes a header.
pub open spec fn exposes(exposed: Seq<char>, name: Seq<char>) -> bool {
    occurs(exposed, name) || occurs(exposed, "*"@)
}

/// Three names of which some are left out, with commas between those that are
/// not.
pub open spec fn listed(a: bool, b: bool, c: bool) -> Seq<char> {
    let first = if a {
        "content-range"@
    } else {
        Seq::empty()
    };
    let second = if b {
        if a {
            first + ", "@ + "content-length"@
        } else {
            "content-length"@
        }
    } else {
        first
    };
    if c {
        if a || b {
            second + ", "@ + "accept-ranges"@
        } else {
            "accept-ranges"@
        }
    } else {
        second
    }
}

/// What a policy that lets the page read the answer means for its headers.
pub open spec fn expose_found(cors: Probe) -> Found {
    let exposed = lowered(value_or_empty(cors, "access-control-expose-headers"@));
    let (a, b, c) = (
        !exposes(exposed, "content-range"@),
        !exposes(exposed, "content-length"@),
        !exposes(exposed, "accept-ranges"@),
    );
    if a || b || c {
        warns(
            "cors-expose"@,
            "the browser cannot read the range headers"@,
            "Access-Control-Expose-Headers does not name "@ + listed(a, b, c)
                + ". The bytes arrive; the metadata about them does not."@,
            "Add `Access-Control-Expose-Headers: Content-Range, Content-Length, Accept-Ranges`."@,
        )
    } else {
        passes(
            "cors-expose"@,
            "range headers are readable from a browser"@,
            "Access-Control-Expose-Headers covers Content-Range."@,
        )
    }
}

/// What the answer to a page of some origin means.
pub open spec fn cors_found(cors: Probe, origin: Seq<char>) -> Seq<Found> {
    match header_named(cors.headers@, "access-control-allow-origin"@) {
        Some(value) => if value == "*"@ || value == origin {
            seq![
                passes("cors"@, "CORS"@, "Access-Control-Allow-Origin: "@ + value),
                expose_found(cors),
            ]
        } else {
            seq![
                fails(
                    "cors"@,
                    "CORS names a different origin"@,
                    "Access-Control-Allow-Origin: "@ + value + ", against an Origin of "@ + origin
                        + ". A page anywhere else cannot read this."@,
                    "Widen the policy, or serve the viewer from the same origin."@,
                ),
            ]
        },
        None => seq![
            fails(
                "cors"@,
                "no CORS headers"@,
                "The response to an Origin of "@ + origin
                    + " carries no Access-Control-Allow-Origin, so a browser will refuse it. `curl` succeeding here proves nothing \u{2014} it does not enforce this."@,
                "S3: put a CORS policy on the bucket. nginx: `add_header Access-Control-Allow-Origin *`. Then re-run, because a cached preflight can outlive the fix."@,
            ),
        ],
    }
}

fn put_name(out: &mut String, first: bool, name: &str)
    ensures
        final(out)@ == if first {
            old(out)@ + name@
        } else {
            old(out)@ + ", "@ + name@
        },
{
    if !first {
        out.append(", ");
    }
    out.append(name);
}

fn list_names(a: bool, b: bool, c: bool) -> (out: String)
    ensures
        out@ == listed(a, b, c),
{
    let mut out = String::new();
    assert(out@ =~= Seq::<char>::empty());
    if a {
        put_name(&mut out, true, "content-range");
        assert(out@ =~= "content-range"@);
    }
    if b {
        put_name(&mut out, !a, "content-length");
        assert(!a ==> out@ =~= "content-length"@);
    }
    if c {
        put_name(&mut out, !a && !b, "accept-ranges");
        assert(!a && !b ==> out@ =~= "accept-ranges"@);
    }
    out
}

fn check_expose(cors: &Probe, findings: &mut Vec<Finding>)
    ensures
        found(final(findings)@) == found(old(findings)@).push(expose_found(*cors)),
{
    let value: &str = match cors.header("access-control-expose-headers") {
        Some(v) => v,
        None => "",
    };
    proof {
        reveal_strlit("");
        assert(""@ =~= Seq::<char>::empty());
    }
    let exposed = to_lower(value);
    let all = contains(exposed.as_str(), "*");
    let a = !(contains(exposed.as_str(), "content-range") || all);
    let b = !(contains(exposed.as_str(), "content-length") || all);
    let c = !(contains(exposed.as_str(), "accept-ranges") || all);
    if a || b || c {
        let names = list_names(a, b, c);
        note(
            findings,
            Finding::warn(
                "cors-expose",
                "the browser cannot read the range headers",
                cat3(
                    "Access-Control-Expose-Headers does not name ",
                    names.as_str(),
                    ". The bytes arrive; the metadata about them does not.",
                ),
                "Add `Access-Control-Expose-Headers: Content-Range, Content-Length, Accept-Ranges`.",
            ),
        );
    } else {
        note(
            findings,
            Finding::pass(
                "cors-expose",
                "range headers are readable from a browser",
                "Access-Control-Expose-Headers covers Content-Range.".to_owned(),
            ),
        );
    }
}

fn check_cors(cors: &Probe, origin: &str, findings: &mut Vec<Finding>)
    ensures
        found(final(findings)@) == found(old(findings)@) + cors_found(*cors, origin@),
{
    match cors.header("access-control-allow-origin") {
        Some(value) => {
            if same(value, "*") || same(value, origin) {
                note(
                    findings,
                    Finding::pass("cors", "CORS", cat2("Access-Control-Allow-Origin: ", value)),
                );
                check_expose(cors, findings);
            } else {
                note(
                    findings,
                    Finding::fail(
                        "cors",
                        "CORS names a different origin",
                        cat5(
                            "Access-Control-Allow-Origin: ",
                            value,
                            ", against an Origin of ",
                            origin,
                            ". A page anywhere else cannot read this.",
                        ),
                        "Widen the policy, or serve the viewer from the same origin.",
                    ),
                );
            }
        },
        None => {
            note(
                findings,
                Finding::fail(
                    "cors",
                    "no CORS headers",
                    cat3(
                        "The response to an Origin of ",
                        origin,
                        " carries no Access-Control-Allow-Origin, so a browser will refuse it. `curl` succeeding here proves nothing \u{2014} it does not enforce this.",
                    ),
                    "S3: put a CORS policy on the bucket. nginx: `add_header Access-Control-Allow-Origin *`. Then re-run, because a cached preflight can outlive the fix.",
                ),
            );
        },
    }
    assert(found(findings@) =~= found(old(findings)@) + cors_found(*cors, origin@));
}

/// What a refused preflight means.
pub open spec fn preflight_found(preflight: Probe) -> Seq<Found> {
    if preflight.error is None && !(200 <= preflight.status < 300) {
        seq![
            warns(
                "preflight"@,
                "the CORS preflight is refused"@,
                "OPTIONS with Access-Control-Request-Headers: range answered "@ + decimal(
                    preflight.status as nat,
                ) + ". A browser sends this before a ranged fetch to another origin."@,
                "Allow OPTIONS, and answer it with `Access-Control-Allow-Headers: Range`."@,
            ),
        ]
    } else {
        Seq::empty()
    }
}

fn check_preflight(preflight: &Probe, findings: &mut Vec<Finding>)
    ensures
        found(final(findings)@) == found(old(findings)@) + preflight_found(*preflight),
{
    if preflight.error.is_none() && !(200 <= preflight.status && preflight.status < 300) {
        let n = decimal_of(preflight.status as u64);
        note(
            findings,
            Finding::warn(
                "preflight",
                "the CORS preflight is refused",
                cat3(
                    "OPTIONS with Access-Control-Request-Headers: range answered ",
                    n.as_str(),
                    ". A browser sends this before a ranged fetch to another origin.",
                ),
                "Allow OPTIONS, and answer it with `Access-Control-Allow-Headers: Range`.",
            ),
        );
    }
    assert(found(findings@) =~= found(old(findings)@) + preflight_found(*preflight));
}

/// What the cache policy of the payload means.
pub open spec fn cache_found(ranged: Probe) -> Found {
    match header_named(ranged.headers@, "cache-control"@) {
        Some(value) => if occurs(value, "no-store"@) || occurs(value, "no-cache"@) {
            warns(
                "cache"@,
                "the payload is marked uncacheable"@,
                "Cache-Control: "@ + value + ". Every pan re-fetches nodes already seen."@,
                "Point cloud payloads never change. `Cache-Control: public, max-age=31536000, immutable`."@,
            )
        } else {
            passes("cache"@, "caching"@, "Cache-Control: "@ + value)
        },
        None => warns(
            "cache"@,
            "no Cache-Control on the payload"@,
            "The browser will guess, and its guess is usually a revalidation per node."@,
            "`Cache-Control: public, max-age=31536000, immutable` \u{2014} these files are content, not state."@,
        ),
    }
}

fn check_cache(ranged: &Probe, findings: &mut Vec<Finding>)
    ensures
        found(final(findings)@) == found(old(findings)@).push(cache_found(*ranged)),
{
    let f = match ranged.header("cache-control") {
        Some(value) => {
            if contains(value, "no-store") || contains(value, "no-cache") {
                Finding::warn(
                    "cache",
                    "the payload is marked uncacheable",
                    cat3(
                        "Cache-Control: ",
                        value,
                        ". Every pan re-fetches nodes already seen.",
                    ),
                    "Point cloud payloads never change. `Cache-Control: public, max-age=31536000, immutable`.",
                )
            } else {
                Finding::pass("cache", "caching", cat2("Cache-Control: ", value))
            }
        },
        None => Finding::warn(
            "cache",
            "no Cache-Control on the payload",
            "The browser will guess, and its guess is usually a revalidation per node.".to_owned(),
            "`Cache-Control: public, max-age=31536000, immutable` \u{2014} these files are content, not state.",
        ),
    };
    note(findings, f);
}

/// What is said of the round trip: stated rather than judged.
pub open spec fn latency_found(latency: Seq<char>) -> Found {
    passes(
        "latency"@,
        "round trip"@,
        latency
            + " for a 16-byte range. Opening a cloud is at least three of these before the first point is drawn."@,
    )
}

/// What the answers to a ranged request, to one from a page, and to a preflight
/// mean. `latency` is how the round trip is written.
pub open spec fn transport_found(
    ranged: Probe,
    cors: Probe,
    preflight: Probe,
    url: Seq<char>,
    origin: Seq<char>,
    latency: Seq<char>,
) -> Seq<Found> {
    range_found(ranged, url).push(encoding_found(ranged)) + cors_found(cors, origin)
        + preflight_found(preflight) + seq![cache_found(ranged), latency_found(latency)]
}

/// Grades the transport of a payload that could be fetched.
pub fn transport_checks(
    ranged: &Probe,
    cors: &Probe,
    preflight: &Probe,
    url: &str,
    origin: &str,
    latency: &str,
    findings: &mut Vec<Finding>,
)
    ensures
        found(final(findings)@) == found(old(findings)@) + transport_found(
            *ranged,
            *cors,
            *preflight,
            url@,
            origin@,
            latency@,
        ),
{
    check_range(ranged, url, findings);
    check_encoding(ranged, findings);
    check_cors(cors, origin, findings);
    check_preflight(preflight, findings);
    check_cache(ranged, findings);
    note(
        findings,
        Finding::pass(
            "latency",
            "round trip",
            cat2(
                latency,
                " for a 16-byte range. Opening a cloud is at least three of these before the first point is drawn.",
            ),
        ),
    );
    assert(found(findings@) =~= found(old(findings)@) + transport_found(
        *ranged,
        *cors,
        *preflight,
        url@,
        origin@,
        latency@,
    ));
}

/// What is found of a file without an index.
pub open spec fn index_found(info: CloudInfo) -> Seq<Found> {
    if info.format == FormatId::Las {
        seq![
            fails(
                "not-indexed"@,
                "this file has no index"@,
                "A bare "@ + (if info@.encoding == Some("laszip"@) {
                    "LAZ"@
                } else {
                    "LAS"@
                })
                    + " carries no hierarchy, so there is nothing to stream: a viewer must download all "@
                    + (match info.data_bytes {
                    Some(n) => size_text(n as nat),
                    None => "of"@,
                }) + " of it before the first point appears."@,
                "Convert it: `voxelkloud convert <file> -o out.copc.laz`."@,
            ),
        ]
    } else {
        Seq::empty()
    }
}

/// What is found of each anomaly a reader survived.
pub open spec fn warning_found(w: Notice) -> Found {
    warns(
        "manifest"@,
        "manifest: "@ + w.code,
        w.path + " \u{2014} "@ + w.message,
        ""@,
    )
}

/// What is found of a cloud without a projection.
pub open spec fn projection_found(info: CloudInfo) -> Seq<Found> {
    if info.crs is None {
        seq![
            warns(
                "no-crs"@,
                "the cloud declares no projection"@,
                "It renders fine on its own and cannot be placed next to anything else. PotreeConverter drops the projection of everything it converts, so this is expected on a Potree cloud and recoverable only from the source file."@,
                "Convert from the original with `voxelkloud convert`, which carries the CRS through."@,
            ),
        ]
    } else {
        Seq::empty()
    }
}

/// What a summary means.
pub open spec fn manifest_found(info: CloudInfo) -> Seq<Found> {
    index_found(info) + info@.warnings.map_values(|w: Notice| warning_found(w)) + projection_found(
        info,
    )
}

/// Grades what a cloud says of itself.
pub fn manifest_checks(info: &CloudInfo, findings: &mut Vec<Finding>)
    ensures
        found(final(findings)@) == found(old(findings)@) + manifest_found(*info),
{
    if info.format == FormatId::Las {
        let laz = match &info.encoding {
            Some(e) => same(e.as_str(), "laszip"),
            None => false,
        };
        let kind: &str = if laz {
            "LAZ"
        } else {
            "LAS"
        };
        let size = match info.data_bytes {
            Some(n) => bytes(n),
            None => "of".to_owned(),
        };
        let front = cat3(
            "A bare ",
            kind,
            " carries no hierarchy, so there is nothing to stream: a viewer must download all ",
        );
        note(
            findings,
            Finding::fail(
                "not-indexed",
                "this file has no index",
                cat3(front.as_str(), size.as_str(), " of it before the first point appears."),
                "Convert it: `voxelkloud convert <file> -o out.copc.laz`.",
            ),
        );
    }
    let ghost start = found(findings@);
    assert(start =~= found(old(findings)@) + index_found(*info));
    let ghost all = info@.warnings.map_values(|w: Notice| warning_found(w));
    let mut i: usize = 0;
    assert(start + all.take(0) =~= start);
    while i < info.warnings.len()
        invariant
            i <= info.warnings.len(),
            all == info@.warnings.map_values(|w: Notice| warning_found(w)),
            found(findings@) == start + all.take(i as int),
        decreases info.warnings.len() - i,
    {
        let w = &info.warnings[i];
        let title = cat2("manifest: ", w.code);
        assert(info@.warnings[i as int] == w@);
        note(
            findings,
            Finding::warn(
                "manifest",
                title.as_str(),
                cat3(w.path.as_str(), " \u{2014} ", w.message.as_str()),
                "",
            ),
        );
        assert(all.take(i + 1) =~= all.take(i as int).push(all[i as int]));
        assert(found(findings@) =~= start + all.take(i + 1));
        i = i + 1;
    }
    assert(all.take(i as int) =~= all);
    if info.crs.is_none() {
        note(
            findings,
            Finding::warn(
                "no-crs",
                "the cloud declares no projection",
                "It renders fine on its own and cannot be placed next to anything else. PotreeConverter drops the projection of everything it converts, so this is expected on a Potree cloud and recoverable only from the source file.".to_owned(),
                "Convert from the original with `voxelkloud convert`, which carries the CRS through.",
            ),
        );
    }
    assert(found(findings@) =~= found(old(findings)@) + manifest_found(*info));
}

/// The payload of a node, on average.
pub open spec fn average(stats: HierarchyStats) -> nat
    recommends
        stats.nodes > 0,
{
    (stats.data_bytes / stats.nodes) as nat
}

/// What is found where the index and the manifest count differently.
pub open spec fn count_found(info: CloudInfo, stats: HierarchyStats) -> Seq<Found> {
    let counted = wrap64(sum(stats.points_by_level@));
    if info.point_count > 0 && counted != info.point_count {
        seq![
            warns(
                "point-count"@,
                "the index and the manifest disagree"@,
                "The nodes hold "@ + grouped(decimal(counted as nat))
                    + " points; the manifest claims "@ + grouped(decimal(info.point_count as nat))
                    + "."@,
                "Usually a conversion that was interrupted. Re-convert and compare again."@,
            ),
        ]
    } else {
        Seq::empty()
    }
}

/// What the payload of an average node means. Below some tens of kilobytes the
/// request overhead dominates; above a few megabytes the first frame waits on
/// one file.
pub open spec fn size_found(stats: HierarchyStats) -> Seq<Found> {
    let all = size_text(stats.data_bytes as nat) + " across "@ + grouped(
        decimal(stats.nodes as nat),
    ) + " nodes, "@ + size_text(average(stats));
    if stats.data_bytes == 0 {
        Seq::empty()
    } else if average(stats) < 0x8000 {
        seq![
            warns(
                "small-nodes"@,
                "the nodes are small"@,
                all
                    + " each on average. At a typical 40 ms round trip the viewer spends more time waiting than reading."@,
                "Convert with a larger node size, or serve over HTTP/2 so the requests pipeline."@,
            ),
        ]
    } else if average(stats) > 0x80_0000 {
        seq![
            warns(
                "large-nodes"@,
                "the nodes are large"@,
                size_text(average(stats))
                    + " each on average. The first frame waits on a whole one."@,
                "Convert with a smaller node size."@,
            ),
        ]
    } else {
        seq![passes("node-size"@, "node size"@, all + " each on average."@)]
    }
}

/// The ending of a plural, where there is not just one.
pub open spec fn ending(n: nat) -> Seq<char> {
    if n == 1 {
        ""@
    } else {
        "s"@
    }
}

fn plural(n: u64) -> (s: &'static str)
    ensures
        s@ == ending(n as nat),
{
    if n == 1 {
        ""
    } else {
        "s"
    }
}

/// What the reads of the index mean.
pub open spec fn reads_found(stats: HierarchyStats) -> Found {
    let reads = decimal(stats.hierarchy_requests as nat);
    let size = size_text(stats.hierarchy_bytes as nat);
    if stats.hierarchy_requests > 8 {
        warns(
            "hierarchy-requests"@,
            "the index takes many requests to read"@,
            reads + " reads for "@ + size
                + " of hierarchy. Each is a round trip before any point is drawn."@,
            "Convert with a larger hierarchy step, which trades a bigger first read for fewer of them."@,
        )
    } else {
        passes(
            "hierarchy"@,
            "index"@,
            "depth "@ + decimal(stats.depth as nat) + ", "@ + grouped(decimal(stats.nodes as nat))
                + " nodes, "@ + size + " in "@ + reads + " read"@ + ending(
                stats.hierarchy_requests as nat,
            ) + "."@,
        )
    }
}

/// What the shape of an index means: it decides how the cloud feels to open.
pub open spec fn shape_found(info: CloudInfo, stats: HierarchyStats) -> Seq<Found> {
    if stats.nodes == 0 {
        seq![
            fails(
                "empty-hierarchy"@,
                "the hierarchy holds no nodes"@,
                "Nothing can be drawn."@,
                "Re-run the conversion; the index is missing or unreadable."@,
            ),
        ]
    } else {
        (count_found(info, stats) + size_found(stats)).push(reads_found(stats))
    }
}

fn check_count(info: &CloudInfo, stats: &HierarchyStats, findings: &mut Vec<Finding>)
    ensures
        found(final(findings)@) == found(old(findings)@) + count_found(*info, *stats),
{
    let counted: u64 = stats.total_points();
    if info.point_count > 0 && counted != info.point_count {
        let a = count(counted);
        let b = count(info.point_count);
        note(
            findings,
            Finding::warn(
                "point-count",
                "the index and the manifest disagree",
                cat5(
                    "The nodes hold ",
                    a.as_str(),
                    " points; the manifest claims ",
                    b.as_str(),
                    ".",
                ),
                "Usually a conversion that was interrupted. Re-convert and compare again.",
            ),
        );
    }
    assert(found(findings@) =~= found(old(findings)@) + count_found(*info, *stats));
}

fn check_size(stats: &HierarchyStats, findings: &mut Vec<Finding>)
    requires
        stats.nodes > 0,
    ensures
        found(final(findings)@) == found(old(findings)@) + size_found(*stats),
{
    if stats.data_bytes > 0 {
        let mean: u64 = stats.data_bytes / stats.nodes;
        let total = bytes(stats.data_bytes);
        let nodes = count(stats.nodes);
        let each = bytes(mean);
        let all = cat5(total.as_str(), " across ", nodes.as_str(), " nodes, ", each.as_str());
        if mean < 0x8000 {
            note(
                findings,
                Finding::warn(
                    "small-nodes",
                    "the nodes are small",
                    cat2(
                        all.as_str(),
                        " each on average. At a typical 40 ms round trip the viewer spends more time waiting than reading.",
                    ),
                    "Convert with a larger node size, or serve over HTTP/2 so the requests pipeline.",
                ),
            );
        } else if mean > 0x80_0000 {
            note(
                findings,
                Finding::warn(
                    "large-nodes",
                    "the nodes are large",
                    cat2(
                        each.as_str(),
                        " each on average. The first frame waits on a whole one.",
                    ),
                    "Convert with a smaller node size.",
                ),
            );
        } else {
            note(
                findings,
                Finding::pass("node-size", "node size", cat2(all.as_str(), " each on average.")),
            );
        }
    }
    assert(found(findings@) =~= found(old(findings)@) + size_found(*stats));
}

fn check_reads(stats: &HierarchyStats, findings: &mut Vec<Finding>)
    ensures
        found(final(findings)@) == found(old(findings)@).push(reads_found(*stats)),
{
    let reads = decimal_of(stats.hierarchy_requests as u64);
    let size = bytes(stats.hierarchy_bytes);
    if stats.hierarchy_requests > 8 {
        note(
            findings,
            Finding::warn(
                "hierarchy-requests",
                "the index takes many requests to read",
                cat4(
                    reads.as_str(),
                    " reads for ",
                    size.as_str(),
                    " of hierarchy. Each is a round trip before any point is drawn.",
                ),
                "Convert with a larger hierarchy step, which trades a bigger first read for fewer of them.",
            ),
        );
    } else {
        let depth = decimal_of(stats.depth as u64);
        let nodes = count(stats.nodes);
        let front = cat5("depth ", depth.as_str(), ", ", nodes.as_str(), " nodes, ");
        note(
            findings,
            Finding::pass(
                "hierarchy",
                "index",
                cat7(
                    front.as_str(),
                    size.as_str(),
                    " in ",
                    reads.as_str(),
                    " read",
                    plural(stats.hierarchy_requests as u64),
                    ".",
                ),
            ),
        );
    }
}

/// Grades the shape of an index.
pub fn shape_checks(info: &CloudInfo, stats: &HierarchyStats, findings: &mut Vec<Finding>)
    ensures
        found(final(findings)@) == found(old(findings)@) + shape_found(*info, *stats),
{
    if stats.nodes == 0 {
        note(
            findings,
            Finding::fail(
                "empty-hierarchy",
                "the hierarchy holds no nodes",
                "Nothing can be drawn.".to_owned(),
                "Re-run the conversion; the index is missing or unreadable.",
            ),
        );
        assert(found(findings@) =~= found(old(findings)@) + shape_found(*info, *stats));
        return;
    }
    check_count(info, stats, findings);
    check_size(stats, findings);
    check_reads(stats, findings);
    assert(found(findings@) =~= found(old(findings)@) + shape_found(*info, *stats));
}

/// The worst level among some findings, and a pass where there are none.
pub open spec fn worst(list: Seq<Found>) -> Level
    decreases list.len(),
{
    if list.len() == 0 {
        Level::Pass
    } else {
        worst(list.drop_last()).worse(list.last().level)
    }
}

/// The findings of one level.
pub open spec fn tally(list: Seq<Found>, level: Level) -> nat
    decreases list.len(),
{
    if list.len() == 0 {
        0
    } else {
        tally(list.drop_last(), level) + if list.last().level == level {
            1nat
        } else {
            0
        }
    }
}

/// The worst level of a list of findings.
pub fn worst_of(findings: &Vec<Finding>) -> (l: Level)
    ensures
        l == worst(found(findings@)),
{
    let mut l = Level::Pass;
    let ghost all = found(findings@);
    let mut i: usize = 0;
    while i < findings.len()
        invariant
            i <= findings.len(),
            all == found(findings@),
            l == worst(all.take(i as int)),
        decreases findings.len() - i,
    {
        assert(all.take(i + 1).drop_last() =~= all.take(i as int));
        l = l.or_worse(findings[i].level);
        i = i + 1;
    }
    assert(all.take(i as int) =~= all);
    l
}

/// Whether a deployment is fit to stream from: a command that found something
/// broken ends in failure.
pub fn healthy(findings: &Vec<Finding>) -> (r: bool)
    ensures
        r == (worst(found(findings@)) != Level::Fail),
{
    worst_of(findings) != Level::Fail
}

/// A deployment passes exactly where nothing that was found is broken: no number
/// of warnings fails it, and no pass outweighs one failure.
pub proof fn fails_iff_something_is_broken(list: Seq<Found>)
    ensures
        (worst(list) == Level::Fail) <==> (exists|i: int|
            0 <= i < list.len() && (#[trigger] list[i]).level == Level::Fail),
        (worst(list) == Level::Pass) <==> (forall|i: int|
            0 <= i < list.len() ==> (#[trigger] list[i]).level == Level::Pass),
    decreases list.len(),
{
    if list.len() > 0 {
        let front = list.drop_last();
        fails_iff_something_is_broken(front);
        assert(forall|i: int| 0 <= i < front.len() ==> front[i] == list[i]);
        if list.last().level == Level::Fail {
            assert(list[list.len() - 1].level == Level::Fail);
        }
        if worst(front) == Level::Fail {
            let i = choose|i: int| 0 <= i < front.len() && (#[trigger] front[i]).level == Level::Fail;
            assert(list[i].level == Level::Fail);
        }
        if worst(list) == Level::Fail && list.last().level != Level::Fail {
            assert(worst(front) == Level::Fail);
        }
        if exists|i: int| 0 <= i < list.len() && (#[trigger] list[i]).level == Level::Fail {
            let i = choose|i: int| 0 <= i < list.len() && (#[trigger] list[i]).level == Level::Fail;
            if i < front.len() {
                assert(front[i].level == Level::Fail);
            }
        }
        if forall|i: int| 0 <= i < list.len() ==> (#[trigger] list[i]).level == Level::Pass {
            assert(list[list.len() - 1].level == Level::Pass);
            assert(forall|i: int| 0 <= i < front.len() ==> (#[trigger] front[i]).level
                == Level::Pass);
        }
        if worst(list) == Level::Pass {
            assert(worst(front) == Level::Pass);
            assert forall|i: int| 0 <= i < list.len() implies (#[trigger] list[i]).level
                == Level::Pass by {
                if i < front.len() {
                    assert(front[i].level == Level::Pass);
                }
            }
        }
    }
}

fn count_level(findings: &Vec<Finding>, level: Level) -> (n: u64)
    ensures
        n == tally(found(findings@), level),
        n <= findings.len(),
{
    let mut n: u64 = 0;
    let ghost all = found(findings@);
    let mut i: usize = 0;
    while i < findings.len()
        invariant
            i <= findings.len(),
            all == found(findings@),
            n == tally(all.take(i as int), level),
            n <= i,
        decreases findings.len() - i,
    {
        assert(all.take(i + 1).drop_last() =~= all.take(i as int));
        if findings[i].level == level {
            n = n + 1;
        }
        i = i + 1;
    }
    assert(all.take(i as int) =~= all);
    n
}

/// The mark before a finding.
pub open spec fn mark(color: bool, level: Level) -> Seq<char> {
    match level {
        Level::Pass => painted(color, "ok"@, "32"@),
        Level::Warn => painted(color, "warn"@, "33"@),
        Level::Fail => painted(color, "fail"@, "31"@),
    }
}

/// The lines that say one finding.
pub open spec fn finding_lines(color: bool, f: Found) -> Seq<Seq<char>> {
    let title = seq!["  "@ + padded(mark(color, f.level), 4) + "  "@ + painted(color, f.title, "1"@)];
    let detail = if f.detail.len() > 0 {
        seq!["        "@ + f.detail]
    } else {
        Seq::empty()
    };
    let fix = if f.fix.len() > 0 {
        seq!["        "@ + painted(color, "fix: "@ + f.fix, "2"@)]
    } else {
        Seq::empty()
    };
    (title + detail + fix).push(""@)
}

/// The lines that say several findings, in order.
pub open spec fn all_lines(color: bool, list: Seq<Found>) -> Seq<Seq<char>>
    decreases list.len(),
{
    if list.len() == 0 {
        Seq::empty()
    } else {
        all_lines(color, list.drop_last()) + finding_lines(color, list.last())
    }
}

/// The last line.
pub open spec fn verdict(list: Seq<Found>) -> Seq<char> {
    let warnings = tally(list, Level::Warn);
    let failures = tally(list, Level::Fail);
    match worst(list) {
        Level::Pass => "Nothing to fix."@,
        Level::Warn => decimal(warnings) + " thing"@ + ending(warnings) + " to look at."@,
        Level::Fail => decimal(failures) + " thing"@ + ending(failures) + " broken, "@ + decimal(
            warnings,
        ) + " to look at."@,
    }
}

/// The lines above the findings.
pub open spec fn head_lines(
    color: bool,
    target: Seq<char>,
    info: CloudInfo,
    stats: Option<HierarchyStats>,
) -> Seq<Seq<char>> {
    let head = seq![
        ""@,
        painted(color, "doctor  "@ + target, "1"@),
        row(color, "format"@, info.format.caption()),
        row(color, "points"@, grouped(decimal(info.point_count as nat))),
    ];
    (match stats {
        Some(s) => head.push(
            row(
                color,
                "nodes"@,
                grouped(decimal(s.nodes as nat)) + ", depth "@ + decimal(s.depth as nat),
            ),
        ),
        None => head,
    }).push(""@)
}

/// The report, line by line.
pub open spec fn report(
    color: bool,
    target: Seq<char>,
    info: CloudInfo,
    stats: Option<HierarchyStats>,
    list: Seq<Found>,
) -> Seq<Seq<char>> {
    (head_lines(color, target, info, stats) + all_lines(color, list)).push(verdict(list))
}

fn put_head(
    out: &Output,
    target: &str,
    info: &CloudInfo,
    stats: Option<&HierarchyStats>,
    lines: &mut Vec<String>,
)
    requires
        old(lines)@.len() == 0,
    ensures
        texts(final(lines)@) == head_lines(
            out.color,
            target@,
            *info,
            match stats {
                Some(s) => Some(*s),
                None => None,
            },
        ),
{
    assert(texts(lines@) =~= Seq::<Seq<char>>::empty());
    add_text(lines, "".to_owned());
    let t = cat2("doctor  ", target);
    add_text(lines, out.bold(t.as_str()));
    add_text(lines, out.row_of("format", info.format.title()));
    let n = count(info.point_count);
    add_text(lines, out.row_of("points", n.as_str()));
    if let Some(s) = stats {
        let nodes = count(s.nodes);
        let depth = decimal_of(s.depth as u64);
        let t = cat3(nodes.as_str(), ", depth ", depth.as_str());
        add_text(lines, out.row_of("nodes", t.as_str()));
    }
    add_text(lines, "".to_owned());
    assert(texts(lines@) =~= head_lines(
        out.color,
        target@,
        *info,
        match stats {
            Some(s) => Some(*s),
            None => None,
        },
    ));
}

fn put_finding(out: &Output, f: &Finding, lines: &mut Vec<String>)
    ensures
        texts(final(lines)@) == texts(old(lines)@) + finding_lines(out.color, f@),
{
    let mark = match f.level {
        Level::Pass => out.ok_mark(),
        Level::Warn => out.warn_mark(),
        Level::Fail => out.fail_mark(),
    };
    let mark = pad(mark.as_str(), 4);
    let title = out.bold(f.title.as_str());
    add_text(lines, cat4("  ", mark.as_str(), "  ", title.as_str()));
    if chars_of(f.detail.as_str()).len() > 0 {
        add_text(lines, cat2("        ", f.detail.as_str()));
    }
    if chars_of(f.fix.as_str()).len() > 0 {
        let fix = cat2("fix: ", f.fix.as_str());
        let fix = out.dim(fix.as_str());
        add_text(lines, cat2("        ", fix.as_str()));
    }
    add_text(lines, "".to_owned());
    assert(texts(lines@) =~= texts(old(lines)@) + finding_lines(out.color, f@));
}

fn put_verdict(findings: &Vec<Finding>) -> (s: String)
    ensures
        s@ == verdict(found(findings@)),
{
    let w: u64 = count_level(findings, Level::Warn);
    let f: u64 = count_level(findings, Level::Fail);
    let warnings = decimal_of(w);
    let failures = decimal_of(f);
    match worst_of(findings) {
        Level::Pass => "Nothing to fix.".to_owned(),
        Level::Warn => cat4(warnings.as_str(), " thing", plural(w), " to look at."),
        Level::Fail => {
            let front = cat4(failures.as_str(), " thing", plural(f), " broken, ");
            cat3(front.as_str(), warnings.as_str(), " to look at.")
        },
    }
}

/// The report as lines of text. A quiet command prints none.
pub fn print(
    out: &Output,
    target: &str,
    info: &CloudInfo,
    stats: Option<&HierarchyStats>,
    findings: &Vec<Finding>,
) -> (lines: Vec<String>)
    ensures
        texts(lines@) == if out.json || out.quiet {
            Seq::empty()
        } else {
            report(
                out.color,
                target@,
                *info,
                match stats {
                    Some(s) => Some(*s),
                    None => None,
                },
                found(findings@),
            )
        },
{
    let mut lines: Vec<String> = Vec::new();
    assert(texts(lines@) =~= Seq::<Seq<char>>::empty());
    if out.json || out.quiet {
        return lines;
    }
    put_head(out, target, info, stats, &mut lines);
    let ghost head = texts(lines@);
    let ghost all = found(findings@);
    let mut i: usize = 0;
    assert(head + all_lines(out.color, all.take(0)) =~= head);
    while i < findings.len()
        invariant
            i <= findings.len(),
            all == found(findings@),
            texts(lines@) == head + all_lines(out.color, all.take(i as int)),
        decreases findings.len() - i,
    {
        assert(all.take(i + 1).drop_last() =~= all.take(i as int));
        put_finding(out, &findings[i], &mut lines);
        assert(texts(lines@) =~= head + all_lines(out.color, all.take(i + 1)));
        i = i + 1;
    }
    assert(all.take(i as int) =~= all);
    add_text(&mut lines, put_verdict(findings));
    lines
}

/// One finding, as a document.
pub open spec fn finding_tree(f: Found) -> Tree {
    Tree::Object(
        seq![
            ("level"@, Tree::Text(f.level.spelling())),
            ("code"@, Tree::Text(f.code)),
            ("title"@, Tree::Text(f.title)),
            ("detail"@, Tree::Text(f.detail)),
            ("fix"@, Tree::Text(f.fix)),
        ],
    )
}

/// What a walk found, as a document.
pub open spec fn stats_tree(stats: HierarchyStats) -> Tree {
    Tree::Object(
        seq![
            ("nodes"@, Json::whole(stats.nodes)),
            ("depth"@, Json::whole(stats.depth as u64)),
            ("dataBytes"@, Json::whole(stats.data_bytes)),
            ("indexBytes"@, Json::whole(stats.hierarchy_bytes)),
            ("indexReads"@, Json::whole(stats.hierarchy_requests as u64)),
        ],
    )
}

/// The report, as a document.
pub open spec fn report_tree(
    target: Seq<char>,
    info: CloudInfo,
    stats: Option<HierarchyStats>,
    list: Seq<Found>,
) -> Tree {
    Tree::Object(
        seq![
            ("target"@, Tree::Text(target)),
            ("format"@, Tree::Text(info.format.spelling())),
            ("points"@, Json::whole(info.point_count)),
            ("status"@, Tree::Text(worst(list).spelling())),
            (
                "hierarchy"@,
                match stats {
                    Some(s) => stats_tree(s),
                    None => Tree::Null,
                },
            ),
            ("findings"@, Tree::Array(list.map_values(|f: Found| finding_tree(f)))),
        ],
    )
}

fn finding_json(f: &Finding) -> (j: Json)
    ensures
        j.tree() == finding_tree(f@),
{
    let mut o = Fields::new();
    o.put("level", Json::of_text(f.level.name()));
    o.put("code", Json::of_text(f.code));
    o.put("title", Json::of_text(f.title.as_str()));
    o.put("detail", Json::of_text(f.detail.as_str()));
    o.put("fix", Json::of_text(f.fix.as_str()));
    assert(o@ =~= finding_tree(f@)->Object_0);
    o.object()
}

fn stats_json(stats: &HierarchyStats) -> (j: Json)
    ensures
        j.tree() == stats_tree(*stats),
{
    let mut o = Fields::new();
    o.put("nodes", Json::count(stats.nodes));
    o.put("depth", Json::count(stats.depth as u64));
    o.put("dataBytes", Json::count(stats.data_bytes));
    o.put("indexBytes", Json::count(stats.hierarchy_bytes));
    o.put("indexReads", Json::count(stats.hierarchy_requests as u64));
    assert(o@ =~= stats_tree(*stats)->Object_0);
    o.object()
}

/// The report as one document.
pub fn document(
    target: &str,
    info: &CloudInfo,
    stats: Option<&HierarchyStats>,
    findings: &Vec<Finding>,
) -> (j: Json)
    ensures
        j.tree() == report_tree(
            target@,
            *info,
            match stats {
                Some(s) => Some(*s),
                None => None,
            },
            found(findings@),
        ),
{
    let ghost all = found(findings@);
    let ghost whole = all.map_values(|f: Found| finding_tree(f));
    let mut items: Vec<Json> = Vec::new();
    let mut i: usize = 0;
    assert(trees(items@) =~= whole.take(0));
    while i < findings.len()
        invariant
            i <= findings.len(),
            all == found(findings@),
            whole == all.map_values(|f: Found| finding_tree(f)),
            trees(items@) == whole.take(i as int),
        decreases findings.len() - i,
    {
        let ghost before = items@;
        let j = finding_json(&findings[i]);
        items.push(j);
        assert(trees(items@) =~= trees(before).push(j.tree()));
        assert(whole.take(i + 1) =~= whole.take(i as int).push(whole[i as int]));
        i = i + 1;
    }
    assert(whole.take(i as int) =~= whole);
    let list = Json::Array(items);
    assert(list.tree()->Array_0 =~= whole);
    let mut o = Fields::new();
    o.put("target", Json::of_text(target));
    o.put("format", Json::of_text(info.format.name()));
    o.put("points", Json::count(info.point_count));
    o.put("status", Json::of_text(worst_of(findings).name()));
    match stats {
        Some(s) => {
            o.put("hierarchy", stats_json(s));
        },
        None => {
            o.put("hierarchy", Json::Null);
        },
    }
    o.put("findings", list);
    assert(o@ =~= report_tree(
        target@,
        *info,
        match stats {
            Some(s) => Some(*s),
            None => None,
        },
        all,
    )->Object_0);
    o.object()
}

} // verus!
