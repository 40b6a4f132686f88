//! What a diagnosis finds, and when.

use crate::cli::doctor::{
    cache_found, cors_found, count_found, encoding_found, expose_found, index_found, latency_found,
    manifest_found, preflight_found, projection_found, range_found, reads_found, report_tree,
    shape_found, size_found, tally, transport_found, unreachable_found, verdict, warning_found,
    worst, Found, Level,
};
use crate::cli::http::{header_named, Probe};
use crate::cli::out::padded;
use crate::cloud::{sum, wrap64, CloudInfo, FormatId, HierarchyStats};
use crate::json::{Json, Tree};
use crate::text::{decimal, lowered, occurs};
use crate::warning::Notice;
use vstd::prelude::*;

verus! {

/// A payload passes where it comes without an encoding, or with the one that
/// changes nothing, and with any other it is broken.
pub proof fn an_encoded_payload_is_broken(ranged: Probe)
    ensures
        encoding_found(ranged).code == "range-encoded"@,
        header_named(ranged.headers@, "content-encoding"@) is None ==> encoding_found(ranged).level
            == Level::Pass,
        header_named(ranged.headers@, "content-encoding"@) matches Some(v) ==> {
            &&& lowered(v) == "identity"@ ==> encoding_found(ranged).level == Level::Pass
            &&& lowered(v) != "identity"@ ==> encoding_found(ranged).level == Level::Fail
        },
{
    reveal_strlit("identity");
    assert(lowered("identity"@) =~= "identity"@);
}

/// Byte ranges pass only with partial content, which has to have the size that was
/// asked for; everything else is broken.
pub proof fn only_partial_content_passes(ranged: Probe, url: Seq<char>)
    ensures
        ({
            let list = range_found(ranged, url);
            &&& ranged.status == 206 ==> list.len() >= 1 && list[0].level == Level::Pass
                && list[0].code == "range"@
            &&& ranged.status == 206 && ranged.body@.len() == 16 ==> list.len() == 1
            &&& ranged.status == 206 && ranged.body@.len() != 16 ==> list.len() == 2
                && list[1].level == Level::Warn && list[1].code == "range-length"@
            &&& ranged.status != 206 ==> list.len() == 1 && list[0].level == Level::Fail
            &&& ranged.status == 200 ==> list[0].code == "no-range"@
            &&& ranged.status == 403 || ranged.status == 404 ==> list[0].code == "payload-missing"@
            &&& ranged.status != 206 && ranged.status != 200 && ranged.status != 403
                && ranged.status != 404 ==> list[0].code == "payload-status"@
        }),
{
}

/// A page may read the answer where the policy names its origin or any; otherwise
/// the deployment is broken for browsers.
pub proof fn a_policy_that_leaves_the_page_out_is_broken(cors: Probe, origin: Seq<char>)
    ensures
        ({
            let list = cors_found(cors, origin);
            let allowed = header_named(cors.headers@, "access-control-allow-origin"@) matches Some(
                v,
            ) && (v == "*"@ || v == origin);
            &&& list.len() >= 1 && list[0].code == "cors"@
            &&& allowed ==> list.len() == 2 && list[0].level == Level::Pass && list[1]
                == expose_found(cors)
            &&& !allowed ==> list.len() == 1 && list[0].level == Level::Fail
        }),
{
}

/// The headers of a range can be read where the policy exposes all three of them,
/// by their names or by a star.
pub proof fn the_headers_of_a_range_have_to_be_exposed(cors: Probe, exposed: Seq<char>)
    requires
        header_named(cors.headers@, "access-control-expose-headers"@) == Some(exposed),
    ensures
        expose_found(cors).code == "cors-expose"@,
        expose_found(cors).level == Level::Pass <==> occurs(lowered(exposed), "*"@) || (occurs(
            lowered(exposed),
            "content-range"@,
        ) && occurs(lowered(exposed), "content-length"@) && occurs(
            lowered(exposed),
            "accept-ranges"@,
        )),
        expose_found(cors).level == Level::Pass || expose_found(cors).level == Level::Warn,
{
}

/// Where no header is exposed the range headers cannot be read.
pub proof fn nothing_exposed_is_warned_of(cors: Probe)
    requires
        header_named(cors.headers@, "access-control-expose-headers"@) is None,
    ensures
        expose_found(cors).level == Level::Warn,
{
    reveal_strlit("content-range");
    reveal_strlit("*");
    let none = lowered(Seq::empty());
    assert(none.len() == 0);
    assert("content-range"@.len() == 13 && "*"@.len() == 1);
    assert(!occurs(none, "content-range"@));
    assert(!occurs(none, "*"@));
}

/// A preflight is warned of exactly where it was answered, and not with success.
pub proof fn a_refused_preflight_is_warned_of(preflight: Probe)
    ensures
        ({
            let list = preflight_found(preflight);
            &&& preflight.error is None && (preflight.status < 200 || preflight.status > 299)
                ==> list.len() == 1 && list[0].level == Level::Warn && list[0].code == "preflight"@
            &&& preflight.error is Some || 200 <= preflight.status <= 299 ==> list.len() == 0
        }),
{
}

/// A payload that may not be kept, or of which nothing is said, is warned of.
pub proof fn an_uncacheable_payload_is_warned_of(ranged: Probe)
    ensures
        cache_found(ranged).code == "cache"@,
        cache_found(ranged).level == Level::Pass <==> (header_named(
            ranged.headers@,
            "cache-control"@,
        ) matches Some(v) && !occurs(v, "no-store"@) && !occurs(v, "no-cache"@)),
        cache_found(ranged).level == Level::Pass || cache_found(ranged).level == Level::Warn,
{
}

/// A transport is broken exactly where ranges are not served, where the payload
/// is encoded, or where a page may not read it; and every check is reported.
pub proof fn a_transport_is_broken_where_one_of_its_checks_is(
    ranged: Probe,
    cors: Probe,
    preflight: Probe,
    url: Seq<char>,
    origin: Seq<char>,
    latency: Seq<char>,
)
    ensures
        ({
            let list = transport_found(ranged, cors, preflight, url, origin, latency);
            let encoded = header_named(ranged.headers@, "content-encoding"@) matches Some(v)
                && lowered(v) != "identity"@;
            let allowed = header_named(cors.headers@, "access-control-allow-origin"@) matches Some(
                v,
            ) && (v == "*"@ || v == origin);
            &&& worst(list) == Level::Fail <==> ranged.status != 206 || encoded || !allowed
            &&& list.contains(encoding_found(ranged))
            &&& list.contains(cache_found(ranged))
            &&& list.contains(cors_found(cors, origin)[0])
            &&& list.contains(range_found(ranged, url)[0])
            &&& list[list.len() - 1] == latency_found(latency)
            &&& latency_found(latency).level == Level::Pass
            &&& preflight_found(preflight).len() > 0 ==> list.contains(
                preflight_found(preflight)[0],
            )
        }),
{
    let list = transport_found(ranged, cors, preflight, url, origin, latency);
    let a = range_found(ranged, url);
    let b = cors_found(cors, origin);
    let c = preflight_found(preflight);
    only_partial_content_passes(ranged, url);
    an_encoded_payload_is_broken(ranged);
    a_policy_that_leaves_the_page_out_is_broken(cors, origin);
    a_refused_preflight_is_warned_of(preflight);
    an_uncacheable_payload_is_warned_of(ranged);
    let n = a.len() as int;
    let m = n + 1 + b.len();
    let k = m + c.len();
    assert(list.len() == k + 2);
    assert(list[0] == a[0]);
    assert(list[n] == encoding_found(ranged));
    assert(list[n + 1] == b[0]);
    assert(list[k] == cache_found(ranged));
    assert(list[k + 1] == latency_found(latency));
    if c.len() > 0 {
        assert(list[m] == c[0]);
    }
    crate::cli::doctor::fails_iff_something_is_broken(list);
    let e = expose_found(cors);
    assert(e.level == Level::Pass || e.level == Level::Warn);
    assert forall|i: int| 0 <= i < list.len() implies (#[trigger] list[i]).level != Level::Fail || i
        == 0 || i == n || i == n + 1 by {
        if i < n {
            assert(list[i] == a[i]);
        } else if n + 1 <= i < m {
            assert(list[i] == b[i - n - 1]);
        } else if m <= i < k {
            assert(list[i] == c[i - m]);
        }
    }
}

/// What cannot be fetched is broken.
pub proof fn what_cannot_be_fetched_is_broken(ranged: Probe, error: Seq<char>)
    ensures
        unreachable_found(ranged, error).level == Level::Fail,
        unreachable_found(ranged, error).code == "unreachable"@,
        unreachable_found(ranged, error).detail == ranged.url@ + ": "@ + error,
{
}

/// A summary is broken exactly where the file has no index; every anomaly of it is
/// warned of, and so is a projection that is missing.
pub proof fn a_file_without_an_index_is_broken(info: CloudInfo)
    ensures
        ({
            let list = manifest_found(info);
            let n = info@.warnings.len() as int;
            let first: int = if info.format == FormatId::Las {
                1
            } else {
                0
            };
            let last: int = if info.crs is None {
                1
            } else {
                0
            };
            &&& list.len() == first + n + last
            &&& info.format == FormatId::Las ==> list[0].level == Level::Fail && list[0].code
                == "not-indexed"@
            &&& forall|i: int|
                0 <= i < n ==> (#[trigger] list[first + i]).level == Level::Warn && list[first
                    + i].title == "manifest: "@ + info@.warnings[i].code
            &&& info.crs is None ==> list[list.len() - 1].level == Level::Warn && list[list.len()
                - 1].code == "no-crs"@
        }),
{
    let list = manifest_found(info);
    let n = info@.warnings.len() as int;
    let a = index_found(info);
    let b = info@.warnings.map_values(|w: Notice| warning_found(w));
    let c = projection_found(info);
    let first = a.len() as int;
    assert forall|i: int| 0 <= i < n implies #[trigger] list[first + i] == warning_found(
        info@.warnings[i],
    ) by {
        assert(list[first + i] == b[i]);
    }
}

/// An index without nodes is broken, and one with nodes is not: it is warned of
/// where it counts other points than the manifest, where its nodes are below 32
/// KiB or above 8 MiB on average, and where it takes more than eight reads.
pub proof fn an_index_is_warned_of_by_its_shape(info: CloudInfo, stats: HierarchyStats)
    ensures
        stats.nodes == 0 ==> worst(shape_found(info, stats)) == Level::Fail,
        stats.nodes > 0 ==> worst(shape_found(info, stats)) != Level::Fail,
        stats.nodes > 0 ==> {
            let counted = wrap64(sum(stats.points_by_level@));
            let size = size_found(stats);
            let average = stats.data_bytes / stats.nodes;
            &&& count_found(info, stats).len() > 0 <==> info.point_count != 0 && counted
                != info.point_count
            &&& count_found(info, stats).len() > 0 ==> count_found(info, stats)[0].code
                == "point-count"@ && count_found(info, stats)[0].level == Level::Warn
            &&& stats.data_bytes == 0 ==> size.len() == 0
            &&& stats.data_bytes > 0 && average < 32768 ==> size[0].code == "small-nodes"@
                && size[0].level == Level::Warn
            &&& stats.data_bytes > 0 && average > 8388608 ==> size[0].code == "large-nodes"@
                && size[0].level == Level::Warn
            &&& stats.data_bytes > 0 && 32768 <= average <= 8388608 ==> size[0].level == Level::Pass
            &&& reads_found(stats).level == (if stats.hierarchy_requests > 8 {
                Level::Warn
            } else {
                Level::Pass
            })
            &&& shape_found(info, stats).last() == reads_found(stats)
            &&& shape_found(info, stats) == count_found(info, stats) + size + seq![
                reads_found(stats),
            ]
        },
{
    let list = shape_found(info, stats);
    crate::cli::doctor::fails_iff_something_is_broken(list);
    if stats.nodes == 0 {
        assert(list[0].level == Level::Fail);
    } else {
        let a = count_found(info, stats);
        let b = size_found(stats);
        assert(list =~= a + b + seq![reads_found(stats)]);
        assert forall|i: int| 0 <= i < list.len() implies (#[trigger] list[i]).level
            != Level::Fail by {
            if i < a.len() {
                assert(list[i] == a[i]);
            } else if i < a.len() + b.len() {
                assert(list[i] == b[i - a.len()]);
            }
        }
    }
}

/// How many of some findings have a level is how many there are.
pub proof fn findings_are_counted(list: Seq<Found>, f: Found, level: Level)
    ensures
        tally(Seq::empty(), level) == 0,
        tally(list.push(f), level) == tally(list, level) + (if f.level == level {
            1nat
        } else {
            0
        }),
        worst(list) == Level::Pass ==> verdict(list) == "Nothing to fix."@,
        worst(list) == Level::Warn && tally(list, Level::Warn) > 1 ==> verdict(list) == decimal(
            tally(list, Level::Warn),
        ) + " thing"@ + "s"@ + " to look at."@,
        worst(list) == Level::Fail && tally(list, Level::Fail) > 1 ==> verdict(list) == decimal(
            tally(list, Level::Fail),
        ) + " thing"@ + "s"@ + " broken, "@ + decimal(tally(list, Level::Warn)) + " to look at."@,
{
    assert(list.push(f).drop_last() =~= list);
}

/// A report says of a deployment how bad the worst finding is, and lists each of
/// the findings as it is.
pub proof fn a_report_lists_every_finding(
    target: Seq<char>,
    info: CloudInfo,
    stats: Option<HierarchyStats>,
    list: Seq<Found>,
    i: int,
)
    requires
        0 <= i < list.len(),
    ensures
        ({
            let t = report_tree(target, info, stats, list)->Object_0;
            let f = t[5].1->Array_0[i]->Object_0;
            &&& t[0] == ("target"@, Tree::Text(target))
            &&& t[1] == ("format"@, Tree::Text(info.format.spelling()))
            &&& t[2] == ("points"@, Json::whole(info.point_count))
            &&& t[3] == ("status"@, Tree::Text(worst(list).spelling()))
            &&& t[4].0 == "hierarchy"@
            &&& t[5].0 == "findings"@
            &&& t[5].1->Array_0.len() == list.len()
            &&& f[0] == ("level"@, Tree::Text(list[i].level.spelling()))
            &&& f[1] == ("code"@, Tree::Text(list[i].code))
            &&& f[2] == ("title"@, Tree::Text(list[i].title))
            &&& f[3] == ("detail"@, Tree::Text(list[i].detail))
            &&& f[4] == ("fix"@, Tree::Text(list[i].fix))
            &&& stats matches Some(s) ==> {
                let h = t[4].1->Object_0;
                &&& h[0] == ("nodes"@, Json::whole(s.nodes))
                &&& h[1] == ("depth"@, Json::whole(s.depth as u64))
                &&& h[2] == ("dataBytes"@, Json::whole(s.data_bytes))
                &&& h[3] == ("indexBytes"@, Json::whole(s.hierarchy_bytes))
                &&& h[4] == ("indexReads"@, Json::whole(s.hierarchy_requests as u64))
            }
        }),
        Level::Pass.spelling() == "pass"@,
        Level::Warn.spelling() == "warn"@,
        Level::Fail.spelling() == "fail"@,
{
}

/// The lines of a report: the findings in order, each with its mark and its title,
/// what was found, and what to do.
pub proof fn findings_are_told_in_order(list: Seq<Found>, f: Found)
    ensures
        ({
            let l = crate::cli::doctor::finding_lines(false, f);
            let mark = match f.level {
                Level::Pass => "ok"@,
                Level::Warn => "warn"@,
                Level::Fail => "fail"@,
            };
            &&& crate::cli::doctor::all_lines(false, Seq::empty()).len() == 0
            &&& crate::cli::doctor::all_lines(false, list.push(f)) == crate::cli::doctor::all_lines(
                false,
                list,
            ) + l
            &&& l[0] == "  "@ + padded(mark, 4) + "  "@ + f.title
            &&& f.detail.len() > 0 ==> l[1] == "        "@ + f.detail
            &&& f.fix.len() > 0 ==> l[l.len() - 2] == "        "@ + ("fix: "@ + f.fix)
            &&& l.last() == ""@
            &&& f.detail.len() > 0 && f.fix.len() > 0 ==> l.len() == 4
            &&& f.detail.len() == 0 && f.fix.len() == 0 ==> l.len() == 2
        }),
{
    assert(list.push(f).drop_last() =~= list);
}

/// The last line of a report counts what is broken and what is to look at.
pub proof fn the_last_line_counts(list: Seq<Found>)
    ensures
        ({
            let warnings = tally(list, Level::Warn);
            let failures = tally(list, Level::Fail);
            let v = crate::cli::doctor::verdict(list);
            &&& worst(list) == Level::Pass ==> v == "Nothing to fix."@
            &&& worst(list) == Level::Warn && warnings == 1 ==> v == decimal(1) + " thing"@ + ""@
                + " to look at."@
            &&& worst(list) == Level::Warn && warnings != 1 ==> v == decimal(warnings) + " thing"@
                + "s"@ + " to look at."@
            &&& worst(list) == Level::Fail && failures != 1 ==> v == decimal(failures) + " thing"@
                + "s"@ + " broken, "@ + decimal(warnings) + " to look at."@
        }),
{
}

/// The headers that are missing are listed in order, with commas between them.
pub proof fn missing_headers_are_listed()
    ensures
        crate::cli::doctor::listed(true, true, true) == "content-range"@ + ", "@
            + "content-length"@ + ", "@ + "accept-ranges"@,
        crate::cli::doctor::listed(true, false, false) == "content-range"@,
        crate::cli::doctor::listed(false, true, false) == "content-length"@,
        crate::cli::doctor::listed(false, false, true) == "accept-ranges"@,
        crate::cli::doctor::listed(true, false, true) == "content-range"@ + ", "@
            + "accept-ranges"@,
        crate::cli::doctor::listed(false, false, false).len() == 0,
{
}

/// The round trip is told and never broken.
pub proof fn the_round_trip_is_told(latency: Seq<char>)
    ensures
        crate::cli::doctor::latency_found(latency).level == Level::Pass,
        crate::cli::doctor::latency_found(latency).code == "latency"@,
{
}

} // verus!
