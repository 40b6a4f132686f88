use voxelkloud::bounds::Bounds;
use voxelkloud::cli::doctor::{self, Finding, Level};
use voxelkloud::cli::http::{
    check_ranged, check_whole, is_url, join, judge_range, object_size, probe_url, range_text,
    split_target, taken_size, user_agent, Probe, Ranged,
};
use voxelkloud::cli::out::{bytes, count, Output};
use voxelkloud::cli::{convert, inspect, optimize};
use voxelkloud::cloud::{CloudInfo, FormatId, HierarchyStats, NodeInfo};
use voxelkloud::convert::{
    budget, not_readable, output_standing, wanted_format, OutputFormat, Scanner, Standing,
};
use voxelkloud::double::Real;
use voxelkloud::error::Error;
use voxelkloud::octree::OctreeKey;
use voxelkloud::optimize::OptimizeReport;
use voxelkloud::warning::Warning;
use voxelkloud::write::ept::EptEncoding;
use voxelkloud::write::potree::PotreeEncoding;
use voxelkloud::write::WriteReport;

fn double(value: f64) -> Real {
    Real { bits: value.to_bits() }
}

fn plain() -> Output {
    Output::new(false, true, false, true)
}

fn probe(status: u16, headers: &[(&str, &str)], body: usize) -> Probe {
    Probe {
        url: "http://host/octree.bin".to_string(),
        status,
        headers: headers.iter().map(|(k, v)| (k.to_string(), v.to_string())).collect(),
        body: vec![0; body],
        elapsed_micros: 0,
        error: None,
    }
}

fn codes(findings: &[Finding]) -> Vec<(&'static str, Level)> {
    findings.iter().map(|f| (f.code, f.level)).collect()
}

fn check(ranged: &Probe, cors: &Probe, preflight: &Probe) -> Vec<Finding> {
    let mut findings = Vec::new();
    doctor::transport_checks(
        ranged,
        cors,
        preflight,
        "http://host/octree.bin",
        "https://example.com",
        "12 ms",
        &mut findings,
    );
    findings
}

#[test]
fn a_good_server_passes_every_check() {
    let ranged = probe(
        206,
        &[("Content-Range", "bytes 0-15/1000"), ("Cache-Control", "public, max-age=9")],
        16,
    );
    let cors = probe(
        206,
        &[
            ("access-control-allow-origin", "*"),
            ("access-control-expose-headers", "Content-Range, Content-Length, Accept-Ranges"),
        ],
        16,
    );
    let preflight = probe(204, &[("Access-Control-Allow-Headers", "Range")], 0);
    let findings = check(&ranged, &cors, &preflight);
    assert!(findings.iter().all(|f| f.level == Level::Pass), "{:?}", codes(&findings));
    assert_eq!(findings[0].code, "range");
    assert_eq!(
        findings[0].detail,
        "206 Partial Content, 16 bytes, Content-Range: bytes 0-15/1000"
    );
    assert!(doctor::healthy(&findings));
}

#[test]
fn a_server_that_ignores_ranges_fails() {
    let ranged = probe(200, &[("content-encoding", "gzip")], 64);
    let cors = probe(200, &[], 64);
    let findings = check(&ranged, &cors, &probe(405, &[], 0));
    let found = codes(&findings);
    assert!(found.contains(&("no-range", Level::Fail)));
    assert!(found.contains(&("range-encoded", Level::Fail)));
    assert!(found.contains(&("cors", Level::Fail)));
    assert!(!doctor::healthy(&findings));
    assert_eq!(doctor::worst_of(&findings), Level::Fail);
}

#[test]
fn a_missing_payload_and_a_wrong_length_are_told_apart() {
    let cors = probe(206, &[("access-control-allow-origin", "https://other")], 16);
    let ok = probe(204, &[], 0);
    let missing = check(&probe(404, &[], 9), &cors, &ok);
    assert_eq!(missing[0].code, "payload-missing");
    assert_eq!(missing[0].title, "HTTP 404 for the payload");
    assert!(missing.iter().any(|f| f.title == "CORS names a different origin"));
    let odd = check(&probe(500, &[], 0), &cors, &ok);
    assert_eq!((odd[0].code, odd[0].fix.as_str()), ("payload-status", ""));
    let short = check(&probe(206, &[], 5), &cors, &ok);
    assert_eq!((short[1].code, short[1].level), ("range-length", Level::Warn));
}

#[test]
fn an_unreachable_payload_stops_the_checks() {
    let mut broken = probe(0, &[], 0);
    broken.error = Some("refused".to_string());
    let mut findings = Vec::new();
    assert!(!doctor::reach(&broken, &mut findings));
    assert_eq!(codes(&findings), vec![("unreachable", Level::Fail)]);
    assert_eq!(findings[0].detail, "http://host/octree.bin: refused");
    let mut none = Vec::new();
    assert!(doctor::reach(&probe(206, &[], 16), &mut none));
    assert!(none.is_empty());
}

#[test]
fn probes_know_their_headers_and_the_size_of_the_object() {
    let p = probe(206, &[("Content-Range", "bytes 0-15/1234")], 16);
    assert_eq!(p.header("content-range"), Some("bytes 0-15/1234"));
    assert!(p.ok() && p.body_len() == 16);
    assert_eq!(object_size(&p), Some(1234));
    assert_eq!(object_size(&probe(200, &[("Content-Length", "77")], 0)), Some(77));
    assert!(!probe(404, &[], 0).ok());
    assert!(matches!(judge_range(206, 10, 10), Ranged::Whole));
    assert!(matches!(judge_range(206, 9, 10), Ranged::Cut));
    assert!(matches!(judge_range(200, 10, 10), Ranged::Ignored));
    assert!(matches!(judge_range(416, 0, 10), Ranged::PastEnd));
    assert!(matches!(judge_range(403, 0, 10), Ranged::Refused));
    assert_eq!(user_agent(), "voxelkloud/0.1.0");
}

#[test]
fn targets_come_apart_and_go_together() {
    assert!(is_url("https://h/a") && is_url("http://h") && !is_url("/data/http://h"));
    assert_eq!(join("http://h/a?sig=1", "b.bin"), "http://h/a/b.bin");
    assert_eq!(join("http://h/a/", ""), "http://h/a/");
    assert_eq!(
        split_target("http://h/a/cloud.copc.laz?x#y"),
        ("http://h/a/".to_string(), "cloud.copc.laz".to_string())
    );
    assert_eq!(split_target("http://h/a/"), ("http://h/a/".to_string(), String::new()));
    assert_eq!(split_target("http://h"), ("http://h/".to_string(), String::new()));
    let file = "http://h/a/cloud.copc.laz?x";
    assert_eq!(probe_url(file, None), file);
    assert_eq!(probe_url(file, Some("")), file);
    assert_eq!(probe_url("http://h/a/metadata.json", Some("octree.bin")), "http://h/a/octree.bin");
}

#[test]
fn numbers_are_written_as_people_read_them() {
    assert_eq!(bytes(0), "0 B");
    assert_eq!(bytes(1023), "1023 B");
    assert_eq!(bytes(1024), "1.0 KiB");
    assert_eq!(bytes(1536), "1.5 KiB");
    assert_eq!(bytes(102_400), "100 KiB");
    assert_eq!(bytes(134 * 1024 * 1024), "134 MiB");
    assert_eq!(bytes(u64::MAX), "16777216 TiB");
    assert_eq!(count(0), "0");
    assert_eq!(count(999), "999");
    assert_eq!(count(10_653_336), "10,653,336");
}

#[test]
fn lines_are_kept_back_where_they_would_be_in_the_way() {
    let out = plain();
    assert_eq!(out.field("format", "LAS"), Some(format!("  {:<22} LAS", "format")));
    assert_eq!(out.heading("x").as_deref(), Some("x"));
    assert!(Output::new(true, false, false, true).line("x").is_none());
    assert!(Output::new(false, false, true, true).line("x").is_none());
    let painted = Output::new(false, false, false, true);
    assert_eq!(painted.ok_mark(), "\u{1b}[32mok\u{1b}[0m");
    assert_eq!(painted.field("a", "b").unwrap(), format!("  {:<22} b", "\u{1b}[2ma\u{1b}[0m"));
    assert!(!Output::new(true, false, false, true).color);
}

fn cloud() -> CloudInfo {
    let mut info = CloudInfo::new(FormatId::Las, "cloud.las".to_string());
    info.point_count = 1234;
    info.bounds = Bounds::new([double(0.0); 3], [double(2.0); 3]);
    info.tight_bounds = info.bounds;
    info
}

fn stats(levels: &[(u32, u64)]) -> HierarchyStats {
    let mut stats = HierarchyStats::new();
    for (level, points) in levels {
        stats.add(NodeInfo {
            key: OctreeKey::new(*level, 0, 0, 0),
            point_count: *points,
            byte_size: points * 10,
        });
    }
    stats
}

#[test]
fn an_unindexed_cloud_is_graded_as_one() {
    let mut findings = Vec::new();
    doctor::manifest_checks(&cloud(), &mut findings);
    assert!(!findings.is_empty());
    assert_eq!(codes(&findings)[0], ("not-indexed", Level::Fail));
    let lines = doctor::print(&plain(), "cloud.las", &cloud(), None, &findings);
    assert!(lines.iter().any(|l| l.contains("cloud.las")));
    let report = doctor::document("cloud.las", &cloud(), None, &findings);
    assert_eq!(report.text_at("target").map(String::as_str), Some("cloud.las"));
}

#[test]
fn a_hierarchy_that_loses_points_is_said_to() {
    let mut info = cloud();
    info.format = FormatId::Copc;
    let mut findings = Vec::new();
    doctor::shape_checks(&info, &stats(&[(0, 100), (1, 200)]), &mut findings);
    assert_eq!(codes(&findings)[0], ("point-count", Level::Warn));
    assert_eq!(findings[0].detail, "The nodes hold 300 points; the manifest claims 1,234.");
    let mut whole = Vec::new();
    info.point_count = 300;
    doctor::shape_checks(&info, &stats(&[(0, 100), (1, 200)]), &mut whole);
    assert!(whole.iter().all(|f| f.code != "point-count"), "{:?}", codes(&whole));
    let mut empty = Vec::new();
    doctor::shape_checks(&info, &stats(&[]), &mut empty);
    assert_eq!(codes(&empty), vec![("empty-hierarchy", Level::Fail)]);
}

#[test]
fn an_inspection_names_what_is_there() {
    let info = cloud();
    let measures = inspect::Measures {
        extent: Some(("2 x 2 x 2".to_string(), "0".to_string(), "2".to_string())),
        cube: None,
        spacing: None,
    };
    let all = stats(&[(0, 1234)]);
    let lines = inspect::print(&plain(), &info, &measures, Some(&all));
    assert!(lines.iter().any(|l| l.contains("1,234")));
    assert!(lines.iter().any(|l| l.contains("2 x 2 x 2")));
    let json = inspect::document(&info, Some(&all));
    assert_eq!(json.unsigned_at("points"), Some(1234));
    assert!(inspect::hint(FormatId::Las, true).is_none());
    let w = Warning::new("odd", "vlrs".to_string(), "a thing".to_string());
    assert!(inspect::warning_line(&w).contains("a thing"));
}

#[test]
fn formats_go_by_their_names() {
    let name = |asked: &str| OutputFormat::parse(asked).map(|f| f.name());
    assert_eq!(name("copc"), Some("copc"));
    assert_eq!(name("potree"), Some("potree-v2"));
    assert!(matches!(
        wanted_format("ept"),
        Ok(OutputFormat::Ept(EptEncoding::Laszip))
    ));
    assert!(OutputFormat::Copc.is_file());
    assert!(!OutputFormat::PotreeV2(PotreeEncoding::Default).is_file());
    assert!(matches!(wanted_format("zip"), Err(Error::Unsupported(_))));
}

#[test]
fn an_output_in_the_way_is_kept_unless_it_is_given_up() {
    assert!(matches!(output_standing("o", false, false, false), Ok(Standing::Free)));
    assert!(output_standing("o", true, false, false).is_err());
    assert!(matches!(output_standing("o", true, false, true), Ok(Standing::RemoveFile)));
    assert!(matches!(output_standing("o", true, true, true), Ok(Standing::RemoveDirectory)));
    assert_eq!(budget(3), 3 << 20);
    assert_eq!(budget(u64::MAX), u64::MAX);
}

#[test]
fn nothing_to_convert_is_an_error() {
    assert!(Scanner::begin(0).is_err());
    assert!(matches!(not_readable("c", FormatId::Ept), Error::Unsupported(_)));
}

#[test]
fn a_conversion_reports_what_it_wrote() {
    let mut scanner = Scanner::begin(1).expect("one input");
    let report = voxelkloud::e57::ReadReport { points: 5, dropped: 1, colourless: 0 };
    let extent = Bounds::new([double(0.0); 3], [double(1.0); 3]);
    let measured = voxelkloud::e57::measure(extent, report).expect("has points");
    scanner.add_e57("in.e57", &Vec::new(), false, &measured, &None);
    let done = convert::ConvertReport {
        scan: scanner.finish().expect("scans"),
        write: WriteReport {
            nodes: 1,
            points: 5,
            depth: 0,
            bytes: 2048,
            path: "out.copc.laz".to_string(),
        },
        format: OutputFormat::Copc,
        warnings: Vec::new(),
        spilled: false,
        seconds: double(1.5),
    };
    assert_eq!(done.scan.point_count, 5);
    assert_eq!(done.scan.warnings[0].code, "e57-invalid-points");
    let lines = convert::print(&plain(), &done, "1.50 s");
    assert!(lines.iter().any(|l| l.contains("out.copc.laz")));
    assert!(lines.iter().any(|l| l.contains("2.0 KiB")));
    let json = convert::document(&done);
    assert_eq!(json.text_at("format").map(String::as_str), Some("copc"));
}

#[test]
fn an_optimisation_reports_what_it_saved() {
    let report = OptimizeReport {
        nodes: 2,
        points: 7,
        bytes_before: 4096,
        bytes_after: 1024,
        record_before: 30,
        record_after: 22,
        encoding_before: "DEFAULT".to_string(),
        encoding_after: "BROTLI".to_string(),
        dropped: vec!["gps-time".to_string()],
        warnings: Vec::new(),
    };
    let lines = optimize::print(&plain(), "out", &report, Some("25"), "3 ms");
    assert!(lines.iter().any(|l| l.contains("gps-time")));
    assert!(lines.iter().any(|l| l.contains("25%")));
    let json = optimize::document("out", &report, double(0.1));
    assert_eq!(json.unsigned_at("points"), Some(7));
    assert!(matches!(optimize::wanted_encoding(None), Ok(None)));
    assert!(matches!(
        optimize::wanted_encoding(Some("brotli")),
        Ok(Some(PotreeEncoding::Brotli))
    ));
    assert!(optimize::wanted_encoding(Some("gzip")).is_err());
}

fn answered(status: u16, body: usize, error: Option<&str>) -> Probe {
    Probe {
        url: "http://h/a".to_string(),
        status,
        headers: vec![("Content-Range".to_string(), "bytes 0-0/77".to_string())],
        body: vec![0; body],
        elapsed_micros: 0,
        error: error.map(str::to_string),
    }
}

#[test]
fn a_ranged_read_says_what_was_wrong_with_its_answer() {
    assert_eq!(range_text(4, 13), "bytes=4-13");
    let fault = |probe: Probe| {
        check_ranged(&probe, "http://h/a", 4, 13, 10).err().map(|e| e.to_text())
    };
    assert_eq!(fault(answered(206, 10, None)), None);
    assert_eq!(
        fault(answered(206, 9, None)).as_deref(),
        Some("http://h/a range 4-13 needs 10 bytes and the source has 9")
    );
    assert_eq!(
        fault(answered(200, 10, None)).as_deref(),
        Some(
            "http://h/a: the server answered 200 to a Range request, so it does not support \
             byte ranges. Run `voxelkloud doctor` against it."
        )
    );
    assert_eq!(
        fault(answered(416, 0, None)).as_deref(),
        Some("http://h/a: range 4-13 is past the end of the object")
    );
    assert_eq!(
        fault(answered(403, 0, None)).as_deref(),
        Some("http://h/a: HTTP 403 for range 4-13")
    );
    assert_eq!(fault(answered(206, 10, Some("reset"))).as_deref(), Some("http://h/a: reset"));
}

#[test]
fn a_size_and_a_whole_object_say_what_was_wrong_with_their_answers() {
    let size = |probe: &Probe| taken_size(probe, "u").map_err(|e| e.to_text());
    assert!(matches!(size(&answered(206, 1, None)), Ok(77)));
    assert_eq!(size(&answered(0, 0, Some("refused"))).err().as_deref(), Some("u: refused"));
    let mut bare = answered(404, 0, None);
    bare.headers.clear();
    assert_eq!(
        size(&bare).err().as_deref(),
        Some("u: HTTP 404 and no Content-Range or Content-Length, so the size is unknown")
    );
    let whole = |probe: &Probe| check_whole(probe, "u").err().map(|e| e.to_text());
    assert_eq!(whole(&answered(200, 3, None)), None);
    assert_eq!(whole(&answered(404, 0, None)).as_deref(), Some("u: HTTP 404"));
    assert_eq!(whole(&answered(200, 0, Some("cut"))).as_deref(), Some("u: cut"));
}
