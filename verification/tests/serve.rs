use voxelkloud::cli::order::{listed, FoundEntry};
use voxelkloud::cli::serve::{
    content_type, handle_request, listing, parse_range, percent_decode, resolve, respond_text,
    Answer, Found, Request,
};

#[test]
fn ranges_parse_the_three_forms() {
    assert_eq!(parse_range("bytes=0-99", 1000), Some((0, 99)));
    assert_eq!(parse_range("bytes=500-", 1000), Some((500, 999)));
    assert_eq!(parse_range("bytes=-100", 1000), Some((900, 999)));
    // Past the end clamps rather than failing: a range whose end exceeds the
    // length is satisfied by the rest of the file.
    assert_eq!(parse_range("bytes=900-2000", 1000), Some((900, 999)));
    assert_eq!(parse_range("bytes=1000-", 1000), None);
    assert_eq!(parse_range("bytes=0-10,20-30", 1000), None);
    assert_eq!(parse_range("chunks=0-10", 1000), None);
}

#[test]
fn resolve_refuses_anything_that_escapes() {
    let root = "/srv/clouds";
    assert_eq!(
        resolve(root, "/autzen/metadata.json"),
        Some("/srv/clouds/autzen/metadata.json".to_string())
    );
    assert_eq!(resolve(root, "/../etc/passwd"), None);
    assert_eq!(resolve(root, "/autzen/../../etc/passwd"), None);
    // Percent-encoded traversal is the same thing spelled differently, and
    // decoding before the test is what makes it fail too.
    assert_eq!(resolve(root, "/%2e%2e/etc/passwd"), None);
}

#[test]
fn a_root_that_ends_in_a_separator_gets_no_second_one() {
    assert_eq!(resolve("/", "/a/./b"), Some("/a/b".to_string()));
    assert_eq!(resolve("/srv", "/a?x=/../b#c"), Some("/srv/a".to_string()));
}

#[test]
fn percent_escapes_are_replaced_and_the_rest_kept() {
    assert_eq!(percent_decode("a%20b"), "a b");
    assert_eq!(percent_decode("%41%4a%4A"), "AJJ");
    assert_eq!(percent_decode("100%"), "100%");
    assert_eq!(percent_decode("%zz%4"), "%zz%4");
    assert_eq!(percent_decode("%+5"), "\u{5}");
    assert_eq!(percent_decode("%ff"), "\u{fffd}");
}

#[test]
fn suffixes_of_nothing_and_of_everything() {
    assert_eq!(parse_range("bytes=-0", 1000), None);
    assert_eq!(parse_range("bytes=-5000", 1000), Some((0, 999)));
    assert_eq!(parse_range("bytes=0-0", 0), None);
    assert_eq!(parse_range("bytes= 7-7 ", 8), Some((7, 7)));
    assert_eq!(parse_range("bytes=9-8", 10), None);
    assert_eq!(parse_range("bytes=x-8", 10), None);
}

#[test]
fn content_types_go_by_the_extension() {
    assert_eq!(content_type("metadata.JSON"), "application/json");
    assert_eq!(content_type("cloud.copc.laz"), "application/octet-stream");
    assert_eq!(content_type(".html"), "application/octet-stream");
    assert_eq!(content_type("a.mjs"), "text/javascript; charset=utf-8");
    assert_eq!(content_type("noext"), "application/octet-stream");
}

fn request(line: &str, headers: &[&str]) -> Request {
    let mut r = Request::start(line);
    for h in headers {
        assert!(!r.header(h));
    }
    assert!(r.header("\r\n"));
    r
}

#[test]
fn a_request_is_answered_by_what_it_asks_and_what_is_there() {
    let get = request("GET /a.bin HTTP/1.1\r\n", &["Range:  bytes=2-5 \r\n", "Connection: close\r\n"]);
    assert_eq!(get.method, "GET");
    assert_eq!(get.target, "/a.bin");
    assert_eq!(get.range.as_deref(), Some("bytes=2-5"));
    assert!(!get.keep_alive);
    assert_eq!(
        handle_request(&get, Found::File { size: 10 }),
        Answer::Part { start: 2, end: 5, size: 10, send_body: true }
    );
    assert_eq!(handle_request(&get, Found::File { size: 2 }), Answer::Unsatisfiable { size: 2 });
    assert_eq!(handle_request(&get, Found::Refused), Answer::Forbidden);
    assert_eq!(handle_request(&get, Found::Missing), Answer::NotFound);
    let head = request("HEAD / HTTP/1.1\r\n", &[]);
    assert!(head.keep_alive);
    assert_eq!(handle_request(&head, Found::Directory), Answer::Listing { send_body: false });
    assert_eq!(
        handle_request(&head, Found::File { size: 3 }),
        Answer::Whole { size: 3, send_body: false }
    );
    assert_eq!(handle_request(&request("OPTIONS / x", &[]), Found::Missing), Answer::Preflight);
    assert_eq!(handle_request(&request("POST / x", &[]), Found::Missing), Answer::BadMethod);
    assert_eq!(Request::start("").target, "/");
}

#[test]
fn a_partial_answer_is_written_as_a_client_expects() {
    let a = Answer::Part { start: 2, end: 5, size: 10, send_body: true };
    assert_eq!(
        respond_text(a, "image/png", "*", 60, true),
        "HTTP/1.1 206 Partial Content\r\nAccess-Control-Allow-Origin: *\r\n\
         Access-Control-Allow-Methods: GET, HEAD, OPTIONS\r\n\
         Access-Control-Allow-Headers: Range, Content-Type\r\n\
         Access-Control-Expose-Headers: Content-Range, Content-Length, Accept-Ranges\r\n\
         Cache-Control: public, max-age=60, immutable\r\nConnection: keep-alive\r\n\
         Content-Type: image/png\r\nContent-Length: 4\r\nAccept-Ranges: bytes\r\n\
         Content-Range: bytes 2-5/10\r\n\r\n"
    );
    assert!(respond_text(Answer::NotFound, "", "*", 0, false).ends_with("\r\n\r\n404 Not Found\n"));
    assert!(respond_text(Answer::Preflight, "", "*", 0, false).ends_with("Content-Length: 0\r\n\r\n"));
}

#[test]
fn a_listing_names_every_entry() {
    let page = listing("/dir?x", &vec![("a/".to_string(), None), ("b".to_string(), Some(5))]);
    assert!(page.starts_with("<!doctype html><meta charset=utf-8><title>/dir</title>"));
    assert!(page.ends_with(
        "<h1>/dir</h1><table><tr><td><a href=\"a/\">a/</a></td><td></td></tr>\
         <tr><td><a href=\"b\">b</a></td><td>5 B</td></tr></table>"
    ));
}

fn found(name: &str, is_dir: bool, size: Option<u64>) -> FoundEntry {
    FoundEntry { name: name.to_string(), is_dir, size }
}

fn row(name: &str, size: Option<u64>) -> (String, Option<u64>) {
    (name.to_string(), size)
}

#[test]
fn a_listing_is_in_the_order_of_its_names() {
    let entries = vec![
        found("tileset.json", false, Some(9)),
        found("b", true, Some(4096)),
        found("b.laz", false, Some(5)),
        found("\u{e9}t\u{e9}", false, None),
        found("B", false, Some(1)),
        found("b", false, Some(2)),
        found("", false, Some(0)),
    ];
    // A directory is ordered with its slash, which comes after a point.
    let rows = [
        row("", Some(0)),
        row("B", Some(1)),
        row("b", Some(2)),
        row("b.laz", Some(5)),
        row("b/", None),
        row("tileset.json", Some(9)),
        row("\u{e9}t\u{e9}", None),
    ];
    assert_eq!(listed(&entries), rows);
    assert!(listed(&vec![]).is_empty());
}

#[test]
fn entries_of_one_name_stay_in_the_order_they_were_found() {
    let entries = (0..40).map(|i| found(["y", "x"][i % 2], false, Some(i as u64))).collect();
    let rows = listed(&entries);
    let mut want: Vec<(String, Option<u64>)> =
        entries.iter().map(|e| (e.name.clone(), e.size)).collect();
    want.sort_by(|a, b| a.0.cmp(&b.0));
    assert_eq!(rows, want);
    assert_eq!(rows[19], row("x", Some(39)));
    assert_eq!(rows[20], row("y", Some(0)));
}
