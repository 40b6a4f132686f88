//! `inspect`: what is this cloud?
//!
//! The answer is in the neutral vocabulary, so its shape is the same for a
//! Potree directory, a COPC file and an EPT prefix. Without a walk it is what
//! manifests and headers say; with one, it is also what they do not state.

use super::doctor::ending;
use super::out::{align, aligned, bytes, count, grouped, pad, padded, painted, row, size_text, Output};
use crate::attribute::{columns, record_size, role_of, Attribute, AttributeRole, Column};
use crate::bounds::Bounds;
use crate::cloud::{sum, wrap64, CloudInfo, FormatId, HierarchyStats};
use crate::crs::{label_of, text_of, Crs, Declared};
use crate::json::{trees, Fields, Json, Tree};
use crate::text::{add_text, cat2, cat3, cat4, cat5, decimal, decimal_of, texts};
use crate::warning::{notices, Notice, Warning};
use vstd::prelude::*;
use vstd::string::*;

verus! {

/// The measures of a cloud, written out.
#[derive(Debug)]
pub struct Measures {
    /// The size, the least and the greatest corner of the tight extent. An
    /// extent that is empty has none: that is an answer, not a zero.
    pub extent: Option<(String, String, String)>,
    /// The edge of the indexing cube, where it has one.
    pub cube: Option<String>,
    /// The spacing at the root, where it is stated.
    pub spacing: Option<String>,
}

/// The rows that say how large a cloud is.
pub open spec fn extent_lines(color: bool, m: Measures) -> Seq<Seq<char>> {
    let extent = match m.extent {
        None => seq![row(color, "extent"@, "not declared by the file"@)],
        Some(e) => seq![
            row(color, "extent"@, e.0@),
            row(color, "min"@, e.1@),
            row(color, "max"@, e.2@),
        ],
    };
    let cube = match m.cube {
        Some(c) => seq![row(color, "index cube"@, c@)],
        None => Seq::empty(),
    };
    let spacing = match m.spacing {
        Some(s) => seq![row(color, "root spacing"@, s@)],
        None => Seq::empty(),
    };
    extent + cube + spacing
}

/// The rows above the attributes.
pub open spec fn head_lines(color: bool, info: CloudInfo, m: Measures) -> Seq<Seq<char>> {
    let version = match info@.version {
        Some(v) => v,
        None => Seq::empty(),
    };
    let head = seq![
        ""@,
        painted(color, info.format.caption() + "  "@ + version, "1"@),
        row(color, "source"@, info.label@),
        row(color, "points"@, grouped(decimal(info.point_count as nat))),
    ];
    let encoding = match info@.encoding {
        Some(e) => seq![row(color, "encoding"@, e)],
        None => Seq::empty(),
    };
    let crs = match info@.crs {
        Some(d) => label_of(d),
        None => "none declared"@,
    };
    (head + extent_lines(color, m) + encoding).push(row(color, "crs"@, crs))
}

/// What a role is called after an attribute.
pub open spec fn role_mark(role: Option<AttributeRole>) -> Seq<char> {
    match role {
        Some(AttributeRole::Position) => "  (position)"@,
        Some(AttributeRole::Color) => "  (colour)"@,
        None => ""@,
    }
}

/// The line of one attribute.
pub open spec fn attribute_line(c: Column) -> Seq<char> {
    "  "@ + padded(c.name, 22) + " "@ + c.kind.spelling() + (if c.num_elements > 1 {
        " x"@ + decimal(c.num_elements as nat)
    } else {
        Seq::empty()
    }) + role_mark(role_of(c.name))
}

/// The bytes of one stored point record.
pub open spec fn point_bytes(info: CloudInfo) -> int {
    match info.record_bytes {
        Some(b) => b as int,
        None => record_size(columns(info.attributes@)),
    }
}

/// The lines that list the attributes.
pub open spec fn attribute_lines(color: bool, info: CloudInfo) -> Seq<Seq<char>> {
    seq![
        ""@,
        painted(
            color,
            "attributes  "@ + decimal(info.attributes@.len()) + " fields, "@ + decimal(
                point_bytes(info) as nat,
            ) + " bytes per point"@,
            "1"@,
        ),
    ] + info@.attributes.map_values(|c: Column| attribute_line(c))
}

/// A row of the table of levels.
pub open spec fn level_row(level: Seq<char>, nodes: Seq<char>, points: Seq<char>) -> Seq<char> {
    "  "@ + padded(level, 7) + " "@ + aligned(nodes, 10) + " "@ + aligned(points, 16)
}

/// The rows of the first `n` levels, but for those with no nodes.
pub open spec fn level_rows(stats: HierarchyStats, n: int) -> Seq<Seq<char>>
    decreases n,
{
    if n <= 0 {
        Seq::empty()
    } else {
        let above = level_rows(stats, n - 1);
        if stats.nodes_by_level@[n - 1] == 0 {
            above
        } else {
            above.push(
                level_row(
                    decimal((n - 1) as nat),
                    grouped(decimal(stats.nodes_by_level@[n - 1] as nat)),
                    grouped(decimal(stats.points_by_level@[n - 1] as nat)),
                ),
            )
        }
    }
}

/// The lines that say what a walk found.
pub open spec fn stats_lines(color: bool, info: CloudInfo, stats: HierarchyStats) -> Seq<
    Seq<char>,
> {
    let head = seq![
        ""@,
        painted(
            color,
            "hierarchy  "@ + grouped(decimal(stats.nodes as nat)) + " nodes, depth "@ + decimal(
                stats.depth as nat,
            ),
            "1"@,
        ),
    ];
    let index = if stats.hierarchy_requests > 0 {
        seq![
            row(
                color,
                "index size"@,
                size_text(stats.hierarchy_bytes as nat) + " in "@ + decimal(
                    stats.hierarchy_requests as nat,
                ) + " read"@ + ending(stats.hierarchy_requests as nat),
            ),
        ]
    } else {
        Seq::empty()
    };
    let data = if stats.data_bytes > 0 {
        seq![row(color, "point data"@, size_text(stats.data_bytes as nat))]
    } else {
        Seq::empty()
    };
    let walked = wrap64(sum(stats.points_by_level@));
    let counted = if walked != info.point_count {
        seq![
            row(
                color,
                "counted"@,
                grouped(decimal(walked as nat)) + " points across the nodes, against "@ + grouped(
                    decimal(info.point_count as nat),
                ) + " in the manifest"@,
            ),
        ]
    } else {
        Seq::empty()
    };
    let table = seq![
        ""@,
        level_row(
            painted(color, "level"@, "2"@),
            painted(color, "nodes"@, "2"@),
            painted(color, "points"@, "2"@),
        ),
    ];
    head + index + data + counted + table + level_rows(stats, stats.nodes_by_level@.len() as int)
}

/// The report, line by line.
pub open spec fn report(
    color: bool,
    info: CloudInfo,
    m: Measures,
    stats: Option<HierarchyStats>,
) -> Seq<Seq<char>> {
    head_lines(color, info, m) + attribute_lines(color, info) + match stats {
        Some(s) => stats_lines(color, info, s),
        None => seq![""@],
    }
}

/// A reference to a value, as the value.
pub open spec fn held(stats: Option<&HierarchyStats>) -> Option<HierarchyStats> {
    match stats {
        Some(s) => Some(*s),
        None => None,
    }
}

fn put_extent(out: &Output, m: &Measures, lines: &mut Vec<String>)
    ensures
        texts(final(lines)@) == texts(old(lines)@) + extent_lines(out.color, *m),
{
    match &m.extent {
        None => {
            add_text(lines, out.row_of("extent", "not declared by the file"));
        },
        Some(e) => {
            add_text(lines, out.row_of("extent", e.0.as_str()));
            add_text(lines, out.row_of("min", e.1.as_str()));
            add_text(lines, out.row_of("max", e.2.as_str()));
        },
    }
    if let Some(c) = &m.cube {
        add_text(lines, out.row_of("index cube", c.as_str()));
    }
    if let Some(s) = &m.spacing {
        add_text(lines, out.row_of("root spacing", s.as_str()));
    }
    assert(texts(lines@) =~= texts(old(lines)@) + extent_lines(out.color, *m));
}

fn put_head(out: &Output, info: &CloudInfo, m: &Measures, lines: &mut Vec<String>)
    requires
        old(lines)@.len() == 0,
    ensures
        texts(final(lines)@) == head_lines(out.color, *info, *m),
{
    assert(texts(lines@) =~= Seq::<Seq<char>>::empty());
    add_text(lines, "".to_owned());
    let version: &str = match &info.version {
        Some(v) => v.as_str(),
        None => "",
    };
    proof {
        reveal_strlit("");
        assert(""@ =~= Seq::<char>::empty());
    }
    let t = cat3(info.format.title(), "  ", version);
    add_text(lines, out.bold(t.as_str()));
    add_text(lines, out.row_of("source", info.label.as_str()));
    let n = count(info.point_count);
    add_text(lines, out.row_of("points", n.as_str()));
    put_extent(out, m, lines);
    if let Some(e) = &info.encoding {
        add_text(lines, out.row_of("encoding", e.as_str()));
    }
    let crs = match &info.crs {
        Some(c) => c.label(),
        None => "none declared".to_owned(),
    };
    add_text(lines, out.row_of("crs", crs.as_str()));
    assert(texts(lines@) =~= head_lines(out.color, *info, *m));
}

fn attribute_text(a: &Attribute) -> (s: String)
    ensures
        s@ == attribute_line(a@),
{
    let role: &str = match a.role() {
        Some(AttributeRole::Position) => "  (position)",
        Some(AttributeRole::Color) => "  (colour)",
        None => "",
    };
    let name = pad(a.name.as_str(), 22);
    let times = if a.num_elements > 1 {
        let n = decimal_of(a.num_elements as u64);
        cat2(" x", n.as_str())
    } else {
        let none = String::new();
        assert(none@ =~= Seq::<char>::empty());
        none
    };
    let front = cat4("  ", name.as_str(), " ", a.kind.name());
    cat3(front.as_str(), times.as_str(), role)
}

fn put_attributes(out: &Output, info: &CloudInfo, lines: &mut Vec<String>)
    ensures
        texts(final(lines)@) == texts(old(lines)@) + attribute_lines(out.color, *info),
{
    let ghost start = texts(lines@);
    add_text(lines, "".to_owned());
    let fields = decimal_of(info.attributes.len() as u64);
    let size = decimal_of(info.bytes_per_point() as u64);
    let t = cat5("attributes  ", fields.as_str(), " fields, ", size.as_str(), " bytes per point");
    add_text(lines, out.bold(t.as_str()));
    let ghost head = texts(lines@);
    let ghost all = info@.attributes.map_values(|c: Column| attribute_line(c));
    let mut i: usize = 0;
    assert(head + all.take(0) =~= head);
    while i < info.attributes.len()
        invariant
            i <= info.attributes.len(),
            all == info@.attributes.map_values(|c: Column| attribute_line(c)),
            texts(lines@) == head + all.take(i as int),
        decreases info.attributes.len() - i,
    {
        assert(info@.attributes[i as int] == info.attributes@[i as int]@);
        add_text(lines, attribute_text(&info.attributes[i]));
        assert(all.take(i + 1) =~= all.take(i as int).push(all[i as int]));
        assert(texts(lines@) =~= head + all.take(i + 1));
        i = i + 1;
    }
    assert(all.take(i as int) =~= all);
    assert(texts(lines@) =~= start + attribute_lines(out.color, *info));
}

fn level_text(level: &str, nodes: &str, points: &str) -> (s: String)
    ensures
        s@ == level_row(level@, nodes@, points@),
{
    let level = pad(level, 7);
    let nodes = align(nodes, 10);
    let points = align(points, 16);
    let front = cat3("  ", level.as_str(), " ");
    cat4(front.as_str(), nodes.as_str(), " ", points.as_str())
}

fn put_levels(stats: &HierarchyStats, lines: &mut Vec<String>)
    requires
        stats.wf(),
    ensures
        texts(final(lines)@) == texts(old(lines)@) + level_rows(
            *stats,
            stats.nodes_by_level@.len() as int,
        ),
{
    let ghost head = texts(lines@);
    let mut i: usize = 0;
    assert(head + level_rows(*stats, 0) =~= head);
    while i < stats.nodes_by_level.len()
        invariant
            i <= stats.nodes_by_level.len(),
            stats.wf(),
            texts(lines@) == head + level_rows(*stats, i as int),
        decreases stats.nodes_by_level.len() - i,
    {
        if stats.nodes_by_level[i] != 0 {
            let level = decimal_of(i as u64);
            let nodes = count(stats.nodes_by_level[i]);
            let points = count(stats.points_by_level[i]);
            add_text(lines, level_text(level.as_str(), nodes.as_str(), points.as_str()));
        }
        assert(texts(lines@) =~= head + level_rows(*stats, i + 1));
        i = i + 1;
    }
}

#[verifier::spinoff_prover]
#[verifier::rlimit(30)]
fn put_stats(out: &Output, info: &CloudInfo, stats: &HierarchyStats, lines: &mut Vec<String>)
    requires
        stats.wf(),
    ensures
        texts(final(lines)@) == texts(old(lines)@) + stats_lines(out.color, *info, *stats),
{
    let ghost start = texts(lines@);
    add_text(lines, "".to_owned());
    let nodes = count(stats.nodes);
    let depth = decimal_of(stats.depth as u64);
    let t = cat4("hierarchy  ", nodes.as_str(), " nodes, depth ", depth.as_str());
    add_text(lines, out.bold(t.as_str()));
    if stats.hierarchy_requests > 0 {
        let size = bytes(stats.hierarchy_bytes);
        let reads = decimal_of(stats.hierarchy_requests as u64);
        let end: &str = if stats.hierarchy_requests == 1 {
            ""
        } else {
            "s"
        };
        let t = cat5(size.as_str(), " in ", reads.as_str(), " read", end);
        add_text(lines, out.row_of("index size", t.as_str()));
    }
    if stats.data_bytes > 0 {
        let size = bytes(stats.data_bytes);
        add_text(lines, out.row_of("point data", size.as_str()));
    }
    let walked: u64 = stats.total_points();
    if walked != info.point_count {
        let a = count(walked);
        let b = count(info.point_count);
        let t = cat4(
            a.as_str(),
            " points across the nodes, against ",
            b.as_str(),
            " in the manifest",
        );
        add_text(lines, out.row_of("counted", t.as_str()));
    }
    add_text(lines, "".to_owned());
    let a = out.dim("level");
    let b = out.dim("nodes");
    let c = out.dim("points");
    add_text(lines, level_text(a.as_str(), b.as_str(), c.as_str()));
    put_levels(stats, lines);
    assert(texts(lines@) =~= start + stats_lines(out.color, *info, *stats));
}

/// The report as lines of text. A quiet command prints none.
pub fn print(out: &Output, info: &CloudInfo, m: &Measures, stats: Option<&HierarchyStats>) -> (lines:
    Vec<String>)
    requires
        stats matches Some(s) ==> s.wf(),
    ensures
        texts(lines@) == if out.json || out.quiet {
            Seq::empty()
        } else {
            report(out.color, *info, *m, held(stats))
        },
{
    let mut lines: Vec<String> = Vec::new();
    assert(texts(lines@) =~= Seq::<Seq<char>>::empty());
    if out.json || out.quiet {
        return lines;
    }
    put_head(out, info, m, &mut lines);
    put_attributes(out, info, &mut lines);
    match stats {
        Some(s) => {
            put_stats(out, info, s, &mut lines);
        },
        None => {
            add_text(&mut lines, "".to_owned());
        },
    }
    assert(texts(lines@) =~= report(out.color, *info, *m, held(stats)));
    lines
}

/// What to try next, where the hierarchy was not walked.
pub fn hint(format: FormatId, walked: bool) -> (s: Option<&'static str>)
    ensures
        match s {
            Some(t) => !walked && t@ == if format is Las || format is E57 {
                "No index: this file has to be read whole. `voxelkloud convert` gives it one."@
            } else {
                "Run with --deep to walk the hierarchy."@
            },
            None => walked,
        },
{
    if walked {
        None
    } else if format.is_indexed() {
        Some("Run with --deep to walk the hierarchy.")
    } else {
        Some("No index: this file has to be read whole. `voxelkloud convert` gives it one.")
    }
}

/// The line of one anomaly.
pub fn warning_line(w: &Warning) -> (s: String)
    ensures
        s@ == w@.path + " \u{2014} "@ + w@.message,
{
    cat3(w.path.as_str(), " \u{2014} ", w.message.as_str())
}

/// A string, or nothing.
pub open spec fn text_or_null(s: Option<Seq<char>>) -> Tree {
    match s {
        Some(t) => Tree::Text(t),
        None => Tree::Null,
    }
}

/// A count, or nothing.
pub open spec fn count_or_null(n: Option<u32>) -> Tree {
    match n {
        Some(v) => Json::whole(v as u64),
        None => Tree::Null,
    }
}

/// A box, as a document.
pub open spec fn box_tree(b: Bounds) -> Tree {
    Tree::Object(
        seq![("min"@, Json::fractions(b.min@)), ("max"@, Json::fractions(b.max@))],
    )
}

/// A reference system, as a document.
pub open spec fn crs_tree(crs: Option<Declared>) -> Tree {
    match crs {
        Some(d) => Tree::Object(
            seq![
                ("format"@, Tree::Text(d.format.spelling())),
                ("epsg"@, count_or_null(d.epsg)),
                ("verticalEpsg"@, count_or_null(d.vertical_epsg)),
                ("name"@, text_or_null(d.name)),
                ("raw"@, Tree::Text(d.raw)),
            ],
        ),
        None => Tree::Null,
    }
}

/// The part an attribute plays, as a document.
pub open spec fn role_tree(role: Option<AttributeRole>) -> Tree {
    match role {
        Some(AttributeRole::Position) => Tree::Text("position"@),
        Some(AttributeRole::Color) => Tree::Text("color"@),
        None => Tree::Null,
    }
}

/// An attribute, as a document.
pub open spec fn attribute_tree(c: Column) -> Tree {
    Tree::Object(
        seq![
            ("name"@, Tree::Text(c.name)),
            ("type"@, Tree::Text(c.kind.spelling())),
            ("numElements"@, Json::whole(c.num_elements as u64)),
            ("byteOffset"@, Json::whole(c.byte_offset as u64)),
            ("byteSize"@, Json::whole(c.bytes() as u64)),
            ("role"@, role_tree(role_of(c.name))),
            ("min"@, Json::fractions(c.min)),
            ("max"@, Json::fractions(c.max)),
        ],
    )
}

/// An anomaly, as a document.
pub open spec fn warning_tree(w: Notice) -> Tree {
    Tree::Object(
        seq![
            ("code"@, Tree::Text(w.code)),
            ("path"@, Tree::Text(w.path)),
            ("message"@, Tree::Text(w.message)),
        ],
    )
}

/// What a walk found, as a document.
pub open spec fn stats_tree(stats: HierarchyStats) -> Tree {
    Tree::Object(
        seq![
            ("nodes"@, Json::whole(stats.nodes)),
            ("depth"@, Json::whole(stats.depth as u64)),
            ("pointsByLevel"@, Json::wholes(stats.points_by_level@)),
            ("nodesByLevel"@, Json::wholes(stats.nodes_by_level@)),
            ("dataBytes"@, Json::whole(stats.data_bytes)),
            ("indexBytes"@, Json::whole(stats.hierarchy_bytes)),
            ("indexReads"@, Json::whole(stats.hierarchy_requests as u64)),
            ("countedPoints"@, Json::whole(wrap64(sum(stats.points_by_level@)))),
        ],
    )
}

/// The fields that describe the cloud itself.
pub open spec fn info_fields(info: CloudInfo) -> Seq<(Seq<char>, Tree)> {
    seq![
        ("format"@, Tree::Text(info.format.spelling())),
        ("source"@, Tree::Text(info.label@)),
        ("version"@, text_or_null(info@.version)),
        ("points"@, Json::whole(info.point_count)),
        ("bounds"@, box_tree(info.bounds)),
        ("tightBounds"@, box_tree(info.tight_bounds)),
        ("scale"@, Json::fractions(info.scale@)),
        ("offset"@, Json::fractions(info.offset@)),
        (
            "spacing"@,
            match info.spacing {
                Some(s) => Json::fraction(s),
                None => Tree::Null,
            },
        ),
        ("levels"@, count_or_null(info.levels)),
        ("encoding"@, text_or_null(info@.encoding)),
        ("bytesPerPoint"@, Json::whole(point_bytes(info) as u64)),
        ("crs"@, crs_tree(info@.crs)),
        ("attributes"@, Tree::Array(info@.attributes.map_values(|c: Column| attribute_tree(c)))),
    ]
}

/// The report, as a document. The anomalies of the manifest come before those
/// of the walk.
pub open spec fn report_tree(info: CloudInfo, stats: Option<HierarchyStats>) -> Tree {
    Tree::Object(
        match stats {
            Some(s) => info_fields(info).push(("hierarchy"@, stats_tree(s))).push(
                (
                    "warnings"@,
                    Tree::Array(
                        (info@.warnings + notices(s.warnings@)).map_values(
                            |w: Notice| warning_tree(w),
                        ),
                    ),
                ),
            ),
            None => info_fields(info).push(
                (
                    "warnings"@,
                    Tree::Array(info@.warnings.map_values(|w: Notice| warning_tree(w))),
                ),
            ),
        },
    )
}

fn text_json(s: &Option<String>) -> (j: Json)
    ensures
        j.tree() == text_or_null(crate::cloud::spelled(*s)),
        j.tree() == text_or_null(text_of(*s)),
{
    match s {
        Some(t) => Json::of_text(t.as_str()),
        None => Json::Null,
    }
}

fn count_json(n: Option<u32>) -> (j: Json)
    ensures
        j.tree() == count_or_null(n),
{
    match n {
        Some(v) => Json::count(v as u64),
        None => Json::Null,
    }
}

fn box_json(b: &Bounds) -> (j: Json)
    ensures
        j.tree() == box_tree(*b),
{
    let mut o = Fields::new();
    o.put("min", Json::of_reals(b.min.as_slice()));
    o.put("max", Json::of_reals(b.max.as_slice()));
    assert(o@ =~= box_tree(*b)->Object_0);
    o.object()
}

fn crs_json(crs: &Option<Crs>) -> (j: Json)
    ensures
        j.tree() == crs_tree(crate::cloud::declared(*crs)),
{
    match crs {
        Some(c) => {
            let mut o = Fields::new();
            o.put("format", Json::of_text(c.format.name()));
            o.put("epsg", count_json(c.epsg));
            o.put("verticalEpsg", count_json(c.vertical_epsg));
            o.put("name", text_json(&c.name));
            o.put("raw", Json::of_text(c.raw.as_str()));
            assert(o@ =~= crs_tree(Some(c@))->Object_0);
            o.object()
        },
        None => Json::Null,
    }
}

fn attribute_json(a: &Attribute) -> (j: Json)
    ensures
        j.tree() == attribute_tree(a@),
{
    let mut o = Fields::new();
    o.put("name", Json::of_text(a.name.as_str()));
    o.put("type", Json::of_text(a.kind.name()));
    o.put("numElements", Json::count(a.num_elements as u64));
    o.put("byteOffset", Json::count(a.byte_offset as u64));
    o.put("byteSize", Json::count(a.byte_size() as u64));
    o.put(
        "role",
        match a.role() {
            Some(AttributeRole::Position) => Json::of_text("position"),
            Some(AttributeRole::Color) => Json::of_text("color"),
            None => Json::Null,
        },
    );
    o.put("min", Json::of_reals(a.min.as_slice()));
    o.put("max", Json::of_reals(a.max.as_slice()));
    assert(o@ =~= attribute_tree(a@)->Object_0);
    o.object()
}

fn attributes_json(info: &CloudInfo) -> (j: Json)
    ensures
        j.tree() == Tree::Array(info@.attributes.map_values(|c: Column| attribute_tree(c))),
{
    let ghost whole = info@.attributes.map_values(|c: Column| attribute_tree(c));
    let mut items: Vec<Json> = Vec::new();
    let mut i: usize = 0;
    assert(trees(items@) =~= whole.take(0));
    while i < info.attributes.len()
        invariant
            i <= info.attributes.len(),
            whole == info@.attributes.map_values(|c: Column| attribute_tree(c)),
            trees(items@) == whole.take(i as int),
        decreases info.attributes.len() - i,
    {
        let ghost before = items@;
        let j = attribute_json(&info.attributes[i]);
        assert(info@.attributes[i as int] == info.attributes@[i as int]@);
        items.push(j);
        assert(trees(items@) =~= trees(before).push(j.tree()));
        assert(whole.take(i + 1) =~= whole.take(i as int).push(whole[i as int]));
        i = i + 1;
    }
    assert(whole.take(i as int) =~= whole);
    let j = Json::Array(items);
    assert(j.tree()->Array_0 =~= whole);
    j
}

pub(crate) fn put_warnings(warnings: &Vec<Warning>, items: &mut Vec<Json>)
    ensures
        trees(final(items)@) == trees(old(items)@) + notices(warnings@).map_values(
            |w: Notice| warning_tree(w),
        ),
{
    let ghost start = trees(items@);
    let ghost whole = notices(warnings@).map_values(|w: Notice| warning_tree(w));
    let mut i: usize = 0;
    assert(start + whole.take(0) =~= start);
    while i < warnings.len()
        invariant
            i <= warnings.len(),
            whole == notices(warnings@).map_values(|w: Notice| warning_tree(w)),
            trees(items@) == start + whole.take(i as int),
        decreases warnings.len() - i,
    {
        let ghost before = items@;
        let w = &warnings[i];
        let mut o = Fields::new();
        o.put("code", Json::of_text(w.code));
        o.put("path", Json::of_text(w.path.as_str()));
        o.put("message", Json::of_text(w.message.as_str()));
        assert(o@ =~= warning_tree(w@)->Object_0);
        let j = o.object();
        items.push(j);
        assert(trees(items@) =~= trees(before).push(j.tree()));
        assert(whole.take(i + 1) =~= whole.take(i as int).push(whole[i as int]));
        assert(trees(items@) =~= start + whole.take(i + 1));
        i = i + 1;
    }
    assert(whole.take(i as int) =~= whole);
}

fn stats_json(stats: &HierarchyStats) -> (j: Json)
    ensures
        j.tree() == stats_tree(*stats),
{
    let mut o = Fields::new();
    o.put("nodes", Json::count(stats.nodes));
    o.put("depth", Json::count(stats.depth as u64));
    o.put("pointsByLevel", Json::of_counts(&stats.points_by_level));
    o.put("nodesByLevel", Json::of_counts(&stats.nodes_by_level));
    o.put("dataBytes", Json::count(stats.data_bytes));
    o.put("indexBytes", Json::count(stats.hierarchy_bytes));
    o.put("indexReads", Json::count(stats.hierarchy_requests as u64));
    o.put("countedPoints", Json::count(stats.total_points()));
    assert(o@ =~= stats_tree(*stats)->Object_0);
    o.object()
}

fn put_info(info: &CloudInfo, o: &mut Fields)
    requires
        old(o)@.len() == 0,
    ensures
        final(o)@ == info_fields(*info),
{
    o.put("format", Json::of_text(info.format.name()));
    o.put("source", Json::of_text(info.label.as_str()));
    o.put("version", text_json(&info.version));
    o.put("points", Json::count(info.point_count));
    o.put("bounds", box_json(&info.bounds));
    o.put("tightBounds", box_json(&info.tight_bounds));
    o.put("scale", Json::of_reals(info.scale.as_slice()));
    o.put("offset", Json::of_reals(info.offset.as_slice()));
    o.put(
        "spacing",
        match info.spacing {
            Some(s) => Json::of_real(s),
            None => Json::Null,
        },
    );
    o.put("levels", count_json(info.levels));
    o.put("encoding", text_json(&info.encoding));
    o.put("bytesPerPoint", Json::count(info.bytes_per_point() as u64));
    o.put("crs", crs_json(&info.crs));
    o.put("attributes", attributes_json(info));
    assert(o@ =~= info_fields(*info));
}

/// The report as one document.
pub fn document(info: &CloudInfo, stats: Option<&HierarchyStats>) -> (j: Json)
    ensures
        j.tree() == report_tree(*info, held(stats)),
{
    let mut o = Fields::new();
    put_info(info, &mut o);
    let mut items: Vec<Json> = Vec::new();
    assert(trees(items@) =~= Seq::<Tree>::empty());
    put_warnings(&info.warnings, &mut items);
    let ghost f = |w: Notice| warning_tree(w);
    assert(trees(items@) =~= info@.warnings.map_values(f));
    if let Some(s) = stats {
        o.put("hierarchy", stats_json(s));
        put_warnings(&s.warnings, &mut items);
        assert(trees(items@) =~= (info@.warnings + notices(s.warnings@)).map_values(f));
    }
    let list = Json::Array(items);
    assert(list.tree()->Array_0 =~= trees(items@));
    o.put("warnings", list);
    assert(o@ =~= report_tree(*info, held(stats))->Object_0);
    o.object()
}

} // verus!
