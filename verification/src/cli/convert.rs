//! `convert`: give a file an index. What the command says when it is done.

use super::inspect::warning_tree;
use super::out::{bytes, count, grouped, painted, row, size_text, Output};
use crate::convert::{OutputFormat, Scan};
use crate::crs::label_of;
use crate::double::Real;
use crate::json::{trees, Fields, Json, Tree};
use crate::text::{add_text, cat2, cat3, decimal, decimal_of, texts};
use crate::warning::{notices, Notice, Warning};
use crate::write::WriteReport;
use vstd::prelude::*;
use vstd::string::*;

verus! {

/// What a conversion did.
#[derive(Debug)]
pub struct ConvertReport {
    pub scan: Scan,
    pub write: WriteReport,
    pub format: OutputFormat,
    pub warnings: Vec<Warning>,
    pub spilled: bool,
    pub seconds: Real,
}

/// The lines that say what a conversion did. `took` is how its time is written.
pub open spec fn report(color: bool, r: ConvertReport, took: Seq<char>) -> Seq<Seq<char>> {
    let head = seq![
        ""@,
        painted(color, "wrote "@ + r.write.path@, "1"@),
        row(color, "format"@, r.format.spelling()),
        row(color, "points"@, grouped(decimal(r.write.points as nat))),
        row(
            color,
            "nodes"@,
            grouped(decimal(r.write.nodes as nat)) + ", depth "@ + decimal(r.write.depth as nat),
        ),
        row(color, "size"@, size_text(r.write.bytes as nat)),
        row(color, "took"@, took),
    ];
    let build = if r.spilled {
        seq![row(color, "build"@, "out of core \u{2014} the points went through disk"@)]
    } else {
        Seq::empty()
    };
    let counted = if r.write.points != r.scan.point_count {
        seq![
            row(
                color,
                "counted"@,
                grouped(decimal(r.write.points as nat)) + " written against "@ + grouped(
                    decimal(r.scan.point_count as nat),
                ) + " declared by the inputs"@,
            ),
        ]
    } else {
        Seq::empty()
    };
    head + build + counted
}

/// The report as lines of text. A quiet command prints none.
pub fn print(out: &Output, r: &ConvertReport, took: &str) -> (lines: Vec<String>)
    ensures
        texts(lines@) == if out.json || out.quiet {
            Seq::empty()
        } else {
            report(out.color, *r, took@)
        },
{
    let mut lines: Vec<String> = Vec::new();
    assert(texts(lines@) =~= Seq::<Seq<char>>::empty());
    if out.json || out.quiet {
        return lines;
    }
    add_text(&mut lines, "".to_owned());
    let t = cat2("wrote ", r.write.path.as_str());
    add_text(&mut lines, out.bold(t.as_str()));
    add_text(&mut lines, out.row_of("format", r.format.name()));
    let points = count(r.write.points);
    add_text(&mut lines, out.row_of("points", points.as_str()));
    let nodes = count(r.write.nodes);
    let depth = decimal_of(r.write.depth as u64);
    let t = cat3(nodes.as_str(), ", depth ", depth.as_str());
    add_text(&mut lines, out.row_of("nodes", t.as_str()));
    let size = bytes(r.write.bytes);
    add_text(&mut lines, out.row_of("size", size.as_str()));
    add_text(&mut lines, out.row_of("took", took));
    if r.spilled {
        add_text(
            &mut lines,
            out.row_of("build", "out of core \u{2014} the points went through disk"),
        );
    }
    if r.write.points != r.scan.point_count {
        let declared = count(r.scan.point_count);
        let t = cat3(points.as_str(), " written against ", declared.as_str());
        let t = cat2(t.as_str(), " declared by the inputs");
        add_text(&mut lines, out.row_of("counted", t.as_str()));
    }
    assert(texts(lines@) =~= report(out.color, *r, took@));
    lines
}

/// The report, as a document.
pub open spec fn report_tree(r: ConvertReport) -> Tree {
    Tree::Object(
        seq![
            ("output"@, Tree::Text(r.write.path@)),
            ("format"@, Tree::Text(r.format.spelling())),
            ("points"@, Json::whole(r.write.points)),
            ("nodes"@, Json::whole(r.write.nodes)),
            ("depth"@, Json::whole(r.write.depth as u64)),
            ("bytes"@, Json::whole(r.write.bytes)),
            ("seconds"@, Json::fraction(r.seconds)),
            ("spilled"@, Tree::Bool(r.spilled)),
            ("inputPoints"@, Json::whole(r.scan.point_count)),
            ("scale"@, Json::fractions(r.scan.scale@)),
            (
                "crs"@,
                match r.scan@.crs {
                    Some(d) => Tree::Text(label_of(d)),
                    None => Tree::Null,
                },
            ),
            (
                "warnings"@,
                Tree::Array(notices(r.warnings@).map_values(|w: Notice| warning_tree(w))),
            ),
        ],
    )
}

/// The anomalies, as a document.
pub(crate) fn warnings_json(warnings: &Vec<Warning>) -> (j: Json)
    ensures
        j.tree() == Tree::Array(notices(warnings@).map_values(|w: Notice| warning_tree(w))),
{
    let mut items: Vec<Json> = Vec::new();
    assert(trees(items@) =~= Seq::<Tree>::empty());
    super::inspect::put_warnings(warnings, &mut items);
    let ghost whole = notices(warnings@).map_values(|w: Notice| warning_tree(w));
    assert(trees(items@) =~= whole);
    let j = Json::Array(items);
    assert(j.tree()->Array_0 =~= whole);
    j
}

/// The report as one document.
pub fn document(r: &ConvertReport) -> (j: Json)
    ensures
        j.tree() == report_tree(*r),
{
    let mut o = Fields::new();
    o.put("output", Json::of_text(r.write.path.as_str()));
    o.put("format", Json::of_text(r.format.name()));
    o.put("points", Json::count(r.write.points));
    o.put("nodes", Json::count(r.write.nodes));
    o.put("depth", Json::count(r.write.depth as u64));
    o.put("bytes", Json::count(r.write.bytes));
    o.put("seconds", Json::of_real(r.seconds));
    o.put("spilled", Json::Bool(r.spilled));
    o.put("inputPoints", Json::count(r.scan.point_count));
    o.put("scale", Json::of_reals(r.scan.scale.as_slice()));
    match &r.scan.crs {
        Some(c) => {
            let label = c.label();
            o.put("crs", Json::of_text(label.as_str()));
        },
        None => {
            o.put("crs", Json::Null);
        },
    }
    o.put("warnings", warnings_json(&r.warnings));
    assert(o@ =~= report_tree(*r)->Object_0);
    o.object()
}

} // verus!
