//! `optimize`: the same cloud, better bytes. What the command takes, and what it
//! says when it is done.

use super::convert::warnings_json;
use super::inspect::warning_tree;
use super::out::{bytes, count, grouped, painted, row, size_text, Output};
use crate::double::Real;
use crate::error::{Error, Failure};
use crate::json::{Fields, Json, Tree};
use crate::optimize::OptimizeReport;
use crate::text::{
    add_text, cat2, cat3, cat4, decimal, decimal_of, quoted, quoted_text, same, texts,
};
use crate::warning::{notices, Notice};
use crate::write::potree::PotreeEncoding;
use vstd::prelude::*;
use vstd::string::*;

verus! {

/// The encoding that a command was asked for. Where none is named, the cloud
/// keeps the one that it has.
pub fn wanted_encoding(name: Option<&str>) -> (r: Result<Option<PotreeEncoding>, Error>)
    ensures
        match name {
            None => r == Ok::<Option<PotreeEncoding>, Error>(None),
            Some(n) => match r {
                Ok(Some(PotreeEncoding::Brotli)) => n@ == "brotli"@ || n@ == "BROTLI"@,
                Ok(Some(PotreeEncoding::Default)) => n@ == "default"@ || n@ == "DEFAULT"@,
                Ok(None) => false,
                Err(e) => {
                    &&& n@ != "brotli"@ && n@ != "BROTLI"@ && n@ != "default"@ && n@ != "DEFAULT"@
                    &&& e@ == Failure::Unsupported(
                        quoted_text(n@)
                            + " is not an encoding. Potree v2 has two: default and brotli."@,
                    )
                },
            },
        },
{
    match name {
        None => Ok(None),
        Some(n) => {
            if same(n, "brotli") || same(n, "BROTLI") {
                Ok(Some(PotreeEncoding::Brotli))
            } else if same(n, "default") || same(n, "DEFAULT") {
                Ok(Some(PotreeEncoding::Default))
            } else {
                let q = quoted(n);
                Err(
                    Error::Unsupported(
                        cat2(
                            q.as_str(),
                            " is not an encoding. Potree v2 has two: default and brotli.",
                        ),
                    ),
                )
            }
        },
    }
}

/// Several texts, with commas between them.
pub open spec fn listed(list: Seq<Seq<char>>) -> Seq<char>
    decreases list.len(),
{
    if list.len() == 0 {
        Seq::empty()
    } else if list.len() == 1 {
        list[0]
    } else {
        listed(list.drop_last()) + ", "@ + list.last()
    }
}

fn list_all(list: &Vec<String>) -> (s: String)
    ensures
        s@ == listed(texts(list@)),
{
    let mut s = String::new();
    let ghost all = texts(list@);
    let mut i: usize = 0;
    assert(s@ =~= listed(all.take(0)));
    while i < list.len()
        invariant
            i <= list.len(),
            all == texts(list@),
            s@ == listed(all.take(i as int)),
        decreases list.len() - i,
    {
        assert(all.take(i + 1).drop_last() =~= all.take(i as int));
        if i > 0 {
            s.append(", ");
        }
        s.append(list[i].as_str());
        assert(s@ =~= listed(all.take(i + 1)));
        i = i + 1;
    }
    assert(all.take(i as int) =~= all);
    s
}

/// The lines that say what was done. `share` is how the part of the payload that
/// is left is written, where there was any; `took` is how the time is.
pub open spec fn report(
    color: bool,
    output: Seq<char>,
    r: OptimizeReport,
    share: Option<Seq<char>>,
    took: Seq<char>,
) -> Seq<Seq<char>> {
    let head = seq![
        ""@,
        painted(color, "wrote "@ + output, "1"@),
        row(
            color,
            "nodes"@,
            grouped(decimal(r.nodes as nat)) + " kept, "@ + grouped(decimal(r.points as nat))
                + " points"@,
        ),
        row(
            color,
            "encoding"@,
            if r.encoding_before@ != r.encoding_after@ {
                r.encoding_before@ + " \u{2192} "@ + r.encoding_after@
            } else {
                r.encoding_before@
            },
        ),
    ];
    let dropped = if r.dropped@.len() > 0 {
        seq![
            row(
                color,
                "dropped"@,
                listed(texts(r.dropped@)) + " \u{2014} "@ + decimal(
                    (r.record_before - r.record_after) as nat,
                ) + " bytes per point saved"@,
            ),
        ]
    } else {
        Seq::empty()
    };
    let payload = match share {
        Some(s) => size_text(r.bytes_before as nat) + " \u{2192} "@ + size_text(
            r.bytes_after as nat,
        ) + " ("@ + s + "% of what it was)"@,
        None => size_text(r.bytes_after as nat),
    };
    head + dropped + seq![row(color, "payload"@, payload), row(color, "took"@, took)]
}

/// A text that may be missing, as its characters.
pub open spec fn said(s: Option<&str>) -> Option<Seq<char>> {
    match s {
        Some(t) => Some(t@),
        None => None,
    }
}

/// The report as lines of text. A quiet command prints none.
pub fn print(out: &Output, output: &str, r: &OptimizeReport, share: Option<&str>, took: &str) -> (
    lines: Vec<String>)
    requires
        r.record_after <= r.record_before,
    ensures
        texts(lines@) == if out.json || out.quiet {
            Seq::empty()
        } else {
            report(out.color, output@, *r, said(share), took@)
        },
{
    let mut lines: Vec<String> = Vec::new();
    assert(texts(lines@) =~= Seq::<Seq<char>>::empty());
    if out.json || out.quiet {
        return lines;
    }
    add_text(&mut lines, "".to_owned());
    let t = cat2("wrote ", output);
    add_text(&mut lines, out.bold(t.as_str()));
    let nodes = count(r.nodes);
    let points = count(r.points);
    let t = cat4(nodes.as_str(), " kept, ", points.as_str(), " points");
    add_text(&mut lines, out.row_of("nodes", t.as_str()));
    if !same(r.encoding_before.as_str(), r.encoding_after.as_str()) {
        let t = cat3(r.encoding_before.as_str(), " \u{2192} ", r.encoding_after.as_str());
        add_text(&mut lines, out.row_of("encoding", t.as_str()));
    } else {
        add_text(&mut lines, out.row_of("encoding", r.encoding_before.as_str()));
    }
    if r.dropped.len() > 0 {
        let names = list_all(&r.dropped);
        let saved = decimal_of((r.record_before - r.record_after) as u64);
        let t = cat4(names.as_str(), " \u{2014} ", saved.as_str(), " bytes per point saved");
        add_text(&mut lines, out.row_of("dropped", t.as_str()));
    }
    let after = bytes(r.bytes_after);
    match share {
        Some(s) => {
            let before = bytes(r.bytes_before);
            let front = cat3(before.as_str(), " \u{2192} ", after.as_str());
            let t = cat4(front.as_str(), " (", s, "% of what it was)");
            add_text(&mut lines, out.row_of("payload", t.as_str()));
        },
        None => {
            add_text(&mut lines, out.row_of("payload", after.as_str()));
        },
    }
    add_text(&mut lines, out.row_of("took", took));
    assert(texts(lines@) =~= report(out.color, output@, *r, said(share), took@));
    lines
}

/// Several texts, as a document.
pub open spec fn texts_tree(list: Seq<Seq<char>>) -> Tree {
    Tree::Array(list.map_values(|s: Seq<char>| Tree::Text(s)))
}

fn texts_json(list: &Vec<String>) -> (j: Json)
    ensures
        j.tree() == texts_tree(texts(list@)),
{
    let mut items: Vec<Json> = Vec::new();
    let mut i: usize = 0;
    while i < list.len()
        invariant
            i <= list.len(),
            items@.len() == i,
            forall|k: int| 0 <= k < i ==> (#[trigger] items@[k]).tree() == Tree::Text(list@[k]@),
        decreases list.len() - i,
    {
        items.push(Json::of_text(list[i].as_str()));
        i = i + 1;
    }
    let j = Json::Array(items);
    assert(j.tree()->Array_0 =~= texts(list@).map_values(|s: Seq<char>| Tree::Text(s)));
    j
}

/// The report, as a document.
pub open spec fn report_tree(output: Seq<char>, r: OptimizeReport, seconds: Real) -> Tree {
    Tree::Object(
        seq![
            ("output"@, Tree::Text(output)),
            ("nodes"@, Json::whole(r.nodes)),
            ("points"@, Json::whole(r.points)),
            ("bytesBefore"@, Json::whole(r.bytes_before)),
            ("bytesAfter"@, Json::whole(r.bytes_after)),
            ("recordBefore"@, Json::whole(r.record_before as u64)),
            ("recordAfter"@, Json::whole(r.record_after as u64)),
            ("encodingBefore"@, Tree::Text(r.encoding_before@)),
            ("encodingAfter"@, Tree::Text(r.encoding_after@)),
            ("dropped"@, texts_tree(texts(r.dropped@))),
            ("seconds"@, Json::fraction(seconds)),
            (
                "warnings"@,
                Tree::Array(notices(r.warnings@).map_values(|w: Notice| warning_tree(w))),
            ),
        ],
    )
}

/// The report as one document.
pub fn document(output: &str, r: &OptimizeReport, seconds: Real) -> (j: Json)
    ensures
        j.tree() == report_tree(output@, *r, seconds),
{
    let mut o = Fields::new();
    o.put("output", Json::of_text(output));
    o.put("nodes", Json::count(r.nodes));
    o.put("points", Json::count(r.points));
    o.put("bytesBefore", Json::count(r.bytes_before));
    o.put("bytesAfter", Json::count(r.bytes_after));
    o.put("recordBefore", Json::count(r.record_before as u64));
    o.put("recordAfter", Json::count(r.record_after as u64));
    o.put("encodingBefore", Json::of_text(r.encoding_before.as_str()));
    o.put("encodingAfter", Json::of_text(r.encoding_after.as_str()));
    o.put("dropped", texts_json(&r.dropped));
    o.put("seconds", Json::of_real(seconds));
    o.put("warnings", warnings_json(&r.warnings));
    assert(o@ =~= report_tree(output@, *r, seconds)->Object_0);
    o.object()
}

} // verus!
