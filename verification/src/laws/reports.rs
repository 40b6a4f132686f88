//! What the commands say, and what a thumbnail shows.

use crate::attribute::Column;
use crate::cli::{convert, optimize};
use crate::cli::convert::ConvertReport;
use crate::cli::inspect::{
    attribute_line, attribute_tree, crs_tree, info_fields, level_rows, report_tree, stats_tree,
    warning_tree,
};
use crate::cli::inspect::head_lines;
use crate::cli::order::{not_after, row_name, row_size, FoundEntry};
use crate::cli::out::{
    aligned, grouped, padded, painted, row, size_text, size_unit, unit_name, unit_size,
};
use crate::cli::snapshot::{
    channels_within, covered, covers, depth_rank, stride_of, widest, Picture, Pixel,
};
use crate::cloud::{sum, CloudInfo, FormatId, HierarchyStats};
use crate::cloud::wrap64;
use crate::convert::OutputFormat;
use crate::crs::{label_of, Declared};
use crate::double::Real;
use crate::error::{failure_text, Failure};
use crate::format::{opening_of, Opening};
use crate::json::{Json, Tree};
use crate::optimize::OptimizeReport;
use crate::source::{naming, parts_of, sought, SeekTo, SourceCursor};
use crate::text::{decimal, ends, first_of_unique, lowered, texts};
use crate::warning::{notices, Notice};
use crate::write::ept::EptEncoding;
use crate::write::potree::PotreeEncoding;
use vstd::prelude::*;

verus! {

/// Text is painted with an escape before it and one behind it that ends the colour,
/// and not at all where colour is off.
pub proof fn color_is_put_around_text(text: Seq<char>, code: Seq<char>)
    ensures
        painted(false, text, code) == text,
        painted(true, text, code) == "\x1b["@ + code + "m"@ + text + "\x1b[0m"@,
{
}

/// Text is filled up with blanks to a width, and is never cut.
pub proof fn text_is_filled_up(text: Seq<char>, width: int, i: int)
    ensures
        text.len() >= width ==> padded(text, width) == text && aligned(text, width) == text,
        text.len() < width ==> padded(text, width).len() == width && aligned(text, width).len()
            == width,
        0 <= i < text.len() ==> padded(text, width)[i] == text[i],
        text.len() <= i < width ==> padded(text, width)[i] == ' ',
        0 <= i < width - text.len() ==> aligned(text, width)[i] == ' ',
        text.len() < width && width - text.len() <= i < width ==> aligned(text, width)[i] == text[i
            - (width - text.len())],
{
}

/// A row is two blanks, its label over 22 places, a blank and its value.
pub proof fn a_row_has_its_label_before_its_value(label: Seq<char>, value: Seq<char>)
    ensures
        row(false, label, value) == "  "@ + padded(label, 22) + " "@ + value,
{
}

/// Sizes are counted in units of 1024.
pub proof fn sizes_have_binary_units()
    ensures
        unit_size(0) == 1 && unit_size(1) == 1024 && unit_size(2) == 1024 * 1024 && unit_size(3)
            == 1024 * 1024 * 1024 && unit_size(4) == 1024 * 1024 * 1024 * 1024,
        unit_name(0) == " B"@ && unit_name(1) == " KiB"@ && unit_name(2) == " MiB"@ && unit_name(3)
            == " GiB"@ && unit_name(4) == " TiB"@,
        forall|n: nat| n >= 1 ==> unit_size(#[trigger] size_unit(n)) <= n,
        forall|n: nat| #[trigger] size_unit(n) < 4 ==> n < 1024 * unit_size(size_unit(n)),
        forall|n: nat| #[trigger] size_unit(n) <= 4,
{
}

/// A size below a unit is its bytes, and a larger one its unit's, whole from a
/// hundred on and to a tenth below that.
pub proof fn a_size_is_written_in_its_unit(n: nat)
    ensures
        ({
            let v = crate::double::nearest53(n);
            let u = size_unit(v);
            let t = crate::double::rounded(10 * v, unit_size(u));
            &&& v < 1024 ==> size_text(n) == decimal(n) + " B"@
            &&& v >= 1024 && v >= 100 * unit_size(u) ==> size_text(n) == decimal(
                crate::double::rounded(v, unit_size(u)),
            ) + unit_name(u)
            &&& v >= 1024 && v < 100 * unit_size(u) ==> size_text(n) == decimal(t / 10) + "."@
                + decimal(t % 10) + unit_name(u)
        }),
{
}

/// A count has a comma before every three digits from the end.
pub proof fn counts_are_grouped_by_three(front: Seq<char>, a: char, b: char, c: char)
    ensures
        front.len() == 0 ==> grouped(front + seq![a, b, c]) == seq![a, b, c],
        front.len() > 0 ==> grouped(front + seq![a, b, c]) == grouped(front) + ","@ + seq![a, b, c],
        front.len() <= 3 ==> grouped(front) == front,
{
    let d = front + seq![a, b, c];
    assert(d.take(d.len() - 3) =~= front);
    assert(d.skip(d.len() - 3) =~= seq![a, b, c]);
    if front.len() == 0 {
        assert(d =~= seq![a, b, c]);
    }
}

/// What `inspect` says of a cloud, field by field.
pub proof fn a_cloud_is_described(info: CloudInfo)
    ensures
        ({
            let f = info_fields(info);
            &&& f.len() == 14
            &&& f[0] == ("format"@, Tree::Text(info.format.spelling()))
            &&& f[1] == ("source"@, Tree::Text(info.label@))
            &&& f[2].0 == "version"@ && (info@.version matches Some(v) ==> f[2].1 == Tree::Text(v))
            &&& f[3] == ("points"@, Json::whole(info.point_count))
            &&& f[4].0 == "bounds"@ && f[4].1 == Tree::Object(
                seq![
                    ("min"@, Json::fractions(info.bounds.min@)),
                    ("max"@, Json::fractions(info.bounds.max@)),
                ],
            )
            &&& f[5].0 == "tightBounds"@ && f[5].1 == Tree::Object(
                seq![
                    ("min"@, Json::fractions(info.tight_bounds.min@)),
                    ("max"@, Json::fractions(info.tight_bounds.max@)),
                ],
            )
            &&& f[6] == ("scale"@, Json::fractions(info.scale@))
            &&& f[7] == ("offset"@, Json::fractions(info.offset@))
            &&& f[8].0 == "spacing"@ && (info.spacing matches Some(s) ==> f[8].1 == Json::fraction(
                s,
            )) && (info.spacing is None ==> f[8].1 == Tree::Null)
            &&& f[9].0 == "levels"@ && (info.levels matches Some(n) ==> f[9].1 == Json::whole(
                n as u64,
            ))
            &&& f[10].0 == "encoding"@ && (info@.encoding matches Some(e) ==> f[10].1 == Tree::Text(
                e,
            ))
            &&& f[11].0 == "bytesPerPoint"@ && (info.record_bytes matches Some(b) ==> f[11].1
                == Json::whole(b as u64))
            &&& f[12].0 == "crs"@ && (info@.crs is None ==> f[12].1 == Tree::Null)
            &&& f[13].0 == "attributes"@
        }),
        FormatId::PotreeV2.spelling() == "potree-v2"@ && FormatId::Copc.spelling() == "copc"@
            && FormatId::Ept.spelling() == "ept"@ && FormatId::Las.spelling() == "las"@
            && FormatId::E57.spelling() == "e57"@ && FormatId::Tiles3D.spelling() == "3d-tiles"@,
{
}

/// What `inspect` says of an attribute and of a reference system.
pub proof fn an_attribute_is_described(c: Column, d: Declared)
    ensures
        ({
            let f = attribute_tree(c)->Object_0;
            &&& attribute_tree(c) is Object
            &&& f[0] == ("name"@, Tree::Text(c.name))
            &&& f[1] == ("type"@, Tree::Text(c.kind.spelling()))
            &&& f[2] == ("numElements"@, Json::whole(c.num_elements as u64))
            &&& f[3] == ("byteOffset"@, Json::whole(c.byte_offset as u64))
            &&& f[4].0 == "byteSize"@ && (c.num_elements * c.kind.width() <= usize::MAX ==> f[4].1
                == Json::whole((c.num_elements * c.kind.width()) as u64))
            &&& f[5].0 == "role"@
            &&& c.name == "position"@ ==> f[5].1 == Tree::Text("position"@)
            &&& c.name == "rgb"@ ==> f[5].1 == Tree::Text("color"@)
            &&& f[6] == ("min"@, Json::fractions(c.min))
            &&& f[7] == ("max"@, Json::fractions(c.max))
        }),
        ({
            let g = crs_tree(Some(d))->Object_0;
            &&& crs_tree(Some(d)) is Object
            &&& g[0] == ("format"@, Tree::Text(d.format.spelling()))
            &&& g[1].0 == "epsg"@ && (d.epsg matches Some(n) ==> g[1].1 == Json::whole(n as u64))
            &&& g[2].0 == "verticalEpsg"@ && (d.vertical_epsg matches Some(n) ==> g[2].1
                == Json::whole(n as u64))
            &&& g[3].0 == "name"@ && (d.name matches Some(n) ==> g[3].1 == Tree::Text(n))
            &&& g[4] == ("raw"@, Tree::Text(d.raw))
        }),
{
    reveal_strlit("position");
    reveal_strlit("POSITION_CARTESIAN");
    reveal_strlit("rgb");
    assert("position"@.len() == 8 && "POSITION_CARTESIAN"@.len() == 18 && "rgb"@.len() == 3);
    if c.num_elements * c.kind.width() <= usize::MAX {
        let n = c.num_elements * c.kind.width();
        assert(n >= 0) by (nonlinear_arith)
            requires
                n == c.num_elements * c.kind.width(),
        ;
        vstd::arithmetic::div_mod::lemma_small_mod(n as nat, (usize::MAX + 1) as nat);
    }
}

/// What `inspect` says of a walk, and of its warnings.
pub proof fn a_walk_is_described(s: HierarchyStats, w: Notice)
    requires
        sum(s.points_by_level@) <= u64::MAX,
        0 <= sum(s.points_by_level@),
    ensures
        ({
            let f = stats_tree(s)->Object_0;
            &&& stats_tree(s) is Object
            &&& f[0] == ("nodes"@, Json::whole(s.nodes))
            &&& f[1] == ("depth"@, Json::whole(s.depth as u64))
            &&& f[2] == ("pointsByLevel"@, Json::wholes(s.points_by_level@))
            &&& f[3] == ("nodesByLevel"@, Json::wholes(s.nodes_by_level@))
            &&& f[4] == ("dataBytes"@, Json::whole(s.data_bytes))
            &&& f[5] == ("indexBytes"@, Json::whole(s.hierarchy_bytes))
            &&& f[6] == ("indexReads"@, Json::whole(s.hierarchy_requests as u64))
            &&& f[7] == ("countedPoints"@, Json::whole(sum(s.points_by_level@) as u64))
        }),
        warning_tree(w) == Tree::Object(
            seq![
                ("code"@, Tree::Text(w.code)),
                ("path"@, Tree::Text(w.path)),
                ("message"@, Tree::Text(w.message)),
            ],
        ),
{
}

/// A report without a walk ends with the warnings of the manifest; one with a walk
/// has it before them, and its warnings behind the others.
pub proof fn a_report_has_the_walk_and_the_warnings(info: CloudInfo, s: HierarchyStats)
    ensures
        ({
            let f = report_tree(info, Some(s))->Object_0;
            let g = report_tree(info, None)->Object_0;
            &&& report_tree(info, Some(s)) is Object && report_tree(info, None) is Object
            &&& f.len() == 16 && g.len() == 15
            &&& f.take(14) == info_fields(info) && g.take(14) == info_fields(info)
            &&& f[14] == ("hierarchy"@, stats_tree(s))
            &&& f[15].0 == "warnings"@ && g[14].0 == "warnings"@
            &&& f[15].1 == Tree::Array(
                (info@.warnings + notices(s.warnings@)).map_values(|w: Notice| warning_tree(w)),
            )
            &&& g[14].1 == Tree::Array(info@.warnings.map_values(|w: Notice| warning_tree(w)))
        }),
{
    let f = report_tree(info, Some(s))->Object_0;
    let g = report_tree(info, None)->Object_0;
    assert(f.take(14) =~= info_fields(info));
    assert(g.take(14) =~= info_fields(info));
}

/// The line of an attribute: its name over 22 places, its type, its elements where
/// there are several, and the part it plays.
pub proof fn an_attribute_has_its_line(c: Column)
    ensures
        c.num_elements == 1 && c.name == "intensity"@ ==> attribute_line(c) == "  "@ + padded(
            c.name,
            22,
        ) + " "@ + c.kind.spelling() + Seq::<char>::empty() + ""@,
        c.num_elements == 3 && c.name == "position"@ ==> attribute_line(c) == "  "@ + padded(
            c.name,
            22,
        ) + " "@ + c.kind.spelling() + (" x"@ + decimal(3)) + "  (position)"@,
        c.num_elements == 3 && c.name == "rgb"@ ==> attribute_line(c) == "  "@ + padded(c.name, 22)
            + " "@ + c.kind.spelling() + (" x"@ + decimal(3)) + "  (colour)"@,
{
    reveal_strlit("position");
    reveal_strlit("POSITION_CARTESIAN");
    reveal_strlit("rgb");
    reveal_strlit("rgba");
    reveal_strlit("RGBA");
    reveal_strlit("intensity");
    assert("position"@.len() == 8 && "POSITION_CARTESIAN"@.len() == 18 && "rgb"@.len() == 3);
    assert("rgba"@.len() == 4 && "RGBA"@.len() == 4 && "intensity"@.len() == 9);
}

/// The table of levels has a row for every level with nodes, and none for the rest.
pub proof fn levels_with_nodes_have_rows(s: HierarchyStats, n: int)
    requires
        0 <= n,
    ensures
        s.nodes_by_level@[n] == 0 ==> level_rows(s, n + 1) == level_rows(s, n),
        s.nodes_by_level@[n] != 0 ==> level_rows(s, n + 1) == level_rows(s, n).push(
            "  "@ + padded(decimal(n as nat), 7) + " "@ + aligned(
                grouped(decimal(s.nodes_by_level@[n] as nat)),
                10,
            ) + " "@ + aligned(grouped(decimal(s.points_by_level@[n] as nat)), 16),
        ),
        level_rows(s, 0).len() == 0,
{
}

/// What `convert` says when it is done, field by field.
pub proof fn a_conversion_is_described(r: ConvertReport)
    ensures
        ({
            let f = convert::report_tree(r)->Object_0;
            &&& convert::report_tree(r) is Object
            &&& f.len() == 12
            &&& f[0] == ("output"@, Tree::Text(r.write.path@))
            &&& f[1] == ("format"@, Tree::Text(r.format.spelling()))
            &&& f[2] == ("points"@, Json::whole(r.write.points))
            &&& f[3] == ("nodes"@, Json::whole(r.write.nodes))
            &&& f[4] == ("depth"@, Json::whole(r.write.depth as u64))
            &&& f[5] == ("bytes"@, Json::whole(r.write.bytes))
            &&& f[6] == ("seconds"@, Json::fraction(r.seconds))
            &&& f[7] == ("spilled"@, Tree::Bool(r.spilled))
            &&& f[8] == ("inputPoints"@, Json::whole(r.scan.point_count))
            &&& f[9] == ("scale"@, Json::fractions(r.scan.scale@))
            &&& f[10].0 == "crs"@ && (r.scan@.crs matches Some(d) ==> f[10].1 == Tree::Text(
                label_of(d),
            )) && (r.scan@.crs is None ==> f[10].1 == Tree::Null)
            &&& f[11].0 == "warnings"@
        }),
        OutputFormat::Copc.spelling() == "copc"@,
        OutputFormat::PotreeV2(PotreeEncoding::Default).spelling() == "potree-v2"@,
        OutputFormat::PotreeV2(PotreeEncoding::Brotli).spelling() == "potree-v2-brotli"@,
        OutputFormat::Ept(EptEncoding::Laszip).spelling() == "ept-laszip"@,
        OutputFormat::Ept(EptEncoding::Binary).spelling() == "ept-binary"@,
        OutputFormat::Tiles3D.spelling() == "3d-tiles"@,
{
}

/// The lines of a conversion: what was written, and where the points went through
/// disk or are not as many as the inputs declare, that too.
pub proof fn a_conversion_has_its_lines(r: ConvertReport, took: Seq<char>)
    ensures
        ({
            let l = convert::report(false, r, took);
            &&& l[1] == "wrote "@ + r.write.path@
            &&& l[2] == row(false, "format"@, r.format.spelling())
            &&& l[3] == row(false, "points"@, grouped(decimal(r.write.points as nat)))
            &&& l[4] == row(
                false,
                "nodes"@,
                grouped(decimal(r.write.nodes as nat)) + ", depth "@ + decimal(
                    r.write.depth as nat,
                ),
            )
            &&& l[5] == row(false, "size"@, size_text(r.write.bytes as nat))
            &&& l[6] == row(false, "took"@, took)
            &&& !r.spilled && r.write.points == r.scan.point_count ==> l.len() == 7
            &&& r.spilled && r.write.points == r.scan.point_count ==> l.len() == 8
            &&& !r.spilled && r.write.points != r.scan.point_count ==> l.len() == 8 && l[7] == row(
                false,
                "counted"@,
                grouped(decimal(r.write.points as nat)) + " written against "@ + grouped(
                    decimal(r.scan.point_count as nat),
                ) + " declared by the inputs"@,
            )
        }),
{
}

/// What `optimize` says when it is done, field by field.
pub proof fn a_repacking_is_described(output: Seq<char>, r: OptimizeReport, seconds: Real)
    ensures
        ({
            let f = optimize::report_tree(output, r, seconds)->Object_0;
            &&& optimize::report_tree(output, r, seconds) is Object
            &&& f.len() == 12
            &&& f[0] == ("output"@, Tree::Text(output))
            &&& f[1] == ("nodes"@, Json::whole(r.nodes))
            &&& f[2] == ("points"@, Json::whole(r.points))
            &&& f[3] == ("bytesBefore"@, Json::whole(r.bytes_before))
            &&& f[4] == ("bytesAfter"@, Json::whole(r.bytes_after))
            &&& f[5] == ("recordBefore"@, Json::whole(r.record_before as u64))
            &&& f[6] == ("recordAfter"@, Json::whole(r.record_after as u64))
            &&& f[7] == ("encodingBefore"@, Tree::Text(r.encoding_before@))
            &&& f[8] == ("encodingAfter"@, Tree::Text(r.encoding_after@))
            &&& f[9] == (
                "dropped"@,
                Tree::Array(texts(r.dropped@).map_values(|s: Seq<char>| Tree::Text(s))),
            )
            &&& f[10] == ("seconds"@, Json::fraction(seconds))
            &&& f[11].0 == "warnings"@
        }),
{
}

/// The lines of a repacking: what is dropped is named with what that saves, and the
/// payload with what it was.
pub proof fn a_repacking_has_its_lines(output: Seq<char>, r: OptimizeReport, took: Seq<char>)
    requires
        r.record_after <= r.record_before,
    ensures
        ({
            let l = optimize::report(false, output, r, None, took);
            let n = l.len() as int;
            &&& l[1] == "wrote "@ + output
            &&& l[2] == row(
                false,
                "nodes"@,
                grouped(decimal(r.nodes as nat)) + " kept, "@ + grouped(decimal(r.points as nat))
                    + " points"@,
            )
            &&& r.encoding_before@ == r.encoding_after@ ==> l[3] == row(
                false,
                "encoding"@,
                r.encoding_before@,
            )
            &&& r.dropped@.len() == 0 ==> n == 6
            &&& r.dropped@.len() > 0 ==> n == 7 && l[4] == row(
                false,
                "dropped"@,
                optimize::listed(texts(r.dropped@)) + " \u{2014} "@ + decimal(
                    (r.record_before - r.record_after) as nat,
                ) + " bytes per point saved"@,
            )
            &&& l[n - 2] == row(false, "payload"@, size_text(r.bytes_after as nat))
            &&& l[n - 1] == row(false, "took"@, took)
        }),
{
}

/// The entries of a listing stand by their names, the lesser character first, and a
/// name before those it begins. A directory has a slash behind its name and no size.
pub proof fn entries_stand_by_their_names(
    p: Seq<char>,
    a: char,
    b: char,
    s: Seq<char>,
    t: Seq<char>,
    e: FoundEntry,
)
    requires
        (a as int) < (b as int),
    ensures
        not_after(p + seq![a] + s, p + seq![b] + t),
        !not_after(p + seq![b] + t, p + seq![a] + s),
        not_after(p, p + seq![a] + s),
        !not_after(p + seq![a] + s, p),
        e.is_dir ==> row_name(e) == e.name@ + "/"@ && row_size(e) is None,
        !e.is_dir ==> row_name(e) == e.name@ && row_size(e) == e.size,
    decreases p.len(),
{
    let x = p + seq![a] + s;
    let y = p + seq![b] + t;
    if p.len() > 0 {
        let q = p.drop_first();
        entries_stand_by_their_names(q, a, b, s, t, e);
        assert(x.drop_first() =~= q + seq![a] + s);
        assert(y.drop_first() =~= q + seq![b] + t);
        assert(x[0] == p[0] && y[0] == p[0]);
    } else {
        assert(x[0] == a && y[0] == b);
    }
}

/// What an error says.
pub proof fn errors_are_told(f: Failure)
    ensures
        f matches Failure::NotFormat { format, detail } ==> failure_text(f) == "not "@ + format
            + ": "@ + detail,
        f matches Failure::Truncated { need, got, what } ==> failure_text(f) == what + " needs "@
            + decimal(need as nat) + " bytes and the source has "@ + decimal(got as nat),
        f matches Failure::Unsupported(what) ==> failure_text(f) == "unsupported: "@ + what,
        f matches Failure::Manifest { path, detail } ==> failure_text(f) == path + ": "@ + detail,
        f matches Failure::Codec(detail) ==> failure_text(f) == "decode failed: "@ + detail,
        f matches Failure::Source(detail) ==> failure_text(f) == detail,
        f matches Failure::Io(detail) ==> failure_text(f) == detail,
{
}

/// What the name of a target says of it: a manifest by its own name, a file by its
/// extension in any case, and a prefix by anything else.
pub proof fn a_target_is_known_by_its_name(name: Seq<char>)
    ensures
        opening_of("metadata.json"@) == Opening::Manifest(FormatId::PotreeV2),
        opening_of("ept.json"@) == Opening::Manifest(FormatId::Ept),
        opening_of("tileset.json"@) == Opening::Manifest(FormatId::Tiles3D),
        name.len() == 0 ==> opening_of(name) == Opening::Prefix,
        ends(lowered(name), ".e57"@) ==> opening_of(name) == Opening::E57,
        ends(lowered(name), ".las"@) || ends(lowered(name), ".laz"@) ==> opening_of(name)
            == Opening::LasLike,
        ends(lowered(name), ".json"@) && name != "metadata.json"@ && name != "ept.json"@ && name
            != "tileset.json"@ ==> opening_of(name) == Opening::AnyManifest,
{
    reveal_strlit("metadata.json");
    reveal_strlit("ept.json");
    reveal_strlit("tileset.json");
    reveal_strlit(".e57");
    reveal_strlit(".las");
    reveal_strlit(".laz");
    reveal_strlit(".json");
    assert("metadata.json"@.len() == 13 && "ept.json"@.len() == 8 && "tileset.json"@.len() == 12);
    assert(".e57"@.len() == 4 && ".las"@.len() == 4 && ".laz"@.len() == 4 && ".json"@.len() == 5);
    let l = lowered(name);
    let n = l.len() as int;
    assert(".e57"@[0] == '.' && ".e57"@[1] == 'e' && ".las"@[1] == 'l' && ".las"@[3] == 's');
    assert(".laz"@[1] == 'l' && ".laz"@[3] == 'z' && ".json"@[4] == 'n' && ".e57"@[3] == '7');
    if n >= 5 {
        assert(l.skip(n - 5)[4] == l[n - 1]);
    }
    if n >= 4 {
        assert(l.skip(n - 4)[3] == l[n - 1]);
    }
    assert("metadata.json"@[12] == 'n' && "ept.json"@[7] == 'n' && "tileset.json"@[11] == 'n');
    assert(lowered("metadata.json"@)[12] == 'n');
    assert(lowered("ept.json"@)[7] == 'n');
    assert(lowered("tileset.json"@)[11] == 'n');
}

/// A path is cut at its slashes, and the parts that name nothing are passed over.
pub proof fn a_path_is_cut_at_its_slashes(
    part: Seq<char>,
    rest: Seq<char>,
    parts: Seq<Seq<char>>,
    p: Seq<char>,
)
    requires
        forall|i: int| 0 <= i < part.len() ==> #[trigger] part[i] != '/',
    ensures
        parts_of(part) == seq![part],
        parts_of(part + seq!['/'] + rest) == seq![part] + parts_of(rest),
        p == ""@ || p == "."@ ==> naming(parts.push(p)) == naming(parts),
        p != ""@ && p != "."@ ==> naming(parts.push(p)) == naming(parts).push(p),
        naming(Seq::empty()).len() == 0,
{
    let s = part + seq!['/'] + rest;
    let n = part.len() as int;
    first_of_unique(part, '/', n);
    assert forall|i: int| 0 <= i < n implies s[i] != '/' by {
        assert(s[i] == part[i]);
    }
    assert(s[n] == '/');
    first_of_unique(s, '/', n);
    assert(s.take(n) =~= part);
    assert(s.skip(n + 1) =~= rest);
    assert(parts.push(p).drop_last() =~= parts);
}

/// A seek goes to a place from the start, from the end, or from where the cursor is.
pub proof fn a_seek_goes_from_its_origin(c: SourceCursor, n: u64, d: i64)
    ensures
        sought(c, SeekTo::Start(n)) == n,
        sought(c, SeekTo::End(d)) == c.size + d,
        sought(c, SeekTo::Current(d)) == c.at + d,
{
}

/// One point of so many is drawn that no more than twice those asked for are, and
/// every point where there are fewer.
pub proof fn points_are_thinned_out(total: u64, asked: u64)
    ensures
        stride_of(total, asked) >= 1,
        total < asked ==> stride_of(total, asked) == 1,
        0 < asked <= total ==> stride_of(total, asked) == total / asked,
        asked == 0 && total > 0 ==> stride_of(total, asked) == total,
{
    if 0 < asked && total < asked {
        assert(total / asked == 0) by (nonlinear_arith)
            requires
                0 <= total < asked,
        ;
    }
    if 0 < asked <= total {
        assert(total / asked >= 1) by (nonlinear_arith)
            requires
                0 < asked <= total,
        ;
    }
    assert(total / 1 == total);
}

/// Depths are ordered as numbers are, and what is no number stands nowhere.
pub proof fn depths_are_ordered(a: u32, b: u32)
    ensures
        a <= 0x7f80_0000 && b <= 0x7f80_0000 ==> depth_rank(a) == Some(a as int) && depth_rank(b)
            == Some(b as int),
        0x8000_0000 <= a <= 0xff80_0000 && 0x8000_0000 <= b <= 0xff80_0000 ==> (depth_rank(a)->0
            < depth_rank(b)->0 <==> a > b),
        0x8000_0000 < a <= 0xff80_0000 ==> depth_rank(a) is Some && depth_rank(a)->0 < 0,
        depth_rank(0x8000_0000) == depth_rank(0),
        0x7f80_0000 < a < 0x8000_0000 || a > 0xff80_0000 ==> depth_rank(a) is None,
{
}

/// A point covers the pixel it falls on, the one to its right and the two below
/// them, and no other.
pub proof fn a_point_covers_four_pixels(size: nat, px: int, py: int, x: int, y: int)
    requires
        0 < size,
        0 <= x < size,
        0 <= y,
    ensures
        covers(size, px, py, y * size + x) <==> (x == px || x == px + 1) && (y == py || y == py + 1),
{
    let n = size as int;
    assert((y * n + x) % n == x && (y * n + x) / n == y) by (nonlinear_arith)
        requires
            0 < n,
            0 <= x < n,
            0 <= y,
    ;
}

/// A pixel shows the nearest point that covers it: one that is nearer replaces what
/// is there, and one that is not, or is nowhere, leaves it.
pub proof fn the_nearest_point_is_shown(p: Pixel, k: int, color: [u16; 3])
    requires
        i64::MIN <= k <= i64::MAX,
    ensures
        k > p.depth ==> covered(p, Some(k), color) == (Pixel { depth: k as i64, color, hit: true }),
        k <= p.depth ==> covered(p, Some(k), color) == p,
        covered(p, None, color) == p,
{
}

/// The widest channel so far is no less than any that was seen, and is one of them.
pub proof fn the_widest_channel_is_kept(max: u16, color: [u16; 3])
    ensures
        widest(max, color) >= max,
        widest(max, color) >= color[0] && widest(max, color) >= color[1] && widest(max, color)
            >= color[2],
        widest(max, color) == max || widest(max, color) == color[0] || widest(max, color)
            == color[1] || widest(max, color) == color[2],
        channels_within(color, widest(max, color)),
{
}

/// A picture: four bytes for a pixel. One that no point covers is clear; one that is
/// covered is opaque, and has the high byte of its colour where a channel is wider
/// than a byte, and its colour as it is else.
pub proof fn a_picture_shows_its_points(p: Picture, at: int, k: int)
    requires
        p.valid(),
        0 <= at < p.pixels.len(),
        0 <= k < 4,
    ensures
        ({
            let b = p.rgba()[4 * at + k];
            let q = p.pixels[at];
            &&& p.rgba().len() == 4 * p.pixels.len()
            &&& !q.hit ==> b == 0
            &&& q.hit && k == 3 ==> b == 255
            &&& q.hit && k < 3 && p.has_color && p.max_channel > 255 ==> b == q.color[k] / 256
            &&& q.hit && k < 3 && !(p.has_color && p.max_channel > 255) ==> b == q.color[k]
        }),
{
    assert((4 * at + k) / 4 == at && (4 * at + k) % 4 == k);
    assert(channels_within(
        p.pixels[at].color,
        if p.has_color {
            p.max_channel
        } else {
            255
        },
    ));
}

/// What `inspect` says of a walk, line by line: its size where anything was read, the
/// points where there are bytes, and the count where it is not the manifest's.
pub proof fn a_walk_has_its_lines(info: CloudInfo, s: HierarchyStats)
    requires
        s.nodes_by_level@.len() == 0,
    ensures
        ({
            let l = crate::cli::inspect::stats_lines(false, info, s);
            let walked = wrap64(sum(s.points_by_level@));
            let a = if s.hierarchy_requests > 0 {
                1int
            } else {
                0
            };
            let b = if s.data_bytes > 0 {
                1int
            } else {
                0
            };
            let c = if walked != info.point_count {
                1int
            } else {
                0
            };
            &&& l.len() == 4 + a + b + c
            &&& l[1] == "hierarchy  "@ + grouped(decimal(s.nodes as nat)) + " nodes, depth "@
                + decimal(s.depth as nat)
            &&& s.hierarchy_requests == 1 ==> l[2] == row(
                false,
                "index size"@,
                size_text(s.hierarchy_bytes as nat) + " in "@ + decimal(1) + " read"@ + ""@,
            )
            &&& s.data_bytes > 0 ==> l[2 + a] == row(
                false,
                "point data"@,
                size_text(s.data_bytes as nat),
            )
            &&& walked != info.point_count ==> l[2 + a + b] == row(
                false,
                "counted"@,
                grouped(decimal(walked as nat)) + " points across the nodes, against "@ + grouped(
                    decimal(info.point_count as nat),
                ) + " in the manifest"@,
            )
        }),
{
}

/// The head of what `inspect` says: the format, the source, the points, and the
/// reference system, or that there is none.
pub proof fn a_cloud_has_its_lines(info: CloudInfo, m: crate::cli::inspect::Measures)
    ensures
        ({
            let l = head_lines(false, info, m);
            &&& l[2] == row(false, "source"@, info.label@)
            &&& l[3] == row(false, "points"@, grouped(decimal(info.point_count as nat)))
            &&& m.extent is None ==> l[4] == row(false, "extent"@, "not declared by the file"@)
            &&& m.extent matches Some(e) ==> l[4] == row(false, "extent"@, e.0@) && l[5] == row(
                false,
                "min"@,
                e.1@,
            ) && l[6] == row(false, "max"@, e.2@)
            &&& info@.crs is None ==> l.last() == row(false, "crs"@, "none declared"@)
            &&& info@.crs matches Some(d) ==> l.last() == row(false, "crs"@, label_of(d))
        }),
{
}

} // verus!
