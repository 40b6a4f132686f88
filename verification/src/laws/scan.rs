//! What a conversion takes from its inputs: scanned points, headers, and the
//! reference systems they declare.

use crate::attribute::AttributeType;
use crate::bounds::Bounds;
use crate::bytes::{bytes16, bytes32};
use crate::cloud::FormatId;
use crate::convert::{
    all_bytes, concluded, dimensions_of, format_named, nothing_known, one_projection, projections,
    with_e57, with_las, written_format, Known, OutputFormat, Scan,
};
use crate::crs::{
    authority_from, close_from, code_only, direct_authority, epsg_declares, epsg_in,
    horizontal_code, is_wkt, keyword_len, label_of, leading_digits, node_named, node_of, outer_name,
    string_declares, vertical_code, CrsFormat, Declared,
};
use crate::double::{bit_len, Real};
use crate::e57::{
    color_of, field_of, field_spelling, field_views, grown_by, intensity_of, over_scans, range_bits,
    said, scan_record, signature, value_bits, Decoded, E57Info, Measured, PointBatch, Reading,
    RecordHeader, RecordKind, RecordName, ScanHeader,
};
use crate::format::e57_file;
use crate::las::{record_named, Header, Record};
use crate::las::crs::projection;
use crate::record::RecordLayout;
use crate::text::{decimal, is_digit, is_space, trimmed, trimmed_start};
use crate::warning::{notices, Notice};
use crate::write::ept::EptEncoding;
use crate::write::potree::PotreeEncoding;
use vstd::arithmetic::power2::pow2;
use vstd::prelude::*;

verus! {

/// An E57 file starts with the name of its standard.
pub proof fn a_file_starts_with_its_standard()
    ensures
        signature().len() == 8,
        signature()[0] == 'A' as u8 && signature()[1] == 'S' as u8 && signature()[2] == 'T' as u8
            && signature()[3] == 'M' as u8 && signature()[4] == '-' as u8 && signature()[5]
            == 'E' as u8 && signature()[6] == '5' as u8 && signature()[7] == '7' as u8,
{
}

/// The record of a scanned point: its place in twelve bytes, its intensity, one
/// return of one, the scan it came from at byte 20, no class, no angle and no time,
/// and its colour at byte 30 where the format has one.
pub proof fn a_scanned_point_is_recorded(
    layout: RecordLayout,
    batch: PointBatch,
    i: int,
    position: Seq<i32>,
    k: int,
)
    requires
        position.len() == 3,
        color_of(batch, i).len() == 3,
    ensures
        ({
            let r = scan_record(layout, batch, i, position);
            let rgb = color_of(batch, i);
            let colored = layout.format == 7 || layout.format == 8;
            let base = if layout.format == 8 {
                38int
            } else if layout.format == 7 {
                36
            } else {
                30
            };
            &&& r.len() == base + layout.extra
            &&& r.subrange(0, 4) == bytes32(position[0] as int % 0x1_0000_0000)
            &&& r.subrange(4, 8) == bytes32(position[1] as int % 0x1_0000_0000)
            &&& r.subrange(8, 12) == bytes32(position[2] as int % 0x1_0000_0000)
            &&& r.subrange(12, 14) == bytes16(intensity_of(batch, i) as int)
            &&& r[14] == 17
            &&& 15 <= k < 20 || 22 <= k < 30 || 36 <= k < r.len() ==> r[k] == 0
            &&& r.subrange(20, 22) == bytes16(batch.source_id@[i] as int)
            &&& colored ==> r.subrange(30, 32) == bytes16(rgb[0] as int)
            &&& colored ==> r.subrange(32, 34) == bytes16(rgb[1] as int)
            &&& colored ==> r.subrange(34, 36) == bytes16(rgb[2] as int)
        }),
{
    let r = scan_record(layout, batch, i, position);
    let rgb = color_of(batch, i);
    let p = crate::e57::place_part(position);
    let m = crate::e57::scan_part(intensity_of(batch, i), batch.source_id@[i]);
    let t = crate::e57::tail_part(layout, rgb);
    lemma_place(position);
    lemma_scan(intensity_of(batch, i), batch.source_id@[i], k - 12);
    lemma_tail(layout, rgb, k - 30);
    lemma_joined(p, m, t, r, k);
    if layout.format == 7 || layout.format == 8 {
        assert(r.subrange(30, 32) =~= t.subrange(0, 2));
        assert(r.subrange(32, 34) =~= t.subrange(2, 4));
        assert(r.subrange(34, 36) =~= t.subrange(4, 6));
    }
}

#[verifier::spinoff_prover]
proof fn lemma_joined(p: Seq<u8>, m: Seq<u8>, t: Seq<u8>, r: Seq<u8>, k: int)
    requires
        p.len() == 12,
        m.len() == 18,
        r == p + m + t,
    ensures
        r.len() == 30 + t.len(),
        r.subrange(0, 4) == p.subrange(0, 4),
        r.subrange(4, 8) == p.subrange(4, 8),
        r.subrange(8, 12) == p.subrange(8, 12),
        r.subrange(12, 14) == m.subrange(0, 2),
        r.subrange(20, 22) == m.subrange(8, 10),
        r[14] == m[2],
        12 <= k < 30 ==> r[k] == m[k - 12],
        30 <= k < r.len() ==> r[k] == t[k - 30],
{
    assert(r.subrange(0, 4) =~= p.subrange(0, 4));
    assert(r.subrange(4, 8) =~= p.subrange(4, 8));
    assert(r.subrange(8, 12) =~= p.subrange(8, 12));
    assert(r.subrange(12, 14) =~= m.subrange(0, 2));
    assert(r.subrange(20, 22) =~= m.subrange(8, 10));
}

#[verifier::spinoff_prover]
proof fn lemma_place(position: Seq<i32>)
    requires
        position.len() == 3,
    ensures
        ({
            let p = crate::e57::place_part(position);
            &&& p.len() == 12
            &&& p.subrange(0, 4) == bytes32(position[0] as int % 0x1_0000_0000)
            &&& p.subrange(4, 8) == bytes32(position[1] as int % 0x1_0000_0000)
            &&& p.subrange(8, 12) == bytes32(position[2] as int % 0x1_0000_0000)
        }),
{
    let p = crate::e57::place_part(position);
    assert(p.subrange(0, 4) =~= bytes32(position[0] as int % 0x1_0000_0000));
    assert(p.subrange(4, 8) =~= bytes32(position[1] as int % 0x1_0000_0000));
    assert(p.subrange(8, 12) =~= bytes32(position[2] as int % 0x1_0000_0000));
}

#[verifier::spinoff_prover]
proof fn lemma_scan(intensity: u16, source_id: u16, k: int)
    ensures
        ({
            let m = crate::e57::scan_part(intensity, source_id);
            &&& m.len() == 18
            &&& m.subrange(0, 2) == bytes16(intensity as int)
            &&& m[2] == 17
            &&& 3 <= k < 8 || 10 <= k < 18 ==> m[k] == 0
            &&& m.subrange(8, 10) == bytes16(source_id as int)
        }),
{
    let m = crate::e57::scan_part(intensity, source_id);
    assert(m.subrange(0, 2) =~= bytes16(intensity as int));
    assert(m.subrange(8, 10) =~= bytes16(source_id as int));
}

#[verifier::spinoff_prover]
proof fn lemma_tail(layout: RecordLayout, rgb: Seq<u16>, k: int)
    requires
        rgb.len() == 3,
    ensures
        ({
            let t = crate::e57::tail_part(layout, rgb);
            let colored = layout.format == 7 || layout.format == 8;
            let base = if layout.format == 8 {
                8int
            } else if layout.format == 7 {
                6
            } else {
                0
            };
            &&& t.len() == base + layout.extra
            &&& colored ==> t.subrange(0, 2) == bytes16(rgb[0] as int)
            &&& colored ==> t.subrange(2, 4) == bytes16(rgb[1] as int)
            &&& colored ==> t.subrange(4, 6) == bytes16(rgb[2] as int)
            &&& 6 <= k < t.len() ==> t[k] == 0
        }),
{
    let t = crate::e57::tail_part(layout, rgb);
    if layout.format == 7 || layout.format == 8 {
        assert(t.subrange(0, 2) =~= bytes16(rgb[0] as int));
        assert(t.subrange(2, 4) =~= bytes16(rgb[1] as int));
        assert(t.subrange(4, 6) =~= bytes16(rgb[2] as int));
    }
}

/// A scanned point without a colour is white, and one without an intensity has
/// none.
pub proof fn a_point_without_a_color_is_white(batch: PointBatch, i: int)
    requires
        0 <= i,
    ensures
        batch.rgb@.len() == 0 ==> color_of(batch, i) == seq![0xffffu16, 0xffff, 0xffff],
        i < batch.rgb@.len() ==> color_of(batch, i) == batch.rgb@[i]@,
        batch.intensity@.len() == 0 ==> intensity_of(batch, i) == 0,
        batch.intensity@.len() > 0 ==> intensity_of(batch, i) == batch.intensity@[i],
{
}

/// A decoded point goes behind those before it in every column, with the scan it
/// came from, white and without intensity where it has neither.
pub proof fn a_decoded_point_fills_its_columns(
    r: Reading,
    before: PointBatch,
    point: Decoded,
    id: u16,
    after: PointBatch,
)
    requires
        r.holds_more(before, point, id, after),
        point.position is Some,
    ensures
        ({
            let p = point.position->0;
            &&& after.x@.len() == before.x@.len() + 1 && after.x@.last() == p@[0]
            &&& after.y@.len() == before.y@.len() + 1 && after.y@.last() == p@[1]
            &&& after.z@.len() == before.z@.len() + 1 && after.z@.last() == p@[2]
            &&& after.source_id@.last() == id
            &&& after.x@.drop_last() == before.x@ && after.y@.drop_last() == before.y@
                && after.z@.drop_last() == before.z@
            &&& r.want_color && point.color is Some ==> after.rgb@.last() == point.color->0
            &&& r.want_color && point.color is None ==> after.rgb@.last()@ == seq![
                0xffffu16,
                0xffff,
                0xffff,
            ]
            &&& !r.want_color ==> after.rgb@ == before.rgb@
            &&& r.want_intensity && point.intensity is Some ==> after.intensity@.last()
                == point.intensity->0
            &&& r.want_intensity && point.intensity is None ==> after.intensity@.last() == 0
        }),
{
    assert(after.x@.drop_last() =~= before.x@);
    assert(after.y@.drop_last() =~= before.y@);
    assert(after.z@.drop_last() =~= before.z@);
}

/// A field takes as many bits as the width of its range needs and no more, none
/// where every value is the same, 32 for a single and 64 for a double.
pub proof fn a_field_takes_the_bits_it_needs(min: i64, max: i64)
    ensures
        ({
            let n = range_bits(min, max);
            &&& max <= min ==> n == 0
            &&& max > min ==> n > 0 && pow2((n - 1) as nat) <= max - min < pow2(n)
        }),
        value_bits(RecordKind::Single) == 32,
        value_bits(RecordKind::Double) == 64,
        value_bits(RecordKind::Integer { min, max }) == range_bits(min, max),
        value_bits(RecordKind::ScaledInteger { min, max }) == range_bits(min, max),
{
    if max > min {
        lemma_bit_len((max - min) as nat);
    }
}

proof fn lemma_bit_len(n: nat)
    requires
        n > 0,
    ensures
        bit_len(n) > 0,
        pow2((bit_len(n) - 1) as nat) <= n < pow2(bit_len(n)),
    decreases n,
{
    vstd::arithmetic::power2::lemma2_to64();
    reveal_with_fuel(bit_len, 2);
    vstd::arithmetic::power2::lemma_pow2_unfold(bit_len(n));
    if n > 1 {
        lemma_bit_len(n / 2);
        vstd::arithmetic::power2::lemma_pow2_unfold((bit_len(n) - 1) as nat);
    }
}

/// The fields of a scan under the names of their standard.
pub proof fn fields_have_the_names_of_the_standard()
    ensures
        field_spelling(RecordName::CartesianX) == "cartesianX"@,
        field_spelling(RecordName::CartesianY) == "cartesianY"@,
        field_spelling(RecordName::CartesianZ) == "cartesianZ"@,
        field_spelling(RecordName::CartesianInvalidState) == "cartesianInvalidState"@,
        field_spelling(RecordName::SphericalRange) == "sphericalRange"@,
        field_spelling(RecordName::SphericalAzimuth) == "sphericalAzimuth"@,
        field_spelling(RecordName::SphericalElevation) == "sphericalElevation"@,
        field_spelling(RecordName::SphericalInvalidState) == "sphericalInvalidState"@,
        field_spelling(RecordName::Intensity) == "intensity"@,
        field_spelling(RecordName::IsIntensityInvalid) == "isIntensityInvalid"@,
        field_spelling(RecordName::ColorRed) == "colorRed"@,
        field_spelling(RecordName::ColorGreen) == "colorGreen"@,
        field_spelling(RecordName::ColorBlue) == "colorBlue"@,
        field_spelling(RecordName::IsColorInvalid) == "isColorInvalid"@,
        field_spelling(RecordName::RowIndex) == "rowIndex"@,
        field_spelling(RecordName::ColumnIndex) == "columnIndex"@,
        field_spelling(RecordName::ReturnCount) == "returnCount"@,
        field_spelling(RecordName::ReturnIndex) == "returnIndex"@,
        field_spelling(RecordName::TimeStamp) == "timeStamp"@,
        field_spelling(RecordName::IsTimeStampInvalid) == "isTimeStampInvalid"@,
{
}

/// A field of a scan, as it is shown: single and double as they are, whole numbers
/// wide enough for any, with the bits and the domain the file declares.
pub proof fn a_field_is_shown_as_it_decodes(r: RecordHeader)
    ensures
        r.kind is Single ==> field_of(r).kind == AttributeType::Float,
        r.kind is Double ==> field_of(r).kind == AttributeType::Double,
        r.kind is Integer || r.kind is ScaledInteger ==> field_of(r).kind == AttributeType::Int64,
        field_of(r).min == r.min,
        field_of(r).max == r.max,
        field_of(r).name == field_spelling(r.name),
{
}

/// What the scans of a file add up to: their points, colour and intensity where any
/// has some, a box that grows by every box declared, and a complaint for each that
/// declares none or is spherical.
pub proof fn scans_add_up(scans: Seq<ScanHeader>, s: ScanHeader)
    requires
        over_scans(scans).point_count + s.records <= u64::MAX,
    ensures
        ({
            let before = over_scans(scans);
            let all = over_scans(scans.push(s));
            let boxed = (forall|i: int|
                0 <= i < 3 ==> (#[trigger] s.low@[i]) is Some && s.high@[i] is Some);
            &&& over_scans(Seq::empty()).point_count == 0
            &&& over_scans(Seq::empty()).extent is None
            &&& all.point_count == before.point_count + s.records
            &&& all.has_color == (before.has_color || s.has_color)
            &&& all.has_intensity == (before.has_intensity || s.has_intensity)
            &&& all.scans.len() == before.scans.len() + 1
            &&& all.scans.last().point_count == s.records
            &&& all.scans.last().has_color == s.has_color
            &&& all.scans.last().has_cartesian == s.has_cartesian
            &&& all.scans.last().rotated == s.rotated
            &&& boxed && before.extent is None ==> all.extent == Some(s.posed)
            &&& boxed && before.extent is Some ==> all.extent == Some(
                before.extent->0.joined(s.posed),
            )
            &&& !boxed ==> all.extent == before.extent
            &&& boxed && s.has_cartesian ==> all.warnings == before.warnings
            &&& !boxed && s.has_cartesian ==> all.warnings.len() == before.warnings.len() + 1
                && all.warnings.last().code == "e57-bounds-undeclared"@
            &&& !s.has_cartesian ==> all.warnings.last().code == "e57-spherical"@
        }),
{
    assert(scans.push(s).drop_last() =~= scans);
    let boxed = (forall|i: int|
        0 <= i < 3 ==> (#[trigger] s.low@[i]) is Some && s.high@[i] is Some);
    if boxed {
        assert(s.low@[0] is Some && s.low@[1] is Some && s.low@[2] is Some);
    } else if s.low@[0] is Some && s.low@[1] is Some && s.low@[2] is Some && s.high@[0] is Some
        && s.high@[1] is Some && s.high@[2] is Some {
        assert forall|i: int| 0 <= i < 3 implies (#[trigger] s.low@[i]) is Some
            && s.high@[i] is Some by {
            assert(i == 0 || i == 1 || i == 2);
        }
    }
}

/// A file with more scans than there are ids for, or with an extent that was only
/// derived, is warned of.
pub proof fn files_with_too_many_scans_are_warned_of(scans: Seq<ScanHeader>)
    ensures
        said(scans).point_count == over_scans(scans).point_count,
        said(scans).extent == over_scans(scans).extent,
        !over_scans(scans).extent_exact && over_scans(scans).extent is Some ==> said(
            scans,
        ).warnings.last().code == "e57-bounds-posed"@,
        over_scans(scans).extent_exact && scans.len() > 65535 ==> said(scans).warnings.last().code
            == "e57-scans-overflow"@,
        over_scans(scans).extent_exact && scans.len() <= 65535 ==> said(scans).warnings
            == over_scans(scans).warnings,
{
}

/// The extent that a pass measures leaves no point outside.
pub proof fn a_measured_extent_holds_every_point(b: Bounds, batch: PointBatch, n: int, i: int)
    requires
        0 <= i < n,
        crate::bounds::measured_box(b),
    ensures
        crate::bounds::measured_box(grown_by(b, batch, n)),
        !batch.x@[i].below(grown_by(b, batch, n).min@[0]) && !grown_by(b, batch, n).max@[0].below(
            batch.x@[i],
        ),
        !batch.y@[i].below(grown_by(b, batch, n).min@[1]) && !grown_by(b, batch, n).max@[1].below(
            batch.y@[i],
        ),
        !batch.z@[i].below(grown_by(b, batch, n).min@[2]) && !grown_by(b, batch, n).max@[2].below(
            batch.z@[i],
        ),
    decreases n,
{
    if i < n - 1 {
        a_measured_extent_holds_every_point(b, batch, n - 1, i);
    } else {
        lemma_still_measured(b, batch, n - 1);
    }
    lemma_still_measured(b, batch, n);
    let before = grown_by(b, batch, n - 1);
    assert(before.min@[0].rank() is Some && before.min@[1].rank() is Some && before.min@[2].rank() is Some);
    assert(before.max@[0].rank() is Some && before.max@[1].rank() is Some && before.max@[2].rank() is Some);
}

proof fn lemma_still_measured(b: Bounds, batch: PointBatch, n: int)
    requires
        crate::bounds::measured_box(b),
    ensures
        crate::bounds::measured_box(grown_by(b, batch, n)),
    decreases n,
{
    if n > 0 {
        lemma_still_measured(b, batch, n - 1);
        let before = grown_by(b, batch, n - 1);
        assert(before.min@[0].rank() is Some && before.min@[1].rank() is Some
            && before.min@[2].rank() is Some);
    }
}

/// What an E57 file is summarised as: the points its scans declare, its extent or an
/// empty one, its attributes one element each, and the bytes that its record's bits
/// fill.
pub proof fn an_e57_file_is_summarised(e: E57Info, cube: Bounds, label: Seq<char>)
    ensures
        ({
            let s = e57_file::summary(e, cube, label);
            let fields = field_views(e.prototype@);
            let bits = e57_file::record_bits(fields);
            let own = notices(e.warnings@);
            &&& s.format == FormatId::E57 && s.label == label
            &&& s.point_count == e.point_count
            &&& s.bounds == cube
            &&& e.extent matches Some(b) ==> s.tight_bounds == b
            &&& e.extent is None ==> s.tight_bounds == Bounds::nothing()
            &&& s.encoding == Some("bitpack"@) && s.version == Some("1.0"@)
            &&& s.attributes.len() == fields.len()
            &&& forall|i: int|
                0 <= i < fields.len() ==> (#[trigger] s.attributes[i]).name == fields[i].name
                    && s.attributes[i].kind == fields[i].kind && s.attributes[i].num_elements == 1
                    && s.attributes[i].min == seq![fields[i].min] && s.attributes[i].max == seq![
                    fields[i].max,
                ]
            &&& e.coordinate_metadata matches Some(t) ==> s.crs == string_declares(t@)
            &&& e.coordinate_metadata is None ==> s.crs is None
            &&& bits <= 0 ==> s.record_bytes is None
            &&& 0 < bits <= usize::MAX ==> s.record_bytes == Some(((bits + 7) / 8) as usize)
            &&& e.scans@.len() <= 1 && e.extent is Some ==> s.warnings == own
            &&& e.scans@.len() > 1 && e.extent is Some ==> s.warnings.len() == own.len() + 1
                && s.warnings.last().code == "e57-multi-scan"@
            &&& e.extent is None ==> s.warnings.last().code == "e57-extent-unknown"@
        }),
        ({
            let f = field_views(e.prototype@);
            f.len() > 0 && e57_file::record_bits(f.drop_last()) + f.last().bits <= usize::MAX && 0
                <= e57_file::record_bits(f.drop_last()) ==> e57_file::record_bits(f)
                == e57_file::record_bits(f.drop_last()) + f.last().bits
        }),
{
    let f = field_views(e.prototype@);
    if f.len() > 0 && e57_file::record_bits(f.drop_last()) + f.last().bits <= usize::MAX && 0
        <= e57_file::record_bits(f.drop_last()) {
        vstd::arithmetic::div_mod::lemma_small_mod(
            (e57_file::record_bits(f.drop_last()) + f.last().bits) as nat,
            (usize::MAX + 1) as nat,
        );
    }
}

/// The output that a name asks for.
pub proof fn outputs_are_asked_for_by_name()
    ensures
        format_named("copc"@) == Some(OutputFormat::Copc),
        format_named("potree"@) == Some(OutputFormat::PotreeV2(PotreeEncoding::Default)),
        format_named("potree-v2"@) == Some(OutputFormat::PotreeV2(PotreeEncoding::Default)),
        format_named("potree-brotli"@) == Some(OutputFormat::PotreeV2(PotreeEncoding::Brotli)),
        format_named("ept"@) == Some(OutputFormat::Ept(EptEncoding::Laszip)),
        format_named("ept-laszip"@) == Some(OutputFormat::Ept(EptEncoding::Laszip)),
        format_named("ept-binary"@) == Some(OutputFormat::Ept(EptEncoding::Binary)),
        format_named("3dtiles"@) == Some(OutputFormat::Tiles3D),
        format_named("3d-tiles"@) == Some(OutputFormat::Tiles3D),
        format_named("tileset"@) == Some(OutputFormat::Tiles3D),
        format_named("las"@) is None,
        format_named(""@) is None,
{
    reveal_strlit("copc");
    reveal_strlit("potree");
    reveal_strlit("potree-v2");
    reveal_strlit("potree-brotli");
    reveal_strlit("ept");
    reveal_strlit("ept-laszip");
    reveal_strlit("ept-binary");
    reveal_strlit("3dtiles");
    reveal_strlit("3d-tiles");
    reveal_strlit("tileset");
    reveal_strlit("las");
    reveal_strlit("");
    assert("copc"@.len() == 4 && "potree"@.len() == 6 && "potree-v2"@.len() == 9);
    assert("potree-brotli"@.len() == 13 && "ept"@.len() == 3 && "ept-laszip"@.len() == 10);
    assert("ept-binary"@.len() == 10 && "3dtiles"@.len() == 7 && "3d-tiles"@.len() == 8);
    assert("tileset"@.len() == 7 && "las"@.len() == 3 && ""@.len() == 0);
    assert("ept"@[0] == 'e' && "las"@[0] == 'l');
    assert("ept-laszip"@[4] == 'l' && "ept-binary"@[4] == 'b');
    assert("3dtiles"@[0] == '3' && "tileset"@[0] == 't');
}

/// One more LAS input: its points are added, its box joined, the finest quantum of
/// each axis kept, colour and time noted where its format has them, and the first
/// reference system and projection records kept.
pub proof fn an_input_adds_what_it_holds(
    k: Known,
    path: Seq<char>,
    h: Header,
    extent: Bounds,
    crs: Option<Declared>,
    a: int,
)
    requires
        k.facts.point_count + h.point_count <= u64::MAX,
        0 <= a < 3,
    ensures
        ({
            let f = k.facts;
            let n = with_las(k, path, h, extent, crs).facts;
            let p = h.point_format;
            let zero = Real { bits: 0 };
            &&& n.point_count == f.point_count + h.point_count
            &&& n.extent == f.extent.grown(extent.min@).grown(extent.max@)
            &&& zero.below(h.scale[a]) && h.scale[a].below(f.scale[a]) ==> n.scale[a] == h.scale[a]
            &&& !zero.below(h.scale[a]) || !h.scale[a].below(f.scale[a]) ==> n.scale[a]
                == f.scale[a]
            &&& n.any_color == (f.any_color || p == 2 || p == 3 || p == 5 || p == 7 || p == 8 || p
                == 10)
            &&& n.any_nir == (f.any_nir || p == 8 || p == 10)
            &&& n.any_gps_time == (f.any_gps_time || p == 1 || p >= 3)
            &&& n.all_legacy == (f.all_legacy && p < 6)
            &&& f.crs is Some ==> n.crs == f.crs
            &&& f.crs is None ==> n.crs == crs && n.warnings == f.warnings
            &&& f.crs is Some && crs is Some && crs->0.raw != f.crs->0.raw ==> n.warnings.len()
                == f.warnings.len() + 1 && n.warnings.last().code == "mixed-crs"@
                && n.warnings.last().path == path
            &&& f.crs is Some && crs is Some && crs->0.raw == f.crs->0.raw ==> n.warnings
                == f.warnings
            &&& f.projection_vlrs.len() > 0 ==> n.projection_vlrs == f.projection_vlrs
            &&& f.projection_vlrs.len() == 0 ==> n.projection_vlrs == projections(h.vlrs)
            &&& n.offset == f.offset
        }),
{
}

/// The extra dimensions of the first LAS input are kept as long as every other has
/// the same: as many bytes behind the base of the format, described alike.
pub proof fn extra_dimensions_must_agree(
    k: Known,
    path: Seq<char>,
    h: Header,
    extent: Bounds,
    crs: Option<Declared>,
)
    ensures
        ({
            let n = with_las(k, path, h, extent, crs);
            let here = dimensions_of(h);
            &&& k.first_extra is None ==> n.first_extra == Some(here) && n.extras_agree
                == k.extras_agree
            &&& k.first_extra is Some ==> n.first_extra == k.first_extra
            &&& k.first_extra is Some && k.first_extra->0 != here ==> !n.extras_agree
            &&& k.first_extra == Some(here) ==> n.extras_agree == k.extras_agree
            &&& here.0 > 0 ==> n.any_extra
            &&& here.0 == 0 ==> n.any_extra == k.any_extra
        }),
        h.point_format == 6 && h.point_size >= 30 ==> dimensions_of(h).0 == h.point_size - 30,
        h.point_format == 7 && h.point_size >= 36 ==> dimensions_of(h).0 == h.point_size - 36,
        h.point_format == 3 && h.point_size >= 34 ==> dimensions_of(h).0 == h.point_size - 34,
        h.point_format == 6 && h.point_size < 30 ==> dimensions_of(h).0 == 0,
        record_named(h.vlrs, "LASF_Spec"@, 4) matches Some(r) ==> dimensions_of(h).1 == r.data,
        record_named(h.vlrs, "LASF_Spec"@, 4) is None ==> dimensions_of(h).1.len() == 0,
{
}

/// One more E57 input: the points that a pass found are added, its box joined, and
/// the points without a place named. It is no legacy input.
pub proof fn a_scan_adds_what_was_measured(
    k: Known,
    path: Seq<char>,
    warnings: Seq<Notice>,
    has_color: bool,
    m: Measured,
    crs: Option<Declared>,
)
    requires
        k.facts.point_count + m.report.points <= u64::MAX,
    ensures
        ({
            let f = k.facts;
            let n = with_e57(k, path, warnings, has_color, m, crs).facts;
            &&& n.point_count == f.point_count + m.report.points
            &&& n.extent == f.extent.grown(m.extent.min@).grown(m.extent.max@)
            &&& n.any_color == (f.any_color || has_color)
            &&& !n.all_legacy
            &&& n.any_gps_time == f.any_gps_time
            &&& n.any_nir == f.any_nir
            &&& n.scale == f.scale
            &&& f.crs is Some ==> n.crs == f.crs
            &&& f.crs is None ==> n.crs == crs
            &&& m.report.dropped == 0 ==> n.warnings == f.warnings + warnings
            &&& m.report.dropped > 0 ==> n.warnings.len() == f.warnings.len() + warnings.len() + 1
                && n.warnings.last().code == "e57-invalid-points"@ && n.warnings.last().path == path
        }),
{
}

/// Before the first input nothing is known: no points, no box, no colour.
pub proof fn nothing_is_known_at_first()
    ensures
        nothing_known().point_count == 0,
        nothing_known().extent == Bounds::nothing(),
        nothing_known().all_legacy,
        !nothing_known().any_color && !nothing_known().any_nir && !nothing_known().any_gps_time,
        nothing_known().crs is None,
        nothing_known().warnings.len() == 0,
        forall|a: int|
            0 <= a < 3 ==> (#[trigger] nothing_known().scale[a]).bits == 0x7ff0_0000_0000_0000,
        forall|a: int| 0 <= a < 3 ==> (#[trigger] nothing_known().offset[a]).bits == 0,
{
}

/// The inputs are concluded: a quantum above zero is kept, and a millimetre taken in
/// place of any other. Extra dimensions that agree are carried on, and a loss is
/// named.
pub proof fn a_scan_is_concluded(k: Known, a: int)
    requires
        0 <= a < 3,
        k.facts.scale.len() == 3,
    ensures
        ({
            let f = concluded(k);
            let s = k.facts.scale[a];
            &&& 0 < s.bits < 0x7ff0_0000_0000_0000 ==> f.scale[a] == s
            &&& !(0 < s.bits < 0x7ff0_0000_0000_0000) ==> f.scale[a].bits == 0x3f50_624d_d2f1_a9fc
            &&& f.point_count == k.facts.point_count
            &&& f.extent == k.facts.extent
            &&& k.first_extra matches Some(e) ==> (k.extras_agree ==> f.extra == e.0 && f.extra_vlr
                == e.1 && f.warnings == k.facts.warnings)
            &&& k.first_extra is Some && !k.extras_agree && k.any_extra ==> f.extra
                == k.facts.extra && f.warnings.len() == k.facts.warnings.len() + 1
                && f.warnings.last().code == "extra-bytes-dropped"@
            &&& k.first_extra is None ==> f.warnings == k.facts.warnings
        }),
{
}

/// The projection records that are carried: WKT, then the three of the key
/// directory, each where there is one.
pub proof fn projections_are_carried_in_order(all: Seq<Record>)
    ensures
        projections(all) == one_projection(all, 2112) + one_projection(all, 34735)
            + one_projection(all, 34736) + one_projection(all, 34737),
        forall|id: u16| #[trigger]
            projection(all, id) matches Some(data) ==> one_projection(all, id) == seq![(id, data)],
        forall|id: u16| #[trigger]
            projection(all, id) is None ==> one_projection(all, id).len() == 0,
{
}

/// The widest record that any input needs is written: the one with infrared, else
/// the one with colour, else the plain one.
pub proof fn the_widest_record_is_written(s: Scan)
    ensures
        s.any_nir ==> written_format(s) == 8,
        !s.any_nir && s.any_color ==> written_format(s) == 7,
        !s.any_nir && !s.any_color ==> written_format(s) == 6,
{
}

/// The bytes of a conversion are those of a record, times the points.
pub proof fn bytes_are_counted(points: u64, stride: int)
    requires
        0 <= stride,
    ensures
        points * stride <= u64::MAX ==> all_bytes(points, stride) == points * stride,
        points * stride > u64::MAX ==> all_bytes(points, stride) == u64::MAX,
{
}

/// A declaration is taken by its shape: a plus starts a proj4 string, `EPSG:` and
/// digits are a code, a keyword and a bracket are WKT, and nothing is nothing.
pub proof fn a_declaration_is_taken_by_its_shape(text: Seq<char>)
    ensures
        ({
            let raw = trimmed(text);
            let d = string_declares(text);
            &&& raw.len() == 0 <==> d is None
            &&& raw.len() > 0 ==> d->0.raw == raw || code_only(raw) is Some
            &&& raw.len() > 0 && raw[0] == '+' ==> d->0.format == CrsFormat::Proj4 && d->0.epsg is None
            &&& raw.len() > 0 && raw[0] != '+' && code_only(raw) is Some ==> d->0.format
                == CrsFormat::Epsg && d->0.epsg == code_only(raw)
            &&& raw.len() > 0 && raw[0] != '+' && code_only(raw) is None && is_wkt(raw)
                ==> d->0.format == CrsFormat::Wkt && d->0.epsg == horizontal_code(raw)
                && d->0.vertical_epsg == vertical_code(raw) && d->0.name == outer_name(raw)
            &&& raw.len() > 0 && raw[0] != '+' && code_only(raw) is None && !is_wkt(raw)
                ==> d->0.format == CrsFormat::Unknown && d->0.epsg is None
        }),
{
}

proof fn lemma_all_leading(s: Seq<char>)
    requires
        forall|i: int| 0 <= i < s.len() ==> is_digit(#[trigger] s[i]),
    ensures
        leading_digits(s) == s,
    decreases s.len(),
{
    if s.len() > 0 {
        assert forall|i: int| 0 <= i < s.skip(1).len() implies is_digit(#[trigger] s.skip(1)[i]) by {
            assert(s.skip(1)[i] == s[i + 1]);
        }
        lemma_all_leading(s.skip(1));
        assert(leading_digits(s) =~= s);
    } else {
        assert(leading_digits(s) =~= s);
    }
}

/// A code is known from its spelling, in upper case or lower: the number behind the
/// colon.
pub proof fn a_code_is_known_from_its_spelling(n: u32)
    ensures
        code_only("EPSG:"@ + decimal(n as nat)) == Some(n),
        code_only("epsg:"@ + decimal(n as nat)) == Some(n),
        epsg_declares(n).raw == "EPSG:"@ + decimal(n as nat),
        epsg_declares(n).epsg == Some(n),
        epsg_declares(n).vertical_epsg is None,
{
    reveal_strlit("EPSG:");
    reveal_strlit("epsg:");
    assert("EPSG:"@.len() == 5 && "epsg:"@.len() == 5);
    let d = decimal(n as nat);
    crate::text::decimal_reads_back(n as nat);
    crate::text::decimal_parses(n as nat, u32::MAX as nat);
    lemma_all_leading(d);
    let a = "EPSG:"@ + d;
    let b = "epsg:"@ + d;
    assert(a.take(5) =~= "EPSG:"@);
    assert(b.take(5) =~= "epsg:"@);
    assert(a.skip(5) =~= d);
    assert(b.skip(5) =~= d);
}

/// A declaration is called by its name, with the code behind it, or by its code, or
/// by its kind.
pub proof fn a_declaration_has_a_label(d: Declared)
    ensures
        d.name is None && d.epsg is Some ==> label_of(d) == "EPSG:"@ + decimal(d.epsg->0 as nat),
        d.name is Some && d.epsg is None ==> label_of(d) == d.name->0,
        d.name is Some && d.epsg is Some ==> label_of(d) == d.name->0 + " (EPSG:"@ + decimal(
            d.epsg->0 as nat,
        ) + ")"@,
        d.name is None && d.epsg is None && d.format == CrsFormat::Proj4 ==> label_of(d) == "proj4"@
            + " (unresolved)"@,
        d.name is None && d.epsg is None && d.format == CrsFormat::Wkt ==> label_of(d) == "wkt"@
            + " (unresolved)"@,
{
}

/// The system the coordinates are in is the projected one where the text has one,
/// and the geographic one only where it has none.
pub proof fn the_projected_system_comes_first(wkt: Seq<char>)
    ensures
        ({
            let projected = node_of(wkt, "PROJCS"@, "PROJCRS"@);
            let geographic = node_of(wkt, "GEOGCS"@, "GEOGCRS"@);
            let vertical = node_of(wkt, "VERT_CS"@, "VERTCRS"@);
            &&& projected matches Some(p) ==> horizontal_code(wkt) == direct_authority(p)
            &&& projected is None && geographic is Some ==> horizontal_code(wkt)
                == direct_authority(geographic->0)
            &&& projected is None && geographic is None ==> horizontal_code(wkt) is None
            &&& vertical matches Some(v) ==> vertical_code(wkt) == direct_authority(v)
            &&& vertical is None ==> vertical_code(wkt) is None
        }),
        forall|a: Seq<char>, b: Seq<char>| #[trigger]
            node_of(wkt, a, b) == if node_named(wkt, a) is Some {
                node_named(wkt, a)
            } else {
                node_named(wkt, b)
            },
{
}

proof fn lemma_keyword(s: Seq<char>, n: int)
    requires
        0 <= n <= s.len(),
        forall|i: int| 0 <= i < n ==> 'A' <= #[trigger] s[i] && s[i] <= 'Z',
        n < s.len() ==> !('A' <= s[n] && s[n] <= 'Z') && s[n] != '_',
    ensures
        keyword_len(s) == n,
    decreases n,
{
    if n > 0 {
        assert(s[0] == s[0]);
        assert forall|i: int| 0 <= i < n - 1 implies 'A' <= #[trigger] s.skip(1)[i] && s.skip(1)[i]
            <= 'Z' by {
            assert(s.skip(1)[i] == s[i + 1]);
        }
        lemma_keyword(s.skip(1), n - 1);
    }
}

/// The name of a text is the quoted one of its outermost node: `KEY["name"`.
pub proof fn a_text_is_named_by_its_outermost_node(key: Seq<char>, name: Seq<char>, rest: Seq<char>)
    requires
        key.len() > 0,
        forall|i: int| 0 <= i < key.len() ==> 'A' <= #[trigger] key[i] && key[i] <= 'Z',
        forall|i: int| 0 <= i < name.len() ==> #[trigger] name[i] != '"',
    ensures
        outer_name(key + seq!['[', '"'] + name + seq!['"'] + rest) == Some(name),
        is_wkt(key + seq!['[', '"'] + name + seq!['"'] + rest),
{
    let s = key + seq!['[', '"'] + name + seq!['"'] + rest;
    let n = key.len() as int;
    assert forall|i: int| 0 <= i < n implies s[i] != '[' by {
        assert(s[i] == key[i]);
    }
    crate::text::first_of_unique(s, '[', n);
    assert(s.take(n) =~= key);
    assert(!is_space(key[0]) && !is_space(key[n - 1]));
    super::text::tight_text_stays(key);
    lemma_keyword(key, n);
    let r = s.skip(n + 1);
    assert(r[0] == '"');
    assert(trimmed_start(r) == r);
    let q = r.skip(1);
    assert forall|i: int| 0 <= i < name.len() implies q[i] != '"' by {
        assert(q[i] == name[i]);
    }
    assert(q[name.len() as int] == '"');
    crate::text::first_of_unique(q, '"', name.len() as int);
    assert(q.take(name.len() as int) =~= name);
    assert(s[0] == key[0]);
    assert(trimmed_start(s) == s);
    assert forall|i: int| 0 <= i < n implies 'A' <= #[trigger] s[i] && s[i] <= 'Z' by {
        assert(s[i] == key[i]);
    }
    assert(s[n] == '[');
    lemma_keyword(s, n);
    assert(s.skip(n)[0] == '[');
    assert(trimmed_start(s.skip(n)) == s.skip(n));
}

/// Brackets are balanced outside of quotes: one that opens takes one more to close,
/// and what stands in quotes counts for nothing.
pub proof fn brackets_are_balanced(s: Seq<char>, i: int, depth: int)
    requires
        0 <= i < s.len(),
    ensures
        s[i] == '[' ==> close_from(s, i, depth, false) == close_from(s, i + 1, depth + 1, false),
        s[i] == ']' && depth == 1 ==> close_from(s, i, depth, false) == i,
        s[i] == ']' && depth != 1 ==> close_from(s, i, depth, false) == close_from(
            s,
            i + 1,
            depth - 1,
            false,
        ),
        s[i] == '"' ==> close_from(s, i, depth, false) == close_from(s, i + 1, depth, true),
        s[i] == '"' ==> close_from(s, i, depth, true) == close_from(s, i + 1, depth, false),
        s[i] != '"' ==> close_from(s, i, depth, true) == close_from(s, i + 1, depth, true),
        close_from(s, s.len() as int, depth, false) == -1,
{
}

/// The code of a node is that of an authority directly in it: what a unit or a datum
/// inside the node carries is passed over, and the last one counts.
pub proof fn only_a_direct_authority_counts(s: Seq<char>, i: int, depth: int, code: Option<u32>)
    requires
        0 <= i < s.len(),
    ensures
        s[i] == '[' && depth != 1 ==> authority_from(s, i, depth, false, code) == authority_from(
            s,
            i + 1,
            depth + 1,
            false,
            code,
        ),
        s[i] == '[' && depth == 1 && crate::crs::authority_at(s, i) is Some ==> authority_from(
            s,
            i,
            depth,
            false,
            code,
        ) == authority_from(s, i + 1, 2, false, crate::crs::authority_at(s, i)),
        s[i] == ']' && depth == 1 ==> authority_from(s, i, depth, false, code) == code,
        s[i] != '"' ==> authority_from(s, i, depth, true, code) == authority_from(
            s,
            i + 1,
            depth,
            true,
            code,
        ),
        authority_from(s, s.len() as int, depth, false, code) == code,
{
}

/// An authority reads as `"EPSG","n"]`, and its code is `n`.
pub proof fn an_authority_reads_as_its_code(n: u32, rest: Seq<char>)
    ensures
        epsg_in(
            seq!['"', 'E', 'P', 'S', 'G', '"', ',', '"'] + decimal(n as nat) + seq!['"', ']'] + rest,
        ) == Some(n),
        epsg_in(seq!['E', 'P', 'S', 'G', ','] + decimal(n as nat) + seq![']'] + rest) == Some(n),
{
    reveal_strlit("epsg");
    let d = decimal(n as nat);
    crate::text::decimal_reads_back(n as nat);
    crate::text::decimal_parses(n as nat, u32::MAX as nat);
    lemma_quoted(n, rest);
    lemma_bare(n, rest);
}

proof fn lemma_digits_then(d: Seq<char>, tail: Seq<char>)
    requires
        forall|i: int| 0 <= i < d.len() ==> is_digit(#[trigger] d[i]),
        tail.len() > 0,
        !is_digit(tail[0]),
    ensures
        leading_digits(d + tail) == d,
    decreases d.len(),
{
    let s = d + tail;
    if d.len() > 0 {
        assert(s[0] == d[0]);
        assert(s.skip(1) =~= d.skip(1) + tail);
        assert forall|i: int| 0 <= i < d.skip(1).len() implies is_digit(#[trigger] d.skip(1)[i]) by {
            assert(d.skip(1)[i] == d[i + 1]);
        }
        lemma_digits_then(d.skip(1), tail);
        assert(seq![d[0]] + d.skip(1) =~= d);
    } else {
        assert(s[0] == tail[0]);
        assert(leading_digits(s) =~= d);
    }
}

proof fn lemma_quoted(n: u32, rest: Seq<char>)
    ensures
        epsg_in(
            seq!['"', 'E', 'P', 'S', 'G', '"', ',', '"'] + decimal(n as nat) + seq!['"', ']'] + rest,
        ) == Some(n),
{
    reveal_strlit("epsg");
    let d = decimal(n as nat);
    crate::text::decimal_reads_back(n as nat);
    crate::text::decimal_parses(n as nat, u32::MAX as nat);
    let s = seq!['"', 'E', 'P', 'S', 'G', '"', ',', '"'] + d + seq!['"', ']'] + rest;
    let tail = seq!['"', ']'] + rest;
    assert(trimmed_start(s) == s);
    let a = s.skip(1);
    assert(crate::crs::unquoted(s) == a);
    assert(crate::text::lowered(a.take(4)) =~= "epsg"@);
    let b = a.skip(4);
    assert(b[0] == '"' && trimmed_start(b) == b);
    let c = b.skip(1);
    assert(c[0] == ',' && trimmed_start(c) == c);
    let e = c.skip(1);
    assert(e[0] == '"' && trimmed_start(e) == e);
    let f = e.skip(1);
    assert(f =~= d + tail);
    lemma_digits_then(d, tail);
    let g = f.skip(d.len() as int);
    assert(g =~= tail);
    assert(g[0] == '"' && trimmed_start(g) == g);
    let h = g.skip(1);
    assert(h[0] == ']' && trimmed_start(h) == h);
}

proof fn lemma_bare(n: u32, rest: Seq<char>)
    ensures
        epsg_in(seq!['E', 'P', 'S', 'G', ','] + decimal(n as nat) + seq![']'] + rest) == Some(n),
{
    reveal_strlit("epsg");
    let d = decimal(n as nat);
    crate::text::decimal_reads_back(n as nat);
    crate::text::decimal_parses(n as nat, u32::MAX as nat);
    let s = seq!['E', 'P', 'S', 'G', ','] + d + seq![']'] + rest;
    let tail = seq![']'] + rest;
    assert(trimmed_start(s) == s);
    assert(crate::crs::unquoted(s) == s);
    assert(crate::text::lowered(s.take(4)) =~= "epsg"@);
    let b = s.skip(4);
    assert(b[0] == ',' && trimmed_start(b) == b);
    assert(crate::crs::unquoted(b) == b);
    let e = b.skip(1);
    assert(e =~= d + tail);
    assert(e[0] == d[0] && is_digit(d[0]));
    assert(trimmed_start(e) == e && crate::crs::unquoted(e) == e);
    lemma_digits_then(d, tail);
    let g = e.skip(d.len() as int);
    assert(g =~= tail);
    assert(g[0] == ']' && trimmed_start(g) == g && crate::crs::unquoted(g) == g);
}

/// A field of an extension has its namespace before its name.
pub proof fn an_extension_is_named_with_its_namespace(namespace: String, name: String)
    ensures
        namespace@.len() > 0 ==> field_spelling(RecordName::Unknown { namespace, name })
            == namespace@ + ":"@ + name@,
        namespace@.len() == 0 ==> field_spelling(RecordName::Unknown { namespace, name }) == name@,
{
}

/// The keyword before a bracket is the word of letters before it, in upper case: it
/// starts behind the last character that is none.
pub proof fn a_keyword_is_the_word_before_its_bracket(front: Seq<char>, word: Seq<char>, c: char)
    requires
        c == ',' || c == '[' || c == ' ' || c == '"',
        forall|i: int|
            0 <= i < word.len() ==> ('A' <= #[trigger] word[i] && word[i] <= 'Z') || ('a' <= word[i]
                && word[i] <= 'z') || word[i] == '_',
    ensures
        crate::crs::keyword_before(
            front + seq![c] + word,
            (front.len() + 1 + word.len()) as int,
        ) == crate::text::uppered(word),
{
    let s = front + seq![c] + word;
    let n = front.len() as int + 1;
    assert(s[n - 1] == c);
    lemma_word_start(s, n, n + word.len(), word);
    assert(s.subrange(n, n + word.len()) =~= word);
}

proof fn lemma_word_start(s: Seq<char>, n: int, at: int, word: Seq<char>)
    requires
        0 < n <= at <= s.len(),
        !crate::crs::is_word_char(s[n - 1]),
        forall|i: int| n <= i < at ==> crate::crs::is_word_char(#[trigger] s[i]),
    ensures
        crate::crs::word_start(s, at) == n,
    decreases at,
{
    if at > n {
        lemma_word_start(s, n, at - 1, word);
    }
}

/// The box that a scan declares has its six numbers, and is none where one is missing.
pub proof fn a_declared_box_has_six_numbers(s: ScanHeader, i: int)
    requires
        0 <= i < 3,
    ensures
        s.low@[i] is None || s.high@[i] is None ==> crate::e57::declared_box(s) is None,
        crate::e57::declared_box(s) matches Some(b) ==> s.low@[i] == Some(b.min@[i]) && s.high@[i]
            == Some(b.max@[i]),
{
}

} // verus!
