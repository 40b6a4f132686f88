//! The Potree v2 writer.
//!
//! The record unpacks the bit fields that LAS packs, so that a viewer can ask
//! for a classification by name, and the index is a file of 22-byte records in
//! level order. Files and their paths belong to the program.

use super::blocks::{
    blocks_have_every_byte, blocks_of, coded_blocks, place, stride, transpose, weave, whole, Cell,
    Coding, Part,
};
use super::hierarchy::{first_key, hierarchy_bytes, hierarchy_of, own_size, Written, STEP_SIZE};
use super::WriteOptions;
use crate::attribute::AttributeType;
use crate::bytes::{le16, le64, put_range, real_at, u16_at};
use crate::cloud::{declared, wrap64};
use crate::codec::{brotli_compress, packs, BROTLI_WINDOW};
use crate::double::{repeat, Real, INFINITY, NEG_INFINITY, ZERO};
use crate::error::Error;
use crate::json::{Fields, Json, Tree};
use crate::las::extra_bytes::{extras_of, Extra, ExtraByteField};
use crate::las::point_format::{ANGLE_MAX, ANGLE_MIN};
use crate::octree::OctreeKey;
use crate::record::{
    CLASSIFICATION, FLAGS, GPS_TIME, INTENSITY, POINT_SOURCE_ID, RETURNS, RGB, SCAN_ANGLE,
    USER_DATA,
};
use crate::text::{cat2, same};
use crate::warning::{Notice, Warning};
use vstd::prelude::*;

verus! {

/// How a node's points are stored.
#[derive(Debug, Clone, Copy, PartialEq, Eq, Structural)]
pub enum PotreeEncoding {
    /// One interleaved record per point, exactly as the manifest describes it.
    Default,
    /// Per-attribute blocks, positions and colours morton-coded, the whole node
    /// then compressed.
    Brotli,
}

impl PotreeEncoding {
    /// How a manifest spells the encoding.
    pub open spec fn spelling(self) -> Seq<char> {
        match self {
            PotreeEncoding::Default => "DEFAULT"@,
            PotreeEncoding::Brotli => "BROTLI"@,
        }
    }

    /// How a manifest spells the encoding.
    pub fn name(self) -> (s: &'static str)
        ensures
            s@ == self.spelling(),
    {
        match self {
            PotreeEncoding::Default => "DEFAULT",
            PotreeEncoding::Brotli => "BROTLI",
        }
    }
}

/// Brotli quality: where the curve of size against time flattens.
pub const BROTLI_QUALITY: u32 = 6;

/// Where an attribute of the written record comes from in the canonical one.
#[derive(Debug, Clone, Copy, PartialEq, Eq, Structural)]
pub enum Source {
    /// Bytes from this offset of the canonical record.
    Copy(usize),
    /// The low nibble of the returns byte.
    ReturnNumber,
    /// The high nibble of the same.
    NumberOfReturns,
    /// The low four bits of the flags byte.
    ClassificationFlags,
    /// The 16-bit scan angle, rounded into a signed byte of whole degrees.
    ScanAngleRank,
}

/// One attribute of the written record.
#[derive(Debug)]
pub struct Field {
    pub name: String,
    pub kind: AttributeType,
    pub elements: usize,
    pub size: usize,
    pub source: Source,
}

/// One attribute of the written record, as the values it holds.
#[verifier::ext_equal]
pub struct FieldView {
    pub name: Seq<char>,
    pub kind: AttributeType,
    pub elements: usize,
    pub size: usize,
    pub source: Source,
}

impl View for Field {
    type V = FieldView;

    open spec fn view(&self) -> FieldView {
        FieldView {
            name: self.name@,
            kind: self.kind,
            elements: self.elements,
            size: self.size,
            source: self.source,
        }
    }
}

/// Some attributes, as the values they hold.
pub open spec fn views(fields: Seq<Field>) -> Seq<FieldView> {
    fields.map_values(|f: Field| f@)
}

/// An attribute of the written record.
pub open spec fn entry(
    name: Seq<char>,
    kind: AttributeType,
    elements: usize,
    size: usize,
    source: Source,
) -> FieldView {
    FieldView { name, kind, elements, size, source }
}

/// The attributes that every record starts with.
pub open spec fn leading() -> Seq<FieldView> {
    seq![
        entry("position"@, AttributeType::Int32, 3, 12, Source::Copy(0)),
        entry("intensity"@, AttributeType::Uint16, 1, 2, Source::Copy(INTENSITY)),
        entry("return number"@, AttributeType::Uint8, 1, 1, Source::ReturnNumber),
        entry("number of returns"@, AttributeType::Uint8, 1, 1, Source::NumberOfReturns),
    ]
}

/// The attributes whose names and order depend on the age of the source.
pub open spec fn dated(legacy: bool) -> Seq<FieldView> {
    if legacy {
        seq![
            entry("classification"@, AttributeType::Uint8, 1, 1, Source::Copy(CLASSIFICATION)),
            entry("scan angle rank"@, AttributeType::Uint8, 1, 1, Source::ScanAngleRank),
            entry("user data"@, AttributeType::Uint8, 1, 1, Source::Copy(USER_DATA)),
        ]
    } else {
        seq![
            entry("classification flags"@, AttributeType::Uint8, 1, 1, Source::ClassificationFlags),
            entry("classification"@, AttributeType::Uint8, 1, 1, Source::Copy(CLASSIFICATION)),
            entry("user data"@, AttributeType::Uint8, 1, 1, Source::Copy(USER_DATA)),
            entry("scan angle"@, AttributeType::Int16, 1, 2, Source::Copy(SCAN_ANGLE)),
        ]
    }
}

/// The attributes that a record ends with, before the extra dimensions: a scan
/// with no time does not carry it.
pub open spec fn trailing(color: bool, gps_time: bool) -> Seq<FieldView> {
    let id = seq![
        entry("point source id"@, AttributeType::Uint16, 1, 2, Source::Copy(POINT_SOURCE_ID)),
    ];
    let time = if gps_time {
        seq![entry("gps-time"@, AttributeType::Double, 1, 8, Source::Copy(GPS_TIME))]
    } else {
        Seq::empty()
    };
    let rgb = if color {
        seq![entry("rgb"@, AttributeType::Uint16, 3, 6, Source::Copy(RGB))]
    } else {
        Seq::empty()
    };
    id + time + rgb
}

/// The extra dimensions that have a type, under the names they came with.
pub open spec fn carried(extra: Seq<Extra>) -> Seq<FieldView>
    decreases extra.len(),
{
    if extra.len() == 0 {
        Seq::empty()
    } else {
        let f = extra.last();
        let before = carried(extra.drop_last());
        match f.kind {
            None => before,
            Some(kind) => before.push(
                entry(f.name, kind, f.num_elements, f.byte_size, Source::Copy(f.byte_offset)),
            ),
        }
    }
}

/// The record that is written, in order.
pub open spec fn record_fields(
    color: bool,
    gps_time: bool,
    legacy: bool,
    extra: Seq<Extra>,
) -> Seq<FieldView> {
    leading() + dated(legacy) + trailing(color, gps_time) + carried(extra)
}

fn put_field(
    out: &mut Vec<Field>,
    name: &str,
    kind: AttributeType,
    elements: usize,
    size: usize,
    source: Source,
)
    ensures
        views(final(out)@) == views(old(out)@).push(entry(name@, kind, elements, size, source)),
{
    out.push(Field { name: name.to_owned(), kind, elements, size, source });
    assert(views(out@) =~= views(old(out)@).push(entry(name@, kind, elements, size, source)));
}

/// The record that is written, in order.
pub fn fields(color: bool, gps_time: bool, legacy: bool, extra: &Vec<ExtraByteField>) -> (out: Vec<
    Field,
>)
    ensures
        views(out@) == record_fields(color, gps_time, legacy, extras_of(extra@)),
{
    let mut out: Vec<Field> = Vec::new();
    let u8_type = AttributeType::Uint8;
    assert(views(out@) =~= Seq::<FieldView>::empty());
    put_field(&mut out, "position", AttributeType::Int32, 3, 12, Source::Copy(0));
    put_field(&mut out, "intensity", AttributeType::Uint16, 1, 2, Source::Copy(INTENSITY));
    put_field(&mut out, "return number", u8_type, 1, 1, Source::ReturnNumber);
    put_field(&mut out, "number of returns", u8_type, 1, 1, Source::NumberOfReturns);
    assert(views(out@) =~= leading());
    if legacy {
        put_field(&mut out, "classification", u8_type, 1, 1, Source::Copy(CLASSIFICATION));
        put_field(&mut out, "scan angle rank", u8_type, 1, 1, Source::ScanAngleRank);
        put_field(&mut out, "user data", u8_type, 1, 1, Source::Copy(USER_DATA));
    } else {
        put_field(&mut out, "classification flags", u8_type, 1, 1, Source::ClassificationFlags);
        put_field(&mut out, "classification", u8_type, 1, 1, Source::Copy(CLASSIFICATION));
        put_field(&mut out, "user data", u8_type, 1, 1, Source::Copy(USER_DATA));
        put_field(&mut out, "scan angle", AttributeType::Int16, 1, 2, Source::Copy(SCAN_ANGLE));
    }
    assert(views(out@) =~= leading() + dated(legacy));
    put_field(
        &mut out,
        "point source id",
        AttributeType::Uint16,
        1,
        2,
        Source::Copy(POINT_SOURCE_ID),
    );
    if gps_time {
        put_field(&mut out, "gps-time", AttributeType::Double, 1, 8, Source::Copy(GPS_TIME));
    }
    if color {
        put_field(&mut out, "rgb", AttributeType::Uint16, 3, 6, Source::Copy(RGB));
    }
    let ghost start = leading() + dated(legacy) + trailing(color, gps_time);
    assert(views(out@) =~= start);
    let ghost all = extras_of(extra@);
    assert(all.take(0) =~= Seq::<Extra>::empty());
    assert(views(out@) =~= start + carried(all.take(0)));
    let mut i: usize = 0;
    while i < extra.len()
        invariant
            i <= extra.len(),
            all == extras_of(extra@),
            views(out@) == start + carried(all.take(i as int)),
        decreases extra.len() - i,
    {
        assert(all.take(i + 1).drop_last() =~= all.take(i as int));
        assert(all.take(i + 1).last() == extra@[i as int]@);
        if let Some(kind) = extra[i].kind {
            put_field(
                &mut out,
                extra[i].name.as_str(),
                kind,
                extra[i].num_elements,
                extra[i].byte_size,
                Source::Copy(extra[i].byte_offset),
            );
        }
        assert(views(out@) =~= start + carried(all.take(i + 1)));
        i = i + 1;
    }
    assert(all.take(i as int) =~= all);
    out
}

/// The number that 16 bits hold in two's complement.
pub open spec fn signed16(n: int) -> int {
    if n < 0x8000 {
        n
    } else {
        n - 0x1_0000
    }
}

/// A scan angle in whole degrees: to the nearest, halves away from zero. An
/// angle counts six thousandths of a degree.
pub open spec fn degrees(angle: int) -> int {
    if angle >= 0 {
        (angle * 6 + 500) / 1000
    } else {
        -((-angle * 6 + 500) / 1000)
    }
}

/// The scan angle of a record, in whole degrees.
pub open spec fn rank_of(record: Seq<u8>) -> int {
    degrees(signed16(le16(record, SCAN_ANGLE as int)))
}

/// A number of degrees as one signed byte, clamped.
pub open spec fn rank_byte(d: int) -> u8 {
    let c = if d < -128 {
        -128
    } else if d > 127 {
        127
    } else {
        d
    };
    (if c < 0 {
        c + 256
    } else {
        c
    }) as u8
}

/// An attribute of the written record, taken out of the canonical one.
pub open spec fn field_bytes(f: FieldView, record: Seq<u8>) -> Seq<u8> {
    match f.source {
        Source::Copy(from) => record.subrange(from as int, from + f.size),
        Source::ReturnNumber => seq![(record[RETURNS as int] % 16) as u8],
        Source::NumberOfReturns => seq![(record[RETURNS as int] / 16) as u8],
        Source::ClassificationFlags => seq![(record[FLAGS as int] % 16) as u8],
        Source::ScanAngleRank => seq![rank_byte(rank_of(record))],
    }
}

/// The written record: its attributes one behind the other.
pub open spec fn encoded(fields: Seq<FieldView>, record: Seq<u8>) -> Seq<u8>
    decreases fields.len(),
{
    if fields.len() == 0 {
        Seq::empty()
    } else {
        encoded(fields.drop_last(), record) + field_bytes(fields.last(), record)
    }
}

/// Whether an attribute can be taken out of records of some stride.
pub open spec fn field_fits(f: FieldView, source_stride: int) -> bool {
    match f.source {
        Source::Copy(from) => from + f.size <= source_stride,
        _ => f.size == 1 && source_stride >= 20,
    }
}

/// Whether every attribute can be taken out of records of some stride.
pub open spec fn fields_fit(fields: Seq<FieldView>, source_stride: int) -> bool {
    forall|i: int| 0 <= i < fields.len() ==> field_fits(#[trigger] fields[i], source_stride)
}

fn scan_angle_rank(record: &[u8]) -> (r: (u8, bool))
    requires
        record@.len() >= 20,
    ensures
        r.0 == rank_byte(rank_of(record@)),
        r.1 == !(-128 <= rank_of(record@) <= 127),
{
    let raw: u16 = u16_at(record, SCAN_ANGLE);
    let angle: i32 = if raw < 0x8000 {
        raw as i32
    } else {
        raw as i32 - 0x1_0000
    };
    let d: i32 = if angle >= 0 {
        (angle * 6 + 500) / 1000
    } else {
        -((-angle * 6 + 500) / 1000)
    };
    assert(d == rank_of(record@));
    let c: i32 = if d < -128 {
        -128
    } else if d > 127 {
        127
    } else {
        d
    };
    let b: i32 = if c < 0 {
        c + 256
    } else {
        c
    };
    (b as u8, d < -128 || d > 127)
}

/// What the writer measures while it writes.
#[derive(Debug, Clone, Copy)]
pub struct Measured {
    pub intensity: [u16; 2],
    pub gps: [Real; 2],
    pub scan_angle_clipped: bool,
}

/// What is known once one more record has been seen.
pub open spec fn measured(m: Measured, record: Seq<u8>, gps_time: bool, rank: bool) -> Measured {
    let i = le16(record, INTENSITY as int) as u16;
    let t = Real { bits: le64(record, GPS_TIME as int) as u64 };
    Measured {
        intensity: [
            if i < m.intensity[0] {
                i
            } else {
                m.intensity[0]
            },
            if i > m.intensity[1] {
                i
            } else {
                m.intensity[1]
            },
        ],
        gps: [
            if gps_time && t.below(m.gps[0]) {
                t
            } else {
                m.gps[0]
            },
            if gps_time && m.gps[1].below(t) {
                t
            } else {
                m.gps[1]
            },
        ],
        scan_angle_clipped: m.scan_angle_clipped || (rank && !(-128 <= rank_of(record) <= 127)),
    }
}

fn put_encoded(fields: &Vec<Field>, record: &[u8], out: &mut Vec<u8>)
    requires
        fields_fit(views(fields@), record@.len() as int),
    ensures
        final(out)@ == old(out)@ + encoded(views(fields@), record@),
{
    let ghost all = views(fields@);
    let ghost start = out@;
    let mut i: usize = 0;
    assert(all.take(0) =~= Seq::<FieldView>::empty());
    assert(out@ =~= start + encoded(all.take(0), record@));
    while i < fields.len()
        invariant
            i <= fields.len(),
            all == views(fields@),
            fields_fit(all, record@.len() as int),
            out@ == start + encoded(all.take(i as int), record@),
        decreases fields.len() - i,
    {
        assert(all.take(i + 1).drop_last() =~= all.take(i as int));
        assert(all.take(i + 1).last() == all[i as int]);
        assert(field_fits(all[i as int], record@.len() as int));
        let ghost before = encoded(all.take(i as int), record@);
        let ghost one = field_bytes(all[i as int], record@);
        let n: usize = record.len();
        match fields[i].source {
            Source::Copy(from) => put_range(out, record, from, from + fields[i].size),
            Source::ReturnNumber => out.push(record[RETURNS] % 16),
            Source::NumberOfReturns => out.push(record[RETURNS] / 16),
            Source::ClassificationFlags => out.push(record[FLAGS] % 16),
            Source::ScanAngleRank => out.push(scan_angle_rank(record).0),
        }
        assert(out@ =~= start + (before + one));
        i = i + 1;
    }
    assert(all.take(i as int) =~= all);
}

fn measure(m: Measured, record: &[u8], gps_time: bool, rank: bool) -> (r: Measured)
    requires
        record@.len() >= 30,
    ensures
        r == measured(m, record@, gps_time, rank),
{
    let i: u16 = u16_at(record, INTENSITY);
    let t = real_at(record, GPS_TIME);
    let clipped = m.scan_angle_clipped || (rank && scan_angle_rank(record).1);
    Measured {
        intensity: [
            if i < m.intensity[0] {
                i
            } else {
                m.intensity[0]
            },
            if i > m.intensity[1] {
                i
            } else {
                m.intensity[1]
            },
        ],
        gps: [
            if gps_time && t.is_below(m.gps[0]) {
                t
            } else {
                m.gps[0]
            },
            if gps_time && m.gps[1].is_below(t) {
                t
            } else {
                m.gps[1]
            },
        ],
        scan_angle_clipped: clipped,
    }
}

/// Record `i` of some records.
pub open spec fn record_at(records: Seq<u8>, source_stride: int, i: int) -> Seq<u8> {
    records.subrange(i * source_stride, i * source_stride + source_stride)
}

/// The first `n` records as they are written.
pub open spec fn encoded_all(
    fields: Seq<FieldView>,
    records: Seq<u8>,
    source_stride: int,
    n: int,
) -> Seq<u8>
    decreases n,
{
    if n <= 0 {
        Seq::empty()
    } else {
        encoded_all(fields, records, source_stride, n - 1) + encoded(
            fields,
            record_at(records, source_stride, n - 1),
        )
    }
}

/// What is known once the first `n` records have been seen.
pub open spec fn measured_all(
    m: Measured,
    records: Seq<u8>,
    source_stride: int,
    n: int,
    gps_time: bool,
    rank: bool,
) -> Measured
    decreases n,
{
    if n <= 0 {
        m
    } else {
        measured(
            measured_all(m, records, source_stride, n - 1, gps_time, rank),
            record_at(records, source_stride, n - 1),
            gps_time,
            rank,
        )
    }
}

/// How an attribute goes into a compressed block, by its name.
pub open spec fn cell_of(f: FieldView) -> Cell {
    Cell {
        coding: if f.name == "position"@ {
            Coding::Position
        } else if f.name == "rgb"@ {
            Coding::Color
        } else {
            Coding::Plain
        },
        size: f.size,
    }
}

/// How the attributes go into compressed blocks.
pub open spec fn cells_of(fields: Seq<FieldView>) -> Seq<Cell> {
    fields.map_values(|f: FieldView| cell_of(f))
}

/// Bytes of a written record.
pub open spec fn written_stride(fields: Seq<FieldView>) -> int {
    stride(cells_of(fields))
}

fn make_cells(fields: &Vec<Field>) -> (out: Vec<Cell>)
    ensures
        out@ == cells_of(views(fields@)),
{
    let mut out: Vec<Cell> = Vec::new();
    let mut i: usize = 0;
    while i < fields.len()
        invariant
            i <= fields.len(),
            out@ == cells_of(views(fields@)).take(i as int),
        decreases fields.len() - i,
    {
        let name = fields[i].name.as_str();
        let coding = if same(name, "position") {
            Coding::Position
        } else if same(name, "rgb") {
            Coding::Color
        } else {
            Coding::Plain
        };
        out.push(Cell { coding, size: fields[i].size });
        assert(out@ =~= cells_of(views(fields@)).take(i + 1));
        i = i + 1;
    }
    assert(out@ =~= cells_of(views(fields@)));
    out
}

/// All attributes of a record, each with its own block.
pub fn all_parts(cells: &Vec<Cell>) -> (out: Vec<Part>)
    requires
        stride(cells@) <= usize::MAX,
    ensures
        out@ == whole(cells@),
        super::blocks::parts_within(out@, stride(cells@)),
{
    let mut out: Vec<Part> = Vec::new();
    let mut at: usize = 0;
    let mut j: usize = 0;
    while j < cells.len()
        invariant
            j <= cells.len(),
            stride(cells@) <= usize::MAX,
            at == place(cells@, j as int),
            out@ == whole(cells@).take(j as int),
        decreases cells.len() - j,
    {
        proof {
            super::blocks::lemma_place_grows(cells@, j + 1, cells@.len() as int);
        }
        out.push(Part { cell: cells[j], start: at });
        assert(out@ =~= whole(cells@).take(j + 1));
        at = at + cells[j].size;
        j = j + 1;
    }
    assert(out@ =~= whole(cells@));
    proof {
        assert forall|k: int| 0 <= k < out@.len() implies (#[trigger] out@[k]).start
            + out@[k].cell.size <= stride(cells@) by {
            super::blocks::lemma_place_grows(cells@, k + 1, cells@.len() as int);
            super::blocks::lemma_place_grows(cells@, k, cells@.len() as int);
        }
    }
    out
}

proof fn lemma_encoded_len(fields: Seq<FieldView>, record: Seq<u8>)
    requires
        fields_fit(fields, record.len() as int),
    ensures
        encoded(fields, record).len() == written_stride(fields),
    decreases fields.len(),
{
    if fields.len() > 0 {
        let shorter = fields.drop_last();
        assert(fields_fit(shorter, record.len() as int)) by {
            assert forall|i: int| 0 <= i < shorter.len() implies field_fits(
                #[trigger] shorter[i],
                record.len() as int,
            ) by {
                assert(field_fits(fields[i], record.len() as int));
            }
        }
        lemma_encoded_len(shorter, record);
        assert(field_fits(fields[fields.len() - 1], record.len() as int));
        lemma_place_prefix(cells_of(shorter), cells_of(fields), shorter.len() as int);
    }
}

proof fn lemma_place_prefix(a: Seq<Cell>, b: Seq<Cell>, n: int)
    requires
        n <= a.len() <= b.len(),
        forall|i: int| 0 <= i < n ==> a[i] == b[i],
    ensures
        place(a, n) == place(b, n),
    decreases n,
{
    if n > 0 {
        lemma_place_prefix(a, b, n - 1);
    }
}

pub proof fn lemma_encoded_all_len(
    fields: Seq<FieldView>,
    records: Seq<u8>,
    source_stride: int,
    n: int,
)
    requires
        0 <= n,
        0 <= source_stride,
        n * source_stride <= records.len(),
        fields_fit(fields, source_stride),
    ensures
        encoded_all(fields, records, source_stride, n).len() == written_stride(fields) * n,
    decreases n,
{
    let w = written_stride(fields);
    if n > 0 {
        assert((n - 1) * source_stride + source_stride == n * source_stride) by (nonlinear_arith);
        assert(0 <= (n - 1) * source_stride) by (nonlinear_arith)
            requires
                n >= 1,
                source_stride >= 0,
        ;
        lemma_encoded_all_len(fields, records, source_stride, n - 1);
        lemma_encoded_len(fields, record_at(records, source_stride, n - 1));
        assert(w * (n - 1) + w == w * n) by (nonlinear_arith);
    } else {
        assert(w * n == 0) by (nonlinear_arith)
            requires
                n == 0,
        ;
    }
}

/// Writes the nodes of a cloud, one at a time, and then its index and manifest.
#[derive(Debug)]
pub struct PotreeWriter {
    pub options: WriteOptions,
    pub encoding: PotreeEncoding,
    pub fields: Vec<Field>,
    pub written: Vec<Written>,
    /// Bytes of points so far.
    pub at: u64,
    pub points: u64,
    pub depth: u32,
    pub measured: Measured,
}

/// Whether nodes stand one behind the other, the last one ending at a byte.
pub open spec fn end_to_end(written: Seq<Written>, at: u64) -> bool
    decreases written.len(),
{
    if written.len() == 0 {
        at == 0
    } else {
        at == wrap64(written.last().byte_offset + written.last().byte_size) && end_to_end(
            written.drop_last(),
            written.last().byte_offset,
        )
    }
}

/// The attributes that some options lead to.
pub open spec fn fields_for(options: WriteOptions) -> Seq<FieldView> {
    record_fields(
        options.layout.format == 7 || options.layout.format == 8,
        options.has_gps_time,
        options.legacy_fields,
        extras_of(options.layout.extra_fields@),
    )
}

/// Whether a writer can be made for some options: the extra dimensions lie
/// within the record, and none that is coded like a position or a colour is too
/// small to be one.
pub open spec fn writable(options: WriteOptions, encoding: PotreeEncoding) -> bool {
    let fields = fields_for(options);
    &&& options.layout.wf()
    &&& fields_fit(fields, options.layout.base + options.layout.extra)
    &&& written_stride(fields) <= usize::MAX
    &&& forall|i: int| 0 <= i < fields.len() ==> field_is_written(#[trigger] fields[i], encoding)
}

/// Whether an attribute has a value, and one that its coding takes where there
/// is a coding.
pub open spec fn field_is_written(f: FieldView, encoding: PotreeEncoding) -> bool {
    f.elements > 0 && (encoding == PotreeEncoding::Brotli ==> cell_of(f).wf())
}

/// Whether a writer can be made for some options.
pub fn supported(options: &WriteOptions, encoding: PotreeEncoding) -> (r: bool)
    requires
        options.layout.wf(),
    ensures
        r == writable(*options, encoding),
{
    let list = fields(
        options.layout.has_color(),
        options.has_gps_time,
        options.legacy_fields,
        &options.layout.extra_fields,
    );
    let cells = make_cells(&list);
    let limit: usize = options.layout.stride();
    let ghost all = fields_for(*options);
    let mut at: usize = 0;
    let mut i: usize = 0;
    while i < list.len()
        invariant
            i <= list@.len(),
            views(list@) == all,
            all == fields_for(*options),
            cells@ == cells_of(all),
            cells@.len() == list@.len(),
            limit == options.layout.base + options.layout.extra,
            at == place(cells@, i as int),
            forall|k: int| 0 <= k < i ==> field_fits(#[trigger] all[k], limit as int),
            forall|k: int| 0 <= k < i ==> field_is_written(#[trigger] all[k], encoding),
        decreases list@.len() - i,
    {
        let f = &list[i];
        let c = cells[i];
        assert(all[i as int] == f@);
        assert(cells@[i as int] == cell_of(all[i as int]));
        let fits = match f.source {
            Source::Copy(from) => from <= limit && f.size <= limit - from,
            _ => f.size == 1 && limit >= 20,
        };
        let coded = match encoding {
            PotreeEncoding::Default => true,
            PotreeEncoding::Brotli => c.is_wide_enough(),
        };
        proof {
            super::blocks::lemma_place_grows(cells@, i + 1, cells@.len() as int);
        }
        if !fits {
            assert(!field_fits(all[i as int], limit as int));
            return false;
        }
        if !coded || f.elements == 0 {
            assert(!field_is_written(all[i as int], encoding));
            return false;
        }
        if c.size > usize::MAX - at {
            return false;
        }
        at = at + c.size;
        i = i + 1;
    }
    true
}

impl PotreeWriter {
    /// What holds of every writer: its record is the one its options lead to, and
    /// its nodes stand one behind the other.
    pub open spec fn wf(self) -> bool {
        &&& writable(self.options, self.encoding)
        &&& views(self.fields@) == fields_for(self.options)
        &&& end_to_end(self.written@, self.at)
    }

    /// Bytes of a canonical record.
    pub open spec fn source_stride(self) -> int {
        self.options.layout.base + self.options.layout.extra
    }

    /// The points of a node as they are written, before they are compressed.
    pub open spec fn payload(self, records: Seq<u8>) -> Seq<u8> {
        let count = records.len() as int / self.source_stride();
        let fields = fields_for(self.options);
        let plain = encoded_all(fields, records, self.source_stride(), count);
        match self.encoding {
            PotreeEncoding::Default => plain,
            PotreeEncoding::Brotli => {
                let cells = cells_of(fields);
                coded_blocks(blocks_of(plain, cells, count), whole(cells), count)
            },
        }
    }

    /// Whether taking the points of a node gives some bytes and leads to another
    /// state. A node without a whole record gives none and is not written.
    pub open spec fn writes(
        self,
        key: OctreeKey,
        records: Seq<u8>,
        bytes: Seq<u8>,
        after: Self,
    ) -> bool {
        let count = records.len() as int / self.source_stride();
        &&& after.options == self.options
        &&& after.encoding == self.encoding
        &&& after.measured == measured_all(
            self.measured,
            records,
            self.source_stride(),
            count,
            self.options.has_gps_time,
            self.options.legacy_fields,
        )
        &&& if records.len() < self.source_stride() {
            &&& bytes.len() == 0
            &&& after.written == self.written
            &&& after.at == self.at
            &&& after.points == self.points
            &&& after.depth == self.depth
        } else {
            &&& match self.encoding {
                PotreeEncoding::Default => bytes == self.payload(records),
                PotreeEncoding::Brotli => packs(self.payload(records), BROTLI_QUALITY, bytes),
            }
            &&& after.written@ == self.written@.push(
                Written {
                    key,
                    byte_offset: self.at,
                    byte_size: bytes.len() as u64,
                    points: count as u32,
                },
            )
            &&& after.at == wrap64(self.at + bytes.len())
            &&& after.points == wrap64(self.points + count)
            &&& after.depth == if key.level > self.depth {
                key.level
            } else {
                self.depth
            }
        }
    }

    pub fn create(options: WriteOptions) -> (w: Self)
        requires
            writable(options, PotreeEncoding::Default),
        ensures
            w.wf(),
            w.options == options,
            w.encoding == PotreeEncoding::Default,
            w.written@.len() == 0,
            w.at == 0,
            w.points == 0,
            w.depth == 0,
            w.measured == nothing_measured(),
    {
        PotreeWriter::create_with(options, PotreeEncoding::Default)
    }

    pub fn create_with(options: WriteOptions, encoding: PotreeEncoding) -> (w: Self)
        requires
            writable(options, encoding),
        ensures
            w.wf(),
            w.options == options,
            w.encoding == encoding,
            w.written@.len() == 0,
            w.at == 0,
            w.points == 0,
            w.depth == 0,
            w.measured == nothing_measured(),
    {
        let fields = fields(
            options.layout.has_color(),
            options.has_gps_time,
            options.legacy_fields,
            &options.layout.extra_fields,
        );
        PotreeWriter {
            options,
            encoding,
            fields,
            written: Vec::new(),
            at: 0,
            points: 0,
            depth: 0,
            measured: Measured {
                intensity: [u16::MAX, 0],
                gps: [Real { bits: INFINITY }, Real { bits: NEG_INFINITY }],
                scan_angle_clipped: false,
            },
        }
    }

    /// Takes the points of one node. Returns the bytes to append to the point
    /// file.
    #[verifier::spinoff_prover]
    #[verifier::rlimit(30)]
    pub fn write_node(&mut self, key: OctreeKey, records: &[u8]) -> (r: Result<Vec<u8>, Error>)
        requires
            old(self).wf(),
        ensures
            final(self).wf(),
            match r {
                Ok(bytes) => old(self).writes(key, records@, bytes@, *final(self)),
                Err(_) => false,
            },
    {
        let step: usize = self.options.stride();
        assert(step >= 30) by {
            reveal_base(self.options.layout);
        }
        let count: usize = records.len() / step;
        proof {
            lemma_counted(records@.len() as int, step as int);
        }
        if count == 0 {
            return Ok(Vec::new());
        }
        let (out, m) = self.spell(records, count);
        proof {
            lemma_encoded_all_len(
                fields_for(self.options),
                records@,
                step as int,
                count as int,
            );
        }
        self.measured = m;
        let bytes = match self.pack_up(out, count) {
            Ok(b) => b,
            Err(e) => {
                return Err(e);
            },
        };
        let node = Written {
            key,
            byte_offset: self.at,
            byte_size: bytes.len() as u64,
            points: count as u32,
        };
        let ghost before = self.written@;
        self.written.push(node);
        assert(self.written@.drop_last() =~= before);
        self.at = self.at.wrapping_add(bytes.len() as u64);
        self.points = self.points.wrapping_add(count as u64);
        if key.level > self.depth {
            self.depth = key.level;
        }
        Ok(bytes)
    }

    /// Some records as they are written, and what is known once they are seen.
    fn spell(&self, records: &[u8], count: usize) -> (r: (Vec<u8>, Measured))
        requires
            self.wf(),
            count * self.source_stride() <= records@.len(),
        ensures
            r.0@ == encoded_all(
                fields_for(self.options),
                records@,
                self.source_stride(),
                count as int,
            ),
            r.1 == measured_all(
                self.measured,
                records@,
                self.source_stride(),
                count as int,
                self.options.has_gps_time,
                self.options.legacy_fields,
            ),
    {
        let step: usize = self.options.stride();
        assert(step >= 30) by {
            reveal_base(self.options.layout);
        }
        let ghost fs = fields_for(self.options);
        let ghost start = self.measured;
        let mut out: Vec<u8> = Vec::new();
        let rank = self.options.legacy_fields;
        let gps = self.options.has_gps_time;
        let total: usize = records.len();
        let mut m = self.measured;
        let mut i: usize = 0;
        while i < count
            invariant
                i <= count,
                step >= 30,
                total == records@.len(),
                total == records.len(),
                count * step <= total,
                fs == views(self.fields@),
                fields_fit(fs, step as int),
                out@ == encoded_all(fs, records@, step as int, i as int),
                m == measured_all(start, records@, step as int, i as int, gps, rank),
            decreases count - i,
        {
            assert(i * step + step <= count * step && 0 <= i * step) by (nonlinear_arith)
                requires
                    i < count,
                    0 <= step,
            ;
            let from: usize = i * step;
            let record = crate::bytes::slice_of(records, from, from + step);
            put_encoded(&self.fields, record.as_slice(), &mut out);
            m = measure(m, record.as_slice(), gps, rank);
            i = i + 1;
        }
        (out, m)
    }

    /// Records as the point file holds them: as they are, or compressed.
    fn pack_up(&self, plain: Vec<u8>, count: usize) -> (r: Result<Vec<u8>, Error>)
        requires
            self.wf(),
            count > 0,
            plain@.len() == written_stride(fields_for(self.options)) * count,
        ensures
            match r {
                Ok(bytes) => match self.encoding {
                    PotreeEncoding::Default => bytes@ == plain@,
                    PotreeEncoding::Brotli => {
                        let cells = cells_of(fields_for(self.options));
                        packs(
                            coded_blocks(
                                blocks_of(plain@, cells, count as int),
                                whole(cells),
                                count as int,
                            ),
                            BROTLI_QUALITY,
                            bytes@,
                        )
                    },
                },
                Err(_) => false,
            },
    {
        match self.encoding {
            PotreeEncoding::Default => Ok(plain),
            PotreeEncoding::Brotli => {
                let cells = make_cells(&self.fields);
                proof {
                    let fs = fields_for(self.options);
                    assert forall|j: int| 0 <= j < cells@.len() implies (
                    #[trigger] cells@[j]).wf() by {
                        assert(field_is_written(fs[j], self.encoding));
                    }
                }
                compress(&cells, plain.as_slice(), count)
            },
        }
    }
}

/// What is known before any record has been seen.
pub open spec fn nothing_measured() -> Measured {
    Measured {
        intensity: [u16::MAX, 0],
        gps: [Real { bits: INFINITY }, Real { bits: NEG_INFINITY }],
        scan_angle_clipped: false,
    }
}

proof fn reveal_base(layout: crate::record::RecordLayout)
    requires
        layout.wf(),
    ensures
        layout.base >= 30,
{
}

proof fn lemma_counted(len: int, step: int)
    requires
        0 <= len,
        0 < step,
    ensures
        0 <= len / step,
        (len / step) * step <= len,
        (len / step == 0) == (len < step),
{
    vstd::arithmetic::div_mod::lemma_fundamental_div_mod(len, step);
    assert((len / step) * step == step * (len / step)) by (nonlinear_arith);
    vstd::arithmetic::div_mod::lemma_div_pos_is_pos(len, step);
    if len < step {
        vstd::arithmetic::div_mod::lemma_basic_div(len, step);
    } else {
        vstd::arithmetic::div_mod::lemma_div_non_zero(len, step);
    }
}

/// The records of one node as blocks, coded and compressed.
fn compress(cells: &Vec<Cell>, records: &[u8], count: usize) -> (r: Result<Vec<u8>, Error>)
    requires
        count > 0,
        records@.len() == stride(cells@) * count,
        stride(cells@) <= usize::MAX,
        forall|j: int| 0 <= j < cells@.len() ==> (#[trigger] cells@[j]).wf(),
    ensures
        match r {
            Ok(out) => packs(
                coded_blocks(
                    blocks_of(records@, cells@, count as int),
                    whole(cells@),
                    count as int,
                ),
                BROTLI_QUALITY,
                out@,
            ),
            Err(_) => false,
        },
{
    let blocks = transpose(records, cells, count);
    let parts = all_parts(cells);
    let total: usize = super::blocks::record_size(cells, cells.len());
    proof {
        blocks_have_every_byte(records@, cells@, count as int);
    }
    let (raw, _) = weave(blocks.as_slice(), &parts, count, total);
    match brotli_compress(raw.as_slice(), BROTLI_QUALITY, BROTLI_WINDOW) {
        Ok(out) => Ok(out),
        Err(e) => Err(Error::Codec(cat2("brotli: ", e.as_str()))),
    }
}

/// Minus 128.
pub const RANK_MIN: u64 = 0xc060_0000_0000_0000;

/// 127.
pub const RANK_MAX: u64 = 0x405f_c000_0000_0000;

/// Some copies of a number.
pub open spec fn copies(r: Real, n: nat) -> Seq<Real> {
    Seq::new(n, |i: int| r)
}

/// The greatest value of a type that a domain states, zero where it states none.
pub open spec fn type_max(kind: AttributeType) -> Real {
    match kind {
        AttributeType::Uint8 => Real::of(255),
        AttributeType::Uint16 => Real::of(65535),
        AttributeType::Uint32 => Real::of(4294967295),
        _ => Real { bits: ZERO },
    }
}

/// The stated domain of an attribute: what was measured, or the range of its
/// type.
pub open spec fn domain_of(f: FieldView, extent: crate::bounds::Bounds, m: Measured) -> (
    Seq<Real>,
    Seq<Real>,
) {
    let zero = Real { bits: ZERO };
    if f.name == "position"@ {
        (extent.min@, extent.max@)
    } else if f.name == "intensity"@ {
        if m.intensity[0] > m.intensity[1] {
            (seq![zero], seq![zero])
        } else {
            (seq![Real::of(m.intensity[0] as nat)], seq![Real::of(m.intensity[1] as nat)])
        }
    } else if f.name == "gps-time"@ {
        if m.gps[0].finite() {
            (seq![m.gps[0]], seq![m.gps[1]])
        } else {
            (seq![zero], seq![zero])
        }
    } else if f.name == "rgb"@ {
        (copies(zero, 3), copies(Real::of(65535), 3))
    } else if f.name == "scan angle rank"@ {
        (seq![Real { bits: RANK_MIN }], seq![Real { bits: RANK_MAX }])
    } else if f.name == "scan angle"@ {
        (seq![Real { bits: ANGLE_MIN }], seq![Real { bits: ANGLE_MAX }])
    } else {
        (copies(zero, f.elements as nat), copies(type_max(f.kind), f.elements as nat))
    }
}

fn one(r: Real) -> (v: Vec<Real>)
    ensures
        v@ == seq![r],
{
    let v = repeat(r, 1);
    assert(v@ =~= seq![r]);
    v
}

fn triple(r: [Real; 3]) -> (v: Vec<Real>)
    ensures
        v@ == r@,
{
    let mut v: Vec<Real> = Vec::new();
    v.push(r[0]);
    v.push(r[1]);
    v.push(r[2]);
    assert(v@ =~= r@);
    v
}

fn domain(f: &Field, extent: &crate::bounds::Bounds, m: &Measured) -> (r: (Vec<Real>, Vec<Real>))
    ensures
        (r.0@, r.1@) == domain_of(f@, *extent, *m),
{
    let zero = Real { bits: ZERO };
    let name = f.name.as_str();
    if same(name, "position") {
        (triple(extent.min), triple(extent.max))
    } else if same(name, "intensity") {
        if m.intensity[0] > m.intensity[1] {
            (one(zero), one(zero))
        } else {
            (one(Real::whole(m.intensity[0] as u32)), one(Real::whole(m.intensity[1] as u32)))
        }
    } else if same(name, "gps-time") {
        if m.gps[0].is_finite() {
            (one(m.gps[0]), one(m.gps[1]))
        } else {
            (one(zero), one(zero))
        }
    } else if same(name, "rgb") {
        (repeat(zero, 3), repeat(Real::whole(65535), 3))
    } else if same(name, "scan angle rank") {
        (one(Real { bits: RANK_MIN }), one(Real { bits: RANK_MAX }))
    } else if same(name, "scan angle") {
        (one(Real { bits: ANGLE_MIN }), one(Real { bits: ANGLE_MAX }))
    } else {
        let max = match f.kind {
            AttributeType::Uint8 => Real::whole(255),
            AttributeType::Uint16 => Real::whole(65535),
            AttributeType::Uint32 => Real::whole(4294967295),
            _ => zero,
        };
        (repeat(zero, f.elements), repeat(max, f.elements))
    }
}

/// How a manifest describes an attribute.
pub open spec fn described(f: FieldView, extent: crate::bounds::Bounds, m: Measured) -> Tree {
    let (min, max) = domain_of(f, extent, m);
    Tree::Object(
        seq![
            ("name"@, Tree::Text(f.name)),
            ("description"@, Tree::Text(""@)),
            ("size"@, Json::whole(f.size as u64)),
            ("numElements"@, Json::whole(f.elements as u64)),
            ("elementSize"@, Json::whole((f.size / f.elements) as u64)),
            ("type"@, Tree::Text(f.kind.spelling())),
            ("min"@, Json::fractions(min)),
            ("max"@, Json::fractions(max)),
        ],
    )
}

fn describe(f: &Field, extent: &crate::bounds::Bounds, m: &Measured) -> (j: Json)
    requires
        f.elements > 0,
    ensures
        j.tree() == described(f@, *extent, *m),
{
    let (min, max) = domain(f, extent, m);
    let mut fields = Fields::new();
    fields.put("name", Json::of_text(f.name.as_str()));
    fields.put("description", Json::of_text(""));
    fields.put("size", Json::count(f.size as u64));
    fields.put("numElements", Json::count(f.elements as u64));
    fields.put("elementSize", Json::count((f.size / f.elements) as u64));
    fields.put("type", Json::of_text(f.kind.name()));
    fields.put("min", Json::of_reals(min.as_slice()));
    fields.put("max", Json::of_reals(max.as_slice()));
    let j = fields.object();
    assert(j.tree()->Object_0 =~= described(f@, *extent, *m)->Object_0);
    j
}

/// A box, as a manifest writes it.
pub open spec fn box_tree(b: crate::bounds::Bounds) -> Tree {
    Tree::Object(
        seq![("min"@, Json::fractions(b.min@)), ("max"@, Json::fractions(b.max@))],
    )
}

pub(crate) fn box_json(b: &crate::bounds::Bounds) -> (j: Json)
    ensures
        j.tree() == box_tree(*b),
{
    let mut fields = Fields::new();
    fields.put("min", Json::of_reals(b.min.as_slice()));
    fields.put("max", Json::of_reals(b.max.as_slice()));
    let j = fields.object();
    assert(j.tree()->Object_0 =~= box_tree(*b)->Object_0);
    j
}

/// The text of a declaration, empty where there is none.
pub open spec fn crs_text(options: WriteOptions) -> Seq<char> {
    match declared(options.crs) {
        Some(d) => d.raw,
        None => ""@,
    }
}

impl PotreeWriter {
    /// The manifest, given the name of the cloud and the size of the first chunk
    /// of its hierarchy.
    pub open spec fn manifest(self, name: Seq<char>, first_chunk_size: u64) -> Tree {
        let fs = views(self.fields@);
        Tree::Object(
            seq![
                ("version"@, Tree::Text("2.0"@)),
                ("name"@, Tree::Text(name)),
                ("description"@, Tree::Text(""@)),
                ("points"@, Json::whole(self.points)),
                ("projection"@, Tree::Text(crs_text(self.options))),
                (
                    "hierarchy"@,
                    Tree::Object(
                        seq![
                            ("firstChunkSize"@, Json::whole(first_chunk_size)),
                            ("stepSize"@, Json::whole(STEP_SIZE as u64)),
                            ("depth"@, Json::whole(self.depth as u64)),
                        ],
                    ),
                ),
                ("offset"@, Json::fractions(self.options.offset@)),
                ("scale"@, Json::fractions(self.options.scale@)),
                ("spacing"@, Json::fraction(self.options.spacing)),
                ("boundingBox"@, box_tree(self.options.cube)),
                ("encoding"@, Tree::Text(self.encoding.spelling())),
                (
                    "attributes"@,
                    Tree::Array(
                        fs.map_values(
                            |f: FieldView| described(f, self.options.extent, self.measured),
                        ),
                    ),
                ),
                ("generator"@, Tree::Text(self.options.generator@)),
                ("tightBoundingBox"@, box_tree(self.options.extent)),
            ],
        )
    }

    fn attribute_list(&self) -> (j: Json)
        requires
            self.wf(),
        ensures
            j.tree() == Tree::Array(
                views(self.fields@).map_values(
                    |f: FieldView| described(f, self.options.extent, self.measured),
                ),
            ),
    {
        let ghost want = views(self.fields@).map_values(
            |f: FieldView| described(f, self.options.extent, self.measured),
        );
        let mut items: Vec<Json> = Vec::new();
        let mut i: usize = 0;
        while i < self.fields.len()
            invariant
                i <= self.fields.len(),
                self.wf(),
                want == views(self.fields@).map_values(
                    |f: FieldView| described(f, self.options.extent, self.measured),
                ),
                items@.len() == i,
                forall|k: int| 0 <= k < i ==> (#[trigger] items@[k]).tree() == want[k],
            decreases self.fields.len() - i,
        {
            assert(views(self.fields@)[i as int].elements > 0) by {
                let fs = fields_for(self.options);
                assert(field_is_written(fs[i as int], self.encoding));
            }
            items.push(describe(&self.fields[i], &self.options.extent, &self.measured));
            i = i + 1;
        }
        let j = Json::Array(items);
        assert(j.tree()->Array_0 =~= want);
        j
    }

    /// The manifest.
    #[verifier::rlimit(30)]
    pub fn metadata(&self, name: &str, first_chunk_size: u64) -> (j: Json)
        requires
            self.wf(),
        ensures
            j.tree() == self.manifest(name@, first_chunk_size),
    {
        let mut h = Fields::new();
        h.put("firstChunkSize", Json::count(first_chunk_size));
        h.put("stepSize", Json::count(STEP_SIZE as u64));
        h.put("depth", Json::count(self.depth as u64));
        let hierarchy = h.object();
        let ghost h_want = Tree::Object(
            seq![
                ("firstChunkSize"@, Json::whole(first_chunk_size)),
                ("stepSize"@, Json::whole(STEP_SIZE as u64)),
                ("depth"@, Json::whole(self.depth as u64)),
            ],
        );
        assert(hierarchy.tree()->Object_0 =~= h_want->Object_0);
        let mut m = Fields::new();
        m.put("version", Json::of_text("2.0"));
        m.put("name", Json::of_text(name));
        m.put("description", Json::of_text(""));
        m.put("points", Json::count(self.points));
        let projection = match &self.options.crs {
            Some(c) => c.raw.as_str(),
            None => "",
        };
        m.put("projection", Json::of_text(projection));
        m.put("hierarchy", hierarchy);
        m.put("offset", Json::of_reals(self.options.offset.as_slice()));
        m.put("scale", Json::of_reals(self.options.scale.as_slice()));
        m.put("spacing", Json::of_real(self.options.spacing));
        m.put("boundingBox", box_json(&self.options.cube));
        m.put("encoding", Json::of_text(self.encoding.name()));
        m.put("attributes", self.attribute_list());
        m.put("generator", Json::of_text(self.options.generator.as_str()));
        m.put("tightBoundingBox", box_json(&self.options.extent));
        let j = m.object();
        assert(j.tree()->Object_0 =~= self.manifest(name@, first_chunk_size)->Object_0);
        j
    }

    /// What is left to write once every node has been: the index, the manifest,
    /// and what the format could not keep.
    pub fn finish(&self, name: &str) -> (r: (Vec<u8>, Json, Vec<Warning>))
        requires
            self.wf(),
        ensures
            r.0@ == hierarchy_of(self.written@),
            r.1.tree() == self.manifest(
                name@,
                own_size(self.written@, first_key(self.written@)) as u64,
            ),
            crate::warning::notices(r.2@) == if self.measured.scan_angle_clipped {
                seq![
                    Notice {
                        code: "scan-angle-narrowed"@,
                        path: "attributes[scan angle rank]"@,
                        message:
                            "Potree v2 stores the scan angle as one signed byte of whole degrees. Angles past ±127° were clamped; the LAS 1.4 field they came from holds 0.006° increments and keeps them."@,
                    },
                ]
            } else {
                Seq::empty()
            },
    {
        let mut warnings: Vec<Warning> = Vec::new();
        assert(crate::warning::notices(warnings@) =~= Seq::<Notice>::empty());
        if self.measured.scan_angle_clipped {
            let w = Warning::new(
                "scan-angle-narrowed",
                "attributes[scan angle rank]".to_owned(),
                "Potree v2 stores the scan angle as one signed byte of whole degrees. Angles past ±127° were clamped; the LAS 1.4 field they came from holds 0.006° increments and keeps them.".to_owned(),
            );
            proof {
                crate::warning::notices_push(warnings@, w);
            }
            warnings.push(w);
            assert(crate::warning::notices(warnings@) =~= seq![w@]);
        }
        let (hierarchy, first) = hierarchy_bytes(&self.written);
        let metadata = self.metadata(name, first);
        (hierarchy, metadata, warnings)
    }
}

} // verus!
