//! What the point files of Potree and EPT keep of the canonical record.

use crate::attribute::AttributeType;
use crate::double::Real;
use crate::las::extra_bytes::Extra;
use crate::write::WriteOptions;
use crate::write::ept;
use crate::write::ept::{colored, schema_for};
use crate::write::potree::{
    carried, degrees, domain_of, encoded, encoded_all, entry, field_bytes, measured, measured_all,
    nothing_measured, rank_byte, rank_of, record_at, record_fields, FieldView, Measured,
    PotreeEncoding, PotreeWriter, Source,
};
use vstd::prelude::*;

verus! {

/// What a record is written as, field by field, out of a modern source.
pub open spec fn modern_record(r: Seq<u8>, color: bool, gps_time: bool) -> Seq<u8> {
    r.subrange(0, 14) + seq![r[14] % 16, r[14] / 16, r[15] % 16, r[16], r[17]] + r.subrange(18, 22)
        + (if gps_time {
        r.subrange(22, 30)
    } else {
        Seq::empty()
    }) + (if color {
        r.subrange(30, 36)
    } else {
        Seq::empty()
    })
}

proof fn lemma_encoded_add(a: Seq<FieldView>, b: Seq<FieldView>, r: Seq<u8>)
    ensures
        encoded(a + b, r) == encoded(a, r) + encoded(b, r),
    decreases b.len(),
{
    if b.len() == 0 {
        assert(a + b =~= a);
        assert(encoded(a, r) + encoded(b, r) =~= encoded(a, r));
    } else {
        assert((a + b).drop_last() =~= a + b.drop_last());
        lemma_encoded_add(a, b.drop_last(), r);
        assert(encoded(a + b, r) =~= encoded(a, r) + encoded(b, r));
    }
}

proof fn lemma_one(f: FieldView, r: Seq<u8>)
    ensures
        encoded(seq![f], r) == field_bytes(f, r),
{
    let none = Seq::<FieldView>::empty();
    assert(seq![f].drop_last() =~= none);
    assert(encoded(none, r) =~= Seq::<u8>::empty());
    assert(Seq::<u8>::empty() + field_bytes(f, r) =~= field_bytes(f, r));
}

proof fn lemma_two(f: FieldView, g: FieldView, r: Seq<u8>)
    ensures
        encoded(seq![f, g], r) == field_bytes(f, r) + field_bytes(g, r),
{
    lemma_one(f, r);
    lemma_one(g, r);
    lemma_encoded_add(seq![f], seq![g], r);
    assert(seq![f] + seq![g] =~= seq![f, g]);
}

proof fn lemma_four(a: FieldView, b: FieldView, c: FieldView, d: FieldView, r: Seq<u8>)
    ensures
        encoded(seq![a, b, c, d], r) == field_bytes(a, r) + field_bytes(b, r) + (field_bytes(c, r)
            + field_bytes(d, r)),
{
    lemma_two(a, b, r);
    lemma_two(c, d, r);
    lemma_encoded_add(seq![a, b], seq![c, d], r);
    assert(seq![a, b] + seq![c, d] =~= seq![a, b, c, d]);
}

proof fn lemma_front(r: Seq<u8>)
    requires
        r.len() >= 30,
    ensures
        encoded(crate::write::potree::leading(), r) == r.subrange(0, 14) + seq![
            (r[14] % 16) as u8,
            (r[14] / 16) as u8,
        ],
{
    let l = crate::write::potree::leading();
    lemma_four(l[0], l[1], l[2], l[3], r);
    assert(l =~= seq![l[0], l[1], l[2], l[3]]);
    assert(encoded(l, r) =~= r.subrange(0, 14) + seq![(r[14] % 16) as u8, (r[14] / 16) as u8]);
}

proof fn lemma_tail(color: bool, gps_time: bool, r: Seq<u8>)
    requires
        r.len() >= 30,
        color ==> r.len() >= 36,
    ensures
        encoded(crate::write::potree::trailing(color, gps_time), r) == r.subrange(20, 22) + (
        if gps_time {
            r.subrange(22, 30)
        } else {
            Seq::empty()
        }) + (if color {
            r.subrange(30, 36)
        } else {
            Seq::empty()
        }),
{
    let t = crate::write::potree::trailing(color, gps_time);
    let id = entry("point source id"@, AttributeType::Uint16, 1, 2, Source::Copy(20));
    let time = entry("gps-time"@, AttributeType::Double, 1, 8, Source::Copy(22));
    let rgb = entry("rgb"@, AttributeType::Uint16, 3, 6, Source::Copy(30));
    let a = seq![id];
    let b = if gps_time {
        seq![time]
    } else {
        Seq::empty()
    };
    let c = if color {
        seq![rgb]
    } else {
        Seq::empty()
    };
    assert(t =~= a + b + c);
    lemma_encoded_add(a + b, c, r);
    lemma_encoded_add(a, b, r);
    lemma_one(id, r);
    lemma_one(time, r);
    lemma_one(rgb, r);
    assert(encoded(Seq::<FieldView>::empty(), r) =~= Seq::<u8>::empty());
}

/// The record of a cloud from a modern source: position and intensity as they are,
/// the two nibbles of the returns, the flags, the class, the user's byte, the
/// angle and the id of the source, then the time and the colour where there are
/// any. The extra dimensions follow.
pub proof fn a_modern_record_keeps_its_fields(
    color: bool,
    gps_time: bool,
    extra: Seq<Extra>,
    r: Seq<u8>,
)
    requires
        r.len() >= 30,
        color ==> r.len() >= 36,
    ensures
        encoded(record_fields(color, gps_time, false, extra), r) == modern_record(r, color, gps_time)
            + encoded(carried(extra), r),
{
    let l = crate::write::potree::leading();
    let d = crate::write::potree::dated(false);
    let t = crate::write::potree::trailing(color, gps_time);
    lemma_encoded_add(l + d + t, carried(extra), r);
    lemma_encoded_add(l + d, t, r);
    lemma_encoded_add(l, d, r);
    lemma_front(r);
    lemma_tail(color, gps_time, r);
    lemma_four(d[0], d[1], d[2], d[3], r);
    assert(d =~= seq![d[0], d[1], d[2], d[3]]);
    assert(encoded(l + d + t, r) =~= modern_record(r, color, gps_time));
}

/// The record of a cloud from legacy sources: the class comes before the angle,
/// which is a byte of whole degrees, and there are no flags.
pub proof fn a_legacy_record_keeps_its_fields(
    color: bool,
    gps_time: bool,
    extra: Seq<Extra>,
    r: Seq<u8>,
)
    requires
        r.len() >= 30,
        color ==> r.len() >= 36,
    ensures
        encoded(record_fields(color, gps_time, true, extra), r) == r.subrange(0, 14) + seq![
            (r[14] % 16) as u8,
            (r[14] / 16) as u8,
            r[16],
            rank_byte(rank_of(r)),
            r[17],
        ] + r.subrange(20, 22) + (if gps_time {
            r.subrange(22, 30)
        } else {
            Seq::empty()
        }) + (if color {
            r.subrange(30, 36)
        } else {
            Seq::empty()
        }) + encoded(carried(extra), r),
{
    let l = crate::write::potree::leading();
    let d = crate::write::potree::dated(true);
    let t = crate::write::potree::trailing(color, gps_time);
    lemma_encoded_add(l + d + t, carried(extra), r);
    lemma_encoded_add(l + d, t, r);
    lemma_encoded_add(l, d, r);
    lemma_front(r);
    lemma_tail(color, gps_time, r);
    lemma_two(d[0], d[1], r);
    lemma_one(d[2], r);
    lemma_encoded_add(seq![d[0], d[1]], seq![d[2]], r);
    assert(d =~= seq![d[0], d[1]] + seq![d[2]]);
    let want = r.subrange(0, 14) + seq![
        (r[14] % 16) as u8,
        (r[14] / 16) as u8,
        r[16],
        rank_byte(rank_of(r)),
        r[17],
    ] + r.subrange(20, 22) + (if gps_time {
        r.subrange(22, 30)
    } else {
        Seq::empty()
    }) + (if color {
        r.subrange(30, 36)
    } else {
        Seq::empty()
    });
    assert(encoded(l + d + t, r) =~= want);
}

/// An extra dimension with a type is carried byte for byte, from where it stands;
/// one without is not.
pub proof fn extra_dimensions_are_carried(extra: Seq<Extra>, f: Extra, r: Seq<u8>)
    ensures
        f.kind is None ==> encoded(carried(extra.push(f)), r) == encoded(carried(extra), r),
        f.kind is Some ==> encoded(carried(extra.push(f)), r) == encoded(carried(extra), r)
            + r.subrange(f.byte_offset as int, f.byte_offset + f.byte_size),
        f.kind matches Some(kind) ==> carried(extra.push(f)).last() == (FieldView {
            name: f.name,
            kind,
            elements: f.num_elements,
            size: f.byte_size,
            source: Source::Copy(f.byte_offset),
        }),
{
    assert(extra.push(f).drop_last() =~= extra);
    if f.kind is Some {
        let c = carried(extra.push(f));
        assert(c.drop_last() =~= carried(extra));
    }
}

/// The fields that a manifest names, in the order of the record, and their types.
pub proof fn fields_are_named(color: bool, gps_time: bool, legacy: bool, extra: Seq<Extra>)
    ensures
        ({
            let f = record_fields(color, gps_time, legacy, extra);
            let is = |i: int, name: Seq<char>, kind: AttributeType, elements: int| f[i].name == name
                && f[i].kind == kind && f[i].elements == elements && f[i].size == elements
                * kind.width();
            let at: int = if legacy {
                7
            } else {
                8
            };
            let time: int = if gps_time {
                1
            } else {
                0
            };
            &&& is(0, "position"@, AttributeType::Int32, 3)
            &&& is(1, "intensity"@, AttributeType::Uint16, 1)
            &&& is(2, "return number"@, AttributeType::Uint8, 1)
            &&& is(3, "number of returns"@, AttributeType::Uint8, 1)
            &&& legacy ==> is(4, "classification"@, AttributeType::Uint8, 1) && is(
                5,
                "scan angle rank"@,
                AttributeType::Uint8,
                1,
            ) && is(6, "user data"@, AttributeType::Uint8, 1)
            &&& !legacy ==> is(4, "classification flags"@, AttributeType::Uint8, 1) && is(
                5,
                "classification"@,
                AttributeType::Uint8,
                1,
            ) && is(6, "user data"@, AttributeType::Uint8, 1) && is(
                7,
                "scan angle"@,
                AttributeType::Int16,
                1,
            )
            &&& is(at, "point source id"@, AttributeType::Uint16, 1)
            &&& gps_time ==> is(at + 1, "gps-time"@, AttributeType::Double, 1)
            &&& color ==> is(at + 1 + time, "rgb"@, AttributeType::Uint16, 3)
        }),
{
}

/// A scan angle in degrees is the nearest number of them, and a byte holds it as
/// far as a signed byte can.
pub proof fn degrees_are_the_nearest(angle: int)
    requires
        -0x8000 <= angle < 0x8000,
    ensures
        -500 <= 1000 * degrees(angle) - 6 * angle <= 500,
        ({
            let d = degrees(angle);
            let b = rank_byte(d) as int;
            let back = if b < 128 {
                b
            } else {
                b - 256
            };
            &&& -128 <= d <= 127 ==> back == d
            &&& d > 127 ==> back == 127
            &&& d < -128 ==> back == -128
        }),
{
}

/// Record `i` of a node is written as record `i` of its points, behind those
/// before it.
pub proof fn records_are_written_in_order(
    fields: Seq<FieldView>,
    records: Seq<u8>,
    stride: int,
    n: int,
)
    requires
        0 < n,
    ensures
        encoded_all(fields, records, stride, 0) == Seq::<u8>::empty(),
        encoded_all(fields, records, stride, n) == encoded_all(fields, records, stride, n - 1)
            + encoded(fields, records.subrange((n - 1) * stride, (n - 1) * stride + stride)),
{
}

/// What was measured holds every record: no intensity and no time lies outside of
/// the range, and every angle that did not fit is noted.
pub proof fn the_measure_holds_every_record(
    m: Measured,
    records: Seq<u8>,
    stride: int,
    n: int,
    gps_time: bool,
    rank: bool,
    i: int,
)
    requires
        0 <= i < n,
        m.gps[0].rank() is Some,
        m.gps[1].rank() is Some,
    ensures
        ({
            let all = measured_all(m, records, stride, n, gps_time, rank);
            let r = record_at(records, stride, i);
            let intensity = r[12] + 256 * r[13];
            let t = Real { bits: crate::bytes::le64(r, 22) as u64 };
            &&& all.intensity[0] <= intensity <= all.intensity[1]
            &&& gps_time ==> !t.below(all.gps[0]) && !all.gps[1].below(t)
            &&& rank && !(-128 <= rank_of(r) <= 127) ==> all.scan_angle_clipped
            &&& all.gps[0].rank() is Some
            &&& all.gps[1].rank() is Some
        }),
    decreases n,
{
    let before = measured_all(m, records, stride, n - 1, gps_time, rank);
    let last = record_at(records, stride, n - 1);
    if i < n - 1 {
        the_measure_holds_every_record(m, records, stride, n - 1, gps_time, rank, i);
    } else {
        lemma_ordered(m, records, stride, n - 1, gps_time, rank);
    }
    assert(measured_all(m, records, stride, n, gps_time, rank) == measured(
        before,
        last,
        gps_time,
        rank,
    ));
}

proof fn lemma_ordered(
    m: Measured,
    records: Seq<u8>,
    stride: int,
    n: int,
    gps_time: bool,
    rank: bool,
)
    requires
        m.gps[0].rank() is Some,
        m.gps[1].rank() is Some,
    ensures
        measured_all(m, records, stride, n, gps_time, rank).gps[0].rank() is Some,
        measured_all(m, records, stride, n, gps_time, rank).gps[1].rank() is Some,
    decreases n,
{
    if n > 0 {
        lemma_ordered(m, records, stride, n - 1, gps_time, rank);
    }
}

/// Every bound that was measured is that of a record: the least and the greatest
/// intensity are some record's own, and an angle is noted only where one did not
/// fit.
pub proof fn the_measure_is_that_of_records(
    records: Seq<u8>,
    stride: int,
    n: int,
    gps_time: bool,
    rank: bool,
)
    requires
        0 < n,
    ensures
        ({
            let all = measured_all(nothing_measured(), records, stride, n, gps_time, rank);
            &&& exists|i: int|
                0 <= i < n && all.intensity[0] == #[trigger] crate::bytes::le16(
                    record_at(records, stride, i),
                    12,
                )
            &&& exists|i: int|
                0 <= i < n && all.intensity[1] == #[trigger] crate::bytes::le16(
                    record_at(records, stride, i),
                    12,
                )
            &&& all.scan_angle_clipped ==> exists|i: int|
                0 <= i < n && !(-128 <= #[trigger] rank_of(record_at(records, stride, i)) <= 127)
        }),
    decreases n,
{
    let all = measured_all(nothing_measured(), records, stride, n, gps_time, rank);
    let before = measured_all(nothing_measured(), records, stride, n - 1, gps_time, rank);
    let r = record_at(records, stride, n - 1);
    let v = crate::bytes::le16(r, 12);
    assert(0 <= v <= u16::MAX);
    assert(all == measured(before, r, gps_time, rank));
    if n > 1 {
        the_measure_is_that_of_records(records, stride, n - 1, gps_time, rank);
    } else {
        assert(before == nothing_measured());
    }
    if all.intensity[0] != v {
        let i = choose|i: int|
            0 <= i < n - 1 && before.intensity[0] == #[trigger] crate::bytes::le16(
                record_at(records, stride, i),
                12,
            );
        assert(all.intensity[0] == crate::bytes::le16(record_at(records, stride, i), 12));
    }
    if all.intensity[1] != v {
        let i = choose|i: int|
            0 <= i < n - 1 && before.intensity[1] == #[trigger] crate::bytes::le16(
                record_at(records, stride, i),
                12,
            );
        assert(all.intensity[1] == crate::bytes::le16(record_at(records, stride, i), 12));
    }
    if all.scan_angle_clipped && before.scan_angle_clipped {
        let i = choose|i: int|
            0 <= i < n - 1 && !(-128 <= #[trigger] rank_of(record_at(records, stride, i)) <= 127);
        assert(!(-128 <= rank_of(record_at(records, stride, i)) <= 127));
    }
}

/// The domain that a manifest states of a field: the extent for the positions, what
/// was measured for the intensity and the time.
pub proof fn domains_are_what_was_measured(f: FieldView, extent: crate::bounds::Bounds, m: Measured)
    ensures
        f.name == "position"@ ==> domain_of(f, extent, m) == (extent.min@, extent.max@),
        f.name == "intensity"@ && m.intensity[0] <= m.intensity[1] ==> domain_of(f, extent, m) == (
            seq![Real::of(m.intensity[0] as nat)],
            seq![Real::of(m.intensity[1] as nat)],
        ),
        f.name == "gps-time"@ && m.gps[0].finite() ==> domain_of(f, extent, m) == (
            seq![m.gps[0]],
            seq![m.gps[1]],
        ),
{
    reveal_strlit("position");
    reveal_strlit("intensity");
    reveal_strlit("gps-time");
    assert("position"@.len() == 8 && "intensity"@.len() == 9 && "gps-time"@.len() == 8);
    assert("position"@[0] == 'p' && "gps-time"@[0] == 'g');
}

/// A node that is written stands behind those before it, with its address, its
/// bytes and its points, and is counted.
pub proof fn a_node_is_noted_where_it_stands(
    w: PotreeWriter,
    key: crate::octree::OctreeKey,
    records: Seq<u8>,
    bytes: Seq<u8>,
    after: PotreeWriter,
)
    requires
        w.writes(key, records, bytes, after),
        records.len() >= w.source_stride(),
        w.source_stride() > 0,
        bytes.len() <= u64::MAX,
        w.at + bytes.len() <= u64::MAX,
        records.len() as int / w.source_stride() <= u32::MAX,
        w.points + records.len() as int / w.source_stride() <= u64::MAX,
    ensures
        ({
            let n = records.len() as int / w.source_stride();
            let node = after.written@.last();
            &&& after.written@.len() == w.written@.len() + 1
            &&& after.written@.drop_last() == w.written@
            &&& node.key == key
            &&& node.byte_offset == w.at
            &&& node.byte_size == bytes.len()
            &&& node.points == n
            &&& after.at == w.at + bytes.len()
            &&& after.points == w.points + n
            &&& after.depth >= key.level && after.depth >= w.depth
            &&& after.depth == key.level || after.depth == w.depth
            &&& w.encoding == PotreeEncoding::Default ==> bytes == encoded_all(
                crate::write::potree::fields_for(w.options),
                records,
                w.source_stride(),
                n,
            )
        }),
{
    assert(after.written@.drop_last() =~= w.written@);
}

/// A node without points leaves the writer as it was, and gives no bytes.
pub proof fn a_node_without_points_is_not_written(
    w: PotreeWriter,
    key: crate::octree::OctreeKey,
    records: Seq<u8>,
    bytes: Seq<u8>,
    after: PotreeWriter,
)
    requires
        w.writes(key, records, bytes, after),
        records.len() < w.source_stride(),
    ensures
        bytes.len() == 0,
        after.written@ == w.written@,
        after.points == w.points,
        after.at == w.at,
{
}

/// The record of an EPT node: position and intensity as they are, the two nibbles
/// of the returns, the class, the angle, the user's byte and the id of the source,
/// then the time and the colour where there are any.
pub proof fn an_ept_record_keeps_its_fields(r: Seq<u8>, gps: bool, color: bool)
    requires
        r.len() >= 30,
        color ==> r.len() >= 36,
    ensures
        ({
            let e = ept::encoded(r, gps, color);
            let n: int = if gps {
                30
            } else {
                22
            };
            &&& e.len() == n + if color {
                6int
            } else {
                0
            }
            &&& e.subrange(0, 14) == r.subrange(0, 14)
            &&& e[14] == r[14] % 16
            &&& e[15] == r[14] / 16
            &&& e[16] == r[16]
            &&& e.subrange(17, 19) == r.subrange(18, 20)
            &&& e[19] == r[17]
            &&& e.subrange(20, 22) == r.subrange(20, 22)
            &&& gps ==> e.subrange(22, 30) == r.subrange(22, 30)
            &&& color ==> e.subrange(n, n + 6) == r.subrange(30, 36)
        }),
{
    let e = ept::encoded(r, gps, color);
    let n: int = if gps {
        30
    } else {
        22
    };
    assert(e.subrange(0, 14) =~= r.subrange(0, 14));
    assert(e.subrange(17, 19) =~= r.subrange(18, 20));
    assert(e.subrange(20, 22) =~= r.subrange(20, 22));
    if gps {
        assert(e.subrange(22, 30) =~= r.subrange(22, 30));
    }
    if color {
        assert(e.subrange(n, n + 6) =~= r.subrange(30, 36));
    }
}

/// The records of an EPT node follow each other in the order of its points.
pub proof fn ept_records_are_written_in_order(
    records: Seq<u8>,
    stride: int,
    gps: bool,
    color: bool,
    n: int,
)
    requires
        0 < n,
    ensures
        ept::encoded_all(records, stride, gps, color, 0) == Seq::<u8>::empty(),
        ept::encoded_all(records, stride, gps, color, n) == ept::encoded_all(
            records,
            stride,
            gps,
            color,
            n - 1,
        ) + ept::encoded(records.subrange((n - 1) * stride, (n - 1) * stride + stride), gps, color),
{
    assert((n - 1) * stride + stride == n * stride) by (nonlinear_arith);
}

/// The schema names the fields of the record in its order, with their sizes.
pub proof fn the_schema_names_the_fields(options: WriteOptions)
    ensures
        ({
            let s = schema_for(options);
            let is = |i: int, name: Seq<char>, kind: Seq<char>, size: int| s[i].name == name
                && s[i].kind == kind && s[i].size == size;
            let at: int = if options.has_gps_time {
                11
            } else {
                10
            };
            &&& is(0, "X"@, "signed"@, 4) && is(1, "Y"@, "signed"@, 4) && is(2, "Z"@, "signed"@, 4)
            &&& forall|a: int|
                0 <= a < 3 ==> (#[trigger] s[a]).placed == Some(
                    (options.scale[a], options.offset[a]),
                )
            &&& is(3, "Intensity"@, "unsigned"@, 2)
            &&& is(4, "ReturnNumber"@, "unsigned"@, 1)
            &&& is(5, "NumberOfReturns"@, "unsigned"@, 1)
            &&& is(6, "Classification"@, "unsigned"@, 1)
            &&& is(7, "ScanAngleRank"@, "signed"@, 2)
            &&& is(8, "UserData"@, "unsigned"@, 1)
            &&& is(9, "PointSourceId"@, "unsigned"@, 2)
            &&& options.has_gps_time ==> is(10, "GpsTime"@, "float"@, 8)
            &&& options.layout.format == 7 || options.layout.format == 8 ==> is(
                at,
                "Red"@,
                "unsigned"@,
                2,
            ) && is(at + 1, "Green"@, "unsigned"@, 2) && is(at + 2, "Blue"@, "unsigned"@, 2)
            &&& colored(options) <==> options.layout.format == 7 || options.layout.format == 8
            &&& s.len() == at + if colored(options) {
                3int
            } else {
                0
            }
        }),
{
}

} // verus!
