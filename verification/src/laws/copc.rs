//! What stands where in a LAS 1.4 file that is written, and in the COPC index of
//! one.

use crate::bytes::{bytes16, bytes32, bytes64, le16, le32, le64, zeros};
use crate::double::Real;
use crate::las::copc::{
    entry_fault, entry_of, info_fault, info_of, page_fault, page_of, Entry, InfoFault,
};
use crate::las::double_at;
use crate::octree::OctreeKey;
use crate::record::RecordLayout;
use crate::write::WriteOptions;
use crate::write::copc::{
    chunk_list, copc_numbers, copc_records, evlr_at, holds_info, info_for, pages_at, times,
    CopcWriter,
};
use crate::write::front::{declares_wkt, heads, is_front, projection_of, records_put, Numbers};
use crate::write::hierarchy::Written;
use crate::write::las_write::{
    carried_records, days_before, evlr_bytes, fixed_field, is_date, is_header_of, is_leap,
    vlr_bytes, year_days, OutHeader, Outgoing,
};
use crate::write::laszip::{items_of, items_size, laszip_payload, Item};
use vstd::prelude::*;
use vstd::utf8::encode_utf8;

verus! {

/// A fixed-width field holds the bytes of its text from its start on, as many as
/// there is room for, and zeros behind them.
pub proof fn a_field_holds_its_text(text: Seq<char>, width: nat, i: int)
    requires
        0 <= i < width,
    ensures
        fixed_field(text, width).len() == width,
        i < encode_utf8(text).len() ==> fixed_field(text, width)[i] == encode_utf8(text)[i],
        i >= encode_utf8(text).len() ==> fixed_field(text, width)[i] == 0,
{
}

proof fn lemma_low_two(n: int)
    requires
        0 <= n < 0x1_0000,
    ensures
        bytes16(n).len() == 2,
        bytes16(n)[0] + 256 * bytes16(n)[1] == n,
{
}

/// A record with a 16-bit length: two zeros, the user's id in 16 bytes, the
/// record's id, the length, the description in 32 bytes, and the data at byte 54.
pub proof fn a_record_is_framed(
    user_id: Seq<char>,
    record_id: u16,
    description: Seq<char>,
    data: Seq<u8>,
)
    ensures
        ({
            let b = vlr_bytes(user_id, record_id, description, data);
            &&& b.len() == 54 + data.len()
            &&& b[0] == 0 && b[1] == 0
            &&& b.subrange(2, 18) == fixed_field(user_id, 16)
            &&& b[18] + 256 * b[19] == record_id
            &&& b[20] + 256 * b[21] == data.len() % 0x1_0000
            &&& b.subrange(22, 54) == fixed_field(description, 32)
            &&& b.skip(54) == data
        }),
{
    let b = vlr_bytes(user_id, record_id, description, data);
    lemma_low_two(record_id as int);
    lemma_low_two(data.len() as int % 0x1_0000);
    assert(b.subrange(2, 18) =~= fixed_field(user_id, 16));
    assert(b.subrange(22, 54) =~= fixed_field(description, 32));
    assert(b.skip(54) =~= data);
    assert(b.subrange(18, 20) =~= bytes16(record_id as int));
    assert(b.subrange(20, 22) =~= bytes16(data.len() as int % 0x1_0000));
    assert(b[18] == b.subrange(18, 20)[0] && b[19] == b.subrange(18, 20)[1]);
    assert(b[20] == b.subrange(20, 22)[0] && b[21] == b.subrange(20, 22)[1]);
}

/// A record with a 64-bit length: the same, but that the length takes eight bytes,
/// the description starts at byte 28 and the data at byte 60.
pub proof fn an_extended_record_is_framed(
    user_id: Seq<char>,
    record_id: u16,
    description: Seq<char>,
    data: Seq<u8>,
)
    ensures
        ({
            let b = evlr_bytes(user_id, record_id, description, data);
            &&& b.len() == 60 + data.len()
            &&& b[0] == 0 && b[1] == 0
            &&& b.subrange(2, 18) == fixed_field(user_id, 16)
            &&& b[18] + 256 * b[19] == record_id
            &&& b.subrange(20, 28) == bytes64(data.len() as int)
            &&& b.subrange(28, 60) == fixed_field(description, 32)
            &&& b.skip(60) == data
        }),
{
    let b = evlr_bytes(user_id, record_id, description, data);
    lemma_low_two(record_id as int);
    assert(b.subrange(2, 18) =~= fixed_field(user_id, 16));
    assert(b.subrange(20, 28) =~= bytes64(data.len() as int));
    assert(b.subrange(28, 60) =~= fixed_field(description, 32));
    assert(b.skip(60) =~= data);
    assert(b.subrange(18, 20) =~= bytes16(record_id as int));
    assert(b[18] == b.subrange(18, 20)[0] && b[19] == b.subrange(18, 20)[1]);
}

/// A header that is written says LAS 1.4 in 375 bytes, whether its projection is
/// WKT, what made it and when, and leaves every count of older versions at zero.
pub proof fn a_header_block_says_what_it_is(b: Seq<u8>, h: OutHeader, i: int)
    requires
        is_header_of(b, h),
    ensures
        b.len() == 375,
        b[0] == 'L' as u8 && b[1] == 'A' as u8 && b[2] == 'S' as u8 && b[3] == 'F' as u8,
        b[24] == 1 && b[25] == 4,
        b[94] + 256 * b[95] == 375,
        b[6] + 256 * b[7] == if h.wkt {
            16int
        } else {
            0
        },
        b.subrange(26, 58) == fixed_field("voxelkloud"@, 32),
        b.subrange(58, 90) == fixed_field(h.generator@, 32),
        b[90] + 256 * b[91] == h.creation.0,
        b[92] + 256 * b[93] == h.creation.1,
        4 <= i < 6 || 8 <= i < 24 || 107 <= i < 131 || 227 <= i < 235 ==> b[i] == 0,
        0 <= i < 15 ==> le64(b, 255 + 8 * i) == h.points_by_return[i],
{
    if 0 <= i < 15 {
        assert(h.points_by_return[i] == le64(b, 255 + 8 * i));
    }
}

/// The header of a compressed file: the format with the top bit set, the size of
/// a record, where the points are, how many records there are, and the quantum, the
/// origin and the bounds, the greatest of an axis before the least.
pub proof fn a_compressed_file_says_so(b: Seq<u8>, options: WriteOptions, n: Numbers, a: int)
    requires
        is_front(b, options, n),
        options.layout.format < 128,
        0 <= a < 3,
    ensures
        b.len() == 375,
        b[104] == options.layout.format + 128,
        le16(b, 105) == options.layout.base + options.layout.extra,
        le32(b, 96) == n.offset_to_point_data,
        le32(b, 100) == n.vlr_count,
        double_at(b, 131 + 8 * a) == options.scale[a],
        double_at(b, 155 + 8 * a) == options.offset[a],
        double_at(b, 179 + 16 * a) == n.max[a],
        double_at(b, 187 + 16 * a) == n.min[a],
        le64(b, 235) == n.evlr_offset,
        le32(b, 243) == n.evlr_count,
        le64(b, 247) == n.point_count,
        b[6] == if n.wkt {
            16int
        } else {
            0
        },
        le16(b, 90) == options.creation.0,
        le16(b, 92) == options.creation.1,
        b.subrange(58, 90) == fixed_field(options.generator@, 32),
{
    reveal(is_front);
    let h = choose|h: OutHeader| #[trigger] is_header_of(b, h) && heads(h, options, n);
    let f = options.layout.format;
    assert(f | 0x80 == f + 128) by (bit_vector)
        requires
            f < 128,
    ;
}

/// A year is a leap year where its number divides by four, but for the centuries
/// that do not divide by four hundred.
pub proof fn leap_years(year: int)
    ensures
        year % 4 != 0 ==> year_days(year) == 365,
        year % 400 == 0 ==> year_days(year) == 366,
        year % 100 == 0 && year % 400 != 0 ==> year_days(year) == 365,
        year % 4 == 0 && year % 100 != 0 ==> year_days(year) == 366,
{
}

/// The calendar runs on: the day after a day is the next of its year, or the first
/// of the year after where its year is over. The first day of all is that of 1970.
pub proof fn days_follow_each_other(days: int, year: int, day: int)
    requires
        is_date(days, year, day),
    ensures
        is_date(0, 1970, 1),
        day < year_days(year) ==> is_date(days + 1, year, day + 1),
        day == year_days(year) ==> is_date(days + 1, year + 1, 1),
        1 <= day <= 366,
        day == 366 ==> is_leap(year),
{
    assert(days_before(year + 1) == days_before(year) + year_days(year));
    assert(days_before(1970) == 0);
}

/// A projection record that carries anything is written as it came, behind those
/// before it, under the name of projections.
pub proof fn projection_records_are_carried(records: Seq<(u16, Vec<u8>)>, id: u16, data: Vec<u8>)
    ensures
        carried_records(Seq::empty()) == Seq::<Outgoing>::empty(),
        data@.len() == 0 ==> carried_records(records.push((id, data))) == carried_records(records),
        data@.len() > 0 ==> ({
            let all = carried_records(records.push((id, data)));
            &&& all.drop_last() == carried_records(records)
            &&& all.len() == carried_records(records).len() + 1
            &&& all.last().user_id == "LASF_Projection"@
            &&& all.last().record_id == id
            &&& all.last().data == data@
            &&& id == 2112 ==> all.last().description == "OGC coordinate system WKT"@
            &&& id == 34735 ==> all.last().description == "GeoTIFF key directory"@
            &&& id == 34736 ==> all.last().description == "GeoTIFF double parameters"@
            &&& id == 34737 ==> all.last().description == "GeoTIFF ASCII parameters"@
        }),
{
    assert(records.push((id, data)).drop_last() =~= records);
    if data@.len() > 0 {
        assert(carried_records(records.push((id, data))).drop_last() =~= carried_records(records));
    }
}

/// A file without a projection says so in one WKT record that holds one zero, and
/// its header says WKT. With projection records it says WKT where one of them is.
pub proof fn the_projection_is_declared(records: Seq<(u16, Vec<u8>)>, i: int)
    ensures
        carried_records(records).len() == 0 ==> ({
            let p = projection_of(records);
            &&& declares_wkt(records)
            &&& p.len() == 1
            &&& p[0].user_id == "LASF_Projection"@
            &&& p[0].record_id == 2112
            &&& p[0].data == seq![0u8]
        }),
        carried_records(records).len() > 0 ==> projection_of(records) == carried_records(records),
        0 <= i < records.len() && records[i].0 == 2112 && records[i].1@.len() > 0 ==> declares_wkt(
            records,
        ),
        carried_records(records).len() > 0 && (forall|j: int|
            0 <= j < records.len() ==> (#[trigger] records[j]).0 != 2112) ==> !declares_wkt(records),
{
}

/// The records of a COPC file: the info record first, 160 zeros for now, then the
/// laszip record, the projection, and the extra bytes where there are any.
pub proof fn the_index_comes_first(options: WriteOptions, payload: Seq<u8>)
    ensures
        ({
            let r = copc_records(options, payload);
            let p = projection_of(options.projection_vlrs@);
            &&& r.len() >= 2
            &&& r[0].user_id == "copc"@ && r[0].record_id == 1 && r[0].data == zeros(160)
            &&& r[1].user_id == "laszip encoded"@ && r[1].record_id == 22204 && r[1].data == payload
            &&& r.subrange(2, 2 + p.len() as int) == p
            &&& options.layout.extra_vlr@.len() == 0 ==> r.len() == 2 + p.len()
            &&& options.layout.extra_vlr@.len() > 0 ==> r.len() == 3 + p.len() && r.last().user_id
                == "LASF_Spec"@ && r.last().record_id == 4 && r.last().data
                == options.layout.extra_vlr@
        }),
{
    reveal(copc_records);
    let r = copc_records(options, payload);
    let p = projection_of(options.projection_vlrs@);
    assert(r.subrange(2, 2 + p.len() as int) =~= p);
}

/// Records stand one behind the other, each with its frame.
pub proof fn records_are_put_in_order(list: Seq<Outgoing>, r: Outgoing)
    ensures
        records_put(Seq::empty()) == Seq::<u8>::empty(),
        records_put(list.push(r)) == records_put(list) + vlr_bytes(
            r.user_id,
            r.record_id,
            r.description,
            r.data,
        ),
        records_put(list.push(r)).len() == records_put(list).len() + 54 + r.data.len(),
{
    assert(list.push(r).drop_last() =~= list);
    a_record_is_framed(r.user_id, r.record_id, r.description, r.data);
}

/// The header of a COPC file: the points stand behind the header and its records,
/// the bounds are the extent, and there is one extended record.
pub proof fn a_file_is_numbered(options: WriteOptions, payload: Seq<u8>, points: u64, evlr: u64)
    requires
        375 + records_put(copc_records(options, payload)).len() <= u32::MAX,
        copc_records(options, payload).len() <= u32::MAX,
    ensures
        ({
            let n = copc_numbers(options, payload, points, evlr);
            &&& n.point_count == points
            &&& n.min == options.extent.min
            &&& n.max == options.extent.max
            &&& n.offset_to_point_data == 375 + records_put(copc_records(options, payload)).len()
            &&& n.vlr_count == copc_records(options, payload).len()
            &&& n.evlr_offset == evlr
            &&& n.evlr_count == 1
            &&& n.wkt == declares_wkt(options.projection_vlrs@)
        }),
{
}

/// The fields of a compressed record are those of its format, and take as many
/// bytes as it has.
pub proof fn the_fields_are_those_of_the_format(layout: RecordLayout)
    requires
        layout.extra <= 0xffff,
    ensures
        ({
            let n = items_of(layout);
            let core = if layout.format == 7 {
                36int
            } else if layout.format == 8 {
                38
            } else {
                30
            };
            &&& n[0] == Item::Point14
            &&& layout.format == 7 ==> n[1] == Item::Rgb14
            &&& layout.format == 8 ==> n[1] == Item::RgbNir14
            &&& layout.extra > 0 ==> n.last() == Item::Byte14(layout.extra as u16)
            &&& items_size(n) == core + layout.extra
        }),
{
    reveal(items_of);
    let n = items_of(layout);
    let none = Seq::<Item>::empty();
    reveal_with_fuel(items_size, 4);
    if n.len() > 0 {
        assert(n.drop_last().len() == n.len() - 1);
    }
    if n.len() == 1 {
        assert(n.drop_last() =~= none);
    } else if n.len() == 2 {
        assert(n.drop_last() =~= seq![n[0]]);
        assert(n.drop_last().drop_last() =~= none);
    } else {
        assert(n.drop_last() =~= seq![n[0], n[1]]);
        assert(n.drop_last().drop_last() =~= seq![n[0]]);
        assert(n.drop_last().drop_last().drop_last() =~= none);
    }
}

/// The laszip record: layered chunks, coder zero, version 2.2, the size of a
/// chunk at byte 12, and the fields from byte 34 on, each with its number, its size
/// and version three.
pub proof fn the_laszip_record_is_laid_out(items: Seq<Item>, chunk: u64)
    requires
        items.len() <= u16::MAX,
        chunk <= u32::MAX,
    ensures
        ({
            let b = laszip_payload(items, chunk);
            &&& b.subrange(0, 2) == seq![3u8, 0u8]
            &&& b.subrange(2, 4) == seq![0u8, 0u8]
            &&& b[4] == 2 && b[5] == 2
            &&& b.subrange(6, 8) == bytes16(0)
            &&& b.subrange(8, 12) == bytes32(0)
            &&& b.subrange(12, 16) == bytes32(chunk as int)
            &&& b.subrange(16, 24) == bytes64(0xffff_ffff_ffff_ffff)
            &&& b.subrange(24, 32) == bytes64(0xffff_ffff_ffff_ffff)
            &&& b[32] + 256 * b[33] == items.len()
            &&& b.len() == 34 + 6 * items.len()
        }),
{
    let b = laszip_payload(items, chunk);
    lemma_fields_size(items);
    lemma_low_two(items.len() as int);
    assert(b.subrange(0, 2) =~= bytes16(3));
    assert(bytes16(3) =~= seq![3u8, 0u8]);
    assert(b.subrange(2, 4) =~= bytes16(0));
    assert(bytes16(0) =~= seq![0u8, 0u8]);
    assert(b.subrange(6, 8) =~= bytes16(0));
    assert(b.subrange(8, 12) =~= bytes32(0));
    assert(b.subrange(12, 16) =~= bytes32(chunk as int));
    assert(b.subrange(16, 24) =~= bytes64(0xffff_ffff_ffff_ffff));
    assert(b.subrange(24, 32) =~= bytes64(0xffff_ffff_ffff_ffff));
    assert(b.subrange(32, 34) =~= bytes16(items.len() as int));
    assert(b[32] == b.subrange(32, 34)[0] && b[33] == b.subrange(32, 34)[1]);
}

proof fn lemma_fields_size(items: Seq<Item>)
    ensures
        crate::write::laszip::items_put(items).len() == 6 * items.len(),
    decreases items.len(),
{
    if items.len() > 0 {
        lemma_fields_size(items.drop_last());
    }
}

/// The fields of the laszip record, in order: 10 for the core, 11 and 12 for the
/// colours, 14 for extra bytes.
pub proof fn fields_are_numbered(items: Seq<Item>, i: Item)
    requires
        i matches Item::Byte14(n) ==> n > 0,
    ensures
        ({
            let all = crate::write::laszip::items_put(items.push(i));
            let before = crate::write::laszip::items_put(items);
            let (number, size) = match i {
                Item::Point14 => (10int, 30int),
                Item::Rgb14 => (11, 6),
                Item::RgbNir14 => (12, 8),
                Item::Byte14(n) => (14, n as int),
            };
            all == before + bytes16(number) + bytes16(size) + seq![3u8, 0u8]
        }),
{
    assert(items.push(i).drop_last() =~= items);
    assert(bytes16(3) =~= seq![3u8, 0u8]);
}

/// The info record of a COPC file, where it is published: the centre, half the
/// edge, the spacing, the root page's place and size, and the range of times.
pub proof fn the_info_record_is_where_it_is_published(b: Seq<u8>)
    ensures
        info_of(b).center.len() == 3,
        info_of(b).center[0] == double_at(b, 0),
        info_of(b).center[1] == double_at(b, 8),
        info_of(b).center[2] == double_at(b, 16),
        info_of(b).half_size == double_at(b, 24),
        info_of(b).spacing == double_at(b, 32),
        info_of(b).root_hierarchy_offset == le64(b, 40),
        info_of(b).root_hierarchy_size == le64(b, 48),
        info_of(b).gps_time_range.len() == 2,
        info_of(b).gps_time_range[0] == double_at(b, 56),
        info_of(b).gps_time_range[1] == double_at(b, 64),
{
}

/// An info record is taken where it has 160 bytes, half an edge above zero, and a
/// root page of whole entries, one at least.
pub proof fn an_info_record_is_checked(b: Seq<u8>)
    ensures
        b.len() < 160 <==> info_fault(b) matches Some(InfoFault::Short { .. }),
        b.len() >= 160 && !(0 < double_at(b, 24).bits < 0x7ff0_0000_0000_0000) <==> info_fault(
            b,
        ) matches Some(InfoFault::HalfSize(_)),
        info_fault(b) is None <==> b.len() >= 160 && 0 < double_at(b, 24).bits
            < 0x7ff0_0000_0000_0000 && le64(b, 48) > 0 && le64(b, 48) % 32 == 0,
{
}

/// An entry of the hierarchy, where it is published: the address in four numbers,
/// the place in the file at byte 16, the bytes at 24 and the points at 28, minus one
/// for a further page.
pub proof fn an_entry_is_where_it_is_published(b: Seq<u8>, i: int, at: Seq<char>)
    requires
        entry_fault(b, i, at) is None,
    ensures
        ({
            let e = 32 * i;
            let key = OctreeKey {
                level: le32(b, e) as u32,
                x: le32(b, e + 4) as u32,
                y: le32(b, e + 8) as u32,
                z: le32(b, e + 12) as u32,
            };
            &&& le32(b, e) < 0x8000_0000 && le32(b, e + 4) < 0x8000_0000 && le32(b, e + 8)
                < 0x8000_0000 && le32(b, e + 12) < 0x8000_0000 && le32(b, e + 24) < 0x8000_0000
            &&& le32(b, e + 28) == 0xffff_ffff ==> entry_of(b, i) == (Entry::Page {
                key,
                offset: le64(b, e + 16) as u64,
                byte_size: le32(b, e + 24) as u64,
            })
            &&& le32(b, e + 28) != 0xffff_ffff ==> le32(b, e + 28) < 0x8000_0000 && entry_of(b, i)
                == (Entry::Node {
                key,
                offset: le64(b, e + 16) as u64,
                byte_size: le32(b, e + 24) as u64,
                point_count: le32(b, e + 28) as u64,
            })
        }),
{
    let e = 32 * i;
    assert(0 <= le32(b, e) < 0x1_0000_0000 && 0 <= le32(b, e + 4) < 0x1_0000_0000);
    assert(0 <= le32(b, e + 8) < 0x1_0000_0000 && 0 <= le32(b, e + 12) < 0x1_0000_0000);
    assert(0 <= le32(b, e + 24) < 0x1_0000_0000 && 0 <= le32(b, e + 28) < 0x1_0000_0000);
}

/// A page is read where it is a whole number of entries and none is refused, and
/// then holds one entry for every 32 bytes, in order.
pub proof fn a_page_holds_its_entries(b: Seq<u8>, at: Seq<char>, i: int)
    requires
        page_of(b, at) is Ok,
        0 <= i < b.len() / 32,
    ensures
        b.len() % 32 == 0,
        page_of(b, at)->Ok_0.len() == b.len() / 32,
        page_of(b, at)->Ok_0[i] == entry_of(b, i),
        entry_fault(b, i, at) is None,
{
    lemma_no_fault(b, 0, i, at);
}

proof fn lemma_no_fault(b: Seq<u8>, from: int, i: int, at: Seq<char>)
    requires
        page_fault(b, from, at) is None,
        from <= i < b.len() / 32,
    ensures
        entry_fault(b, i, at) is None,
    decreases i - from,
{
    if from < i {
        lemma_no_fault(b, from + 1, i, at);
    }
}

/// An entry with a negative number is refused, and so is a count below minus one.
pub proof fn negative_entries_are_refused(b: Seq<u8>, i: int, at: Seq<char>)
    ensures
        le32(b, 32 * i) >= 0x8000_0000 ==> entry_fault(b, i, at) is Some,
        le32(b, 32 * i + 4) >= 0x8000_0000 ==> entry_fault(b, i, at) is Some,
        le32(b, 32 * i + 8) >= 0x8000_0000 ==> entry_fault(b, i, at) is Some,
        le32(b, 32 * i + 12) >= 0x8000_0000 ==> entry_fault(b, i, at) is Some,
        le32(b, 32 * i + 24) >= 0x8000_0000 ==> entry_fault(b, i, at) is Some,
        0x8000_0000 <= le32(b, 32 * i + 28) < 0xffff_ffff ==> entry_fault(b, i, at) is Some,
        le32(b, 32 * i) < 0x8000_0000 && le32(b, 32 * i + 4) < 0x8000_0000 && le32(b, 32 * i + 8)
            < 0x8000_0000 && le32(b, 32 * i + 12) < 0x8000_0000 && le32(b, 32 * i + 24)
            < 0x8000_0000 && (le32(b, 32 * i + 28) < 0x8000_0000 || le32(b, 32 * i + 28)
            == 0xffff_ffff) ==> entry_fault(b, i, at) is None,
{
    let e = 32 * i;
    assert(0 <= le32(b, e) < 0x1_0000_0000 && 0 <= le32(b, e + 4) < 0x1_0000_0000);
    assert(0 <= le32(b, e + 8) < 0x1_0000_0000 && 0 <= le32(b, e + 12) < 0x1_0000_0000);
    assert(0 <= le32(b, e + 24) < 0x1_0000_0000 && 0 <= le32(b, e + 28) < 0x1_0000_0000);
}

/// The range of times holds the time of every record: eight bytes at byte 22 of
/// each.
pub proof fn the_times_hold_every_record(
    range: (Real, Real),
    records: Seq<u8>,
    stride: int,
    n: int,
    i: int,
)
    requires
        0 <= i < n,
        range.0.rank() is Some,
        range.1.rank() is Some,
    ensures
        ({
            let (low, high) = times(range, records, stride, n);
            let t = double_at(records, i * stride + 22);
            !t.below(low) && !high.below(t) && low.rank() is Some && high.rank() is Some
        }),
    decreases n,
{
    if i < n - 1 {
        the_times_hold_every_record(range, records, stride, n - 1, i);
    } else {
        lemma_times_are_ordered(range, records, stride, n - 1);
    }
}

proof fn lemma_times_are_ordered(range: (Real, Real), records: Seq<u8>, stride: int, n: int)
    requires
        range.0.rank() is Some,
        range.1.rank() is Some,
    ensures
        times(range, records, stride, n).0.rank() is Some,
        times(range, records, stride, n).1.rank() is Some,
    decreases n,
{
    if n > 0 {
        lemma_times_are_ordered(range, records, stride, n - 1);
    }
}

/// Each end of the range of times is what it was, or the time of a record.
pub proof fn the_times_are_those_of_records(
    range: (Real, Real),
    records: Seq<u8>,
    stride: int,
    n: int,
)
    ensures
        ({
            let (low, high) = times(range, records, stride, n);
            &&& low == range.0 || exists|i: int|
                0 <= i < n && low == double_at(records, #[trigger] (i * stride) + 22)
            &&& high == range.1 || exists|i: int|
                0 <= i < n && high == double_at(records, #[trigger] (i * stride) + 22)
        }),
    decreases n,
{
    if n > 0 {
        the_times_are_those_of_records(range, records, stride, n - 1);
        let t = double_at(records, (n - 1) * stride + 22);
        let before = times(range, records, stride, n - 1);
        let (low, high) = times(range, records, stride, n);
        if low == before.0 && low != range.0 {
            let i = choose|i: int|
                0 <= i < n - 1 && low == double_at(records, #[trigger] (i * stride) + 22);
            assert(low == double_at(records, i * stride + 22));
        }
        if high == before.1 && high != range.1 {
            let i = choose|i: int|
                0 <= i < n - 1 && high == double_at(records, #[trigger] (i * stride) + 22);
            assert(high == double_at(records, i * stride + 22));
        }
    }
}

/// The chunk table lists the points and bytes of every node, in order, and an
/// empty chunk behind them.
pub proof fn the_chunks_are_those_of_the_nodes(nodes: Seq<Written>, i: int)
    requires
        0 <= i < nodes.len(),
    ensures
        chunk_list(nodes).len() == nodes.len() + 1,
        chunk_list(nodes)[i].0 == nodes[i].points,
        chunk_list(nodes)[i].1 == nodes[i].byte_size,
        chunk_list(nodes).last() == (0u64, 0u64),
{
}

/// The tail of a COPC file: the chunk table at its end of the points, then one
/// extended record, numbered 1000 and named `copc`, whose data starts 60 bytes on.
pub proof fn the_hierarchy_follows_the_chunk_table(w: CopcWriter, table: Seq<u8>)
    requires
        w.at + table.len() + 60 <= u64::MAX,
    ensures
        ({
            let t = crate::write::copc::tail_of(w, table);
            let n = table.len() as int;
            &&& evlr_at(w, table) == w.at + n
            &&& pages_at(w, table) == w.at + n + 60
            &&& t.len() >= n + 60
            &&& t.take(n) == table
            &&& t.subrange(n + 2, n + 18) == fixed_field("copc"@, 16)
            &&& t[n + 18] + 256 * t[n + 19] == 1000
        }),
{
    let t = crate::write::copc::tail_of(w, table);
    let n = table.len() as int;
    let data = crate::write::copc_pages::pages_put(
        crate::write::copc_pages::all_pages(w.nodes@, pages_at(w, table) as int),
    );
    let b = evlr_bytes("copc"@, 1000, "COPC hierarchy"@, data);
    an_extended_record_is_framed("copc"@, 1000, "COPC hierarchy"@, data);
    assert(t =~= table + b);
    assert(t.take(n) =~= table);
    assert(t.subrange(n + 2, n + 18) =~= b.subrange(2, 18));
    assert(t[n + 18] == b[18] && t[n + 19] == b[19]);
}

/// The info record of a file that is done: the cube, the spacing, and the range of
/// times, or zeros where no node gave any.
pub proof fn the_info_record_is_filled_in(
    w: CopcWriter,
    table: Seq<u8>,
    center: Seq<Real>,
    half: Real,
    b: Seq<u8>,
)
    requires
        center.len() == 3,
        holds_info(b, info_for(w, table, center, half)),
    ensures
        b.len() == 160,
        double_at(b, 0) == center[0],
        double_at(b, 8) == center[1],
        double_at(b, 16) == center[2],
        double_at(b, 24) == half,
        double_at(b, 32) == w.options.spacing,
        w.gps_time[0].finite() ==> double_at(b, 56) == w.gps_time[0] && double_at(b, 64)
            == w.gps_time[1],
        !w.gps_time[0].finite() ==> double_at(b, 56).bits == 0 && double_at(b, 64).bits == 0,
        forall|i: int| 72 <= i < 160 ==> #[trigger] b[i] == 0,
{
    reveal(holds_info);
    let info = info_for(w, table, center, half);
    assert(info_of(b) == info);
    assert(info_of(b).center[0] == center[0]);
    assert(info_of(b).center[1] == center[1]);
    assert(info_of(b).center[2] == center[2]);
    assert(info_of(b).gps_time_range[0] == info.gps_time_range[0]);
    assert(info_of(b).gps_time_range[1] == info.gps_time_range[1]);
    assert forall|i: int| 72 <= i < 160 implies #[trigger] b[i] == 0 by {
        assert(b.skip(72)[i - 72] == b[i]);
    }
}

} // verus!
