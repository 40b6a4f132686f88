//! What is read of a LAS file, and where the format keeps it.

use crate::attribute::AttributeType;
use crate::bounds::Bounds;
use crate::bytes::{bytes16, bytes32, bytes64, le16, le32, le64, signed32};
use crate::cloud::FormatId;
use crate::crs::Declared;
use crate::double::Real;
use crate::error::Failure;
use crate::format::las_file::{crs_for, extra_for, las_summary};
use crate::las::{
    fixed_text, header_error, header_of, record_at, record_fits, record_named, records_from,
    LasError, LasHeader, Record,
};
use crate::las::crs::{
    clean_text, geo_key, horizontal_key, key_code, key_count, keys_declare, records_declare,
};
use crate::las::extra_bytes::{described, extras};
use crate::las::layout::{from_dimension, from_extra, kept, layout_of, typed, within, Domain};
use crate::las::point_format::{dimensions, LasAccess};
use crate::text::decimal;
use crate::warning::Notice;
use vstd::prelude::*;

verus! {

/// Numbers stand low byte first.
pub proof fn numbers_are_little_endian(b: Seq<u8>, at: int)
    ensures
        le16(b, at) == b[at] + 256 * b[at + 1],
        le32(b, at) == b[at] + 256 * b[at + 1] + 65536 * b[at + 2] + 16777216 * b[at + 3],
        le64(b, at) == le32(b, at) + 4294967296 * le32(b, at + 4),
        le32(b, at) < 0x8000_0000 ==> signed32(le32(b, at)) == le32(b, at),
        le32(b, at) >= 0x8000_0000 ==> signed32(le32(b, at)) == le32(b, at) - 4294967296,
{
}

/// Numbers are written low byte first.
pub proof fn numbers_are_written_little_endian(n: int)
    requires
        0 <= n,
    ensures
        bytes16(n).len() == 2 && bytes32(n).len() == 4 && bytes64(n).len() == 8,
        n < 0x1_0000 ==> bytes16(n)[0] + 256 * bytes16(n)[1] == n,
        n < 0x1_0000_0000 ==> bytes32(n)[0] + 256 * bytes32(n)[1] + 65536 * bytes32(n)[2] + 16777216
            * bytes32(n)[3] == n,
        bytes64(n).take(4) == bytes32(n % 0x1_0000_0000),
        bytes64(n).skip(4) == bytes32(n / 0x1_0000_0000),
{
    if n < 0x1_0000_0000 {
        crate::bytes::le32_reads_bytes32(n);
    }
    assert(bytes64(n).take(4) =~= bytes32(n % 0x1_0000_0000));
    assert(bytes64(n).skip(4) =~= bytes32(n / 0x1_0000_0000));
}

/// A file is read exactly where it starts with its signature, holds the header of
/// its version, declares one that is long enough, and has points of some size.
pub proof fn a_header_is_read_where_there_is_one(b: Seq<u8>)
    ensures
        header_error(b) is None <==> {
            &&& b.len() >= 227
            &&& b[0] == 'L' as u8 && b[1] == 'A' as u8 && b[2] == 'S' as u8 && b[3] == 'F' as u8
            &&& b[24] == 1 && b[25] <= 2 ==> le16(b, 94) >= 227
            &&& b[24] == 1 && b[25] == 3 ==> le16(b, 94) >= 235
            &&& !(b[24] == 1 && b[25] <= 3) ==> le16(b, 94) >= 375
            &&& le16(b, 105) != 0
            &&& b[24] > 1 || (b[24] == 1 && b[25] >= 4) ==> b.len() >= 375
        },
        header_error(b) == Some(LasError::NotLas) <==> b.len() >= 4 && !(b[0] == 76 && b[1] == 65
            && b[2] == 83 && b[3] == 70),
        header_error(b) == Some(LasError::ZeroPointSize) ==> le16(b, 105) == 0,
{
}

/// A header is read from where the format keeps it.
pub proof fn a_header_is_where_it_is_published(b: Seq<u8>)
    requires
        header_error(b) is None,
    ensures
        ({
            let h = header_of(b);
            &&& h.version_major == b[24]
            &&& h.version_minor == b[25]
            &&& h.header_size == le16(b, 94)
            &&& h.offset_to_point_data == le32(b, 96)
            &&& h.vlr_count == le32(b, 100)
            &&& h.point_format < 64
            &&& (b[104] - h.point_format) % 64 == 0
            &&& h.compressed <==> b[104] >= 128
            &&& h.point_size == le16(b, 105)
            &&& h.scale.len() == 3 && h.offset.len() == 3 && h.min.len() == 3 && h.max.len() == 3
        }),
{
}

/// The count of the points: before version 1.4 the 32-bit number, from then on the
/// 64-bit number unless that is zero.
pub proof fn a_header_counts_its_points(b: Seq<u8>)
    requires
        header_error(b) is None,
    ensures
        b[24] == 0 || (b[24] == 1 && b[25] < 4) ==> header_of(b).point_count == le32(b, 107),
        b[24] > 1 || (b[24] == 1 && b[25] >= 4) ==> header_of(b).point_count == if le64(b, 247) != 0 {
            le64(b, 247)
        } else {
            le32(b, 107)
        },
{
}

/// The quantum, the origin and the extent of each axis: the greatest value of an
/// axis stands before the least.
pub proof fn a_header_measures_its_axes(b: Seq<u8>, axis: int)
    requires
        header_error(b) is None,
        0 <= axis < 3,
    ensures
        header_of(b).scale[axis].bits == le64(b, 131 + 8 * axis),
        header_of(b).offset[axis].bits == le64(b, 155 + 8 * axis),
        header_of(b).max[axis].bits == le64(b, 179 + 16 * axis),
        header_of(b).min[axis].bits == le64(b, 187 + 16 * axis),
{
    assert(axis == 0 || axis == 1 || axis == 2);
}

/// The extended records: where they are and how many, from version 1.4 on.
pub proof fn a_header_names_its_extended_records(b: Seq<u8>)
    requires
        header_error(b) is None,
    ensures
        b[24] > 1 || (b[24] == 1 && b[25] >= 4) ==> header_of(b).evlr_offset == le64(b, 235)
            && header_of(b).evlr_count == le32(b, 243),
        b[24] == 0 || (b[24] == 1 && b[25] < 4) ==> header_of(b).evlr_offset == 0 && header_of(
            b,
        ).evlr_count == 0,
{
}

/// The records of a header stand from its end to the points.
pub proof fn records_stand_between_the_header_and_the_points(b: Seq<u8>)
    requires
        header_error(b) is None,
    ensures
        ({
            let h = header_of(b);
            let end = if h.offset_to_point_data as int <= b.len() {
                h.offset_to_point_data as int
            } else {
                b.len() as int
            };
            &&& h.header_size < end ==> (h.vlrs, h.vlrs_complete) == records_from(
                b.subrange(h.header_size as int, end),
                0,
                h.vlr_count as nat,
                false,
            )
            &&& h.header_size >= end ==> h.vlrs.len() == 0 && (h.vlrs_complete <==> h.vlr_count == 0)
        }),
{
}

/// One record of a directory: two reserved bytes, sixteen of the user, two of the
/// id, the length of the payload in two bytes or in eight, thirty-two of the
/// description, the payload. The next one follows.
pub proof fn records_follow_each_other(b: Seq<u8>, at: int, count: nat, extended: bool)
    requires
        0 <= at,
        count > 0,
    ensures
        ({
            let front: int = if extended {
                60
            } else {
                54
            };
            let len = if extended {
                le64(b, at + 20)
            } else {
                le16(b, at + 20)
            };
            let all = records_from(b, at, count, extended);
            if at + front <= b.len() && at + front + len <= b.len() {
                let rest = records_from(b, at + front + len, (count - 1) as nat, extended);
                &&& all.0.len() == 1 + rest.0.len()
                &&& all.0.skip(1) == rest.0
                &&& all.1 == rest.1
                &&& all.0[0].user_id == fixed_text(b.subrange(at + 2, at + 18))
                &&& all.0[0].record_id == le16(b, at + 18)
                &&& all.0[0].description == fixed_text(
                    if extended {
                        b.subrange(at + 28, at + 60)
                    } else {
                        b.subrange(at + 22, at + 54)
                    },
                )
                &&& all.0[0].data == b.subrange(at + front, at + front + len)
                &&& all.0[0].extended == extended
            } else {
                all.0.len() == 0 && !all.1
            }
        }),
{
    let all = records_from(b, at, count, extended);
    if record_fits(b, at, extended) {
        let next = at + crate::las::record_header(extended) + crate::las::declared_len(
            b,
            at,
            extended,
        );
        let rest = records_from(b, next, (count - 1) as nat, extended);
        assert(all.0 =~= seq![record_at(b, at, extended)] + rest.0);
        assert(all.0.skip(1) =~= rest.0);
    }
}

/// A record is looked up by its user and its id, and the first that has both is
/// found.
pub proof fn the_first_record_of_a_name_is_found(all: Seq<Record>, user_id: Seq<char>, record_id: u16)
    ensures
        match record_named(all, user_id, record_id) {
            Some(r) => r.user_id == user_id && r.record_id == record_id && exists|i: int|
                0 <= i < all.len() && #[trigger] all[i] == r && forall|j: int|
                    0 <= j < i ==> !((#[trigger] all[j]).user_id == user_id && all[j].record_id
                        == record_id),
            None => forall|j: int|
                0 <= j < all.len() ==> !((#[trigger] all[j]).user_id == user_id && all[j].record_id
                    == record_id),
        },
    decreases all.len(),
{
    if all.len() > 0 {
        if all[0].named(user_id, record_id) {
            assert(all[0] == record_named(all, user_id, record_id)->0);
        } else {
            let rest = all.skip(1);
            the_first_record_of_a_name_is_found(rest, user_id, record_id);
            match record_named(rest, user_id, record_id) {
                Some(r) => {
                    let i = choose|i: int|
                        0 <= i < rest.len() && #[trigger] rest[i] == r && forall|j: int|
                            0 <= j < i ==> !((#[trigger] rest[j]).user_id == user_id
                                && rest[j].record_id == record_id);
                    assert(all[i + 1] == r);
                    assert forall|j: int| 0 <= j < i + 1 implies !((#[trigger] all[j]).user_id
                        == user_id && all[j].record_id == record_id) by {
                        if j > 0 {
                            assert(rest[j - 1] == all[j]);
                        }
                    }
                },
                None => {
                    assert forall|j: int| 0 <= j < all.len() implies !((
                    #[trigger] all[j]).user_id == user_id && all[j].record_id == record_id) by {
                        if j > 0 {
                            assert(rest[j - 1] == all[j]);
                        }
                    }
                },
            }
        }
    }
}

/// A projection that is declared as WKT counts before one that is declared by
/// keys, and only records of the projection count.
pub proof fn wkt_counts_before_keys(all: Seq<Record>)
    ensures
        record_named(all, "LASF_Projection"@, 2112) matches Some(r) && clean_text(r.data).len() > 0
            ==> records_declare(all) == Some(
            crate::crs::wkt_declares(clean_text(record_named(all, "LASF_Projection"@, 2112)->0.data)),
        ),
        record_named(all, "LASF_Projection"@, 2112) is None && record_named(
            all,
            "LASF_Projection"@,
            34735,
        ) is None ==> records_declare(all) is None,
        record_named(all, "LASF_Projection"@, 2112) is None ==> (record_named(
            all,
            "LASF_Projection"@,
            34735,
        ) matches Some(d) ==> records_declare(all) == keys_declare(
            d.data,
            match record_named(all, "LASF_Projection"@, 34737) {
                Some(a) => Some(a.data),
                None => None,
            },
        )),
{
}

/// The entries of a key directory are eight bytes each behind eight bytes of
/// header, and a code counts where it stands in its entry itself.
pub proof fn a_code_stands_in_its_entry(d: Seq<u8>, id: u16, code: u32)
    requires
        d.len() >= 8,
        key_code(d, id) == Some(code),
    ensures
        code != 0,
        code != 32767,
        exists|i: int|
            0 <= i && 16 + 8 * i <= d.len() && i < le16(d, 6) && le16(d, 8 + 8 * i) == id && #[trigger] le16(
                d,
                10 + 8 * i,
            ) == 0 && le16(d, 14 + 8 * i) == code,
{
    let n = key_count(d);
    let i = lemma_key(d, n, id);
    assert(le16(d, 8 + 8 * i + 2) == le16(d, 10 + 8 * i));
    assert(le16(d, 8 + 8 * i + 6) == le16(d, 14 + 8 * i));
    assert(le16(d, 10 + 8 * i) == 0);
}

proof fn lemma_key(d: Seq<u8>, n: int, id: u16) -> (i: int)
    requires
        geo_key(d, n, id) is Some,
    ensures
        0 <= i < n,
        le16(d, 8 + 8 * i) == id,
        geo_key(d, n, id)->0.location == le16(d, 8 + 8 * i + 2),
        geo_key(d, n, id)->0.count == le16(d, 8 + 8 * i + 4),
        geo_key(d, n, id)->0.value == le16(d, 8 + 8 * i + 6),
    decreases n,
{
    if le16(d, 8 + 8 * (n - 1)) == id {
        n - 1
    } else {
        lemma_key(d, n - 1, id)
    }
}

/// A code that a directory holds under an id of its own is found.
pub proof fn a_code_is_found(d: Seq<u8>, id: u16, i: int)
    requires
        d.len() >= 8,
        0 <= i < le16(d, 6),
        16 + 8 * i <= d.len(),
        le16(d, 8 + 8 * i) == id,
        le16(d, 10 + 8 * i) == 0,
        0 < le16(d, 14 + 8 * i),
        le16(d, 14 + 8 * i) != 32767,
        forall|j: int| 0 <= j < (d.len() - 8) / 8 && j != i ==> #[trigger] le16(d, 8 + 8 * j) != id,
    ensures
        key_code(d, id) == Some(le16(d, 14 + 8 * i) as u32),
{
    let n = key_count(d);
    assert(i < n);
    lemma_only_key(d, n, id, i);
    let k = lemma_key(d, n, id);
    assert(k == i) by {
        if k != i {
            assert(le16(d, 8 + 8 * k) != id);
        }
    }
    assert(8 + 8 * i + 2 == 10 + 8 * i && 8 + 8 * i + 6 == 14 + 8 * i);
}

proof fn lemma_only_key(d: Seq<u8>, n: int, id: u16, i: int)
    requires
        0 <= i < n,
        le16(d, 8 + 8 * i) == id,
    ensures
        geo_key(d, n, id) is Some,
    decreases n,
{
    if i < n - 1 {
        lemma_only_key(d, n - 1, id, i);
    }
}

/// The system of the coordinates: the projected one, unless the file says that it
/// is geographic; the geographic one where there is no projected one, unless the
/// file says that it is projected.
pub proof fn the_projected_system_counts_first(d: Seq<u8>)
    ensures
        ({
            let model = geo_key(d, key_count(d), 1024);
            let says = |m: u16| model is Some && model->0.value == m;
            &&& says(2) ==> horizontal_key(d) == key_code(d, 2048)
            &&& !says(2) && key_code(d, 3072) is Some ==> horizontal_key(d) == key_code(d, 3072)
            &&& says(1) && key_code(d, 3072) is None ==> horizontal_key(d) is None
            &&& !says(2) && !says(1) && key_code(d, 3072) is None ==> horizontal_key(d) == key_code(
                d,
                2048,
            )
        }),
{
}

/// What keys declare: the code of the coordinates and that of the heights.
pub proof fn keys_declare_codes(d: Seq<u8>, ascii: Option<Seq<u8>>)
    ensures
        match keys_declare(d, ascii) {
            Some(c) => d.len() >= 8 && c.epsg is Some && c.epsg == horizontal_key(d)
                && c.vertical_epsg == key_code(d, 4096) && c.raw == "EPSG:"@ + decimal(
                c.epsg->0 as nat,
            ) && c.format == crate::crs::CrsFormat::Epsg,
            None => d.len() < 8 || horizontal_key(d) is None,
        },
{
}

/// The code that a type and a number of elements have in a descriptor.
pub open spec fn type_code(kind: AttributeType) -> int {
    match kind {
        AttributeType::Uint8 => 1,
        AttributeType::Int8 => 2,
        AttributeType::Uint16 => 3,
        AttributeType::Int16 => 4,
        AttributeType::Uint32 => 5,
        AttributeType::Int32 => 6,
        AttributeType::Uint64 => 7,
        AttributeType::Int64 => 8,
        AttributeType::Float => 9,
        AttributeType::Double => 10,
    }
}

/// One descriptor of an extra dimension: its type and its elements by a code from
/// one to thirty, or so many bytes without a type; its name, its description, and
/// the numbers that its options say are there.
pub proof fn a_descriptor_describes_a_dimension(d: Seq<u8>, i: int, at: usize)
    requires
        d.len() == 192,
        d[2] <= 30,
    ensures
        ({
            let e = described(d, i, at);
            let name = fixed_text(d.subrange(4, 36));
            &&& e.byte_offset == at
            &&& e.name == if name.len() > 0 {
                name
            } else {
                "extra "@ + decimal(i as nat)
            }
            &&& e.description == fixed_text(d.subrange(160, 192))
            &&& d[2] == 0 ==> e.kind is None && e.byte_size == d[3]
            &&& d[2] > 0 ==> {
                &&& e.kind is Some
                &&& d[2] == type_code(e.kind->0) + 10 * (e.num_elements - 1)
                &&& e.byte_size == e.kind->0.width() * e.num_elements
                &&& e.min is Some <==> d[3] / 2 % 2 == 1
                &&& e.max is Some <==> d[3] / 4 % 2 == 1
                &&& e.scale is Some <==> d[3] / 8 % 2 == 1
                &&& e.offset is Some <==> d[3] / 16 % 2 == 1
                &&& e.min matches Some(v) ==> v.len() == e.num_elements && v[0].bits == le64(d, 64)
                &&& e.max matches Some(v) ==> v.len() == e.num_elements && v[0].bits == le64(d, 88)
                &&& e.scale matches Some(v) ==> v.len() == e.num_elements && v[0].bits == le64(
                    d,
                    112,
                )
                &&& e.offset matches Some(v) ==> v.len() == e.num_elements && v[0].bits == le64(
                    d,
                    136,
                )
            }
        }),
{
    reveal(described);
    if d[2] > 0 {
        let n = crate::las::extra_bytes::elements(d[2]);
        let kind = crate::las::extra_bytes::element_type(d[2]);
        lemma_code(d[2]);
        assert(kind.width() * n <= 24) by (nonlinear_arith)
            requires
                kind.width() <= 8,
                n <= 3,
        ;
        lemma_quad(d, 64);
        lemma_quad(d, 88);
        lemma_quad(d, 112);
        lemma_quad(d, 136);
    }
}

proof fn lemma_quad(d: Seq<u8>, at: int)
    ensures
        0 <= le64(d, at) <= u64::MAX,
{
}

proof fn lemma_code(code: u8)
    requires
        0 < code <= 30,
    ensures
        1 <= crate::las::extra_bytes::elements(code) <= 3,
        code == type_code(crate::las::extra_bytes::element_type(code)) + 10 * (
        crate::las::extra_bytes::elements(code) - 1),
{
    if code > 20 {
        assert((code - 11) % 10 + 1 == code - 20);
    } else if code > 10 {
        assert((code - 11) % 10 + 1 == code - 10);
    }
}

/// Extra dimensions follow each other without a gap, from the end of the format's
/// own fields on.
pub proof fn extra_dimensions_follow_each_other(record: Seq<u8>, n: nat, first: usize, i: int)
    requires
        0 <= i < n,
    ensures
        extras(record, n, first).len() == n,
        extras(record, n, first)[i] == described(
            record.subrange(192 * i, 192 * i + 192),
            i,
            extras(record, n, first)[i].byte_offset,
        ),
        i == 0 ==> extras(record, n, first)[i].byte_offset == first,
        i > 0 ==> extras(record, n, first)[i].byte_offset == (extras(record, n, first)[i
            - 1].byte_offset + extras(record, n, first)[i - 1].byte_size) % (usize::MAX + 1),
    decreases n,
{
    let before = extras(record, (n - 1) as nat, first);
    lemma_extras_len(record, (n - 1) as nat, first);
    let all = extras(record, n, first);
    let last = n - 1;
    let at = crate::las::extra_bytes::next_place(before, first);
    let own = described(record.subrange(192 * last, 192 * last + 192), last, at);
    assert(all == before.push(own));
    assert(own.byte_offset == at) by {
        reveal(described);
    }
    if i < last {
        extra_dimensions_follow_each_other(record, (n - 1) as nat, first, i);
        assert(all[i] == before[i]);
        if i > 0 {
            assert(all[i - 1] == before[i - 1]);
        }
    } else {
        assert(all[i] == own);
        if i > 0 {
            assert(before.last() == all[i - 1]);
        }
    }
}

proof fn lemma_extras_len(record: Seq<u8>, n: nat, first: usize)
    ensures
        extras(record, n, first).len() == n,
    decreases n,
{
    if n > 0 {
        lemma_extras_len(record, (n - 1) as nat, first);
    }
}

/// Where each dimension of a record stands, and what type it has.
pub proof fn dimensions_stand_where_they_are_published(format: u8)
    requires
        format <= 10,
    ensures
        ({
            let d = dimensions(format);
            let scalar = |at: int| LasAccess::Scalar { at: at as usize };
            &&& d[0].name == "position"@ && d[0].access == scalar(0) && d[0].kind
                == AttributeType::Int32 && d[0].num_elements == 3
            &&& d[1].name == "intensity"@ && d[1].access == scalar(12) && d[1].kind
                == AttributeType::Uint16
            &&& d[2].name == "return number"@ && d[2].access == LasAccess::Bits {
                at: 14,
                shift: 0,
                width: if format <= 5 {
                    3
                } else {
                    4
                },
            }
            &&& d[3].name == "number of returns"@ && d[3].access == LasAccess::Bits {
                at: 14,
                shift: if format <= 5 {
                    3
                } else {
                    4
                },
                width: if format <= 5 {
                    3
                } else {
                    4
                },
            }
            &&& format <= 5 ==> {
                &&& d[4].name == "scan direction flag"@ && d[4].access == LasAccess::Bits {
                    at: 14,
                    shift: 6,
                    width: 1,
                }
                &&& d[5].name == "edge of flight line"@ && d[5].access == LasAccess::Bits {
                    at: 14,
                    shift: 7,
                    width: 1,
                }
                &&& d[6].name == "classification"@ && d[6].access == scalar(15) && d[6].kind
                    == AttributeType::Uint8
                &&& d[7].name == "scan angle rank"@ && d[7].access == scalar(16) && d[7].kind
                    == AttributeType::Int8
                &&& d[8].name == "user data"@ && d[8].access == scalar(17) && d[8].kind
                    == AttributeType::Uint8
                &&& d[9].name == "point source id"@ && d[9].access == scalar(18) && d[9].kind
                    == AttributeType::Uint16
            }
            &&& format > 5 ==> {
                &&& d[4].name == "classification flags"@ && d[4].access == LasAccess::Bits {
                    at: 15,
                    shift: 0,
                    width: 4,
                }
                &&& d[5].name == "scanner channel"@ && d[5].access == LasAccess::Bits {
                    at: 15,
                    shift: 4,
                    width: 2,
                }
                &&& d[6].name == "scan direction flag"@ && d[6].access == LasAccess::Bits {
                    at: 15,
                    shift: 6,
                    width: 1,
                }
                &&& d[7].name == "edge of flight line"@ && d[7].access == LasAccess::Bits {
                    at: 15,
                    shift: 7,
                    width: 1,
                }
                &&& d[8].name == "classification"@ && d[8].access == scalar(16) && d[8].kind
                    == AttributeType::Uint8
                &&& d[9].name == "user data"@ && d[9].access == scalar(17) && d[9].kind
                    == AttributeType::Uint8
                &&& d[10].name == "scan angle"@ && d[10].access == scalar(18) && d[10].kind
                    == AttributeType::Int16
                &&& d[11].name == "point source id"@ && d[11].access == scalar(20) && d[11].kind
                    == AttributeType::Uint16
            }
        }),
        format == 1 || format == 3 || format == 4 || format == 5 ==> dimensions(format)[10].name
            == "gps-time"@ && dimensions(format)[10].access == (LasAccess::Scalar { at: 20 }),
        format > 5 ==> dimensions(format)[12].name == "gps-time"@ && dimensions(format)[12].access
            == (LasAccess::Scalar { at: 22 }) && dimensions(format)[12].kind
            == AttributeType::Double,
        format == 2 ==> dimensions(format)[10].name == "rgb"@ && dimensions(format)[10].access
            == (LasAccess::Scalar { at: 20 }),
        format == 3 || format == 5 ==> dimensions(format)[11].name == "rgb"@ && dimensions(
            format,
        )[11].access == (LasAccess::Scalar { at: 28 }) && dimensions(format)[11].num_elements == 3,
        format == 7 || format == 8 || format == 10 ==> dimensions(format)[13].name == "rgb"@
            && dimensions(format)[13].access == (LasAccess::Scalar { at: 30 }) && dimensions(
            format,
        )[13].kind == AttributeType::Uint16,
        format == 8 || format == 10 ==> dimensions(format)[14].name == "nir"@ && dimensions(
            format,
        )[14].access == (LasAccess::Scalar { at: 36 }),
{
}

/// The attributes of a record are its dimensions in their order, then the extra
/// ones that have a type; the positions have the extent of the file.
pub proof fn a_layout_lists_the_dimensions(
    format: u8,
    point_size: usize,
    record: Option<Seq<u8>>,
    domain: Domain,
    i: int,
)
    requires
        format <= 10,
        0 <= i < dimensions(format).len(),
    ensures
        ({
            let l = layout_of(format, point_size, record, domain);
            let d = dimensions(format)[i];
            &&& l.stride == point_size
            &&& i < l.attributes.len()
            &&& l.attributes[i].column.name == d.name
            &&& l.attributes[i].column.kind == d.kind
            &&& l.attributes[i].column.num_elements == d.num_elements
            &&& l.attributes[i].access == d.access
            &&& l.attributes[i].column.byte_offset == match d.access {
                LasAccess::Scalar { at } => at,
                LasAccess::Bits { at, .. } => at,
            }
            &&& record is None ==> l.attributes.len() == dimensions(format).len()
        }),
        layout_of(format, point_size, record, domain).attributes[0].column.min
            == domain.bounds.min@,
        layout_of(format, point_size, record, domain).attributes[0].column.max
            == domain.bounds.max@,
{
    let l = layout_of(format, point_size, record, domain);
    let d = dimensions(format);
    assert(d[0].name == "position"@);
    assert(l.attributes[i] == from_dimension(d[i], domain));
    assert(l.attributes[0] == from_dimension(d[0], domain));
    if record is None {
        assert(typed(Seq::empty()).len() == 0);
    }
}

/// An extra dimension with a type is listed under its own name, with its own
/// place; one without is not listed.
pub proof fn typed_dimensions_are_listed(fields: Seq<crate::las::extra_bytes::Extra>, i: int)
    requires
        0 <= i < fields.len(),
    ensures
        fields[i].kind matches Some(kind) ==> exists|j: int|
            0 <= j < typed(fields).len() && {
                let a = #[trigger] typed(fields)[j];
                a.column.name == fields[i].name && a.column.kind == kind && a.column.num_elements
                    == fields[i].num_elements && a.column.byte_offset == fields[i].byte_offset
                    && a.access == (LasAccess::Scalar { at: fields[i].byte_offset })
            },
    decreases fields.len(),
{
    let before = fields.drop_last();
    if fields[i].kind is Some {
        let kind = fields[i].kind->0;
        if i == fields.len() - 1 {
            let j = typed(before).len() as int;
            assert(typed(fields)[j] == from_extra(fields[i], kind));
        } else {
            typed_dimensions_are_listed(before, i);
            assert(before[i] == fields[i]);
            let j = choose|j: int|
                0 <= j < typed(before).len() && {
                    let a = #[trigger] typed(before)[j];
                    a.column.name == fields[i].name && a.column.kind == kind
                        && a.column.num_elements == fields[i].num_elements && a.column.byte_offset
                        == fields[i].byte_offset && a.access == (LasAccess::Scalar {
                        at: fields[i].byte_offset,
                    })
                };
            assert(typed(fields)[j] == typed(before)[j]);
        }
    }
}

/// Of extra dimensions, those that end within the record are kept, in their order.
pub proof fn dimensions_past_the_record_are_dropped(
    fields: Seq<crate::las::extra_bytes::Extra>,
    point_size: usize,
    i: int,
)
    requires
        0 <= i < fields.len(),
    ensures
        kept(fields, point_size).contains(fields[i]) || fields[i].byte_offset + fields[i].byte_size
            > point_size,
        forall|j: int|
            0 <= j < kept(fields, point_size).len() ==> {
                let f = #[trigger] kept(fields, point_size)[j];
                (f.byte_offset + f.byte_size) % (usize::MAX + 1) <= point_size
            },
    decreases fields.len(),
{
    let before = fields.drop_last();
    if before.len() > 0 {
        dimensions_past_the_record_are_dropped(
            before,
            point_size,
            if i < before.len() {
                i
            } else {
                0
            },
        );
    }
    let k = kept(before, point_size);
    let all = kept(fields, point_size);
    if within(fields.last(), point_size) {
        assert(all[k.len() as int] == fields.last());
    }
    if i < before.len() && k.contains(before[i]) {
        let j = choose|j: int| 0 <= j < k.len() && k[j] == before[i];
        assert(all[j] == fields[i]);
    }
    if before.len() == 0 {
        assert(k =~= Seq::empty());
    }
    if i < before.len() {
        assert(before[i] == fields[i]);
    } else {
        assert(fields[i] == fields.last());
        let sum = fields[i].byte_offset + fields[i].byte_size;
        if sum <= point_size {
            vstd::arithmetic::div_mod::lemma_small_mod(sum as nat, (usize::MAX + 1) as nat);
            assert(sum % (usize::MAX + 1) == sum);
            assert(all.contains(fields[i]));
        }
    }
    assert forall|j: int| 0 <= j < all.len() implies {
        let f = #[trigger] all[j];
        (f.byte_offset + f.byte_size) % (usize::MAX + 1) <= point_size
    } by {
        if j < k.len() {
            assert(all[j] == k[j]);
        }
    }
}

/// The summary of a file says what its header says.
pub proof fn a_summary_says_what_the_header_says(
    header: LasHeader,
    format: FormatId,
    label: Seq<char>,
    cube: Bounds,
    size: Option<u64>,
    crs: Option<Declared>,
    extra: Option<Seq<u8>>,
    gps: Option<[Real; 2]>,
    first: Seq<Notice>,
)
    ensures
        ({
            let s = las_summary(header, format, label, cube, size, crs, extra, gps, first);
            &&& s.format == format
            &&& s.label == label
            &&& s.point_count == header.point_count
            &&& s.bounds == cube
            &&& s.tight_bounds.min == header.min
            &&& s.tight_bounds.max == header.max
            &&& s.scale == header.scale@
            &&& s.offset == header.offset@
            &&& s.crs == crs
            &&& header.compressed ==> s.encoding == Some("laszip"@)
            &&& !header.compressed ==> s.encoding == Some("uncompressed"@)
            &&& s.version == Some(
                decimal(header.version_major as nat) + "."@ + decimal(header.version_minor as nat),
            )
            &&& s.record_bytes == Some(header.point_size as usize)
            &&& size matches Some(n) ==> (n >= header.offset_to_point_data ==> s.data_bytes == Some(
                (n - header.offset_to_point_data) as u64,
            ))
            &&& size is None ==> s.data_bytes is None
            &&& s.spacing is None && s.levels is None
            &&& first.is_prefix_of(s.warnings)
        }),
{
}

/// What a file says in its front counts before what it says at its end.
pub proof fn the_front_counts_before_the_end(front: Seq<Record>, extended: Option<Seq<Record>>)
    ensures
        records_declare(front) is Some ==> crs_for(front, extended) == records_declare(front),
        records_declare(front) is None ==> crs_for(front, extended) == match extended {
            Some(all) => records_declare(all),
            None => None,
        },
        record_named(front, "LASF_Spec"@, 4) matches Some(r) ==> extra_for(front, extended) == Some(
            r.data,
        ),
        record_named(front, "LASF_Spec"@, 4) is None ==> extra_for(front, extended) == match extended {
            Some(all) => match record_named(all, "LASF_Spec"@, 4) {
                Some(r) => Some(r.data),
                None => None,
            },
            None => None,
        },
{
}

/// A header that cannot be read is one that is cut short, or no header of this format.
pub proof fn a_broken_header_is_told(e: LasError)
    ensures
        e matches LasError::Truncated { need, got } ==> e.failure() == (Failure::Truncated {
            need: need as u64,
            got: got as u64,
            what: "LAS header"@,
        }),
        !(e is Truncated) ==> (e.failure() matches Failure::NotFormat { format, .. } && format
            == "a LAS file"@),
        crate::las::laszip_user_id() == "laszip encoded"@,
{
}

/// The first attribute of a layout with a name is found.
pub proof fn the_first_attribute_of_a_name_is_found(
    all: Seq<crate::las::layout::Placed>,
    name: Seq<char>,
    i: int,
)
    requires
        0 <= i < all.len(),
        all[i].column.name == name,
        forall|j: int| 0 <= j < i ==> (#[trigger] all[j]).column.name != name,
    ensures
        crate::las::layout::placed_named(all, name) == Some(all[i]),
    decreases i,
{
    if i > 0 {
        assert(all[0].column.name != name);
        assert forall|j: int| 0 <= j < i - 1 implies (#[trigger] all.skip(1)[j]).column.name
            != name by {
            assert(all.skip(1)[j] == all[j + 1]);
        }
        the_first_attribute_of_a_name_is_found(all.skip(1), name, i - 1);
    }
}

/// A name that comes a second time is told, and none where every name is its own.
pub proof fn a_repeated_name_is_told(all: Seq<crate::las::layout::Placed>, i: int)
    requires
        0 <= i,
    ensures
        i < all.len() && (exists|j: int|
            0 <= j < i && (#[trigger] all[j]).column.name == all[i].column.name)
            ==> crate::las::layout::repeated_from(all, i) == Some(all[i].column.name),
        i < all.len() && (forall|j: int|
            0 <= j < i ==> (#[trigger] all[j]).column.name != all[i].column.name)
            ==> crate::las::layout::repeated_from(all, i) == crate::las::layout::repeated_from(
            all,
            i + 1,
        ),
        i >= all.len() ==> crate::las::layout::repeated_from(all, i) is None,
{
}

/// The bytes that extra dimensions describe add up.
pub proof fn described_bytes_add_up(
    fields: Seq<crate::las::extra_bytes::Extra>,
    f: crate::las::extra_bytes::Extra,
)
    requires
        crate::las::layout::described_size(fields) + f.byte_size <= usize::MAX,
    ensures
        crate::las::layout::described_size(Seq::empty()) == 0,
        crate::las::layout::described_size(fields.push(f)) == crate::las::layout::described_size(
            fields,
        ) + f.byte_size,
{
    assert(fields.push(f).drop_last() =~= fields);
    vstd::arithmetic::div_mod::lemma_small_mod(
        (crate::las::layout::described_size(fields) + f.byte_size) as nat,
        (usize::MAX + 1) as nat,
    );
}

} // verus!
