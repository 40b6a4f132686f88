//! The LAS 1.4 public header block and the record directories, written.
//!
//! Every offset here is fixed by the format, and every one of them is a silent
//! failure if it is wrong. The reader and the writer are held to each other by
//! the laws at the end.

use crate::bytes::{
    bytes16, bytes64, le16, le32, le64, put_range, put_u16, put_u64, put_zeros, same_outside,
    write_f64, write_u16, write_u32, write_u64, zeros,
};
use crate::double::Real;
use crate::las::crs::{
    GEOKEY_DIRECTORY_RECORD_ID, GEOKEY_DOUBLE_RECORD_ID, WKT_RECORD_ID,
};
use crate::las::{
    double_at, first_zero, fixed_text, header_error, header_of, record_at, record_fits,
    Record,
};
use crate::text::trimmed_end;
use vstd::prelude::*;
use vstd::utf8::encode_utf8;

verus! {

/// Bytes of a LAS 1.4 public header block.
pub const HEADER_SIZE: usize = 375;

/// One record to be written, header and payload.
#[derive(Debug)]
pub struct OutVlr {
    pub user_id: String,
    pub record_id: u16,
    pub description: String,
    pub data: Vec<u8>,
}

/// A NUL-padded fixed-width field, truncated rather than overflowing.
pub open spec fn fixed_field(text: Seq<char>, width: nat) -> Seq<u8> {
    let b = encode_utf8(text);
    if b.len() < width {
        b + zeros((width - b.len()) as nat)
    } else {
        b.take(width as int)
    }
}

/// Appends a NUL-padded fixed-width field.
fn write_fixed(out: &mut Vec<u8>, width: usize, text: &str)
    ensures
        final(out)@ == old(out)@ + fixed_field(text@, width as nat),
        final(out)@.len() == old(out)@.len() + width,
{
    let bytes = text.as_bytes();
    if bytes.len() < width {
        put_range(out, bytes, 0, bytes.len());
        put_zeros(out, width - bytes.len());
        assert(bytes@.subrange(0, bytes@.len() as int) =~= bytes@);
    } else {
        put_range(out, bytes, 0, width);
        assert(bytes@.subrange(0, width as int) =~= bytes@.take(width as int));
    }
    assert(out@ =~= old(out)@ + fixed_field(text@, width as nat));
}

/// The bytes of a record with a 16-bit length.
pub open spec fn vlr_bytes(user_id: Seq<char>, record_id: u16, description: Seq<char>, data: Seq<u8>)
    -> Seq<u8> {
    zeros(2) + fixed_field(user_id, 16) + bytes16(record_id as int) + bytes16(
        data.len() as int % 0x1_0000,
    ) + fixed_field(description, 32) + data
}

/// The bytes of a record with a 64-bit length.
pub open spec fn evlr_bytes(
    user_id: Seq<char>,
    record_id: u16,
    description: Seq<char>,
    data: Seq<u8>,
) -> Seq<u8> {
    zeros(2) + fixed_field(user_id, 16) + bytes16(record_id as int) + bytes64(data.len() as int)
        + fixed_field(description, 32) + data
}

impl OutVlr {
    pub fn new(user_id: &str, record_id: u16, description: &str, data: Vec<u8>) -> (v: Self)
        ensures
            v.user_id@ == user_id@,
            v.record_id == record_id,
            v.description@ == description@,
            v.data == data,
    {
        OutVlr { user_id: user_id.to_owned(), record_id, description: description.to_owned(), data }
    }

    /// Bytes of the record with a 16-bit length.
    pub fn size(&self) -> (n: usize)
        requires
            self.data@.len() + 54 <= usize::MAX,
        ensures
            n == 54 + self.data@.len(),
    {
        54 + self.data.len()
    }

    /// Bytes of the record with a 64-bit length.
    pub fn extended_size(&self) -> (n: u64)
        requires
            self.data@.len() + 60 <= u64::MAX,
        ensures
            n == 60 + self.data@.len(),
    {
        60 + self.data.len() as u64
    }
}

/// Appends a record with a 16-bit length.
pub fn write_vlr(out: &mut Vec<u8>, vlr: &OutVlr)
    ensures
        final(out)@ == old(out)@ + vlr_bytes(
            vlr.user_id@,
            vlr.record_id,
            vlr.description@,
            vlr.data@,
        ),
{
    put_zeros(out, 2);
    write_fixed(out, 16, vlr.user_id.as_str());
    put_u16(out, vlr.record_id);
    put_u16(out, (vlr.data.len() % 0x1_0000) as u16);
    write_fixed(out, 32, vlr.description.as_str());
    put_range(out, vlr.data.as_slice(), 0, vlr.data.len());
    assert(vlr.data@.subrange(0, vlr.data@.len() as int) =~= vlr.data@);
    assert(out@ =~= old(out)@ + vlr_bytes(
        vlr.user_id@,
        vlr.record_id,
        vlr.description@,
        vlr.data@,
    ));
}

/// Appends a record with a 64-bit length.
pub fn write_evlr(out: &mut Vec<u8>, vlr: &OutVlr)
    ensures
        final(out)@ == old(out)@ + evlr_bytes(
            vlr.user_id@,
            vlr.record_id,
            vlr.description@,
            vlr.data@,
        ),
{
    put_zeros(out, 2);
    write_fixed(out, 16, vlr.user_id.as_str());
    put_u16(out, vlr.record_id);
    put_u64(out, vlr.data.len() as u64);
    write_fixed(out, 32, vlr.description.as_str());
    put_range(out, vlr.data.as_slice(), 0, vlr.data.len());
    assert(vlr.data@.subrange(0, vlr.data@.len() as int) =~= vlr.data@);
    assert(out@ =~= old(out)@ + evlr_bytes(
        vlr.user_id@,
        vlr.record_id,
        vlr.description@,
        vlr.data@,
    ));
}

/// The header fields a writer decides.
#[derive(Debug)]
pub struct OutHeader {
    pub point_format: u8,
    pub point_size: u16,
    /// Set when the points are laszip-compressed.
    pub compressed: bool,
    pub point_count: u64,
    pub scale: [Real; 3],
    pub offset: [Real; 3],
    pub min: [Real; 3],
    pub max: [Real; 3],
    pub offset_to_point_data: u32,
    pub vlr_count: u32,
    pub evlr_offset: u64,
    pub evlr_count: u32,
    pub generator: String,
    /// Whether the file declares its CRS as WKT.
    pub wkt: bool,
    /// Day of year and year, as the format spells a creation date.
    pub creation: (u16, u16),
    /// Points by return, 15 slots. Zeros when unknown.
    pub points_by_return: [u64; 15],
}

/// Whether a range of bytes is zero.
pub open spec fn blank(b: Seq<u8>, from: int, to: int) -> bool {
    forall|i: int| from <= i < to ==> #[trigger] b[i] == 0
}

/// The front of a header block, up to the legacy point count.
pub open spec fn front_of(b: Seq<u8>, h: OutHeader) -> bool {
    &&& b[0] == 76 && b[1] == 65 && b[2] == 83 && b[3] == 70
    &&& blank(b, 4, 6)
    &&& le16(b, 6) == if h.wkt {
        16int
    } else {
        0
    }
    &&& blank(b, 8, 24)
    &&& b[24] == 1 && b[25] == 4
    &&& b.subrange(26, 58) == fixed_field("voxelkloud"@, 32)
    &&& b.subrange(58, 90) == fixed_field(h.generator@, 32)
    &&& le16(b, 90) == h.creation.0
    &&& le16(b, 92) == h.creation.1
    &&& le16(b, 94) == 375
    &&& le32(b, 96) == h.offset_to_point_data
    &&& le32(b, 100) == h.vlr_count
    &&& b[104] == (if h.compressed {
        h.point_format | 0x80
    } else {
        h.point_format
    })
    &&& le16(b, 105) == h.point_size
    &&& blank(b, 107, 131)
}

/// The quantum, the origin and the interleaved bounds.
pub open spec fn doubles_of(b: Seq<u8>, h: OutHeader) -> bool {
    &&& double_at(b, 131) == h.scale[0]
    &&& double_at(b, 139) == h.scale[1]
    &&& double_at(b, 147) == h.scale[2]
    &&& double_at(b, 155) == h.offset[0]
    &&& double_at(b, 163) == h.offset[1]
    &&& double_at(b, 171) == h.offset[2]
    &&& double_at(b, 179) == h.max[0]
    &&& double_at(b, 187) == h.min[0]
    &&& double_at(b, 195) == h.max[1]
    &&& double_at(b, 203) == h.min[1]
    &&& double_at(b, 211) == h.max[2]
    &&& double_at(b, 219) == h.min[2]
}

/// The fields that LAS 1.3 and 1.4 added.
pub open spec fn tail_of(b: Seq<u8>, h: OutHeader) -> bool {
    &&& blank(b, 227, 235)
    &&& le64(b, 235) == h.evlr_offset
    &&& le32(b, 243) == h.evlr_count
    &&& le64(b, 247) == h.point_count
    &&& forall|i: int|
        0 <= i < 15 ==> #[trigger] h.points_by_return[i] == le64(b, 255 + 8 * i)
}

/// Whether bytes are the header block that a writer's fields call for: every
/// byte of the 375 is one of these fields or zero.
pub open spec fn is_header_of(b: Seq<u8>, h: OutHeader) -> bool {
    b.len() == 375 && front_of(b, h) && doubles_of(b, h) && tail_of(b, h)
}

impl OutHeader {
    #[verifier::spinoff_prover]
    #[verifier::rlimit(30)]
    fn put_front(&self, out: &mut Vec<u8>)
        requires
            old(out)@.len() == 0,
        ensures
            final(out)@.len() == 131,
            front_of(final(out)@, *self),
    {
        out.push(76);
        out.push(65);
        out.push(83);
        out.push(70);
        put_zeros(out, 20);
        out.push(1);
        out.push(4);
        write_fixed(out, 32, "voxelkloud");
        let ghost first = out@;
        assert(first.subrange(26, 58) =~= fixed_field("voxelkloud"@, 32));
        write_fixed(out, 32, self.generator.as_str());
        let ghost second = out@;
        assert(second.subrange(26, 58) =~= first.subrange(26, 58));
        assert(second.subrange(58, 90) =~= fixed_field(self.generator@, 32));
        put_zeros(out, 41);
        let ghost third = out@;
        assert(third.subrange(26, 58) =~= second.subrange(26, 58));
        assert(third.subrange(58, 90) =~= second.subrange(58, 90));
        let flag: u16 = if self.wkt {
            16
        } else {
            0
        };
        let format: u8 = if self.compressed {
            self.point_format | 0x80
        } else {
            self.point_format
        };
        out[104] = format;
        let b = out.as_mut_slice();
        write_u16(b, 6, flag);
        write_u16(b, 90, self.creation.0);
        write_u16(b, 92, self.creation.1);
        write_u16(b, 94, 375);
        write_u32(b, 96, self.offset_to_point_data);
        write_u32(b, 100, self.vlr_count);
        write_u16(b, 105, self.point_size);
        let ghost last = out@;
        assert(last.subrange(26, 58) =~= third.subrange(26, 58));
        assert(last.subrange(58, 90) =~= third.subrange(58, 90));
    }

    fn put_doubles(&self, b: &mut [u8])
        requires
            old(b)@.len() == 375,
        ensures
            same_outside(final(b)@, old(b)@, 131, 227),
            doubles_of(final(b)@, *self),
    {
        write_f64(b, 131, self.scale[0]);
        write_f64(b, 139, self.scale[1]);
        write_f64(b, 147, self.scale[2]);
        write_f64(b, 155, self.offset[0]);
        write_f64(b, 163, self.offset[1]);
        write_f64(b, 171, self.offset[2]);
        write_f64(b, 179, self.max[0]);
        write_f64(b, 187, self.min[0]);
        write_f64(b, 195, self.max[1]);
        write_f64(b, 203, self.min[1]);
        write_f64(b, 211, self.max[2]);
        write_f64(b, 219, self.min[2]);
    }

    fn put_tail(&self, b: &mut [u8])
        requires
            old(b)@.len() == 375,
            blank(old(b)@, 227, 235),
        ensures
            same_outside(final(b)@, old(b)@, 235, 375),
            tail_of(final(b)@, *self),
    {
        write_u64(b, 235, self.evlr_offset);
        write_u32(b, 243, self.evlr_count);
        write_u64(b, 247, self.point_count);
        let mut i: usize = 0;
        while i < 15
            invariant
                i <= 15,
                b@.len() == 375,
                same_outside(b@, old(b)@, 235, 375),
                le64(b@, 235) == self.evlr_offset,
                le32(b@, 243) == self.evlr_count,
                le64(b@, 247) == self.point_count,
                forall|k: int|
                    0 <= k < i ==> #[trigger] self.points_by_return[k] == le64(b@, 255 + 8 * k),
            decreases 15 - i,
        {
            write_u64(b, 255 + i * 8, self.points_by_return[i]);
            i = i + 1;
        }
    }

    /// Serialize the 375-byte block.
    pub fn to_bytes(&self) -> (out: Vec<u8>)
        ensures
            is_header_of(out@, *self),
    {
        let mut out: Vec<u8> = Vec::new();
        self.put_front(&mut out);
        let ghost front = out@;
        put_zeros(&mut out, 244);
        let ghost whole = out@;
        proof {
            assert forall|i: int| 0 <= i < 131 implies whole[i] == front[i] by {}
            assert(whole.subrange(26, 58) =~= front.subrange(26, 58));
            assert(whole.subrange(58, 90) =~= front.subrange(58, 90));
            assert(front_of(whole, *self));
        }
        let b = out.as_mut_slice();
        self.put_doubles(b);
        self.put_tail(b);
        proof {
            assert(out@.subrange(26, 58) =~= whole.subrange(26, 58));
            assert(out@.subrange(58, 90) =~= whole.subrange(58, 90));
        }
        out
    }
}

/// Whether a year has a leap day.
pub open spec fn is_leap(year: int) -> bool {
    (year % 4 == 0 && year % 100 != 0) || year % 400 == 0
}

/// Days in a year.
pub open spec fn year_days(year: int) -> int {
    if is_leap(year) {
        366
    } else {
        365
    }
}

/// Days from the start of 1970 to the start of a year.
pub open spec fn days_before(year: int) -> int
    decreases year,
{
    if year <= 1970 {
        0
    } else {
        days_before(year - 1) + year_days(year - 1)
    }
}

/// Civil date from a Unix timestamp, as (day of year, year), both as 16-bit
/// numbers.
pub fn creation_from_unix_seconds(seconds: u64) -> (r: (u16, u16))
    ensures
        exists|year: int, day: int| #[trigger]
            is_date(seconds as int / 86_400, year, day) && r.0 == day && r.1 == year % 0x1_0000,
{
    let days: u64 = seconds / 86_400;
    let era: u64 = days / 146_097;
    let mut year: u64 = 1970 + era * 400;
    let mut left: u64 = days % 146_097;
    proof {
        lemma_eras(era as int);
    }
    let ghost base = days_before(1970 + 400 * era as int);
    while left >= 366 || (left == 365 && !((year % 4 == 0 && year % 100 != 0) || year % 400 == 0))
        invariant
            1970 <= year <= 1970 + 0x1_0000_0000_0000,
            left <= 146_097,
            year + left <= 1970 + 0x1_0000_0000_0000,
            days_before(year as int) + left == days,
        decreases left,
    {
        let leap = (year % 4 == 0 && year % 100 != 0) || year % 400 == 0;
        left = left - if leap {
            366
        } else {
            365
        };
        year = year + 1;
    }
    proof {
        assert(is_date(days as int, year as int, left + 1));
    }
    ((left + 1) as u16, (year % 0x1_0000) as u16)
}

/// Whether a number of days after the start of 1970 is day `day` of `year`,
/// the first day of the year being one.
pub open spec fn is_date(days: int, year: int, day: int) -> bool {
    year >= 1970 && 1 <= day <= year_days(year) && days_before(year) + day - 1 == days
}

/// A date is the only one for its day.
pub proof fn dates_are_unique(days: int, year: int, day: int, other: int, other_day: int)
    requires
        is_date(days, year, day),
        is_date(days, other, other_day),
    ensures
        year == other && day == other_day,
{
    if year < other {
        lemma_days_grow(year + 1, other);
    } else if other < year {
        lemma_days_grow(other + 1, year);
    }
}

proof fn lemma_days_grow(a: int, b: int)
    requires
        1970 <= a <= b,
    ensures
        days_before(a) <= days_before(b),
    decreases b - a,
{
    if a < b {
        lemma_days_grow(a, b - 1);
    }
}

proof fn lemma_eras(era: int)
    requires
        0 <= era,
    ensures
        days_before(1970 + 400 * era) == 146_097 * era,
    decreases era,
{
    if era > 0 {
        lemma_eras(era - 1);
        lemma_cycle(1970 + 400 * (era - 1), 400);
        lemma_cycle_sum(era - 1);
    }
}

/// Days in the `n` years from `from` on.
pub open spec fn span_days(from: int, n: int) -> int
    decreases n,
{
    if n <= 0 {
        0
    } else {
        span_days(from, n - 1) + year_days(from + n - 1)
    }
}

proof fn lemma_cycle(from: int, n: int)
    requires
        1970 <= from,
        0 <= n,
    ensures
        days_before(from + n) == days_before(from) + span_days(from, n),
    decreases n,
{
    if n > 0 {
        lemma_cycle(from, n - 1);
    }
}

/// The number of leap years before a year, counted from year zero.
spec fn leaps(year: int) -> int {
    (year + 3) / 4 - (year + 99) / 100 + (year + 399) / 400
}

proof fn lemma_span_leaps(from: int, n: int)
    requires
        0 <= from,
        0 <= n,
    ensures
        span_days(from, n) == 365 * n + leaps(from + n) - leaps(from),
    decreases n,
{
    if n > 0 {
        lemma_span_leaps(from, n - 1);
        lemma_leap_step(from + n - 1);
    }
}

proof fn lemma_step(y: int, d: int)
    requires
        0 <= y,
        d == 4 || d == 100 || d == 400,
    ensures
        (y + d) / d - (y + d - 1) / d == if y % d == 0 {
            1int
        } else {
            0
        },
{
    let (q, r) = (y / d, y % d);
    vstd::arithmetic::div_mod::lemma_fundamental_div_mod(y, d);
    assert(y + d == (q + 1) * d + r) by (nonlinear_arith)
        requires
            y == d * q + r,
    ;
    vstd::arithmetic::div_mod::lemma_fundamental_div_mod_converse(y + d, d, q + 1, r);
    if r == 0 {
        assert(y + d - 1 == q * d + (d - 1)) by (nonlinear_arith)
            requires
                y == d * q + r,
                r == 0,
        ;
        vstd::arithmetic::div_mod::lemma_fundamental_div_mod_converse(y + d - 1, d, q, d - 1);
    } else {
        vstd::arithmetic::div_mod::lemma_fundamental_div_mod_converse(y + d - 1, d, q + 1, r - 1);
    }
}

proof fn lemma_leap_step(y: int)
    requires
        0 <= y,
    ensures
        leaps(y + 1) - leaps(y) == if is_leap(y) {
            1int
        } else {
            0
        },
{
    lemma_step(y, 4);
    lemma_step(y, 100);
    lemma_step(y, 400);
    assert(y % 400 == 0 ==> y % 100 == 0);
    assert(y % 100 == 0 ==> y % 4 == 0);
}

#[verifier::spinoff_prover]
#[verifier::rlimit(40)]
proof fn lemma_cycle_sum(era: int)
    requires
        0 <= era,
    ensures
        span_days(1970 + 400 * era, 400) == 146_097,
{
    lemma_span_leaps(1970 + 400 * era, 400);
}

/// The description a projection record is written with.
pub open spec fn projection_caption(record_id: u16) -> Seq<char> {
    if record_id == WKT_RECORD_ID {
        "OGC coordinate system WKT"@
    } else if record_id == GEOKEY_DIRECTORY_RECORD_ID {
        "GeoTIFF key directory"@
    } else if record_id == GEOKEY_DOUBLE_RECORD_ID {
        "GeoTIFF double parameters"@
    } else {
        "GeoTIFF ASCII parameters"@
    }
}

/// A record to be written, as the values it holds.
pub struct Outgoing {
    pub user_id: Seq<char>,
    pub record_id: u16,
    pub description: Seq<char>,
    pub data: Seq<u8>,
}

impl View for OutVlr {
    type V = Outgoing;

    open spec fn view(&self) -> Outgoing {
        Outgoing {
            user_id: self.user_id@,
            record_id: self.record_id,
            description: self.description@,
            data: self.data@,
        }
    }
}

/// Several records to be written, each as the values it holds.
pub open spec fn outgoing(list: Seq<OutVlr>) -> Seq<Outgoing> {
    list.map_values(|v: OutVlr| v@)
}

/// The projection records that carry anything.
pub open spec fn carried_records(records: Seq<(u16, Vec<u8>)>) -> Seq<Outgoing>
    decreases records.len(),
{
    if records.len() == 0 {
        Seq::empty()
    } else {
        let (id, data) = records.last();
        let before = carried_records(records.drop_last());
        if data@.len() == 0 {
            before
        } else {
            before.push(
                Outgoing {
                    user_id: "LASF_Projection"@,
                    record_id: id,
                    description: projection_caption(id),
                    data: data@,
                },
            )
        }
    }
}

/// The record that says no projection is declared.
pub open spec fn no_projection() -> Outgoing {
    Outgoing {
        user_id: "LASF_Projection"@,
        record_id: WKT_RECORD_ID,
        description: "OGC coordinate system WKT"@,
        data: seq![0u8],
    }
}

/// Whether any of some records is WKT.
pub open spec fn any_wkt(records: Seq<(u16, Vec<u8>)>) -> bool {
    exists|i: int|
        0 <= i < records.len() && (#[trigger] records[i]).0 == WKT_RECORD_ID
            && records[i].1@.len() > 0
}

/// The projection records to write, carried from the source verbatim, and
/// whether one of them is WKT. A source with none gets one empty WKT record.
pub fn projection_vlrs(records: &Vec<(u16, Vec<u8>)>) -> (r: (Vec<OutVlr>, bool))
    ensures
        carried_records(records@).len() > 0 ==> outgoing(r.0@) == carried_records(records@) && r.1
            == any_wkt(records@),
        carried_records(records@).len() == 0 ==> outgoing(r.0@) == seq![no_projection()] && r.1,
{
    let mut out: Vec<OutVlr> = Vec::new();
    let mut wkt: bool = false;
    let mut i: usize = 0;
    assert(records@.take(0) =~= Seq::<(u16, Vec<u8>)>::empty());
    assert(outgoing(out@) =~= Seq::<Outgoing>::empty());
    while i < records.len()
        invariant
            i <= records.len(),
            outgoing(out@) == carried_records(records@.take(i as int)),
            wkt == exists|k: int|
                0 <= k < i && (#[trigger] records@[k]).0 == WKT_RECORD_ID
                    && records@[k].1@.len() > 0,
        decreases records.len() - i,
    {
        let id: u16 = records[i].0;
        let ghost before = out@;
        assert(records@.take(i + 1).drop_last() =~= records@.take(i as int));
        if records[i].1.len() > 0 {
            if id == WKT_RECORD_ID {
                wkt = true;
            }
            let caption: &str = if id == WKT_RECORD_ID {
                "OGC coordinate system WKT"
            } else if id == GEOKEY_DIRECTORY_RECORD_ID {
                "GeoTIFF key directory"
            } else if id == GEOKEY_DOUBLE_RECORD_ID {
                "GeoTIFF double parameters"
            } else {
                "GeoTIFF ASCII parameters"
            };
            let data = crate::bytes::slice_of(records[i].1.as_slice(), 0, records[i].1.len());
            assert(data@ =~= records@[i as int].1@);
            let v = OutVlr::new("LASF_Projection", id, caption, data);
            out.push(v);
            assert(outgoing(out@) =~= outgoing(before).push(v@));
        }
        i = i + 1;
    }
    assert(records@.take(i as int) =~= records@);
    if out.len() == 0 {
        let v = OutVlr::new(
            "LASF_Projection",
            WKT_RECORD_ID,
            "OGC coordinate system WKT",
            vec![0u8],
        );
        assert(v@.data =~= seq![0u8]);
        out.push(v);
        wkt = true;
        assert(outgoing(out@) =~= seq![no_projection()]);
    }
    (out, wkt)
}

/// A header that was written is read back: every field the reader reports is
/// the writer's, and the legacy point count is zero.
pub proof fn header_reads_back(b: Seq<u8>, h: OutHeader)
    requires
        is_header_of(b, h),
        h.point_format < 64,
        h.point_size > 0,
    ensures
        header_error(b) is None,
        ({
            let r = header_of(b);
            &&& r.version_major == 1 && r.version_minor == 4 && r.header_size == 375
            &&& r.point_format == h.point_format
            &&& r.compressed == h.compressed
            &&& r.point_size == h.point_size
            &&& r.point_count == h.point_count
            &&& r.scale == h.scale@
            &&& r.offset == h.offset@
            &&& r.min == h.min@
            &&& r.max == h.max@
            &&& r.offset_to_point_data == h.offset_to_point_data
            &&& r.vlr_count == h.vlr_count
            &&& r.evlr_offset == h.evlr_offset
            &&& r.evlr_count == h.evlr_count
        }),
        le32(b, 107) == 0,
{
    let f = h.point_format;
    assert(f < 64 ==> (f | 0x80) % 64 == f && (f | 0x80) >= 128 && f % 64 == f) by (bit_vector);
    let r = header_of(b);
    assert(b[107] == 0 && b[108] == 0 && b[109] == 0 && b[110] == 0);
    assert(r.scale =~= h.scale@);
    assert(r.offset =~= h.offset@);
    assert(r.min =~= h.min@);
    assert(r.max =~= h.max@);
}

/// Whether a text survives a fixed-width field: it is short enough, ASCII,
/// free of NULs, and does not end in white space.
pub open spec fn fits_field(text: Seq<char>, width: int) -> bool {
    &&& text.len() <= width
    &&& vstd::utf8::is_ascii_chars(text)
    &&& forall|i: int| 0 <= i < text.len() ==> #[trigger] text[i] != '\0'
    &&& trimmed_end(text) == text
}

proof fn lemma_first_zero(b: Seq<u8>, n: int)
    requires
        0 <= n <= b.len(),
        forall|i: int| 0 <= i < n ==> #[trigger] b[i] != 0,
        n < b.len() ==> b[n] == 0,
    ensures
        first_zero(b) == n,
    decreases n,
{
    if n > 0 {
        lemma_first_zero(b.skip(1), n - 1);
    }
}

/// A text that fits a fixed-width field is read back from it.
pub proof fn field_reads_back(text: Seq<char>, width: nat)
    requires
        fits_field(text, width as int),
    ensures
        fixed_field(text, width).len() == width,
        fixed_text(fixed_field(text, width)) == text,
{
    let b = encode_utf8(text);
    let f = fixed_field(text, width);
    vstd::utf8::is_ascii_chars_encode_utf8(text);
    vstd::utf8::encode_utf8_valid_utf8(text);
    vstd::utf8::encode_utf8_decode_utf8(text);
    assert(b.len() == text.len());
    assert forall|i: int| 0 <= i < text.len() implies #[trigger] f[i] != 0 by {
        assert(text[i] != '\0');
        assert('\0' <= text[i] <= '\u{7f}');
        assert(b[i] == text[i] as u8);
        assert(f[i] == b[i]);
    }
    lemma_first_zero(f, text.len() as int);
    assert(f.take(text.len() as int) =~= b);
}

/// A record that was written is the first one read back.
pub proof fn vlr_reads_back(
    user_id: Seq<char>,
    record_id: u16,
    description: Seq<char>,
    data: Seq<u8>,
    rest: Seq<u8>,
)
    requires
        fits_field(user_id, 16),
        fits_field(description, 32),
        data.len() < 0x1_0000,
    ensures
        ({
            let b = vlr_bytes(user_id, record_id, description, data) + rest;
            record_fits(b, 0, false) && record_at(b, 0, false) == Record {
                user_id,
                record_id,
                description,
                data,
                extended: false,
            }
        }),
{
    field_reads_back(user_id, 16);
    field_reads_back(description, 32);
    let b = vlr_bytes(user_id, record_id, description, data) + rest;
    let n = data.len() as int;
    assert(b.subrange(2, 18) =~= fixed_field(user_id, 16));
    assert(b.subrange(18, 20) =~= bytes16(record_id as int));
    assert(b.subrange(20, 22) =~= bytes16(n % 0x1_0000));
    assert(b.subrange(22, 54) =~= fixed_field(description, 32));
    assert(b.subrange(54, 54 + n) =~= data);
    crate::bytes::le16_reads_bytes16(record_id as int);
    crate::bytes::le16_reads_bytes16(n);
    assert(le16(b, 18) == le16(b.subrange(18, 20), 0));
    assert(le16(b, 20) == le16(b.subrange(20, 22), 0));
    assert(record_at(b, 0, false) =~= Record {
        user_id,
        record_id,
        description,
        data,
        extended: false,
    });
}

/// A record with a 64-bit length that was written is the first one read back.
pub proof fn evlr_reads_back(
    user_id: Seq<char>,
    record_id: u16,
    description: Seq<char>,
    data: Seq<u8>,
    rest: Seq<u8>,
)
    requires
        fits_field(user_id, 16),
        fits_field(description, 32),
        data.len() <= u64::MAX,
    ensures
        ({
            let b = evlr_bytes(user_id, record_id, description, data) + rest;
            record_fits(b, 0, true) && record_at(b, 0, true) == Record {
                user_id,
                record_id,
                description,
                data,
                extended: true,
            }
        }),
{
    field_reads_back(user_id, 16);
    field_reads_back(description, 32);
    let b = evlr_bytes(user_id, record_id, description, data) + rest;
    let n = data.len() as int;
    crate::bytes::le64_reads_bytes64(n);
    assert(b.subrange(2, 18) =~= fixed_field(user_id, 16));
    assert(b.subrange(18, 20) =~= bytes16(record_id as int));
    assert(b.subrange(20, 28) =~= bytes64(n));
    assert(b.subrange(28, 60) =~= fixed_field(description, 32));
    assert(b.subrange(60, 60 + n) =~= data);
    crate::bytes::le16_reads_bytes16(record_id as int);
    assert(le16(b, 18) == le16(b.subrange(18, 20), 0));
    assert(le64(b, 20) == le64(b.subrange(20, 28), 0));
    assert(record_at(b, 0, true) =~= Record {
        user_id,
        record_id,
        description,
        data,
        extended: true,
    });
}

} // verus!
