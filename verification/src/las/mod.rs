//! LAS: the framing, the record layout, and the projection it declares.
//!
//! What is read here is framing: enough of the format to find the points and
//! the records that describe them. Every reader takes a byte slice and
//! tolerates one that stops early.

pub mod copc;
pub mod crs;
pub mod extra_bytes;
pub mod layout;
pub mod point_format;

use crate::bytes::{le16, le32, le64, real_at, slice_of, u16_at, u32_at, u64_at};
use crate::double::Real;
use crate::error::{Error, Failure};
use crate::text::{cat4, cat7, decimal, decimal_of, lossy, lossy_text, same, trim_end, trimmed_end};
use vstd::prelude::*;

verus! {

/// Bytes of public header block that predate LAS 1.3.
pub const HEADER_SIZE_1_2: usize = 227;

/// LAS 1.3 adds the waveform offset.
pub const HEADER_SIZE_1_3: usize = 235;

/// LAS 1.4 adds the EVLR directory and the 64-bit point counts.
pub const HEADER_SIZE_1_4: usize = 375;

/// Fixed part of a VLR record.
pub const VLR_HEADER_SIZE: usize = 54;

/// Same, but the length field is 64-bit.
pub const EVLR_HEADER_SIZE: usize = 60;

/// Record id of the VLR that carries the laszip parameters.
pub const LASZIP_RECORD_ID: u16 = 22204;

/// User id of the VLR that carries the laszip parameters.
pub open spec fn laszip_user_id() -> Seq<char> {
    "laszip encoded"@
}

#[derive(Debug, Clone, Copy, PartialEq, Eq, Structural)]
pub enum LasError {
    /// The buffer does not begin with `LASF`.
    NotLas,
    /// A field was needed that the buffer does not reach.
    Truncated { need: usize, got: usize },
    /// `header_size` is smaller than the version's own minimum.
    ShortHeader { major: u8, minor: u8, header_size: u16 },
    /// `point_data_record_length` is zero, so a point count means nothing.
    ZeroPointSize,
}

/// What the error says.
pub open spec fn las_error_text(e: LasError) -> Seq<char> {
    match e {
        LasError::NotLas => "not a LAS or LAZ file: missing the LASF signature"@,
        LasError::Truncated { need, got } => "truncated LAS header: need at least "@ + decimal(
            need as nat,
        ) + " bytes, got "@ + decimal(got as nat),
        LasError::ShortHeader { major, minor, header_size } => "LAS "@ + decimal(major as nat)
            + "."@ + decimal(minor as nat) + " declares a "@ + decimal(header_size as nat)
            + "-byte header, shorter than the version's own minimum"@,
        LasError::ZeroPointSize => "LAS header declares a point record length of 0"@,
    }
}

impl LasError {
    /// What the error says.
    pub fn to_text(&self) -> (out: String)
        ensures
            out@ == las_error_text(*self),
    {
        match self {
            LasError::NotLas => "not a LAS or LAZ file: missing the LASF signature".to_owned(),
            LasError::Truncated { need, got } => {
                let need = decimal_of(*need as u64);
                let got = decimal_of(*got as u64);
                cat4(
                    "truncated LAS header: need at least ",
                    need.as_str(),
                    " bytes, got ",
                    got.as_str(),
                )
            },
            LasError::ShortHeader { major, minor, header_size } => {
                let major = decimal_of(*major as u64);
                let minor = decimal_of(*minor as u64);
                let size = decimal_of(*header_size as u64);
                cat7(
                    "LAS ",
                    major.as_str(),
                    ".",
                    minor.as_str(),
                    " declares a ",
                    size.as_str(),
                    "-byte header, shorter than the version's own minimum",
                )
            },
            LasError::ZeroPointSize => "LAS header declares a point record length of 0".to_owned(),
        }
    }

    /// The same failure in the library's vocabulary.
    pub open spec fn failure(self) -> Failure {
        match self {
            LasError::Truncated { need, got } => Failure::Truncated {
                need: need as u64,
                got: got as u64,
                what: "LAS header"@,
            },
            other => Failure::NotFormat { format: "a LAS file"@, detail: las_error_text(other) },
        }
    }

    /// The same failure in the library's vocabulary.
    pub fn into_error(self) -> (e: Error)
        ensures
            e@ == self.failure(),
    {
        match self {
            LasError::Truncated { need, got } => Error::Truncated {
                need: need as u64,
                got: got as u64,
                what: "LAS header".to_owned(),
            },
            other => Error::not_format("a LAS file", other.to_text()),
        }
    }
}

/// The place of the first zero byte, or the length.
pub open spec fn first_zero(b: Seq<u8>) -> int
    decreases b.len(),
{
    if b.len() == 0 || b[0] == 0 {
        0
    } else {
        1 + first_zero(b.skip(1))
    }
}

/// A fixed-width, NUL-padded field as text.
pub open spec fn fixed_text(b: Seq<u8>) -> Seq<char> {
    trimmed_end(lossy_text(b.take(first_zero(b))))
}

/// A fixed-width, NUL-padded ASCII field, trimmed the way the spec intends.
pub fn fixed_str(b: &[u8], from: usize, to: usize) -> (out: String)
    requires
        from <= to <= b.len(),
    ensures
        out@ == fixed_text(b@.subrange(from as int, to as int)),
{
    let ghost s = b@.subrange(from as int, to as int);
    let mut end: usize = from;
    assert(s.skip(0) =~= s);
    while end < to && b[end] != 0
        invariant
            from <= end <= to <= b.len(),
            s == b@.subrange(from as int, to as int),
            first_zero(s) == (end - from) + first_zero(s.skip(end - from)),
        decreases to - end,
    {
        assert(s.skip(end - from)[0] == b@[end as int]);
        assert(s.skip(end - from).skip(1) =~= s.skip(end - from + 1));
        end = end + 1;
    }
    let field = slice_of(b, from, end);
    assert(field@ =~= s.take(end - from));
    let text = lossy(field.as_slice());
    trim_end(text.as_str())
}

/// One variable length record, header fields plus its payload.
#[derive(Debug)]
pub struct Vlr {
    pub user_id: String,
    pub record_id: u16,
    pub description: String,
    pub data: Vec<u8>,
    /// True for records read from the EVLR directory at the end of the file.
    pub extended: bool,
}

/// A variable length record, as the values it holds.
#[verifier::ext_equal]
pub struct Record {
    pub user_id: Seq<char>,
    pub record_id: u16,
    pub description: Seq<char>,
    pub data: Seq<u8>,
    pub extended: bool,
}

impl View for Vlr {
    type V = Record;

    open spec fn view(&self) -> Record {
        Record {
            user_id: self.user_id@,
            record_id: self.record_id,
            description: self.description@,
            data: self.data@,
            extended: self.extended,
        }
    }
}

/// Several records, each as the values it holds.
pub open spec fn records(vlrs: Seq<Vlr>) -> Seq<Record> {
    vlrs.map_values(|v: Vlr| v@)
}

impl Record {
    /// Whether this is the record with an identity.
    pub open spec fn named(self, user_id: Seq<char>, record_id: u16) -> bool {
        self.record_id == record_id && self.user_id == user_id
    }
}

/// The first record with an identity.
pub open spec fn record_named(all: Seq<Record>, user_id: Seq<char>, record_id: u16) -> Option<
    Record,
>
    decreases all.len(),
{
    if all.len() == 0 {
        None
    } else if all[0].named(user_id, record_id) {
        Some(all[0])
    } else {
        record_named(all.skip(1), user_id, record_id)
    }
}

impl Vlr {
    /// Whether this record is the one identified by `user_id` and `record_id`.
    pub fn is(&self, user_id: &str, record_id: u16) -> (r: bool)
        ensures
            r == self@.named(user_id@, record_id),
    {
        self.record_id == record_id && same(self.user_id.as_str(), user_id)
    }
}

/// The first record with an identity.
pub fn find_record<'a>(vlrs: &'a Vec<Vlr>, user_id: &str, record_id: u16) -> (r: Option<&'a Vlr>)
    ensures
        match r {
            Some(v) => record_named(records(vlrs@), user_id@, record_id) == Some(v@),
            None => record_named(records(vlrs@), user_id@, record_id) is None,
        },
{
    let ghost all = records(vlrs@);
    assert(all.skip(0) =~= all);
    let mut i: usize = 0;
    while i < vlrs.len()
        invariant
            i <= vlrs.len(),
            all == records(vlrs@),
            record_named(all, user_id@, record_id) == record_named(
                all.skip(i as int),
                user_id@,
                record_id,
            ),
        decreases vlrs.len() - i,
    {
        assert(all.skip(i as int)[0] == vlrs@[i as int]@);
        if vlrs[i].is(user_id, record_id) {
            return Some(&vlrs[i]);
        }
        assert(all.skip(i as int).skip(1) =~= all.skip(i + 1));
        i = i + 1;
    }
    None
}

/// Bytes of a record's header.
pub open spec fn record_header(extended: bool) -> int {
    if extended {
        60
    } else {
        54
    }
}

/// The length that the record at `at` declares.
pub open spec fn declared_len(b: Seq<u8>, at: int, extended: bool) -> int {
    if extended {
        le64(b, at + 20)
    } else {
        le16(b, at + 20)
    }
}

/// The record whose header stands at `at`.
pub open spec fn record_at(b: Seq<u8>, at: int, extended: bool) -> Record {
    let description_at = if extended {
        at + 28
    } else {
        at + 22
    };
    let data_at = at + record_header(extended);
    Record {
        user_id: fixed_text(b.subrange(at + 2, at + 18)),
        record_id: le16(b, at + 18) as u16,
        description: fixed_text(b.subrange(description_at, description_at + 32)),
        data: b.subrange(data_at, data_at + declared_len(b, at, extended)),
        extended,
    }
}

/// Whether the record at `at` fits in the buffer.
pub open spec fn record_fits(b: Seq<u8>, at: int, extended: bool) -> bool {
    at + record_header(extended) <= b.len() && at + record_header(extended) + declared_len(
        b,
        at,
        extended,
    ) <= b.len()
}

/// The records of a directory from `at` on: what fits of `count`, and whether
/// all of them fit.
pub open spec fn records_from(b: Seq<u8>, at: int, count: nat, extended: bool) -> (
    Seq<Record>,
    bool,
)
    decreases count,
{
    if count == 0 {
        (Seq::empty(), true)
    } else if !record_fits(b, at, extended) {
        (Seq::empty(), false)
    } else {
        let next = at + record_header(extended) + declared_len(b, at, extended);
        let rest = records_from(b, next, (count - 1) as nat, extended);
        (seq![record_at(b, at, extended)] + rest.0, rest.1)
    }
}

/// Shared walk over a record directory. Returns what fit, and whether all of
/// `count` records fit.
fn read_records(bytes: &[u8], from: usize, to: usize, count: u32, extended: bool) -> (r: (
    Vec<Vlr>,
    bool,
))
    requires
        from <= to <= bytes.len(),
    ensures
        (records(r.0@), r.1) == records_from(
            bytes@.subrange(from as int, to as int),
            0,
            count as nat,
            extended,
        ),
{
    let ghost b = bytes@.subrange(from as int, to as int);
    let directory = slice_of(bytes, from, to);
    let b_exec = directory.as_slice();
    let header: usize = if extended {
        60
    } else {
        54
    };
    let mut out: Vec<Vlr> = Vec::new();
    let mut at: usize = 0;
    let mut left: u32 = count;
    let ghost whole = records_from(b, 0, count as nat, extended);
    proof {
        assert(records(out@) + whole.0 =~= whole.0);
    }
    while left > 0
        invariant
            b == bytes@.subrange(from as int, to as int),
            b_exec@ == b,
            at <= b_exec.len(),
            header == record_header(extended),
            whole.0 == records(out@) + records_from(b, at as int, left as nat, extended).0,
            whole.1 == records_from(b, at as int, left as nat, extended).1,
            whole == records_from(b, 0, count as nat, extended),
        decreases left,
    {
        if b_exec.len() - at < header {
            assert(records(out@) + Seq::<Record>::empty() =~= records(out@));
            return (out, false);
        }
        let user_id = fixed_str(b_exec, at + 2, at + 18);
        let record_id = u16_at(b_exec, at + 18);
        let declared: u64 = if extended {
            u64_at(b_exec, at + 20)
        } else {
            u16_at(b_exec, at + 20) as u64
        };
        let description = if extended {
            fixed_str(b_exec, at + 28, at + 60)
        } else {
            fixed_str(b_exec, at + 22, at + 54)
        };
        let data_at: usize = at + header;
        if declared > (b_exec.len() - data_at) as u64 {
            assert(records(out@) + Seq::<Record>::empty() =~= records(out@));
            return (out, false);
        }
        let len: usize = declared as usize;
        let v = Vlr {
            user_id,
            record_id,
            description,
            data: slice_of(b_exec, data_at, data_at + len),
            extended,
        };
        proof {
            let next = data_at + len;
            let rest = records_from(b, next, (left - 1) as nat, extended);
            assert(v@ =~= record_at(b, at as int, extended));
            assert(records(out@.push(v)) =~= records(out@).push(v@));
            assert(records(out@) + (seq![v@] + rest.0) =~= records(out@.push(v)) + rest.0);
        }
        out.push(v);
        at = data_at + len;
        left = left - 1;
    }
    assert(records(out@) + Seq::<Record>::empty() =~= records(out@));
    (out, true)
}

/// Parse an EVLR directory from a buffer that begins at the first record.
pub fn read_evlrs(bytes: &[u8], count: u32) -> (r: (Vec<Vlr>, bool))
    ensures
        (records(r.0@), r.1) == records_from(bytes@, 0, count as nat, true),
{
    assert(bytes@.subrange(0, bytes@.len() as int) =~= bytes@);
    read_records(bytes, 0, bytes.len(), count, true)
}

/// The public header block, plus whatever of the VLR directory the buffer held.
#[derive(Debug)]
pub struct LasHeader {
    pub version_major: u8,
    pub version_minor: u8,
    pub header_size: u16,
    pub offset_to_point_data: u32,
    /// Format id with the laszip compression bit already masked off.
    pub point_format: u8,
    /// Size of one *decompressed* point record, extra bytes included.
    pub point_size: u16,
    pub point_count: u64,
    /// Whether the point records are laszip-compressed.
    pub compressed: bool,
    pub scale: [Real; 3],
    pub offset: [Real; 3],
    pub min: [Real; 3],
    pub max: [Real; 3],
    /// Absolute offset of the first EVLR, or 0 when there are none.
    pub evlr_offset: u64,
    pub evlr_count: u32,
    /// How many VLRs the header claims.
    pub vlr_count: u32,
    /// The VLRs the buffer actually reached.
    pub vlrs: Vec<Vlr>,
    /// False when the buffer ended before the VLR directory did.
    pub vlrs_complete: bool,
}

/// A header, as the values it holds.
#[verifier::ext_equal]
pub struct Header {
    pub version_major: u8,
    pub version_minor: u8,
    pub header_size: u16,
    pub offset_to_point_data: u32,
    pub point_format: u8,
    pub point_size: u16,
    pub point_count: u64,
    pub compressed: bool,
    pub scale: Seq<Real>,
    pub offset: Seq<Real>,
    pub min: Seq<Real>,
    pub max: Seq<Real>,
    pub evlr_offset: u64,
    pub evlr_count: u32,
    pub vlr_count: u32,
    pub vlrs: Seq<Record>,
    pub vlrs_complete: bool,
}

impl View for LasHeader {
    type V = Header;

    open spec fn view(&self) -> Header {
        Header {
            version_major: self.version_major,
            version_minor: self.version_minor,
            header_size: self.header_size,
            offset_to_point_data: self.offset_to_point_data,
            point_format: self.point_format,
            point_size: self.point_size,
            point_count: self.point_count,
            compressed: self.compressed,
            scale: self.scale@,
            offset: self.offset@,
            min: self.min@,
            max: self.max@,
            evlr_offset: self.evlr_offset,
            evlr_count: self.evlr_count,
            vlr_count: self.vlr_count,
            vlrs: records(self.vlrs@),
            vlrs_complete: self.vlrs_complete,
        }
    }
}

/// The smallest header that a version may declare.
pub open spec fn least_header(major: u8, minor: u8) -> usize {
    if major == 1 && minor <= 2 {
        HEADER_SIZE_1_2
    } else if major == 1 && minor == 3 {
        HEADER_SIZE_1_3
    } else {
        HEADER_SIZE_1_4
    }
}

/// Whether a version has the fields that LAS 1.4 added.
pub open spec fn is_modern(major: u8, minor: u8) -> bool {
    major > 1 || (major == 1 && minor >= 4)
}

/// The double at a place.
pub open spec fn double_at(b: Seq<u8>, at: int) -> Real {
    Real { bits: le64(b, at) as u64 }
}

/// The directory between the header and the points, as much as the buffer
/// holds of it.
pub open spec fn directory(b: Seq<u8>) -> (Seq<Record>, bool) {
    let start = le16(b, 94);
    let end = if le32(b, 96) < b.len() {
        le32(b, 96)
    } else {
        b.len() as int
    };
    let count = le32(b, 100);
    if start < end {
        records_from(b.subrange(start, end), 0, count as nat, false)
    } else {
        (Seq::empty(), count == 0)
    }
}

/// What stops a header from being read, if anything does.
pub open spec fn header_error(b: Seq<u8>) -> Option<LasError> {
    if b.len() < 4 {
        Some(LasError::Truncated { need: 4, got: b.len() as usize })
    } else if !(b[0] == 76 && b[1] == 65 && b[2] == 83 && b[3] == 70) {
        Some(LasError::NotLas)
    } else if b.len() < HEADER_SIZE_1_2 {
        Some(LasError::Truncated { need: HEADER_SIZE_1_2, got: b.len() as usize })
    } else if le16(b, 94) < least_header(b[24], b[25]) {
        Some(
            LasError::ShortHeader {
                major: b[24],
                minor: b[25],
                header_size: le16(b, 94) as u16,
            },
        )
    } else if le16(b, 105) == 0 {
        Some(LasError::ZeroPointSize)
    } else if is_modern(b[24], b[25]) && b.len() < HEADER_SIZE_1_4 {
        Some(LasError::Truncated { need: HEADER_SIZE_1_4, got: b.len() as usize })
    } else {
        None
    }
}

/// The header that the front of a file holds.
pub open spec fn header_of(b: Seq<u8>) -> Header {
    let modern = is_modern(b[24], b[25]);
    Header {
        version_major: b[24],
        version_minor: b[25],
        header_size: le16(b, 94) as u16,
        offset_to_point_data: le32(b, 96) as u32,
        point_format: (b[104] % 64) as u8,
        point_size: le16(b, 105) as u16,
        point_count: if modern && le64(b, 247) != 0 {
            le64(b, 247) as u64
        } else {
            le32(b, 107) as u64
        },
        compressed: b[104] >= 128,
        scale: seq![double_at(b, 131), double_at(b, 139), double_at(b, 147)],
        offset: seq![double_at(b, 155), double_at(b, 163), double_at(b, 171)],
        min: seq![double_at(b, 187), double_at(b, 203), double_at(b, 219)],
        max: seq![double_at(b, 179), double_at(b, 195), double_at(b, 211)],
        evlr_offset: if modern {
            le64(b, 235) as u64
        } else {
            0
        },
        evlr_count: if modern {
            le32(b, 243) as u32
        } else {
            0
        },
        vlr_count: le32(b, 100) as u32,
        vlrs: directory(b).0,
        vlrs_complete: directory(b).1,
    }
}

impl LasHeader {
    /// Parse a LAS/LAZ file, or as much of its front as the buffer holds.
    pub fn read(bytes: &[u8]) -> (r: Result<Self, LasError>)
        ensures
            match r {
                Ok(h) => header_error(bytes@) is None && h@ == header_of(bytes@),
                Err(e) => header_error(bytes@) == Some(e),
            },
    {
        let n: usize = bytes.len();
        if n < 4 {
            return Err(LasError::Truncated { need: 4, got: n });
        }
        if !(bytes[0] == 76 && bytes[1] == 65 && bytes[2] == 83 && bytes[3] == 70) {
            return Err(LasError::NotLas);
        }
        if n < HEADER_SIZE_1_2 {
            return Err(LasError::Truncated { need: HEADER_SIZE_1_2, got: n });
        }
        let major: u8 = bytes[24];
        let minor: u8 = bytes[25];
        let header_size = u16_at(bytes, 94);
        let least: usize = if major == 1 && minor <= 2 {
            HEADER_SIZE_1_2
        } else if major == 1 && minor == 3 {
            HEADER_SIZE_1_3
        } else {
            HEADER_SIZE_1_4
        };
        if (header_size as usize) < least {
            return Err(LasError::ShortHeader { major, minor, header_size });
        }
        let raw_format: u8 = bytes[104];
        let compressed = raw_format >= 128;
        let point_format: u8 = raw_format % 64;
        let point_size = u16_at(bytes, 105);
        if point_size == 0 {
            return Err(LasError::ZeroPointSize);
        }
        let offset_to_point_data = u32_at(bytes, 96);
        let vlr_count = u32_at(bytes, 100);
        let legacy: u64 = u32_at(bytes, 107) as u64;
        let modern = major > 1 || (major == 1 && minor >= 4);
        let mut evlr_offset: u64 = 0;
        let mut evlr_count: u32 = 0;
        let mut point_count: u64 = legacy;
        if modern {
            if n < HEADER_SIZE_1_4 {
                return Err(LasError::Truncated { need: HEADER_SIZE_1_4, got: n });
            }
            let wide = u64_at(bytes, 247);
            if wide != 0 {
                point_count = wide;
            }
            evlr_offset = u64_at(bytes, 235);
            evlr_count = u32_at(bytes, 243);
        }
        let start: usize = header_size as usize;
        let end: usize = if (offset_to_point_data as u64) < n as u64 {
            offset_to_point_data as usize
        } else {
            n
        };
        let vlrs: (Vec<Vlr>, bool) = if start < end {
            read_records(bytes, start, end, vlr_count, false)
        } else {
            (Vec::new(), vlr_count == 0)
        };
        let scale: [Real; 3] = [real_at(bytes, 131), real_at(bytes, 139), real_at(bytes, 147)];
        let offset: [Real; 3] = [real_at(bytes, 155), real_at(bytes, 163), real_at(bytes, 171)];
        let min: [Real; 3] = [real_at(bytes, 187), real_at(bytes, 203), real_at(bytes, 219)];
        let max: [Real; 3] = [real_at(bytes, 179), real_at(bytes, 195), real_at(bytes, 211)];
        let header = LasHeader {
            version_major: major,
            version_minor: minor,
            header_size,
            offset_to_point_data,
            point_format,
            point_size,
            point_count,
            compressed,
            scale,
            offset,
            min,
            max,
            evlr_offset,
            evlr_count,
            vlr_count,
            vlrs: vlrs.0,
            vlrs_complete: vlrs.1,
        };
        proof {
            let b = bytes@;
            let d = directory(b);
            assert(header@.vlrs =~= d.0);
            assert(header@.vlrs_complete == d.1);
            assert(scale@ =~= header_of(b).scale);
            assert(offset@ =~= header_of(b).offset);
            assert(min@ =~= header_of(b).min);
            assert(max@ =~= header_of(b).max);
            assert(header@ =~= header_of(b));
        }
        Ok(header)
    }

    /// The laszip VLR's payload, which is what a decoder needs to be built.
    pub fn laszip_record(&self) -> (r: Option<&Vec<u8>>)
        ensures
            match r {
                Some(data) => record_named(self@.vlrs, laszip_user_id(), LASZIP_RECORD_ID) matches Some(
                    v,
                ) && v.data == data@,
                None => record_named(self@.vlrs, laszip_user_id(), LASZIP_RECORD_ID) is None,
            },
    {
        match find_record(&self.vlrs, "laszip encoded", LASZIP_RECORD_ID) {
            Some(v) => Some(&v.data),
            None => None,
        }
    }
}

} // verus!
