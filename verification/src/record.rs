//! The record the converter moves.
//!
//! Everything between reading a point and writing one happens in LAS 1.4
//! record space: point format 6, 7 or 8, positions as integers in the output's
//! scale and offset, extra bytes carried through verbatim.

use crate::attribute::{columns, Attribute, AttributeType};
use crate::bounds::Bounds;
use crate::bytes::{
    as_pattern, bytes16, bytes32, i32_at, le32, put_range, put_u16, put_u32, put_zeros,
    same_outside, signed32, write_i32, zeros,
};
use crate::error::{Error, Failure};
use crate::las::extra_bytes::ExtraByteField;
use crate::las::LasHeader;
use crate::las::layout::{las_layout, layout_of, Domain, LasLayoutOptions, Placed};
use crate::las::point_format::{
    base_size, color_at, colored, las_base_size, las_format_has_color, las_format_has_gps_time,
    timed, unknown_format,
};
use crate::text::{cat2, cat3, cat5, decimal, decimal_of};
use vstd::prelude::*;

verus! {

/// Where the intensity of a format 6, 7 or 8 record sits.
pub const INTENSITY: usize = 12;

/// Return number in the low four bits, number of returns in the high four.
pub const RETURNS: usize = 14;

/// Classification flags (4), scanner channel (2), scan direction, edge.
pub const FLAGS: usize = 15;

pub const CLASSIFICATION: usize = 16;

pub const USER_DATA: usize = 17;

/// Signed, in 0.006 degree increments.
pub const SCAN_ANGLE: usize = 18;

pub const POINT_SOURCE_ID: usize = 20;

pub const GPS_TIME: usize = 22;

pub const RGB: usize = 30;

pub const NIR: usize = 36;

/// The shape of one canonical record.
#[derive(Debug, Clone)]
pub struct RecordLayout {
    /// 6, 7 or 8.
    pub format: u8,
    /// Bytes before the extra dimensions.
    pub base: usize,
    /// Bytes of extra dimensions, carried through untouched.
    pub extra: usize,
    /// The Extra Bytes VLR describing them, to be written out verbatim.
    pub extra_vlr: Vec<u8>,
    pub extra_fields: Vec<ExtraByteField>,
}

impl RecordLayout {
    /// Whether the layout is one the converter writes, and small enough to
    /// address.
    pub open spec fn wf(self) -> bool {
        &&& 6 <= self.format <= 8
        &&& base_size(self.format) == Some(self.base)
        &&& self.base + self.extra <= usize::MAX
    }

    pub fn new(
        format: u8,
        extra: usize,
        extra_vlr: Vec<u8>,
        extra_fields: Vec<ExtraByteField>,
    ) -> (r: Result<Self, Error>)
        requires
            extra + 38 <= usize::MAX,
        ensures
            match r {
                Ok(l) => {
                    &&& 6 <= format <= 8
                    &&& l.wf()
                    &&& l.format == format
                    &&& l.extra == extra
                    &&& l.extra_vlr == extra_vlr
                    &&& l.extra_fields == extra_fields
                },
                Err(e) => !(6 <= format <= 8) && e@ == Failure::Unsupported(
                    "the converter writes point formats 6, 7 and 8; "@ + decimal(format as nat)
                        + " was asked for"@,
                ),
            },
    {
        if !(6 <= format && format <= 8) {
            let n = decimal_of(format as u64);
            return Err(
                Error::Unsupported(
                    cat3(
                        "the converter writes point formats 6, 7 and 8; ",
                        n.as_str(),
                        " was asked for",
                    ),
                ),
            );
        }
        match las_base_size(format) {
            Ok(base) => Ok(RecordLayout { format, base, extra, extra_vlr, extra_fields }),
            Err(e) => Err(e),
        }
    }

    pub fn stride(&self) -> (n: usize)
        requires
            self.wf(),
        ensures
            n == self.base + self.extra,
    {
        self.base + self.extra
    }

    pub fn has_color(&self) -> (r: bool)
        ensures
            r == (self.format == 7 || self.format == 8),
    {
        self.format == 7 || self.format == 8
    }

    pub fn has_nir(&self) -> (r: bool)
        ensures
            r == (self.format == 8),
    {
        self.format == 8
    }
}

/// The position integer of an axis.
pub open spec fn axis_of(record: Seq<u8>, axis: int) -> int {
    signed32(le32(record, 4 * axis))
}

/// Read the three position integers.
pub fn position(record: &[u8]) -> (p: [i32; 3])
    requires
        record.len() >= 12,
    ensures
        p[0] == axis_of(record@, 0),
        p[1] == axis_of(record@, 1),
        p[2] == axis_of(record@, 2),
{
    [i32_at(record, 0), i32_at(record, 4), i32_at(record, 8)]
}

/// Write the three position integers.
pub fn set_position(record: &mut [u8], value: [i32; 3])
    requires
        old(record).len() >= 12,
    ensures
        same_outside(final(record)@, old(record)@, 0, 12),
        axis_of(final(record)@, 0) == value[0],
        axis_of(final(record)@, 1) == value[1],
        axis_of(final(record)@, 2) == value[2],
{
    write_i32(record, 0, value[0]);
    write_i32(record, 4, value[1]);
    write_i32(record, 8, value[2]);
}

/// The two's complement pattern of a 32-bit number.
pub open spec fn pattern32(n: int) -> int {
    if n < 0 {
        n + 0x1_0000_0000
    } else {
        n
    }
}

/// A legacy scan angle, from whole degrees to the nearest count of 0.006
/// degrees.
pub open spec fn is_scan_angle(rank: int, angle: int) -> bool {
    -1 <= 3 * angle - 500 * rank <= 1
}

/// Whole degrees to 0.006-degree increments, to the nearest.
pub fn scan_angle(rank: i8) -> (angle: i16)
    ensures
        is_scan_angle(rank as int, angle as int),
        -21334 <= angle <= 21167,
{
    let n: i32 = 500 * rank as i32;
    if n >= 0 {
        let q: u32 = (n as u32 + 1) / 3;
        q as i16
    } else {
        let q: u32 = ((-n) as u32 + 1) / 3;
        -(q as i16)
    }
}

/// The count of 0.006 degrees nearest to some whole degrees.
pub open spec fn angle_of(rank: int) -> int {
    if rank >= 0 {
        (500 * rank + 1) / 3
    } else {
        -((-500 * rank + 1) / 3)
    }
}

/// The number that a byte holds in two's complement.
pub open spec fn signed8(b: u8) -> int {
    if b < 128 {
        b as int
    } else {
        b - 256
    }
}

/// The bytes of a scan angle.
pub open spec fn angle_bytes(rank: u8) -> Seq<u8> {
    let a = angle_of(signed8(rank));
    bytes16(
        if a < 0 {
            a + 0x1_0000
        } else {
            a
        },
    )
}

/// The ten bytes from the returns to the point source id, from a legacy record:
/// the return counts widened, the flags parted from the classification, and the
/// angle in the modern unit.
pub open spec fn legacy_middle(s: Seq<u8>) -> Seq<u8> {
    let bits = s[14];
    let class = s[15];
    seq![
        (bits % 8 + bits / 8 % 8 * 16) as u8,
        (class / 32 + bits / 64 % 2 * 64 + bits / 128 * 128) as u8,
        (class % 32) as u8,
        s[17],
    ] + angle_bytes(s[16]) + s.subrange(18, 20)
}

/// The same, from a modern record.
pub open spec fn modern_middle(s: Seq<u8>) -> Seq<u8> {
    s.subrange(14, 22)
}

/// Where a format keeps its GPS time.
pub open spec fn time_at(format: u8) -> int {
    if format <= 5 {
        20
    } else {
        22
    }
}

/// The position and the intensity.
pub open spec fn head_part(s: Seq<u8>, p: Seq<i32>) -> Seq<u8> {
    bytes32(pattern32(p[0] as int)) + bytes32(pattern32(p[1] as int)) + bytes32(
        pattern32(p[2] as int),
    ) + s.subrange(12, 14)
}

/// The bytes from the returns to the point source id.
pub open spec fn middle_part(format: u8, s: Seq<u8>) -> Seq<u8> {
    if format <= 5 {
        legacy_middle(s)
    } else {
        modern_middle(s)
    }
}

/// The time, or zeros where the source has none.
pub open spec fn time_part(format: u8, s: Seq<u8>) -> Seq<u8> {
    if timed(format) {
        s.subrange(time_at(format), time_at(format) + 8)
    } else {
        zeros(8)
    }
}

/// The colour, where the output has any: white where the source has none.
pub open spec fn color_part(format: u8, s: Seq<u8>, out_format: u8) -> Seq<u8> {
    if out_format != 7 && out_format != 8 {
        Seq::empty()
    } else if colored(format) {
        s.subrange(color_at(format) as int, color_at(format) + 6)
    } else {
        Seq::new(6, |i: int| 255u8)
    }
}

/// The near infrared, where the output has any.
pub open spec fn nir_part(format: u8, s: Seq<u8>, out_format: u8) -> Seq<u8> {
    if out_format != 8 {
        Seq::empty()
    } else if format == 8 || format == 10 {
        s.subrange(color_at(format) + 6, color_at(format) + 8)
    } else {
        zeros(2)
    }
}

/// The extra dimensions, as many as both sides have, zeros for the rest.
pub open spec fn extra_part(base: int, s: Seq<u8>, out_extra: nat) -> Seq<u8> {
    let have = s.len() - base;
    let copy = if have < out_extra {
        have
    } else {
        out_extra as int
    };
    s.subrange(base, base + copy) + zeros((out_extra - copy) as nat)
}

/// A source record in a source format, as the canonical record of a layout,
/// with its position requantized to `p`.
pub open spec fn converted(
    format: u8,
    s: Seq<u8>,
    p: Seq<i32>,
    out_format: u8,
    out_extra: nat,
) -> Seq<u8> {
    head_part(s, p) + middle_part(format, s) + time_part(format, s) + color_part(
        format,
        s,
        out_format,
    ) + nir_part(format, s, out_format) + extra_part(
        base_size(format)->0 as int,
        s,
        out_extra,
    )
}

fn put_head(out: &mut Vec<u8>, s: &[u8], p: &[i32; 3])
    requires
        s.len() >= 20,
    ensures
        final(out)@ == old(out)@ + head_part(s@, p@),
{
    put_u32(out, as_pattern(p[0]));
    put_u32(out, as_pattern(p[1]));
    put_u32(out, as_pattern(p[2]));
    put_range(out, s, 12, 14);
    assert(out@ =~= old(out)@ + head_part(s@, p@));
}

fn put_middle(out: &mut Vec<u8>, s: &[u8], format: u8)
    requires
        s.len() >= if format <= 5 {
            20int
        } else {
            30
        },
    ensures
        final(out)@ == old(out)@ + middle_part(format, s@),
{
    if format <= 5 {
        let bits: u8 = s[14];
        let class: u8 = s[15];
        out.push(bits % 8 + bits / 8 % 8 * 16);
        out.push(class / 32 + bits / 64 % 2 * 64 + bits / 128 * 128);
        out.push(class % 32);
        out.push(s[17]);
        put_angle(out, s[16]);
        put_range(out, s, 18, 20);
        assert(out@ =~= old(out)@ + legacy_middle(s@));
    } else {
        put_range(out, s, 14, 22);
    }
}

fn put_time(out: &mut Vec<u8>, s: &[u8], format: u8)
    requires
        base_size(format) is Some,
        s.len() >= base_size(format)->0,
    ensures
        final(out)@ == old(out)@ + time_part(format, s@),
{
    if las_format_has_gps_time(format) {
        let at: usize = if format <= 5 {
            20
        } else {
            22
        };
        put_range(out, s, at, at + 8);
    } else {
        put_zeros(out, 8);
    }
}

fn put_color(out: &mut Vec<u8>, s: &[u8], format: u8, out_format: u8)
    requires
        base_size(format) is Some,
        s.len() >= base_size(format)->0,
    ensures
        final(out)@ == old(out)@ + color_part(format, s@, out_format) + nir_part(
            format,
            s@,
            out_format,
        ),
{
    let rgb: usize = if format > 5 {
        30
    } else if format == 2 {
        20
    } else {
        28
    };
    assert(old(out)@ + Seq::<u8>::empty() =~= old(out)@);
    if out_format == 7 || out_format == 8 {
        if las_format_has_color(format) {
            put_range(out, s, rgb, rgb + 6);
        } else {
            put_u32(out, 0xffff_ffff);
            put_u16(out, 0xffff);
            assert(out@ =~= old(out)@ + Seq::new(6, |i: int| 255u8));
        }
    }
    assert(out@ + Seq::<u8>::empty() =~= out@);
    if out_format == 8 {
        if format == 8 || format == 10 {
            put_range(out, s, rgb + 6, rgb + 8);
        } else {
            put_zeros(out, 2);
        }
    }
}

fn put_extra(out: &mut Vec<u8>, s: &[u8], base: usize, extra: usize)
    requires
        base <= s.len(),
    ensures
        final(out)@ == old(out)@ + extra_part(base as int, s@, extra as nat),
{
    let have: usize = s.len() - base;
    let copy: usize = if have < extra {
        have
    } else {
        extra
    };
    put_range(out, s, base, base + copy);
    put_zeros(out, extra - copy);
    assert(out@ =~= old(out)@ + extra_part(base as int, s@, extra as nat));
}

proof fn lemma_six_parts(
    o: Seq<u8>,
    a: Seq<u8>,
    b: Seq<u8>,
    c: Seq<u8>,
    d: Seq<u8>,
    e: Seq<u8>,
    f: Seq<u8>,
)
    ensures
        (o + a + b + c + d + e) + f == o + (a + b + c + d + e + f),
{
    assert((o + a + b + c + d + e) + f =~= o + (a + b + c + d + e + f));
}

/// What is said of records too short for their format.
pub open spec fn short_record(stride: nat, format: u8, base: nat) -> Failure {
    Failure::NotFormat {
        format: "a LAS file"@,
        detail: "the header declares a "@ + decimal(stride) + "-byte record for point format "@
            + decimal(format as nat) + ", which needs "@ + decimal(base),
    }
}

/// How to turn one source record into a canonical one.
///
/// The quantum and origin of the two sides belong to the caller, which hands
/// the requantized positions in.
#[derive(Debug)]
pub struct RecordConverter {
    pub source_format: u8,
    pub source_stride: usize,
    pub layout: RecordLayout,
}

impl RecordConverter {
    /// Whether the source record holds what its format says it holds.
    pub open spec fn wf(self) -> bool {
        &&& self.layout.wf()
        &&& base_size(self.source_format) matches Some(base) && base <= self.source_stride
    }

    /// The converter for records of a format and a stride.
    pub fn from_parts(format: u8, stride: usize, layout: RecordLayout) -> (r: Result<Self, Error>)
        requires
            layout.wf(),
        ensures
            match r {
                Ok(c) => {
                    &&& c.wf()
                    &&& c.source_format == format
                    &&& c.source_stride == stride
                    &&& c.layout == layout
                },
                Err(e) => match base_size(format) {
                    None => e@ == unknown_format(format),
                    Some(base) => stride < base && e@ == short_record(
                        stride as nat,
                        format,
                        base as nat,
                    ),
                },
            },
    {
        let base: usize = match las_base_size(format) {
            Ok(n) => n,
            Err(e) => {
                return Err(e);
            },
        };
        if stride < base {
            let s = decimal_of(stride as u64);
            let f = decimal_of(format as u64);
            let b = decimal_of(base as u64);
            return Err(
                Error::not_format(
                    "a LAS file",
                    cat2(
                        cat5(
                            "the header declares a ",
                            s.as_str(),
                            "-byte record for point format ",
                            f.as_str(),
                            ", which needs ",
                        ).as_str(),
                        b.as_str(),
                    ),
                ),
            );
        }
        Ok(RecordConverter { source_format: format, source_stride: stride, layout })
    }

    /// How to turn the records of a LAS file into canonical ones.
    pub fn new(header: &LasHeader, layout: RecordLayout) -> (r: Result<Self, Error>)
        requires
            layout.wf(),
        ensures
            match r {
                Ok(c) => {
                    &&& c.wf()
                    &&& c.source_format == header.point_format
                    &&& c.source_stride == header.point_size
                    &&& c.layout == layout
                },
                Err(e) => match base_size(header.point_format) {
                    None => e@ == unknown_format(header.point_format),
                    Some(base) => header.point_size < base && e@ == short_record(
                        header.point_size as nat,
                        header.point_format,
                        base as nat,
                    ),
                },
            },
    {
        RecordConverter::from_parts(header.point_format, header.point_size as usize, layout)
    }

    pub fn source_stride(&self) -> (n: usize)
        ensures
            n == self.source_stride,
    {
        self.source_stride
    }

    pub fn source_format(&self) -> (n: u8)
        ensures
            n == self.source_format,
    {
        self.source_format
    }

    pub fn layout(&self) -> (l: &RecordLayout)
        ensures
            *l == self.layout,
    {
        &self.layout
    }

    /// Appends the canonical form of one source record.
    fn convert_one(&self, s: &[u8], p: &[i32; 3], out: &mut Vec<u8>)
        requires
            self.wf(),
            s.len() == self.source_stride,
        ensures
            final(out)@ == old(out)@ + converted(
                self.source_format,
                s@,
                p@,
                self.layout.format,
                self.layout.extra as nat,
            ),
    {
        let format: u8 = self.source_format;
        let base: usize = match las_base_size(format) {
            Ok(n) => n,
            Err(_) => 0,
        };
        put_head(out, s, p);
        put_middle(out, s, format);
        put_time(out, s, format);
        put_color(out, s, format, self.layout.format);
        put_extra(out, s, base, self.layout.extra);
        proof {
            lemma_six_parts(
                old(out)@,
                head_part(s@, p@),
                middle_part(format, s@),
                time_part(format, s@),
                color_part(format, s@, self.layout.format),
                nir_part(format, s@, self.layout.format),
                extra_part(base as int, s@, self.layout.extra as nat),
            );
        }
    }

    /// Convert source records into canonical ones, appended to `out`, each with
    /// the position handed in for it. Bytes after the last whole record are
    /// left alone.
    pub fn convert_many(&self, source: &[u8], positions: &Vec<[i32; 3]>, out: &mut Vec<u8>)
        requires
            self.wf(),
            positions@.len() == source@.len() / (self.source_stride as nat),
        ensures
            final(out)@ == old(out)@ + converted_all(*self, source@, positions@, positions@.len()),
    {
        let stride: usize = self.source_stride;
        let n: usize = positions.len();
        let mut i: usize = 0;
        proof {
            assert(old(out)@ + converted_all(*self, source@, positions@, 0) =~= old(out)@);
        }
        while i < n
            invariant
                i <= n,
                n == positions@.len(),
                stride == self.source_stride,
                self.wf(),
                n == source@.len() / (stride as nat),
                out@ == old(out)@ + converted_all(*self, source@, positions@, i as nat),
            decreases n - i,
        {
            proof {
                lemma_chunk_fits(source@.len() as int, stride as int, i as int);
                assert(source@.len() == source.len());
            }
            let record = crate::bytes::slice_of(source, i * stride, i * stride + stride);
            let p: [i32; 3] = positions[i];
            self.convert_one(record.as_slice(), &p, out);
            assert(out@ =~= old(out)@ + converted_all(*self, source@, positions@, (i + 1) as nat));
            i = i + 1;
        }
    }
}

proof fn lemma_chunk_fits(len: int, stride: int, i: int)
    requires
        stride > 0,
        0 <= i < len / stride,
    ensures
        0 <= i * stride,
        i * stride + stride <= len,
{
    vstd::arithmetic::div_mod::lemma_fundamental_div_mod(len, stride);
    assert(i * stride + stride <= stride * (len / stride)) by (nonlinear_arith)
        requires
            0 <= i < len / stride,
            stride > 0,
    ;
    assert(0 <= i * stride) by (nonlinear_arith)
        requires
            0 <= i,
            stride > 0,
    ;
}

/// The first `n` records of a source, converted one after another.
pub open spec fn converted_all(
    c: RecordConverter,
    source: Seq<u8>,
    positions: Seq<[i32; 3]>,
    n: nat,
) -> Seq<u8>
    decreases n,
{
    if n == 0 {
        Seq::empty()
    } else {
        let i = n - 1;
        let stride = c.source_stride as int;
        converted_all(c, source, positions, (n - 1) as nat) + converted(
            c.source_format,
            source.subrange(i * stride, i * stride + stride),
            positions[i]@,
            c.layout.format,
            c.layout.extra as nat,
        )
    }
}

fn put_angle(out: &mut Vec<u8>, rank: u8)
    ensures
        final(out)@ == old(out)@ + angle_bytes(rank),
{
    let signed: i8 = if rank < 128 {
        rank as i8
    } else {
        (rank as i16 - 256) as i8
    };
    let angle: i16 = scan_angle(signed);
    let pattern: u16 = if angle < 0 {
        (angle as i32 + 0x1_0000) as u16
    } else {
        angle as u16
    };
    assert(angle == angle_of(signed8(rank)));
    put_u16(out, pattern);
}

/// A modern record of the output's own format and stride passes through
/// unchanged, its position included when the quantum does not change.
pub proof fn modern_records_pass_through(format: u8, s: Seq<u8>, p: Seq<i32>, extra: nat)
    requires
        6 <= format <= 8,
        s.len() == base_size(format)->0 + extra,
        p.len() == 3,
        forall|axis: int| 0 <= axis < 3 ==> #[trigger] p[axis] == axis_of(s, axis),
    ensures
        converted(format, s, p, format, extra) == s,
{
    lemma_pattern_of(s, 0);
    lemma_pattern_of(s, 4);
    lemma_pattern_of(s, 8);
    assert(p[0] == axis_of(s, 0) && p[1] == axis_of(s, 1) && p[2] == axis_of(s, 2));
    assert(head_part(s, p) =~= s.take(14));
    assert(zeros(0) =~= Seq::<u8>::empty());
    assert(converted(format, s, p, format, extra) =~= s);
}

proof fn lemma_pattern_of(s: Seq<u8>, at: int)
    requires
        0 <= at,
        at + 4 <= s.len(),
    ensures
        pattern32(signed32(le32(s, at))) == le32(s, at),
        bytes32(le32(s, at)) == s.subrange(at, at + 4),
{
    lemma_digits(s[at] as int, s[at + 1] as int, s[at + 2] as int, s[at + 3] as int);
    assert(bytes32(le32(s, at)) =~= s.subrange(at, at + 4));
}

proof fn lemma_digits(a: int, b: int, c: int, d: int)
    requires
        0 <= a < 0x100,
        0 <= b < 0x100,
        0 <= c < 0x100,
        0 <= d < 0x100,
    ensures
        ({
            let n = a + 0x100 * b + 0x1_0000 * c + 0x100_0000 * d;
            n % 0x100 == a && n / 0x100 % 0x100 == b && n / 0x1_0000 % 0x100 == c && n / 0x100_0000
                % 0x100 == d
        }),
{
    let n = a + 0x100 * b + 0x1_0000 * c + 0x100_0000 * d;
    let m = b + 0x100 * c + 0x1_0000 * d;
    let k = c + 0x100 * d;
    assert(n == a + 0x100 * m);
    assert(n % 0x100 == a && n / 0x100 == m);
    assert(m == b + 0x100 * k);
    assert(m % 0x100 == b);
    assert(n == (a + 0x100 * b) + 0x1_0000 * k);
    assert(n / 0x1_0000 == k);
    assert(k % 0x100 == c);
    assert(n == (a + 0x100 * b + 0x1_0000 * c) + 0x100_0000 * d);
    assert(n / 0x100_0000 == d);
}

/// The point format that can hold everything the inputs carry: never below 6.
pub fn output_format(any_color: bool, any_nir: bool) -> (format: u8)
    ensures
        format == if any_nir {
            8int
        } else if any_color {
            7
        } else {
            6
        },
        colored(format) == (any_color || any_nir),
{
    if any_nir {
        8
    } else if any_color {
        7
    } else {
        6
    }
}

/// The neutral attribute list for a canonical record, for a manifest to state.
pub fn layout_attributes(layout: &RecordLayout, bounds: Bounds) -> (out: Vec<Attribute>)
    requires
        layout.wf(),
    ensures
        columns(out@) == layout_of(
            layout.format,
            (layout.base + layout.extra) as usize,
            if layout.extra_vlr@.len() > 0 {
                Some(layout.extra_vlr@)
            } else {
                None
            },
            Domain { bounds, gps_time_range: None },
        ).attributes.map_values(|p: Placed| p.column),
{
    let extra_bytes: Option<&[u8]> = if layout.extra_vlr.len() > 0 {
        Some(layout.extra_vlr.as_slice())
    } else {
        None
    };
    let options = LasLayoutOptions {
        format: layout.format,
        point_size: layout.stride(),
        extra_bytes,
        bounds,
        gps_time_range: None,
    };
    match las_layout(&options) {
        Ok(l) => l.plain(),
        Err(_) => Vec::new(),
    }
}

/// The width one attribute type occupies, for a writer laying out a record.
pub fn type_size(kind: AttributeType) -> (n: usize)
    ensures
        n == kind.width(),
{
    kind.size()
}

} // verus!
