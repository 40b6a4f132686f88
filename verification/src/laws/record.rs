//! What the canonical record keeps of a source record, field by field.

use crate::las::point_format::{base_size, colored, timed};
use crate::record::{
    angle_of, converted, converted_all, head_part, middle_part, pattern32, signed8, time_part,
    RecordConverter,
};
use vstd::prelude::*;

verus! {

/// Bytes of a record before its extra dimensions, as the format is published.
pub proof fn base_sizes_are_the_published_ones()
    ensures
        base_size(0) == Some(20usize),
        base_size(1) == Some(28usize),
        base_size(2) == Some(26usize),
        base_size(3) == Some(34usize),
        base_size(4) == Some(57usize),
        base_size(5) == Some(63usize),
        base_size(6) == Some(30usize),
        base_size(7) == Some(36usize),
        base_size(8) == Some(38usize),
        base_size(9) == Some(59usize),
        base_size(10) == Some(67usize),
        forall|format: u8| format > 10 ==> base_size(format) is None,
{
}

/// Which formats carry time and colour, as the formats are published.
pub proof fn formats_carry_what_is_published(format: u8)
    requires
        format <= 10,
    ensures
        timed(format) <==> format == 1 || format >= 3,
        colored(format) <==> format == 2 || format == 3 || format == 5 || format == 7 || format == 8
            || format == 10,
{
}

proof fn lemma_parts(format: u8, s: Seq<u8>, p: Seq<i32>, out_format: u8, extra: nat)
    requires
        format <= 10,
        base_size(format) matches Some(n) && n <= s.len(),
        p.len() == 3,
        6 <= out_format <= 8,
    ensures
        ({
            let c = converted(format, s, p, out_format, extra);
            &&& c.len() == (if out_format == 6 {
                30int
            } else if out_format == 7 {
                36
            } else {
                38
            }) + extra
            &&& forall|i: int| 0 <= i < 14 ==> #[trigger] c[i] == head_part(s, p)[i]
            &&& forall|i: int| 14 <= i < 22 ==> #[trigger] c[i] == middle_part(format, s)[i - 14]
            &&& forall|i: int| 22 <= i < 30 ==> #[trigger] c[i] == time_part(format, s)[i - 22]
        }),
{
    assert(head_part(s, p).len() == 14);
    assert(middle_part(format, s).len() == 8);
    assert(time_part(format, s).len() == 8);
}

/// The GPS time of a source that has one is carried over, from where its format
/// keeps it; a source without one leaves zeros.
pub proof fn the_time_is_carried(format: u8, s: Seq<u8>, p: Seq<i32>, out_format: u8, extra: nat)
    requires
        format <= 10,
        base_size(format) matches Some(n) && n <= s.len(),
        p.len() == 3,
        6 <= out_format <= 8,
    ensures
        format == 1 || format == 3 || format == 4 || format == 5 ==> forall|i: int|
            0 <= i < 8 ==> #[trigger] converted(format, s, p, out_format, extra)[22 + i] == s[20 + i],
        format >= 6 ==> forall|i: int|
            0 <= i < 8 ==> #[trigger] converted(format, s, p, out_format, extra)[22 + i] == s[22 + i],
        format == 0 || format == 2 ==> forall|i: int|
            0 <= i < 8 ==> #[trigger] converted(format, s, p, out_format, extra)[22 + i] == 0,
{
    lemma_parts(format, s, p, out_format, extra);
    let c = converted(format, s, p, out_format, extra);
    let t = time_part(format, s);
    assert forall|i: int| 0 <= i < 8 implies #[trigger] c[22 + i] == t[i] by {}
}

/// The position is the one that was handed in, and the intensity the source's.
pub proof fn the_head_is_carried(format: u8, s: Seq<u8>, p: Seq<i32>, out_format: u8, extra: nat)
    requires
        format <= 10,
        base_size(format) matches Some(n) && n <= s.len(),
        p.len() == 3,
        6 <= out_format <= 8,
    ensures
        forall|axis: int|
            0 <= axis < 3 ==> {
                let c = converted(format, s, p, out_format, extra);
                let n = c[4 * axis] + 0x100 * c[4 * axis + 1] + 0x1_0000 * c[4 * axis + 2]
                    + 0x100_0000 * c[4 * axis + 3];
                n == #[trigger] p[axis] || n == p[axis] + 0x1_0000_0000
            },
        converted(format, s, p, out_format, extra)[12] == s[12],
        converted(format, s, p, out_format, extra)[13] == s[13],
{
    lemma_parts(format, s, p, out_format, extra);
    let c = converted(format, s, p, out_format, extra);
    let h = head_part(s, p);
    assert(h[12] == s[12] && h[13] == s[13]);
    assert forall|axis: int| 0 <= axis < 3 implies {
        let n = c[4 * axis] + 0x100 * c[4 * axis + 1] + 0x1_0000 * c[4 * axis + 2] + 0x100_0000
            * c[4 * axis + 3];
        n == #[trigger] p[axis] || n == p[axis] + 0x1_0000_0000
    } by {
        let n = pattern32(p[axis] as int);
        lemma_digits(n);
        if axis == 0 {
            assert(h[0] == n % 0x100 && h[1] == n / 0x100 % 0x100 && h[2] == n / 0x1_0000 % 0x100
                && h[3] == n / 0x100_0000 % 0x100);
        } else if axis == 1 {
            assert(h[4] == n % 0x100 && h[5] == n / 0x100 % 0x100 && h[6] == n / 0x1_0000 % 0x100
                && h[7] == n / 0x100_0000 % 0x100);
        } else {
            assert(h[8] == n % 0x100 && h[9] == n / 0x100 % 0x100 && h[10] == n / 0x1_0000 % 0x100
                && h[11] == n / 0x100_0000 % 0x100);
        }
    }
}

proof fn lemma_digits(n: int)
    requires
        0 <= n < 0x1_0000_0000,
    ensures
        n == n % 0x100 + 0x100 * (n / 0x100 % 0x100) + 0x1_0000 * (n / 0x1_0000 % 0x100) + 0x100_0000
            * (n / 0x100_0000 % 0x100),
{
    assert(n / 0x1_0000 == n / 0x100 / 0x100);
    assert(n / 0x100_0000 == n / 0x1_0000 / 0x100);
}

/// The fields between the intensity and the time, out of a legacy record: the
/// return and the number of returns, the three flags of the classification, the
/// direction and the edge, the class, the user's byte, the angle to the nearest
/// count of 0.006 degrees, and the id of the source.
pub proof fn the_legacy_fields_are_carried(
    format: u8,
    s: Seq<u8>,
    p: Seq<i32>,
    out_format: u8,
    extra: nat,
)
    requires
        format <= 5,
        base_size(format) matches Some(n) && n <= s.len(),
        p.len() == 3,
        6 <= out_format <= 8,
    ensures
        ({
            let c = converted(format, s, p, out_format, extra);
            &&& c[14] % 16 == s[14] % 8
            &&& c[14] / 16 == s[14] / 8 % 8
            &&& c[15] % 64 == s[15] / 32
            &&& c[15] / 64 % 2 == s[14] / 64 % 2
            &&& c[15] / 128 == s[14] / 128
            &&& c[16] == s[15] % 32
            &&& c[17] == s[17]
            &&& c[20] == s[18]
            &&& c[21] == s[19]
            &&& ({
                let rank = if s[16] < 128 {
                    s[16] as int
                } else {
                    s[16] - 256
                };
                let pattern = c[18] + 256 * c[19];
                let angle = if pattern < 0x8000 {
                    pattern
                } else {
                    pattern - 0x1_0000
                };
                -1 <= 3 * angle - 500 * rank <= 1
            })
        }),
{
    lemma_parts(format, s, p, out_format, extra);
    let c = converted(format, s, p, out_format, extra);
    let m = middle_part(format, s);
    let bits = s[14];
    let class = s[15];
    assert(c[14] == m[0] && c[15] == m[1] && c[16] == m[2] && c[17] == m[3] && c[18] == m[4]
        && c[19] == m[5] && c[20] == m[6] && c[21] == m[7]);
    lemma_bits(bits as int, class as int);
    assert(m[0] == bits % 8 + bits / 8 % 8 * 16);
    assert(m[1] == class / 32 + bits / 64 % 2 * 64 + bits / 128 * 128);
    assert(m[2] == class % 32 && m[3] == s[17]);
    assert(m[6] == s[18] && m[7] == s[19]);
    let a = angle_of(signed8(s[16]));
    let n = if a < 0 {
        a + 0x1_0000
    } else {
        a
    };
    lemma_angle(signed8(s[16]));
    assert(m[4] == n % 0x100 && m[5] == n / 0x100 % 0x100);
}

proof fn lemma_bits(bits: int, class: int)
    requires
        0 <= bits < 256,
        0 <= class < 256,
    ensures
        ({
            let a = bits % 8 + bits / 8 % 8 * 16;
            let b = class / 32 + bits / 64 % 2 * 64 + bits / 128 * 128;
            &&& 0 <= a < 256
            &&& 0 <= b < 256
            &&& a % 16 == bits % 8
            &&& a / 16 == bits / 8 % 8
            &&& b % 64 == class / 32
            &&& b / 64 % 2 == bits / 64 % 2
            &&& b / 128 == bits / 128
        }),
{
}

proof fn lemma_angle(rank: int)
    requires
        -128 <= rank < 128,
    ensures
        ({
            let a = angle_of(rank);
            let n = if a < 0 {
                a + 0x1_0000
            } else {
                a
            };
            &&& -0x8000 <= a < 0x8000
            &&& -1 <= 3 * a - 500 * rank <= 1
            &&& n % 0x100 + 256 * (n / 0x100 % 0x100) == n
        }),
{
}

/// The fields between the intensity and the time, out of a modern record, are
/// carried as they are.
pub proof fn the_modern_fields_are_carried(
    format: u8,
    s: Seq<u8>,
    p: Seq<i32>,
    out_format: u8,
    extra: nat,
)
    requires
        6 <= format <= 10,
        base_size(format) matches Some(n) && n <= s.len(),
        p.len() == 3,
        6 <= out_format <= 8,
    ensures
        forall|i: int| 14 <= i < 22 ==> #[trigger] converted(format, s, p, out_format, extra)[i] == s[i],
{
    lemma_parts(format, s, p, out_format, extra);
    let m = middle_part(format, s);
    assert forall|i: int| 14 <= i < 22 implies #[trigger] converted(
        format,
        s,
        p,
        out_format,
        extra,
    )[i] == s[i] by {
        assert(m[i - 14] == s[i]);
    }
}

/// The colour of a source that has one is carried over, from where its format
/// keeps it, and so is the near infrared; without a colour a point is white,
/// without near infrared it is zero.
pub proof fn the_color_is_carried(format: u8, s: Seq<u8>, p: Seq<i32>, out_format: u8, extra: nat)
    requires
        format <= 10,
        base_size(format) matches Some(n) && n <= s.len(),
        p.len() == 3,
        7 <= out_format <= 8,
    ensures
        forall|i: int|
            0 <= i < 6 ==> #[trigger] converted(format, s, p, out_format, extra)[30 + i]
                == if format == 2 {
                s[20 + i]
            } else if format == 3 || format == 5 {
                s[28 + i]
            } else if format == 7 || format == 8 || format == 10 {
                s[30 + i]
            } else {
                255
            },
        out_format == 8 ==> forall|i: int|
            0 <= i < 2 ==> #[trigger] converted(format, s, p, out_format, extra)[36 + i]
                == if format == 8 || format == 10 {
                s[36 + i]
            } else {
                0
            },
{
    let c = converted(format, s, p, out_format, extra);
    let front = head_part(s, p) + middle_part(format, s) + time_part(format, s);
    let color = crate::record::color_part(format, s, out_format);
    let nir = crate::record::nir_part(format, s, out_format);
    assert(front.len() == 30);
    assert(color.len() == 6);
    assert forall|i: int| 0 <= i < 6 implies #[trigger] c[30 + i] == color[i] by {}
    if out_format == 8 {
        assert(nir.len() == 2);
        assert forall|i: int| 0 <= i < 2 implies #[trigger] c[36 + i] == nir[i] by {}
    }
}

/// The extra dimensions follow the fields of the layout, byte for byte as far as
/// both sides have them, and zeros after that.
pub proof fn the_extra_bytes_are_carried(
    format: u8,
    s: Seq<u8>,
    p: Seq<i32>,
    out_format: u8,
    extra: nat,
    i: int,
)
    requires
        format <= 10,
        base_size(format) matches Some(n) && n <= s.len(),
        p.len() == 3,
        6 <= out_format <= 8,
        0 <= i < extra,
    ensures
        ({
            let c = converted(format, s, p, out_format, extra);
            let want = if base_size(format)->0 + i < s.len() {
                s[base_size(format)->0 + i]
            } else {
                0u8
            };
            &&& out_format == 6 ==> c[30 + i] == want
            &&& out_format == 7 ==> c[36 + i] == want
            &&& out_format == 8 ==> c[38 + i] == want
        }),
{
    let c = converted(format, s, p, out_format, extra);
    let front = head_part(s, p) + middle_part(format, s) + time_part(format, s)
        + crate::record::color_part(format, s, out_format) + crate::record::nir_part(
        format,
        s,
        out_format,
    );
    let base = base_size(format)->0;
    let e = crate::record::extra_part(base as int, s, extra);
    assert(e.len() == extra);
    assert(c[front.len() + i] == e[i]);
}

/// Record `i` of what many records become is what record `i` of the source
/// becomes, with the position that was handed in for it.
pub proof fn every_record_is_converted_in_its_place(
    c: RecordConverter,
    source: Seq<u8>,
    positions: Seq<[i32; 3]>,
    n: nat,
    i: int,
)
    requires
        c.wf(),
        n <= positions.len(),
        n * c.source_stride <= source.len(),
        0 <= i < n,
    ensures
        ({
            let stride = (c.layout.base + c.layout.extra) as int;
            let from = c.source_stride as int;
            &&& converted_all(c, source, positions, n).len() == n * stride
            &&& converted_all(c, source, positions, n).subrange(i * stride, i * stride + stride)
                == converted(
                c.source_format,
                source.subrange(i * from, i * from + from),
                positions[i]@,
                c.layout.format,
                c.layout.extra as nat,
            )
        }),
    decreases n,
{
    let stride = (c.layout.base + c.layout.extra) as int;
    let from = c.source_stride as int;
    let all = converted_all(c, source, positions, n);
    let m = (n - 1) as nat;
    let before = converted_all(c, source, positions, m);
    let s = source.subrange(m * from, m * from + from);
    let last = converted(
        c.source_format,
        s,
        positions[m as int]@,
        c.layout.format,
        c.layout.extra as nat,
    );
    assert(m * from + from <= n * from && 0 <= m * from) by (nonlinear_arith)
        requires
            m + 1 == n,
            0 <= m,
            0 <= from,
    ;
    lemma_parts(
        c.source_format,
        s,
        positions[m as int]@,
        c.layout.format,
        c.layout.extra as nat,
    );
    assert(last.len() == stride);
    assert(m * stride + stride == n * stride) by (nonlinear_arith)
        requires
            m + 1 == n,
    ;
    lemma_len(c, source, positions, m);
    if i == m {
        assert(all.subrange(i * stride, i * stride + stride) =~= last);
    } else {
        every_record_is_converted_in_its_place(c, source, positions, m, i);
        assert(i * stride + stride <= m * stride && 0 <= i * stride) by (nonlinear_arith)
            requires
                0 <= i < m,
                0 <= stride,
        ;
        assert(all.subrange(i * stride, i * stride + stride) =~= before.subrange(
            i * stride,
            i * stride + stride,
        ));
    }
}

proof fn lemma_len(c: RecordConverter, source: Seq<u8>, positions: Seq<[i32; 3]>, n: nat)
    requires
        c.wf(),
        n <= positions.len(),
        n * c.source_stride <= source.len(),
    ensures
        converted_all(c, source, positions, n).len() == n * (c.layout.base + c.layout.extra),
    decreases n,
{
    if n > 0 {
        let m = (n - 1) as nat;
        let from = c.source_stride as int;
        let stride = c.layout.base + c.layout.extra;
        assert(m * from + from <= n * from && 0 <= m * from) by (nonlinear_arith)
            requires
                m + 1 == n,
                0 <= m,
                0 <= from,
        ;
        lemma_len(c, source, positions, m);
        lemma_parts(
            c.source_format,
            source.subrange(m * from, m * from + from),
            positions[m as int]@,
            c.layout.format,
            c.layout.extra as nat,
        );
        assert(m * stride + stride == n * stride) by (nonlinear_arith)
            requires
                m + 1 == n,
        ;
    } else {
        assert(0 * (c.layout.base + c.layout.extra) == 0);
    }
}

} // verus!
