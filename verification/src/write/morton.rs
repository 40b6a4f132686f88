//! Morton (Z-order) interleaving for the Potree BROTLI encoding.
//!
//! Positions become a 16-byte record and colours an 8-byte one, three
//! components interleaved bit by bit, with the dwords in the order that the
//! format's readers take them: high word first, low word second, each with its
//! own halves swapped.

use crate::bytes::{bytes32, le32, le32_appended, le32_reads_bytes32, le_before, put_u32, u32_at};
use vstd::prelude::*;

verus! {

/// The low 8 bits of a number, spread so that bit `i` lands at place `3 * i`.
pub open spec fn aligned(value: u32) -> u32 {
    let a = value & 0xff;
    let b = (a | (a << 8)) & 0x00f00f;
    let c = (b | (b << 4)) & 0x0c30c3;
    (c | (c << 2)) & 0x249249
}

/// Every third bit of 24 interleaved bits.
pub open spec fn dealigned(code: u32) -> u32 {
    let a = ((code & 0x208208) >> 2) | (code & 0x041041);
    let b = ((a & 0x0c00c0) >> 4) | (a & 0x003003);
    let c = ((b & 0x00f000) >> 8) | (b & 0x0000_000f);
    c & 0xff
}

/// Spread the low 8 bits of `value` so bit *i* lands at position 3*i*.
pub fn align24b(value: u32) -> (r: u32)
    ensures
        r == aligned(value),
{
    let a: u32 = value & 0xff;
    let b: u32 = (a | (a << 8)) & 0x00f00f;
    let c: u32 = (b | (b << 4)) & 0x0c30c3;
    (c | (c << 2)) & 0x249249
}

/// Extract every third bit from 24 interleaved bits, yielding 8.
pub fn dealign24b(code: u32) -> (r: u32)
    ensures
        r == dealigned(code),
{
    let a: u32 = ((code & 0x208208) >> 2) | (code & 0x041041);
    let b: u32 = ((a & 0x0c00c0) >> 4) | (a & 0x003003);
    let c: u32 = ((b & 0x00f000) >> 8) | (b & 0x0000_000f);
    c & 0xff
}

/// One byte of each of three components, interleaved.
pub open spec fn woven(x: u32, y: u32, z: u32) -> u32 {
    aligned(x) | (aligned(y) << 1) | (aligned(z) << 2)
}

/// Interleave one byte of each component into a 24-bit code.
pub fn interleave(x: u32, y: u32, z: u32) -> (r: u32)
    ensures
        r == woven(x, y, z),
{
    align24b(x) | (align24b(y) << 1) | (align24b(z) << 2)
}

/// Every spread bit stands three times as far from the end.
pub proof fn aligned_places(value: u32, i: u32)
    requires
        i < 8,
    ensures
        (aligned(value) >> ((3 * i) as u32)) & 1 == (value >> i) & 1,
{
    assert(i < 8 ==> (({
        let a = value & 0xff;
        let b = (a | (a << 8)) & 0x00f00f;
        let c = (b | (b << 4)) & 0x0c30c3;
        (c | (c << 2)) & 0x249249
    }) >> ((3 * i) as u32)) & 1 == (value >> i) & 1) by (bit_vector);
}

proof fn lemma_aligned(v: u32)
    ensures
        aligned(v) & 0x249249 == aligned(v),
        aligned(v) < 0x100_0000,
        v < 256 ==> dealigned(aligned(v)) == v,
{
    assert(({
        let a = v & 0xff;
        let b = (a | (a << 8)) & 0x00f00f;
        let c = (b | (b << 4)) & 0x0c30c3;
        let s = (c | (c << 2)) & 0x249249;
        let d = ((s & 0x208208) >> 2) | (s & 0x041041);
        let e = ((d & 0x0c00c0) >> 4) | (d & 0x003003);
        let f = ((e & 0x00f000) >> 8) | (e & 0x0000_000f);
        s & 0x249249 == s && s < 0x100_0000 && (v < 256 ==> f & 0xff == v)
    })) by (bit_vector);
}

/// Gathering the bits of a spread byte gives the byte back.
pub proof fn align_then_dealign(v: u32)
    requires
        v < 256,
    ensures
        dealigned(aligned(v)) == v,
{
    lemma_aligned(v);
}

proof fn lemma_masked(code: u32)
    ensures
        dealigned(code) == dealigned(code & 0x249249),
{
    assert(({
        let a = ((code & 0x208208) >> 2) | (code & 0x041041);
        let m = code & 0x249249;
        let a2 = ((m & 0x208208) >> 2) | (m & 0x041041);
        a == a2
    })) by (bit_vector);
}

/// The three components of an interleaved code come apart again.
pub proof fn woven_comes_apart(x: u32, y: u32, z: u32)
    requires
        x < 256,
        y < 256,
        z < 256,
    ensures
        woven(x, y, z) < 0x100_0000,
        dealigned(woven(x, y, z)) == x,
        dealigned(woven(x, y, z) >> 1) == y,
        dealigned(woven(x, y, z) >> 2) == z,
{
    lemma_aligned(x);
    lemma_aligned(y);
    lemma_aligned(z);
    let (a, b, c) = (aligned(x), aligned(y), aligned(z));
    assert(a & 0x249249 == a && b & 0x249249 == b && c & 0x249249 == c ==> ((a | (b << 1) | (c
        << 2)) & 0x249249 == a) && (((a | (b << 1) | (c << 2)) >> 1) & 0x249249 == b) && (((a | (b
        << 1) | (c << 2)) >> 2) & 0x249249 == c) && (a | (b << 1) | (c << 2)) < 0x100_0000)
        by (bit_vector);
    let w = woven(x, y, z);
    lemma_masked(w);
    lemma_masked(w >> 1);
    lemma_masked(w >> 2);
}

/// Byte `i` of three numbers, interleaved.
pub open spec fn byte_code(x: u32, y: u32, z: u32, i: u32) -> u32 {
    let s = (8 * i) as u32;
    woven((x >> s) & 0xff, (y >> s) & 0xff, (z >> s) & 0xff)
}

/// The low dword of two 24-bit codes.
pub open spec fn low_dword(a: u32, b: u32) -> u32 {
    a | ((b & 0xff) << 24)
}

/// The bytes of one position.
pub open spec fn position_bytes(x: u32, y: u32, z: u32) -> Seq<u8> {
    let (a, b) = (byte_code(x, y, z, 0), byte_code(x, y, z, 1));
    let (c, d) = (byte_code(x, y, z, 2), byte_code(x, y, z, 3));
    bytes32(low_dword(c, d) as int) + bytes32((d >> 8) as int) + bytes32(low_dword(a, b) as int)
        + bytes32((b >> 8) as int)
}

/// Appends one 16-byte morton position record.
pub fn put_position(out: &mut Vec<u8>, x: u32, y: u32, z: u32)
    ensures
        final(out)@ == old(out)@ + position_bytes(x, y, z),
{
    assert(x >> 0 == x && y >> 0 == y && z >> 0 == z) by (bit_vector);
    let a: u32 = interleave(x & 0xff, y & 0xff, z & 0xff);
    let b: u32 = interleave((x >> 8) & 0xff, (y >> 8) & 0xff, (z >> 8) & 0xff);
    let c: u32 = interleave((x >> 16) & 0xff, (y >> 16) & 0xff, (z >> 16) & 0xff);
    let d: u32 = interleave((x >> 24) & 0xff, (y >> 24) & 0xff, (z >> 24) & 0xff);
    put_u32(out, c | ((d & 0xff) << 24));
    put_u32(out, d >> 8);
    put_u32(out, a | ((b & 0xff) << 24));
    put_u32(out, b >> 8);
    assert(out@ =~= old(out)@ + position_bytes(x, y, z));
}

/// One 16-byte morton position record.
pub fn encode_position(x: u32, y: u32, z: u32) -> (out: Vec<u8>)
    ensures
        out@ == position_bytes(x, y, z),
        out@.len() == 16,
{
    let mut out: Vec<u8> = Vec::new();
    put_position(&mut out, x, y, z);
    assert(out@ =~= position_bytes(x, y, z));
    out
}

/// The bytes of one colour.
pub open spec fn color_bytes(r: u16, g: u16, b: u16) -> Seq<u8> {
    let (low, high) = (
        byte_code(r as u32, g as u32, b as u32, 0),
        byte_code(r as u32, g as u32, b as u32, 1),
    );
    bytes32(low_dword(low, high) as int) + bytes32((high >> 8) as int)
}

/// Appends one 8-byte morton colour record.
pub fn put_color(out: &mut Vec<u8>, r: u16, g: u16, b: u16)
    ensures
        final(out)@ == old(out)@ + color_bytes(r, g, b),
{
    let (x, y, z): (u32, u32, u32) = (r as u32, g as u32, b as u32);
    assert(x >> 0 == x && y >> 0 == y && z >> 0 == z) by (bit_vector);
    let low: u32 = interleave(x & 0xff, y & 0xff, z & 0xff);
    let high: u32 = interleave((x >> 8) & 0xff, (y >> 8) & 0xff, (z >> 8) & 0xff);
    put_u32(out, low | ((high & 0xff) << 24));
    put_u32(out, high >> 8);
    assert(out@ =~= old(out)@ + color_bytes(r, g, b));
}

/// One 8-byte morton colour record.
pub fn encode_color(r: u16, g: u16, b: u16) -> (out: Vec<u8>)
    ensures
        out@ == color_bytes(r, g, b),
        out@.len() == 8,
{
    let mut out: Vec<u8> = Vec::new();
    put_color(&mut out, r, g, b);
    assert(out@ =~= color_bytes(r, g, b));
    out
}

/// The high of two 24-bit codes that share two dwords.
pub open spec fn high_code(low: u32, high: u32) -> u32 {
    (low >> 24) | (high << 8)
}

/// One component of a position, from its four codes.
pub open spec fn component(a: u32, b: u32, c: u32, d: u32, shift: u32) -> u32 {
    dealigned(a >> shift) | (dealigned(b >> shift) << 8) | (dealigned(c >> shift) << 16) | (
    dealigned(d >> shift) << 24)
}

/// The components of a position record.
pub open spec fn position_of(s: Seq<u8>) -> (u32, u32, u32) {
    let (mc1, mc0) = (le32(s, 0) as u32, le32(s, 4) as u32);
    let (mc3, mc2) = (le32(s, 8) as u32, le32(s, 12) as u32);
    let (a, b) = (mc3 & 0x00ff_ffff, high_code(mc3, mc2));
    let (c, d) = (mc1 & 0x00ff_ffff, high_code(mc1, mc0));
    (component(a, b, c, d, 0), component(a, b, c, d, 1), component(a, b, c, d, 2))
}

/// Read one 16-byte morton position record.
pub fn decode_position(bytes: &[u8]) -> (r: (u32, u32, u32))
    requires
        bytes.len() == 16,
    ensures
        r == position_of(bytes@),
{
    let mc1: u32 = u32_at(bytes, 0);
    let mc0: u32 = u32_at(bytes, 4);
    let mc3: u32 = u32_at(bytes, 8);
    let mc2: u32 = u32_at(bytes, 12);
    let a: u32 = mc3 & 0x00ff_ffff;
    let b: u32 = (mc3 >> 24) | (mc2 << 8);
    let c: u32 = mc1 & 0x00ff_ffff;
    let d: u32 = (mc1 >> 24) | (mc0 << 8);
    let x: u32 = dealign24b(a >> 0) | (dealign24b(b >> 0) << 8) | (dealign24b(c >> 0) << 16) | (
    dealign24b(d >> 0) << 24);
    let y: u32 = dealign24b(a >> 1) | (dealign24b(b >> 1) << 8) | (dealign24b(c >> 1) << 16) | (
    dealign24b(d >> 1) << 24);
    let z: u32 = dealign24b(a >> 2) | (dealign24b(b >> 2) << 8) | (dealign24b(c >> 2) << 16) | (
    dealign24b(d >> 2) << 24);
    (x, y, z)
}

/// One channel of a colour, from its two codes.
pub open spec fn channel(a: u32, b: u32, shift: u32) -> u16 {
    ((dealigned(a >> shift) | (dealigned(b >> shift) << 8)) & 0xffff) as u16
}

/// The channels of a colour record.
pub open spec fn color_of(s: Seq<u8>) -> (u16, u16, u16) {
    let (mc1, mc0) = (le32(s, 0) as u32, le32(s, 4) as u32);
    let (a, b) = (mc1 & 0x00ff_ffff, high_code(mc1, mc0));
    (channel(a, b, 0), channel(a, b, 1), channel(a, b, 2))
}

/// Read one 8-byte morton colour record.
pub fn decode_color(bytes: &[u8]) -> (r: (u16, u16, u16))
    requires
        bytes.len() == 8,
    ensures
        r == color_of(bytes@),
{
    let mc1: u32 = u32_at(bytes, 0);
    let mc0: u32 = u32_at(bytes, 4);
    let a: u32 = mc1 & 0x00ff_ffff;
    let b: u32 = (mc1 >> 24) | (mc0 << 8);
    let r: u16 = ((dealign24b(a >> 0) | (dealign24b(b >> 0) << 8)) & 0xffff) as u16;
    let g: u16 = ((dealign24b(a >> 1) | (dealign24b(b >> 1) << 8)) & 0xffff) as u16;
    let bl: u16 = ((dealign24b(a >> 2) | (dealign24b(b >> 2) << 8)) & 0xffff) as u16;
    (r, g, bl)
}

proof fn lemma_pair(a: u32, b: u32)
    requires
        a < 0x100_0000,
        b < 0x100_0000,
    ensures
        low_dword(a, b) & 0x00ff_ffff == a,
        high_code(low_dword(a, b), b >> 8) == b,
{
    assert(a < 0x100_0000 && b < 0x100_0000 ==> ((a | ((b & 0xff) << 24)) & 0x00ff_ffff == a) && (((
    a | ((b & 0xff) << 24)) >> 24) | ((b >> 8) << 8)) == b) by (bit_vector);
}

proof fn lemma_code(x: u32, y: u32, z: u32, i: u32)
    requires
        i < 4,
    ensures
        byte_code(x, y, z, i) < 0x100_0000,
        dealigned(byte_code(x, y, z, i) >> 0) == (x >> ((8 * i) as u32)) & 0xff,
        dealigned(byte_code(x, y, z, i) >> 1) == (y >> ((8 * i) as u32)) & 0xff,
        dealigned(byte_code(x, y, z, i) >> 2) == (z >> ((8 * i) as u32)) & 0xff,
{
    let s = (8 * i) as u32;
    let (p, q, r) = (x >> s, y >> s, z >> s);
    assert((p & 0xff) < 256 && (q & 0xff) < 256 && (r & 0xff) < 256) by (bit_vector);
    woven_comes_apart(p & 0xff, q & 0xff, r & 0xff);
    let w = byte_code(x, y, z, i);
    assert(w >> 0 == w) by (bit_vector);
}

proof fn lemma_four_bytes(v: u32)
    ensures
        ((v >> 0) & 0xff) | (((v >> 8) & 0xff) << 8) | (((v >> 16) & 0xff) << 16) | (((v >> 24)
            & 0xff) << 24) == v,
{
    assert(((v >> 0) & 0xff) | (((v >> 8) & 0xff) << 8) | (((v >> 16) & 0xff) << 16) | (((v >> 24)
        & 0xff) << 24) == v) by (bit_vector);
}

/// A position that was written is read back, every bit of it.
pub proof fn position_reads_back(x: u32, y: u32, z: u32)
    ensures
        position_bytes(x, y, z).len() == 16,
        position_of(position_bytes(x, y, z)) == (x, y, z),
{
    let (a, b) = (byte_code(x, y, z, 0), byte_code(x, y, z, 1));
    let (c, d) = (byte_code(x, y, z, 2), byte_code(x, y, z, 3));
    lemma_code(x, y, z, 0);
    lemma_code(x, y, z, 1);
    lemma_code(x, y, z, 2);
    lemma_code(x, y, z, 3);
    lemma_pair(a, b);
    lemma_pair(c, d);
    let s1 = bytes32(low_dword(c, d) as int);
    let s2 = s1 + bytes32((d >> 8) as int);
    let s3 = s2 + bytes32(low_dword(a, b) as int);
    let s4 = s3 + bytes32((b >> 8) as int);
    le32_reads_bytes32(low_dword(c, d) as int);
    le32_appended(s1, (d >> 8) as int);
    le32_appended(s2, low_dword(a, b) as int);
    le32_appended(s3, (b >> 8) as int);
    le_before(s1, bytes32((d >> 8) as int), 0);
    le_before(s2, bytes32(low_dword(a, b) as int), 0);
    le_before(s2, bytes32(low_dword(a, b) as int), 4);
    le_before(s3, bytes32((b >> 8) as int), 0);
    le_before(s3, bytes32((b >> 8) as int), 4);
    le_before(s3, bytes32((b >> 8) as int), 8);
    lemma_four_bytes(x);
    lemma_four_bytes(y);
    lemma_four_bytes(z);
}

/// A colour that was written is read back, every bit of it.
pub proof fn color_reads_back(r: u16, g: u16, b: u16)
    ensures
        color_bytes(r, g, b).len() == 8,
        color_of(color_bytes(r, g, b)) == (r, g, b),
{
    let (x, y, z) = (r as u32, g as u32, b as u32);
    let (low, high) = (byte_code(x, y, z, 0), byte_code(x, y, z, 1));
    lemma_code(x, y, z, 0);
    lemma_code(x, y, z, 1);
    lemma_pair(low, high);
    let s1 = bytes32(low_dword(low, high) as int);
    le32_reads_bytes32(low_dword(low, high) as int);
    le32_appended(s1, (high >> 8) as int);
    le_before(s1, bytes32((high >> 8) as int), 0);
    assert(forall|v: u32|
        v < 0x1_0000 ==> #[trigger] (((v >> 0) & 0xff) | (((v >> 8) & 0xff) << 8)) & 0xffff == v)
        by (bit_vector);
}

} // verus!
