//! Little-endian numbers in byte strings.

use crate::double::Real;
use vstd::prelude::*;

verus! {

/// The 16-bit number at `at`.
pub open spec fn le16(s: Seq<u8>, at: int) -> int {
    s[at] + 0x100 * s[at + 1]
}

/// The 32-bit number at `at`.
pub open spec fn le32(s: Seq<u8>, at: int) -> int {
    s[at] + 0x100 * s[at + 1] + 0x1_0000 * s[at + 2] + 0x100_0000 * s[at + 3]
}

/// The 64-bit number at `at`.
pub open spec fn le64(s: Seq<u8>, at: int) -> int {
    le32(s, at) + 0x1_0000_0000 * le32(s, at + 4)
}

/// The number that 32 bits hold in two's complement.
pub open spec fn signed32(n: int) -> int {
    if n < 0x8000_0000 {
        n
    } else {
        n - 0x1_0000_0000
    }
}

/// Two bytes, low first.
pub open spec fn bytes16(n: int) -> Seq<u8> {
    seq![(n % 0x100) as u8, (n / 0x100 % 0x100) as u8]
}

/// Four bytes, low first.
pub open spec fn bytes32(n: int) -> Seq<u8> {
    seq![
        (n % 0x100) as u8,
        (n / 0x100 % 0x100) as u8,
        (n / 0x1_0000 % 0x100) as u8,
        (n / 0x100_0000 % 0x100) as u8,
    ]
}

/// Eight bytes, low first.
pub open spec fn bytes64(n: int) -> Seq<u8> {
    bytes32(n % 0x1_0000_0000) + bytes32(n / 0x1_0000_0000)
}

/// What was written as two bytes reads back.
pub proof fn le16_reads_bytes16(n: int)
    requires
        0 <= n < 0x1_0000,
    ensures
        le16(bytes16(n), 0) == n,
        bytes16(n).len() == 2,
{
}

/// What was written as four bytes reads back.
pub proof fn le32_reads_bytes32(n: int)
    requires
        0 <= n < 0x1_0000_0000,
    ensures
        le32(bytes32(n), 0) == n,
        bytes32(n).len() == 4,
{
}

/// What was written as eight bytes reads back.
pub proof fn le64_reads_bytes64(n: int)
    requires
        0 <= n < 0x1_0000_0000_0000_0000,
    ensures
        le64(bytes64(n), 0) == n,
        bytes64(n).len() == 8,
{
    let lo = n % 0x1_0000_0000;
    let hi = n / 0x1_0000_0000;
    le32_reads_bytes32(lo);
    le32_reads_bytes32(hi);
    let s = bytes64(n);
    assert(s[0] == bytes32(lo)[0] && s[1] == bytes32(lo)[1] && s[2] == bytes32(lo)[2] && s[3]
        == bytes32(lo)[3]);
    assert(s[4] == bytes32(hi)[0] && s[5] == bytes32(hi)[1] && s[6] == bytes32(hi)[2] && s[7]
        == bytes32(hi)[3]);
}

/// A number appended to a byte string stands at its end.
pub proof fn le32_appended(s: Seq<u8>, n: int)
    requires
        0 <= n < 0x1_0000_0000,
    ensures
        le32(s + bytes32(n), s.len() as int) == n,
{
    le32_reads_bytes32(n);
    let t = s + bytes32(n);
    let k = s.len() as int;
    assert(t[k] == bytes32(n)[0] && t[k + 1] == bytes32(n)[1] && t[k + 2] == bytes32(n)[2] && t[k
        + 3] == bytes32(n)[3]);
}

/// What stands in a byte string stands there still when more follows.
pub proof fn le_before(s: Seq<u8>, t: Seq<u8>, at: int)
    requires
        0 <= at,
    ensures
        at + 2 <= s.len() ==> le16(s + t, at) == le16(s, at),
        at + 4 <= s.len() ==> le32(s + t, at) == le32(s, at),
        at + 8 <= s.len() ==> le64(s + t, at) == le64(s, at),
{
}

/// The 16-bit number at `at`.
pub fn u16_at(b: &[u8], at: usize) -> (r: u16)
    requires
        at + 2 <= b.len(),
    ensures
        r == le16(b@, at as int),
{
    b[at] as u16 + b[at + 1] as u16 * 0x100
}

/// The 32-bit number at `at`.
pub fn u32_at(b: &[u8], at: usize) -> (r: u32)
    requires
        at + 4 <= b.len(),
    ensures
        r == le32(b@, at as int),
{
    b[at] as u32 + b[at + 1] as u32 * 0x100 + b[at + 2] as u32 * 0x1_0000 + b[at + 3] as u32
        * 0x100_0000
}

/// The 64-bit number at `at`.
pub fn u64_at(b: &[u8], at: usize) -> (r: u64)
    requires
        at + 8 <= b.len(),
    ensures
        r == le64(b@, at as int),
{
    u32_at(b, at) as u64 + u32_at(b, at + 4) as u64 * 0x1_0000_0000
}

/// The number that `n` holds in two's complement.
pub fn as_signed(n: u32) -> (r: i32)
    ensures
        r == signed32(n as int),
{
    assert(n < 0x8000_0000 ==> (n as i32) as int == n as int) by (bit_vector);
    assert(n >= 0x8000_0000 ==> (n as i32) as int == n as int - 0x1_0000_0000) by (bit_vector);
    n as i32
}

/// The two's complement pattern of `n`.
pub fn as_pattern(n: i32) -> (r: u32)
    ensures
        signed32(r as int) == n,
        r == if n < 0 {
            n + 0x1_0000_0000
        } else {
            n as int
        },
{
    assert(n >= 0 ==> (n as u32) as int == n as int) by (bit_vector);
    assert(n < 0 ==> (n as u32) as int == n as int + 0x1_0000_0000) by (bit_vector);
    n as u32
}

/// The signed 32-bit number at `at`.
pub fn i32_at(b: &[u8], at: usize) -> (r: i32)
    requires
        at + 4 <= b.len(),
    ensures
        r == signed32(le32(b@, at as int)),
{
    as_signed(u32_at(b, at))
}

/// The double at `at`.
pub fn real_at(b: &[u8], at: usize) -> (r: Real)
    requires
        at + 8 <= b.len(),
    ensures
        r.bits == le64(b@, at as int),
{
    Real { bits: u64_at(b, at) }
}

/// A sum of two addresses, wrapped.
pub proof fn wrapped_sum(a: usize, b: usize)
    ensures
        (a + b) % (usize::MAX + 1) == if a + b > usize::MAX {
            a + b - usize::MAX - 1
        } else {
            a + b
        },
{
    let m = usize::MAX + 1;
    if a + b > usize::MAX {
        let rest = a + b - m;
        vstd::arithmetic::div_mod::lemma_mod_add_multiples_vanish(rest, m);
        vstd::arithmetic::div_mod::lemma_small_mod(rest as nat, m as nat);
        assert(m + rest == a + b);
    } else {
        vstd::arithmetic::div_mod::lemma_small_mod((a + b) as nat, m as nat);
    }
}

/// Appends two bytes, low first.
pub fn put_u16(out: &mut Vec<u8>, n: u16)
    ensures
        final(out)@ == old(out)@ + bytes16(n as int),
{
    out.push((n % 0x100) as u8);
    out.push((n / 0x100) as u8);
    assert(out@ =~= old(out)@ + bytes16(n as int));
}

/// Appends four bytes, low first.
pub fn put_u32(out: &mut Vec<u8>, n: u32)
    ensures
        final(out)@ == old(out)@ + bytes32(n as int),
{
    out.push((n % 0x100) as u8);
    out.push((n / 0x100 % 0x100) as u8);
    out.push((n / 0x1_0000 % 0x100) as u8);
    out.push((n / 0x100_0000) as u8);
    assert(out@ =~= old(out)@ + bytes32(n as int));
}

/// Appends eight bytes, low first.
pub fn put_u64(out: &mut Vec<u8>, n: u64)
    ensures
        final(out)@ == old(out)@ + bytes64(n as int),
{
    put_u32(out, (n % 0x1_0000_0000) as u32);
    put_u32(out, (n / 0x1_0000_0000) as u32);
    assert(out@ =~= old(out)@ + bytes64(n as int));
}

/// Appends the bytes `s[from..to]`.
pub fn put_range(out: &mut Vec<u8>, s: &[u8], from: usize, to: usize)
    requires
        from <= to <= s.len(),
    ensures
        final(out)@ == old(out)@ + s@.subrange(from as int, to as int),
{
    let mut i: usize = from;
    assert(out@ =~= old(out)@ + s@.subrange(from as int, from as int));
    while i < to
        invariant
            from <= i <= to <= s.len(),
            out@ == old(out)@ + s@.subrange(from as int, i as int),
        decreases to - i,
    {
        out.push(s[i]);
        assert(out@ =~= old(out)@ + s@.subrange(from as int, i + 1));
        i = i + 1;
    }
}

/// The bytes `s[from..to]`, as a list of their own.
pub fn slice_of(s: &[u8], from: usize, to: usize) -> (out: Vec<u8>)
    requires
        from <= to <= s.len(),
    ensures
        out@ == s@.subrange(from as int, to as int),
{
    let mut out: Vec<u8> = Vec::new();
    put_range(&mut out, s, from, to);
    assert(out@ =~= s@.subrange(from as int, to as int));
    out
}

/// A run of zero bytes.
pub open spec fn zeros(n: nat) -> Seq<u8> {
    Seq::new(n, |i: int| 0u8)
}

/// Appends `n` zero bytes.
pub fn put_zeros(out: &mut Vec<u8>, n: usize)
    ensures
        final(out)@ == old(out)@ + zeros(n as nat),
{
    let mut i: usize = 0;
    assert(out@ =~= old(out)@ + zeros(0));
    while i < n
        invariant
            i <= n,
            out@ == old(out)@ + zeros(i as nat),
        decreases n - i,
    {
        out.push(0);
        assert(out@ =~= old(out)@ + zeros((i + 1) as nat));
        i = i + 1;
    }
}

/// `s` with the bytes from `at` on replaced by `with`.
pub open spec fn spliced(s: Seq<u8>, at: int, with: Seq<u8>) -> Seq<u8> {
    s.take(at) + with + s.skip(at + with.len())
}

/// Whether two byte strings differ only within `[from, to)`.
pub open spec fn same_outside(a: Seq<u8>, b: Seq<u8>, from: int, to: int) -> bool {
    a.len() == b.len() && forall|i: int|
        0 <= i < a.len() && !(from <= i < to) ==> #[trigger] a[i] == b[i]
}

/// Writes two bytes at `at`.
pub fn write_u16(buffer: &mut [u8], at: usize, value: u16)
    requires
        at + 2 <= old(buffer).len(),
    ensures
        same_outside(final(buffer)@, old(buffer)@, at as int, at + 2),
        le16(final(buffer)@, at as int) == value,
        final(buffer)@ == spliced(old(buffer)@, at as int, bytes16(value as int)),
{
    buffer[at] = (value % 0x100) as u8;
    buffer[at + 1] = (value / 0x100) as u8;
    assert(buffer@ =~= spliced(old(buffer)@, at as int, bytes16(value as int)));
}

/// Writes four bytes at `at`.
pub fn write_u32(buffer: &mut [u8], at: usize, value: u32)
    requires
        at + 4 <= old(buffer).len(),
    ensures
        same_outside(final(buffer)@, old(buffer)@, at as int, at + 4),
        le32(final(buffer)@, at as int) == value,
        final(buffer)@ == spliced(old(buffer)@, at as int, bytes32(value as int)),
{
    buffer[at] = (value % 0x100) as u8;
    buffer[at + 1] = (value / 0x100 % 0x100) as u8;
    buffer[at + 2] = (value / 0x1_0000 % 0x100) as u8;
    buffer[at + 3] = (value / 0x100_0000) as u8;
    assert(buffer@ =~= spliced(old(buffer)@, at as int, bytes32(value as int)));
}

/// Writes eight bytes at `at`.
pub fn write_u64(buffer: &mut [u8], at: usize, value: u64)
    requires
        at + 8 <= old(buffer).len(),
    ensures
        same_outside(final(buffer)@, old(buffer)@, at as int, at + 8),
        le64(final(buffer)@, at as int) == value,
        final(buffer)@ == spliced(old(buffer)@, at as int, bytes64(value as int)),
{
    write_u32(buffer, at, (value % 0x1_0000_0000) as u32);
    write_u32(buffer, at + 4, (value / 0x1_0000_0000) as u32);
    assert(buffer@ =~= spliced(old(buffer)@, at as int, bytes64(value as int)));
}

/// Writes a signed number as four bytes at `at`.
pub fn write_i32(buffer: &mut [u8], at: usize, value: i32)
    requires
        at + 4 <= old(buffer).len(),
    ensures
        same_outside(final(buffer)@, old(buffer)@, at as int, at + 4),
        signed32(le32(final(buffer)@, at as int)) == value,
{
    write_u32(buffer, at, as_pattern(value))
}

/// Writes a double at `at`.
pub fn write_f64(buffer: &mut [u8], at: usize, value: Real)
    requires
        at + 8 <= old(buffer).len(),
    ensures
        same_outside(final(buffer)@, old(buffer)@, at as int, at + 8),
        le64(final(buffer)@, at as int) == value.bits,
{
    write_u64(buffer, at, value.bits)
}

} // verus!
