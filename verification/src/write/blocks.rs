//! A node's points, turned inside out.
//!
//! A node is either one record per point or one block per attribute. Turning
//! one into the other is a transpose. The compressed encoding replaces position
//! and colour in their blocks by morton codes, which are wider than the values
//! they replace.

use super::morton::{
    color_bytes, color_of, color_reads_back, decode_color, decode_position, position_bytes,
    position_of, position_reads_back, put_color, put_position,
};
use crate::bytes::{
    bytes16, bytes32, le16, le32, put_range, put_u16,
    put_u32, put_zeros, slice_of, u16_at, u32_at, zeros,
};
use vstd::prelude::*;

verus! {

/// How an attribute is stored in a compressed block.
#[derive(Debug, Clone, Copy, PartialEq, Eq, Structural)]
pub enum Coding {
    /// As the morton code of three 32-bit numbers.
    Position,
    /// As the morton code of three 16-bit numbers.
    Color,
    /// As it is.
    Plain,
}

/// One attribute of a record: how it is coded, and its bytes.
#[derive(Debug, Clone, Copy, PartialEq, Eq, Structural)]
pub struct Cell {
    pub coding: Coding,
    pub size: usize,
}

impl Cell {
    /// Whether the value is wide enough for its coding.
    pub open spec fn wf(self) -> bool {
        match self.coding {
            Coding::Position => self.size >= 12,
            Coding::Color => self.size >= 6,
            Coding::Plain => true,
        }
    }

    /// Whether the coding keeps every byte of the value.
    pub open spec fn exact(self) -> bool {
        match self.coding {
            Coding::Position => self.size == 12,
            Coding::Color => self.size == 6,
            Coding::Plain => true,
        }
    }

    /// Bytes in a compressed block.
    pub open spec fn spec_width(self) -> usize {
        match self.coding {
            Coding::Position => 16,
            Coding::Color => 8,
            Coding::Plain => self.size,
        }
    }

    /// Whether the value is wide enough for its coding.
    pub fn is_wide_enough(self) -> (r: bool)
        ensures
            r == self.wf(),
    {
        match self.coding {
            Coding::Position => self.size >= 12,
            Coding::Color => self.size >= 6,
            Coding::Plain => true,
        }
    }

    /// Bytes in a compressed block.
    pub fn width(self) -> (w: usize)
        ensures
            w == self.spec_width(),
    {
        match self.coding {
            Coding::Position => 16,
            Coding::Color => 8,
            Coding::Plain => self.size,
        }
    }

    /// A value as a compressed block holds it.
    pub open spec fn coded(self, v: Seq<u8>) -> Seq<u8> {
        match self.coding {
            Coding::Position => position_bytes(
                le32(v, 0) as u32,
                le32(v, 4) as u32,
                le32(v, 8) as u32,
            ),
            Coding::Color => color_bytes(le16(v, 0) as u16, le16(v, 2) as u16, le16(v, 4) as u16),
            Coding::Plain => v,
        }
    }

    /// What a compressed block holds, as a value. Bytes beyond the coded numbers
    /// are zero.
    pub open spec fn plain(self, c: Seq<u8>) -> Seq<u8> {
        match self.coding {
            Coding::Position => {
                let (x, y, z) = position_of(c);
                bytes32(x as int) + bytes32(y as int) + bytes32(z as int) + zeros(
                    (self.size - 12) as nat,
                )
            },
            Coding::Color => {
                let (r, g, b) = color_of(c);
                bytes16(r as int) + bytes16(g as int) + bytes16(b as int) + zeros(
                    (self.size - 6) as nat,
                )
            },
            Coding::Plain => c,
        }
    }
}

/// A value that is coded exactly comes back.
pub proof fn values_read_back(cell: Cell, v: Seq<u8>)
    requires
        cell.exact(),
        v.len() == cell.size,
    ensures
        cell.coded(v).len() == cell.spec_width(),
        cell.plain(cell.coded(v)) == v,
{
    match cell.coding {
        Coding::Position => {
            let (x, y, z) = (le32(v, 0) as u32, le32(v, 4) as u32, le32(v, 8) as u32);
            position_reads_back(x, y, z);
            lemma_bytes32(v, 0);
            lemma_bytes32(v, 4);
            lemma_bytes32(v, 8);
            assert(zeros(0) =~= Seq::<u8>::empty());
            assert(v.subrange(0, 4) + v.subrange(4, 8) + v.subrange(8, 12) + zeros(0) =~= v);
        },
        Coding::Color => {
            color_reads_back(le16(v, 0) as u16, le16(v, 2) as u16, le16(v, 4) as u16);
            lemma_bytes16(v, 0);
            lemma_bytes16(v, 2);
            lemma_bytes16(v, 4);
            assert(zeros(0) =~= Seq::<u8>::empty());
            assert(v.subrange(0, 2) + v.subrange(2, 4) + v.subrange(4, 6) + zeros(0) =~= v);
        },
        Coding::Plain => {},
    }
}

proof fn lemma_bytes32(v: Seq<u8>, at: int)
    requires
        0 <= at,
        at + 4 <= v.len(),
    ensures
        0 <= le32(v, at) <= u32::MAX,
        bytes32(le32(v, at)) == v.subrange(at, at + 4),
{
    let n = le32(v, at);
    let (a, b, c, d) = (v[at] as int, v[at + 1] as int, v[at + 2] as int, v[at + 3] as int);
    assert(n == a + 0x100 * b + 0x1_0000 * c + 0x100_0000 * d);
    assert(n % 0x100 == a);
    assert(n / 0x100 == b + 0x100 * c + 0x1_0000 * d);
    assert(n / 0x100 % 0x100 == b);
    assert(n / 0x1_0000 == c + 0x100 * d);
    assert(n / 0x1_0000 % 0x100 == c);
    assert(n / 0x100_0000 == d);
    assert(bytes32(n) =~= v.subrange(at, at + 4));
}

proof fn lemma_bytes16(v: Seq<u8>, at: int)
    requires
        0 <= at,
        at + 2 <= v.len(),
    ensures
        0 <= le16(v, at) <= u16::MAX,
        bytes16(le16(v, at)) == v.subrange(at, at + 2),
{
    assert(bytes16(le16(v, at)) =~= v.subrange(at, at + 2));
}

/// Several pieces, one behind the other.
pub open spec fn run(f: spec_fn(int) -> Seq<u8>, n: int) -> Seq<u8>
    decreases n,
{
    if n <= 0 {
        Seq::empty()
    } else {
        run(f, n - 1) + f(n - 1)
    }
}

/// Several rows of pieces, one behind the other.
pub open spec fn rows(f: spec_fn(int, int) -> Seq<u8>, m: int, n: int) -> Seq<u8> {
    run(row_of(f, n), m)
}

/// One row of pieces.
pub open spec fn row_of(f: spec_fn(int, int) -> Seq<u8>, n: int) -> spec_fn(int) -> Seq<u8> {
    |j: int| run(piece_of(f, j), n)
}

/// The pieces of one row.
pub open spec fn piece_of(f: spec_fn(int, int) -> Seq<u8>, j: int) -> spec_fn(int) -> Seq<u8> {
    |i: int| f(j, i)
}

/// Whether pieces stand at some offsets.
spec fn paced(f: spec_fn(int) -> Seq<u8>, off: spec_fn(int) -> int, n: int) -> bool {
    &&& off(0) == 0
    &&& forall|i: int| 0 <= i < n ==> #[trigger] off(i + 1) == off(i) + f(i).len()
}

proof fn lemma_run(f: spec_fn(int) -> Seq<u8>, off: spec_fn(int) -> int, n: int)
    requires
        0 <= n,
        paced(f, off, n),
    ensures
        run(f, n).len() == off(n),
    decreases n,
{
    if n > 0 {
        assert(paced(f, off, n - 1)) by {
            assert forall|i: int| 0 <= i < n - 1 implies #[trigger] off(i + 1) == off(i) + f(
                i,
            ).len() by {}
        }
        lemma_run(f, off, n - 1);
        assert(off((n - 1) + 1) == off(n - 1) + f(n - 1).len());
    }
}

proof fn lemma_run_at(f: spec_fn(int) -> Seq<u8>, off: spec_fn(int) -> int, n: int, i: int)
    requires
        0 <= i < n,
        paced(f, off, n),
    ensures
        0 <= off(i),
        off(i) + f(i).len() <= run(f, n).len(),
        run(f, n).subrange(off(i), off(i) + f(i).len()) == f(i),
    decreases n,
{
    assert(paced(f, off, n - 1)) by {
        assert forall|k: int| 0 <= k < n - 1 implies #[trigger] off(k + 1) == off(k) + f(
            k,
        ).len() by {}
    }
    lemma_run(f, off, n - 1);
    let before = run(f, n - 1);
    let last = f(n - 1);
    if i < n - 1 {
        lemma_run_at(f, off, n - 1, i);
        assert((before + last).subrange(off(i), off(i) + f(i).len()) =~= before.subrange(
            off(i),
            off(i) + f(i).len(),
        ));
    } else {
        assert((before + last).subrange(off(i), off(i) + f(i).len()) =~= last);
    }
}

/// Pieces that are cut out of a string, one behind the other, make the string.
proof fn lemma_run_whole(
    s: Seq<u8>,
    f: spec_fn(int) -> Seq<u8>,
    off: spec_fn(int) -> int,
    base: int,
    n: int,
)
    requires
        0 <= n,
        0 <= base,
        paced(f, off, n),
        base + off(n) <= s.len(),
        forall|i: int|
            0 <= i < n ==> #[trigger] f(i) == s.subrange(base + off(i), base + off(i) + f(i).len()),
        forall|i: int| 0 <= i <= n ==> 0 <= #[trigger] off(i) <= off(n),
    ensures
        run(f, n) == s.subrange(base, base + off(n)),
    decreases n,
{
    if n == 0 {
        assert(s.subrange(base, base) =~= Seq::<u8>::empty());
    } else {
        assert(off((n - 1) + 1) == off(n - 1) + f(n - 1).len());
        assert forall|i: int| 0 <= i <= n - 1 implies 0 <= #[trigger] off(i) <= off(n - 1) by {
            lemma_off_grows(f, off, n, i, n - 1);
        }
        assert(paced(f, off, n - 1)) by {
            assert forall|i: int| 0 <= i < n - 1 implies #[trigger] off(i + 1) == off(i) + f(
                i,
            ).len() by {}
        }
        lemma_run_whole(s, f, off, base, n - 1);
        assert(f(n - 1) == s.subrange(base + off(n - 1), base + off(n - 1) + f(n - 1).len()));
        assert(run(f, n) =~= s.subrange(base, base + off(n)));
    }
}

proof fn lemma_off_grows(
    f: spec_fn(int) -> Seq<u8>,
    off: spec_fn(int) -> int,
    n: int,
    i: int,
    j: int,
)
    requires
        paced(f, off, n),
        0 <= i <= j <= n,
    ensures
        off(i) <= off(j),
        0 <= off(i),
    decreases j,
{
    if i < j {
        lemma_off_grows(f, off, n, i, j - 1);
        assert(off((j - 1) + 1) == off(j - 1) + f(j - 1).len());
    } else if i > 0 {
        lemma_off_grows(f, off, n, i - 1, i - 1);
        assert(off((i - 1) + 1) == off(i - 1) + f(i - 1).len());
    }
}

/// Bytes of the first `j` attributes of a record.
pub open spec fn place(cells: Seq<Cell>, j: int) -> int
    decreases j,
{
    if j <= 0 {
        0
    } else {
        place(cells, j - 1) + cells[j - 1].size
    }
}

/// Bytes of the first `j` attributes in compressed blocks, per point.
pub open spec fn coded_place(cells: Seq<Cell>, j: int) -> int
    decreases j,
{
    if j <= 0 {
        0
    } else {
        coded_place(cells, j - 1) + cells[j - 1].spec_width()
    }
}

/// Bytes of a record.
pub open spec fn stride(cells: Seq<Cell>) -> int {
    place(cells, cells.len() as int)
}

/// Bytes of compressed blocks, per point.
pub open spec fn coded_stride(cells: Seq<Cell>) -> int {
    coded_place(cells, cells.len() as int)
}

/// An attribute of a record.
pub open spec fn in_record(bytes: Seq<u8>, cells: Seq<Cell>, j: int, i: int) -> Seq<u8> {
    let at = i * stride(cells) + place(cells, j);
    bytes.subrange(at, at + cells[j].size)
}

/// An attribute of a point, in blocks.
pub open spec fn in_block(blocks: Seq<u8>, start: int, size: int, count: int, i: int) -> Seq<u8> {
    let at = start * count + i * size;
    blocks.subrange(at, at + size)
}

/// An attribute that is taken out of blocks: what it is, and where its block
/// starts, in bytes per point.
#[derive(Debug, Clone, Copy, PartialEq, Eq, Structural)]
pub struct Part {
    pub cell: Cell,
    pub start: usize,
}

/// All attributes of a record, each with its own block.
pub open spec fn whole(cells: Seq<Cell>) -> Seq<Part> {
    Seq::new(cells.len(), |j: int| Part { cell: cells[j], start: place(cells, j) as usize })
}

/// An attribute of each record.
pub open spec fn picker(bytes: Seq<u8>, cells: Seq<Cell>) -> spec_fn(int, int) -> Seq<u8> {
    |j: int, i: int| in_record(bytes, cells, j, i)
}

/// Records as blocks, one for each attribute.
pub open spec fn blocks_of(bytes: Seq<u8>, cells: Seq<Cell>, count: int) -> Seq<u8> {
    rows(picker(bytes, cells), cells.len() as int, count)
}

/// An attribute of each point, out of its block.
pub open spec fn joiner(blocks: Seq<u8>, parts: Seq<Part>, count: int) -> spec_fn(int, int) -> Seq<u8> {
    |i: int, j: int|
        in_block(blocks, parts[j].start as int, parts[j].cell.size as int, count, i)
}

/// Blocks as records of some of their attributes.
pub open spec fn records_of(blocks: Seq<u8>, parts: Seq<Part>, count: int) -> Seq<u8> {
    rows(joiner(blocks, parts, count), count, parts.len() as int)
}

/// An attribute of each point, out of its block and coded.
pub open spec fn coder(blocks: Seq<u8>, parts: Seq<Part>, count: int) -> spec_fn(int, int) -> Seq<u8> {
    |j: int, i: int|
        parts[j].cell.coded(
            in_block(blocks, parts[j].start as int, parts[j].cell.size as int, count, i),
        )
}

/// Blocks as compressed blocks of some of their attributes.
pub open spec fn coded_blocks(blocks: Seq<u8>, parts: Seq<Part>, count: int) -> Seq<u8> {
    rows(coder(blocks, parts, count), parts.len() as int, count)
}

/// An attribute of each point, out of its compressed block and decoded.
pub open spec fn decoder(raw: Seq<u8>, cells: Seq<Cell>, count: int) -> spec_fn(int, int) -> Seq<u8> {
    |j: int, i: int|
        cells[j].plain(
            in_block(raw, coded_place(cells, j), cells[j].spec_width() as int, count, i),
        )
}

/// Compressed blocks as blocks.
pub open spec fn plain_blocks(raw: Seq<u8>, cells: Seq<Cell>, count: int) -> Seq<u8> {
    rows(decoder(raw, cells, count), cells.len() as int, count)
}

/// Places do not fall from one attribute to the next.
pub proof fn lemma_place_grows(cells: Seq<Cell>, i: int, j: int)
    requires
        0 <= i <= j <= cells.len(),
    ensures
        0 <= place(cells, i) <= place(cells, j),
        0 <= coded_place(cells, i) <= coded_place(cells, j),
    decreases j,
{
    if i < j {
        lemma_place_grows(cells, i, j - 1);
    } else if j > 0 {
        lemma_place_grows(cells, i - 1, j - 1);
    }
}

/// A piece of a record lies within the records.
proof fn lemma_in_record(cells: Seq<Cell>, count: int, j: int, i: int)
    requires
        0 <= j < cells.len(),
        0 <= i < count,
    ensures
        0 <= i * stride(cells) + place(cells, j),
        i * stride(cells) + place(cells, j) + cells[j].size <= stride(cells) * count,
        0 <= i * stride(cells),
{
    lemma_place_grows(cells, j, cells.len() as int);
    lemma_place_grows(cells, j + 1, cells.len() as int);
    let (s, p) = (stride(cells), place(cells, j));
    assert(i * s >= 0 && i * s + s <= s * count) by (nonlinear_arith)
        requires
            0 <= i < count,
            s >= 0,
    ;
}

/// A piece of a block lies within the blocks.
proof fn lemma_in_block(start: int, size: int, total: int, count: int, i: int)
    requires
        0 <= start,
        0 <= size,
        start + size <= total,
        0 <= i < count,
    ensures
        0 <= start * count,
        0 <= i * size,
        start * count + i * size + size <= total * count,
{
    assert(0 <= start * count && 0 <= i * size && start * count + i * size + size <= total * count)
        by (nonlinear_arith)
        requires
            0 <= start,
            0 <= size,
            start + size <= total,
            0 <= i < count,
    ;
}

spec fn steps(w: int) -> spec_fn(int) -> int {
    |i: int| i * w
}

proof fn lemma_steps(f: spec_fn(int) -> Seq<u8>, w: int, n: int)
    requires
        0 <= n,
        forall|i: int| 0 <= i < n ==> (#[trigger] f(i)).len() == w,
    ensures
        paced(f, steps(w), n),
        run(f, n).len() == n * w,
{
    assert forall|i: int| 0 <= i < n implies #[trigger] steps(w)(i + 1) == steps(w)(i) + f(
        i,
    ).len() by {
        assert((i + 1) * w == i * w + w) by (nonlinear_arith);
        assert(f(i).len() == w);
    }
    lemma_run(f, steps(w), n);
}

/// One piece in rows of equal pieces, each row with its own width.
proof fn lemma_rows_at(
    f: spec_fn(int, int) -> Seq<u8>,
    w: spec_fn(int) -> int,
    at: spec_fn(int) -> int,
    m: int,
    n: int,
    j: int,
    i: int,
)
    requires
        0 <= j < m,
        0 <= i < n,
        at(0) == 0,
        forall|k: int| 0 <= k < m ==> #[trigger] at(k + 1) == at(k) + w(k),
        forall|k: int, l: int| 0 <= k < m && 0 <= l < n ==> (#[trigger] f(k, l)).len() == w(k),
    ensures
        0 <= at(j) * n + i * w(j),
        at(j) * n + i * w(j) + w(j) <= rows(f, m, n).len(),
        rows(f, m, n).subrange(at(j) * n + i * w(j), at(j) * n + i * w(j) + w(j)) == f(j, i),
{
    lemma_rows_len(f, w, at, m, n);
    let row = run(piece_of(f, j), n);
    let outer = scaled(at, n);
    assert(paced(row_of(f, n), outer, m)) by {
        lemma_rows_paced(f, w, at, m, n);
    }
    lemma_run_at(row_of(f, n), outer, m, j);
    assert(row_of(f, n)(j) == row);
    assert forall|l: int| 0 <= l < n implies (#[trigger] piece_of(f, j)(l)).len() == w(j) by {
        assert(f(j, l).len() == w(j));
    }
    lemma_steps(piece_of(f, j), w(j), n);
    lemma_run_at(piece_of(f, j), steps(w(j)), n, i);
    let all = rows(f, m, n);
    let base = at(j) * n;
    assert(all.subrange(base, base + row.len()) == row);
    assert(piece_of(f, j)(i) == f(j, i));
    let (a, b) = (i * w(j), i * w(j) + w(j));
    assert(row.subrange(a, b) == f(j, i));
    assert(f(j, i).len() == w(j));
    assert(all.subrange(base + a, base + b) =~= row.subrange(a, b)) by {
        assert forall|x: int| 0 <= x < b - a implies all.subrange(base + a, base + b)[x]
            == #[trigger] row.subrange(a, b)[x] by {
            assert(all.subrange(base, base + row.len())[a + x] == row[a + x]);
        }
    }
}

spec fn scaled(at: spec_fn(int) -> int, n: int) -> spec_fn(int) -> int {
    |j: int| at(j) * n
}

proof fn lemma_rows_paced(
    f: spec_fn(int, int) -> Seq<u8>,
    w: spec_fn(int) -> int,
    at: spec_fn(int) -> int,
    m: int,
    n: int,
)
    requires
        0 <= m,
        0 <= n,
        at(0) == 0,
        forall|k: int| 0 <= k < m ==> #[trigger] at(k + 1) == at(k) + w(k),
        forall|k: int, l: int| 0 <= k < m && 0 <= l < n ==> (#[trigger] f(k, l)).len() == w(k),
    ensures
        paced(row_of(f, n), scaled(at, n), m),
{
    assert(at(0) * n == 0) by (nonlinear_arith)
        requires
            at(0) == 0,
    ;
    assert forall|k: int| 0 <= k < m implies #[trigger] scaled(at, n)(k + 1) == scaled(at, n)(k)
        + row_of(f, n)(k).len() by {
        assert forall|l: int| 0 <= l < n implies (#[trigger] piece_of(f, k)(l)).len() == w(k) by {
            assert(f(k, l).len() == w(k));
        }
        lemma_steps(piece_of(f, k), w(k), n);
        assert(at(k + 1) == at(k) + w(k));
        assert((at(k) + w(k)) * n == at(k) * n + n * w(k)) by (nonlinear_arith);
    }
}

proof fn lemma_rows_len(
    f: spec_fn(int, int) -> Seq<u8>,
    w: spec_fn(int) -> int,
    at: spec_fn(int) -> int,
    m: int,
    n: int,
)
    requires
        0 <= m,
        0 <= n,
        at(0) == 0,
        forall|k: int| 0 <= k < m ==> #[trigger] at(k + 1) == at(k) + w(k),
        forall|k: int, l: int| 0 <= k < m && 0 <= l < n ==> (#[trigger] f(k, l)).len() == w(k),
    ensures
        rows(f, m, n).len() == at(m) * n,
{
    lemma_rows_paced(f, w, at, m, n);
    lemma_run(row_of(f, n), scaled(at, n), m);
}

/// Rows of pieces that are cut out of a string where they stand make the string.
proof fn lemma_rows_whole(
    s: Seq<u8>,
    f: spec_fn(int, int) -> Seq<u8>,
    w: spec_fn(int) -> int,
    at: spec_fn(int) -> int,
    m: int,
    n: int,
)
    requires
        0 <= m,
        0 <= n,
        at(0) == 0,
        forall|k: int| 0 <= k < m ==> #[trigger] at(k + 1) == at(k) + w(k),
        forall|k: int| 0 <= k < m ==> #[trigger] w(k) >= 0,
        forall|k: int| 0 <= k <= m ==> 0 <= #[trigger] at(k) <= at(m),
        s.len() == at(m) * n,
        forall|k: int, l: int|
            0 <= k < m && 0 <= l < n ==> #[trigger] f(k, l) == s.subrange(
                at(k) * n + l * w(k),
                at(k) * n + l * w(k) + w(k),
            ),
    ensures
        rows(f, m, n) == s,
{
    assert forall|k: int, l: int| 0 <= k < m && 0 <= l < n implies (#[trigger] f(k, l)).len()
        == w(k) by {
        assert(at(k + 1) == at(k) + w(k));
        lemma_in_block(at(k), w(k), at(m), n, l);
    }
    lemma_rows_paced(f, w, at, m, n);
    let g = row_of(f, n);
    let off = scaled(at, n);
    assert forall|k: int| 0 <= k < m implies #[trigger] g(k) == s.subrange(
        off(k),
        off(k) + g(k).len(),
    ) by {
        let p = piece_of(f, k);
        assert forall|l: int| 0 <= l < n implies (#[trigger] p(l)).len() == w(k) by {
            assert(f(k, l).len() == w(k));
        }
        lemma_steps(p, w(k), n);
        assert(at(k + 1) == at(k) + w(k));
        assert(0 <= at(k) * n && at(k) * n + n * w(k) <= at(m) * n) by (nonlinear_arith)
            requires
                0 <= at(k),
                at(k) + w(k) <= at(m),
                0 <= n,
        ;
        assert forall|l: int| 0 <= l < n implies #[trigger] p(l) == s.subrange(
            off(k) + steps(w(k))(l),
            off(k) + steps(w(k))(l) + p(l).len(),
        ) by {
            assert(f(k, l).len() == w(k));
        }
        assert forall|l: int| 0 <= l <= n implies 0 <= #[trigger] steps(w(k))(l) <= steps(w(k))(
            n,
        ) by {
            assert(0 <= l * w(k) <= n * w(k)) by (nonlinear_arith)
                requires
                    0 <= l <= n,
                    0 <= w(k),
            ;
        }
        lemma_run_whole(s, p, steps(w(k)), off(k), n);
    }
    assert forall|k: int| 0 <= k <= m implies 0 <= #[trigger] off(k) <= off(m) by {
        assert(0 <= at(k) * n <= at(m) * n) by (nonlinear_arith)
            requires
                0 <= at(k) <= at(m),
                0 <= n,
        ;
    }
    assert forall|k: int| 0 <= k < m implies #[trigger] g(k) == s.subrange(
        0 + off(k),
        0 + off(k) + g(k).len(),
    ) by {
        assert(g(k) == s.subrange(off(k), off(k) + g(k).len()));
    }
    lemma_run_whole(s, g, off, 0, m);
    assert(s.subrange(0, s.len() as int) =~= s);
}

proof fn lemma_no_points(f: spec_fn(int, int) -> Seq<u8>, m: int)
    ensures
        rows(f, m, 0) == Seq::<u8>::empty(),
    decreases m,
{
    if m > 0 {
        lemma_no_points(f, m - 1);
        assert(row_of(f, 0)(m - 1) == Seq::<u8>::empty());
        assert(rows(f, m, 0) =~= Seq::<u8>::empty());
    }
}

proof fn lemma_stride_fits(cells: Seq<Cell>, count: int, len: int)
    requires
        0 < count,
        stride(cells) * count <= len,
    ensures
        0 <= stride(cells) <= len,
{
    lemma_place_grows(cells, 0, cells.len() as int);
    let s = stride(cells);
    assert(s <= len) by (nonlinear_arith)
        requires
            0 < count,
            0 <= s,
            s * count <= len,
    ;
}

/// Records as blocks, one for each attribute.
pub fn transpose(bytes: &[u8], cells: &Vec<Cell>, count: usize) -> (out: Vec<u8>)
    requires
        stride(cells@) * count <= bytes@.len(),
    ensures
        out@ == blocks_of(bytes@, cells@, count as int),
{
    let mut out: Vec<u8> = Vec::new();
    let ghost f = picker(bytes@, cells@);
    let ghost n = count as int;
    let total: usize = bytes.len();
    if count == 0 {
        proof {
            lemma_no_points(f, cells@.len() as int);
        }
        return out;
    }
    proof {
        lemma_stride_fits(cells@, n, total as int);
    }
    let step: usize = record_size(cells, cells.len());
    let mut at: usize = 0;
    let mut j: usize = 0;
    while j < cells.len()
        invariant
            j <= cells.len(),
            f == picker(bytes@, cells@),
            n == count,
            total == bytes@.len(),
            total == bytes.len(),
            step == stride(cells@),
            step * count <= total,
            step <= total,
            at == place(cells@, j as int),
            at <= step,
            out@ == rows(f, j as int, n),
        decreases cells.len() - j,
    {
        let size: usize = cells[j].size;
        let ghost before = out@;
        let ghost p = piece_of(f, j as int);
        let mut i: usize = 0;
        assert(before + run(p, 0) =~= before);
        proof {
            lemma_place_grows(cells@, j + 1, cells@.len() as int);
        }
        while i < count
            invariant
                i <= count,
                j < cells.len(),
                f == picker(bytes@, cells@),
                p == piece_of(f, j as int),
                n == count,
                total == bytes@.len(),
                total == bytes.len(),
                step == stride(cells@),
                step * count <= total,
                at == place(cells@, j as int),
                size == cells@[j as int].size,
                out@ == before + run(p, i as int),
            decreases count - i,
        {
            proof {
                lemma_in_record(cells@, n, j as int, i as int);
            }
            let from: usize = i * step + at;
            put_range(&mut out, bytes, from, from + size);
            assert(p(i as int) == in_record(bytes@, cells@, j as int, i as int));
            assert(out@ =~= before + run(p, i + 1));
            i = i + 1;
        }
        assert(row_of(f, n)(j as int) == run(p, n));
        at = at + size;
        j = j + 1;
    }
    out
}

/// Bytes of the first attributes of a record.
pub fn record_size(cells: &Vec<Cell>, n: usize) -> (size: usize)
    requires
        n <= cells@.len(),
        place(cells@, n as int) <= usize::MAX,
    ensures
        size == place(cells@, n as int),
{
    let mut size: usize = 0;
    let mut j: usize = 0;
    while j < n
        invariant
            j <= n <= cells@.len(),
            size == place(cells@, j as int),
            place(cells@, n as int) <= usize::MAX,
        decreases n - j,
    {
        proof {
            lemma_place_grows(cells@, j + 1, n as int);
        }
        size = size + cells[j].size;
        j = j + 1;
    }
    size
}

/// Bytes of the first attributes in compressed blocks, per point.
pub fn coded_size(cells: &Vec<Cell>, n: usize) -> (size: usize)
    requires
        n <= cells@.len(),
        coded_place(cells@, n as int) <= usize::MAX,
    ensures
        size == coded_place(cells@, n as int),
{
    let mut size: usize = 0;
    let mut j: usize = 0;
    while j < n
        invariant
            j <= n <= cells@.len(),
            size == coded_place(cells@, j as int),
            coded_place(cells@, n as int) <= usize::MAX,
        decreases n - j,
    {
        proof {
            lemma_place_grows(cells@, j + 1, n as int);
        }
        size = size + cells[j].width();
        j = j + 1;
    }
    size
}

/// Whether some parts lie within blocks of so many bytes per point.
pub open spec fn parts_within(parts: Seq<Part>, total: int) -> bool {
    forall|j: int|
        0 <= j < parts.len() ==> (#[trigger] parts[j]).start + parts[j].cell.size <= total
}

/// Blocks as records of some of their attributes.
pub fn interleave(blocks: &[u8], parts: &Vec<Part>, count: usize, total: usize) -> (out: Vec<u8>)
    requires
        total * count <= blocks@.len(),
        parts_within(parts@, total as int),
    ensures
        out@ == records_of(blocks@, parts@, count as int),
{
    let mut out: Vec<u8> = Vec::new();
    let ghost n = parts@.len() as int;
    let ghost f = joiner(blocks@, parts@, count as int);
    let len: usize = blocks.len();
    let mut i: usize = 0;
    while i < count
        invariant
            i <= count,
            n == parts@.len(),
            f == joiner(blocks@, parts@, count as int),
            len == blocks@.len(),
            len == blocks.len(),
            total * count <= len,
            parts_within(parts@, total as int),
            out@ == rows(f, i as int, n),
        decreases count - i,
    {
        let ghost before = out@;
        let ghost p = piece_of(f, i as int);
        let mut j: usize = 0;
        assert(before + run(p, 0) =~= before);
        while j < parts.len()
            invariant
                j <= parts.len(),
                i < count,
                n == parts@.len(),
                f == joiner(blocks@, parts@, count as int),
                p == piece_of(f, i as int),
                len == blocks@.len(),
                len == blocks.len(),
                total * count <= len,
                parts_within(parts@, total as int),
                out@ == before + run(p, j as int),
            decreases parts.len() - j,
        {
            let (start, size): (usize, usize) = (parts[j].start, parts[j].cell.size);
            assert(parts@[j as int].start + parts@[j as int].cell.size <= total);
            proof {
                lemma_in_block(start as int, size as int, total as int, count as int, i as int);
            }
            let from: usize = start * count + i * size;
            put_range(&mut out, blocks, from, from + size);
            assert(p(j as int) == in_block(
                blocks@,
                start as int,
                size as int,
                count as int,
                i as int,
            ));
            assert(out@ =~= before + run(p, j + 1));
            j = j + 1;
        }
        assert(row_of(f, n)(i as int) == run(p, n));
        i = i + 1;
    }
    out
}

/// Appends a value as a compressed block holds it.
fn put_coded(cell: Cell, value: &[u8], out: &mut Vec<u8>)
    requires
        cell.wf(),
        value@.len() == cell.size,
    ensures
        final(out)@ == old(out)@ + cell.coded(value@),
{
    match cell.coding {
        Coding::Position => {
            let (x, y, z) = (u32_at(value, 0), u32_at(value, 4), u32_at(value, 8));
            put_position(out, x, y, z);
        },
        Coding::Color => {
            let (r, g, b) = (u16_at(value, 0), u16_at(value, 2), u16_at(value, 4));
            put_color(out, r, g, b);
        },
        Coding::Plain => {
            put_range(out, value, 0, value.len());
            assert(value@.subrange(0, value@.len() as int) =~= value@);
        },
    }
}

/// Whether a position has a component below zero, as signed numbers go.
pub open spec fn is_negative(v: Seq<u8>) -> bool {
    le32(v, 0) >= 0x8000_0000 || le32(v, 4) >= 0x8000_0000 || le32(v, 8) >= 0x8000_0000
}

/// Whether one of the first `m` parts is a position that is negative at one of
/// the points.
pub open spec fn any_negative(blocks: Seq<u8>, parts: Seq<Part>, count: int) -> bool {
    exists|j: int, i: int|
        0 <= j < parts.len() && 0 <= i < count && parts[j].cell.coding == Coding::Position
            && is_negative(
            #[trigger] in_block(
                blocks,
                parts[j].start as int,
                parts[j].cell.size as int,
                count,
                i,
            ),
        )
}

/// Blocks as compressed blocks of some of their attributes. Also returns whether
/// a position among them is negative, which the coding cannot tell from a large
/// positive number.
#[verifier::rlimit(30)]
pub fn weave(blocks: &[u8], parts: &Vec<Part>, count: usize, total: usize) -> (r: (Vec<u8>, bool))
    requires
        total * count <= blocks@.len(),
        parts_within(parts@, total as int),
        forall|j: int| 0 <= j < parts@.len() ==> (#[trigger] parts@[j]).cell.wf(),
    ensures
        r.0@ == coded_blocks(blocks@, parts@, count as int),
        r.1 == any_negative(blocks@, parts@, count as int),
{
    let mut out: Vec<u8> = Vec::new();
    let mut negative = false;
    let ghost n = count as int;
    let ghost f = coder(blocks@, parts@, n);
    let len: usize = blocks.len();
    let mut j: usize = 0;
    while j < parts.len()
        invariant
            j <= parts.len(),
            n == count,
            f == coder(blocks@, parts@, n),
            len == blocks@.len(),
            len == blocks.len(),
            total * count <= len,
            parts_within(parts@, total as int),
            forall|k: int| 0 <= k < parts@.len() ==> (#[trigger] parts@[k]).cell.wf(),
            out@ == rows(f, j as int, n),
            negative ==> any_negative(blocks@, parts@, n),
            !negative ==> forall|k: int, l: int|
                0 <= k < j && 0 <= l < n && parts@[k].cell.coding == Coding::Position
                    ==> !is_negative(
                    #[trigger] in_block(
                        blocks@,
                        parts@[k].start as int,
                        parts@[k].cell.size as int,
                        n,
                        l,
                    ),
                ),
        decreases parts.len() - j,
    {
        let ghost before = out@;
        let ghost p = piece_of(f, j as int);
        let cell = parts[j].cell;
        let start: usize = parts[j].start;
        assert(parts@[j as int].start + parts@[j as int].cell.size <= total);
        assert(parts@[j as int].cell.wf());
        let mut i: usize = 0;
        assert(before + run(p, 0) =~= before);
        while i < count
            invariant
                i <= count,
                j < parts.len(),
                n == count,
                f == coder(blocks@, parts@, n),
                p == piece_of(f, j as int),
                cell == parts@[j as int].cell,
                start == parts@[j as int].start,
                cell.wf(),
                start + cell.size <= total,
                len == blocks@.len(),
                len == blocks.len(),
                total * count <= len,
                out@ == before + run(p, i as int),
                negative ==> any_negative(blocks@, parts@, n),
                !negative ==> forall|k: int, l: int|
                    0 <= k < j && 0 <= l < n && parts@[k].cell.coding == Coding::Position
                        ==> !is_negative(
                        #[trigger] in_block(
                            blocks@,
                            parts@[k].start as int,
                            parts@[k].cell.size as int,
                            n,
                            l,
                        ),
                    ),
                !negative ==> forall|l: int|
                    0 <= l < i && cell.coding == Coding::Position ==> !is_negative(
                        #[trigger] in_block(
                            blocks@,
                            start as int,
                            cell.size as int,
                            n,
                            l,
                        ),
                    ),
            decreases count - i,
        {
            proof {
                lemma_in_block(start as int, cell.size as int, total as int, n, i as int);
            }
            let from: usize = start * count + i * cell.size;
            let value = slice_of(blocks, from, from + cell.size);
            let ghost v = in_block(blocks@, start as int, cell.size as int, n, i as int);
            assert(value@ == v);
            if cell.coding == Coding::Position {
                let (x, y, z) = (
                    u32_at(value.as_slice(), 0),
                    u32_at(value.as_slice(), 4),
                    u32_at(value.as_slice(), 8),
                );
                if x >= 0x8000_0000 || y >= 0x8000_0000 || z >= 0x8000_0000 {
                    negative = true;
                }
            }
            put_coded(cell, value.as_slice(), &mut out);
            assert(p(i as int) == cell.coded(v));
            assert(out@ =~= before + run(p, i + 1));
            i = i + 1;
        }
        assert(row_of(f, n)(j as int) == run(p, n));
        j = j + 1;
    }
    (out, negative)
}

/// Appends what a compressed block holds, as a value.
fn put_plain(cell: Cell, coded: &[u8], out: &mut Vec<u8>)
    requires
        cell.wf(),
        coded@.len() == cell.spec_width(),
    ensures
        final(out)@ == old(out)@ + cell.plain(coded@),
{
    match cell.coding {
        Coding::Position => {
            let (x, y, z) = decode_position(coded);
            put_u32(out, x);
            put_u32(out, y);
            put_u32(out, z);
            put_zeros(out, cell.size - 12);
            assert(out@ =~= old(out)@ + cell.plain(coded@));
        },
        Coding::Color => {
            let (r, g, b) = decode_color(coded);
            put_u16(out, r);
            put_u16(out, g);
            put_u16(out, b);
            put_zeros(out, cell.size - 6);
            assert(out@ =~= old(out)@ + cell.plain(coded@));
        },
        Coding::Plain => {
            put_range(out, coded, 0, coded.len());
            assert(coded@.subrange(0, coded@.len() as int) =~= coded@);
        },
    }
}

/// Compressed blocks as blocks.
pub fn unweave(raw: &[u8], cells: &Vec<Cell>, count: usize) -> (out: Vec<u8>)
    requires
        coded_stride(cells@) * count <= raw@.len(),
        forall|j: int| 0 <= j < cells@.len() ==> (#[trigger] cells@[j]).wf(),
    ensures
        out@ == plain_blocks(raw@, cells@, count as int),
{
    let mut out: Vec<u8> = Vec::new();
    let ghost n = count as int;
    let ghost f = decoder(raw@, cells@, n);
    let ghost total = coded_stride(cells@);
    let len: usize = raw.len();
    if count == 0 {
        proof {
            lemma_no_points(f, cells@.len() as int);
        }
        return out;
    }
    proof {
        lemma_place_grows(cells@, 0, cells@.len() as int);
        assert(total <= len) by (nonlinear_arith)
            requires
                0 < count,
                0 <= total,
                total * count <= len,
        ;
    }
    let mut at: usize = 0;
    let mut j: usize = 0;
    while j < cells.len()
        invariant
            j <= cells.len(),
            n == count,
            f == decoder(raw@, cells@, n),
            total == coded_stride(cells@),
            len == raw@.len(),
            len == raw.len(),
            total * count <= len,
            total <= len,
            at == coded_place(cells@, j as int),
            forall|k: int| 0 <= k < cells@.len() ==> (#[trigger] cells@[k]).wf(),
            out@ == rows(f, j as int, n),
        decreases cells.len() - j,
    {
        let cell = cells[j];
        let width: usize = cell.width();
        let ghost before = out@;
        let ghost p = piece_of(f, j as int);
        assert(cells@[j as int].wf());
        proof {
            lemma_place_grows(cells@, j + 1, cells@.len() as int);
        }
        let mut i: usize = 0;
        assert(before + run(p, 0) =~= before);
        while i < count
            invariant
                i <= count,
                j < cells.len(),
                n == count,
                f == decoder(raw@, cells@, n),
                p == piece_of(f, j as int),
                cell == cells@[j as int],
                cell.wf(),
                width == cell.spec_width(),
                at == coded_place(cells@, j as int),
                at + width <= total,
                len == raw@.len(),
                len == raw.len(),
                total * count <= len,
                out@ == before + run(p, i as int),
            decreases count - i,
        {
            proof {
                lemma_in_block(at as int, width as int, total, n, i as int);
            }
            let from: usize = at * count + i * width;
            let value = slice_of(raw, from, from + width);
            put_plain(cell, value.as_slice(), &mut out);
            assert(p(i as int) == cell.plain(
                in_block(raw@, at as int, width as int, n, i as int),
            ));
            assert(out@ =~= before + run(p, i + 1));
            i = i + 1;
        }
        assert(row_of(f, n)(j as int) == run(p, n));
        at = at + width;
        j = j + 1;
    }
    out
}

spec fn sizes(cells: Seq<Cell>) -> spec_fn(int) -> int {
    |j: int| cells[j].size as int
}

spec fn places(cells: Seq<Cell>) -> spec_fn(int) -> int {
    |j: int| place(cells, j)
}

spec fn widths(cells: Seq<Cell>) -> spec_fn(int) -> int {
    |j: int| cells[j].spec_width() as int
}

spec fn coded_places(cells: Seq<Cell>) -> spec_fn(int) -> int {
    |j: int| coded_place(cells, j)
}

/// Coding blocks and decoding them gives the blocks back, where every attribute
/// is coded exactly.
pub proof fn coded_blocks_read_back(blocks: Seq<u8>, cells: Seq<Cell>, count: int)
    requires
        0 <= count,
        blocks.len() == stride(cells) * count,
        stride(cells) <= usize::MAX,
        forall|j: int| 0 <= j < cells.len() ==> (#[trigger] cells[j]).exact(),
    ensures
        coded_blocks(blocks, whole(cells), count).len() == coded_stride(cells) * count,
        plain_blocks(coded_blocks(blocks, whole(cells), count), cells, count) == blocks,
{
    let m = cells.len() as int;
    let f = coder(blocks, whole(cells), count);
    let raw = coded_blocks(blocks, whole(cells), count);
    assert forall|k: int, l: int| 0 <= k < m && 0 <= l < count implies (#[trigger] f(k, l)).len()
        == widths(cells)(k) by {
        lemma_value(blocks, cells, count, k, l);
    }
    assert forall|k: int| 0 <= k < m implies #[trigger] coded_places(cells)(k + 1) == coded_places(
        cells,
    )(k) + widths(cells)(k) by {}
    lemma_rows_len(f, widths(cells), coded_places(cells), m, count);
    let g = decoder(raw, cells, count);
    assert forall|k: int| 0 <= k < m implies #[trigger] places(cells)(k + 1) == places(cells)(k)
        + sizes(cells)(k) by {}
    assert forall|k: int| 0 <= k <= m implies 0 <= #[trigger] places(cells)(k) <= places(cells)(
        m,
    ) by {
        lemma_place_grows(cells, k, m);
    }
    assert forall|k: int, l: int| 0 <= k < m && 0 <= l < count implies #[trigger] g(k, l)
        == blocks.subrange(
        places(cells)(k) * count + l * sizes(cells)(k),
        places(cells)(k) * count + l * sizes(cells)(k) + sizes(cells)(k),
    ) by {
        lemma_rows_at(f, widths(cells), coded_places(cells), m, count, k, l);
        lemma_value(blocks, cells, count, k, l);
    }
    lemma_rows_whole(blocks, g, sizes(cells), places(cells), m, count);
}

proof fn lemma_value(blocks: Seq<u8>, cells: Seq<Cell>, count: int, k: int, l: int)
    requires
        0 <= k < cells.len(),
        0 <= l < count,
        blocks.len() == stride(cells) * count,
        stride(cells) <= usize::MAX,
        cells[k].exact(),
    ensures
        ({
            let v = in_block(blocks, place(cells, k), cells[k].size as int, count, l);
            &&& v.len() == cells[k].size
            &&& coder(blocks, whole(cells), count)(k, l) == cells[k].coded(v)
            &&& cells[k].coded(v).len() == cells[k].spec_width()
            &&& cells[k].plain(cells[k].coded(v)) == v
        }),
{
    lemma_place_grows(cells, k + 1, cells.len() as int);
    lemma_place_grows(cells, k, cells.len() as int);
    lemma_in_block(place(cells, k), cells[k].size as int, stride(cells), count, l);
    let v = in_block(blocks, place(cells, k), cells[k].size as int, count, l);
    values_read_back(cells[k], v);
    assert(whole(cells)[k] == (Part { cell: cells[k], start: place(cells, k) as usize }));
}

/// One attribute of one point stands in the blocks where its block says.
pub proof fn lemma_block_at(bytes: Seq<u8>, cells: Seq<Cell>, count: int, k: int, l: int)
    requires
        0 <= k < cells.len(),
        0 <= l < count,
        stride(cells) * count <= bytes.len(),
    ensures
        blocks_of(bytes, cells, count).len() == stride(cells) * count,
        in_block(
            blocks_of(bytes, cells, count),
            place(cells, k),
            cells[k].size as int,
            count,
            l,
        ) == in_record(bytes, cells, k, l),
{
    let m = cells.len() as int;
    let f = picker(bytes, cells);
    assert forall|a: int, b: int| 0 <= a < m && 0 <= b < count implies (#[trigger] f(a, b)).len()
        == sizes(cells)(a) by {
        lemma_in_record(cells, count, a, b);
    }
    assert forall|a: int| 0 <= a < m implies #[trigger] places(cells)(a + 1) == places(cells)(a)
        + sizes(cells)(a) by {}
    lemma_rows_at(f, sizes(cells), places(cells), m, count, k, l);
    lemma_rows_len(f, sizes(cells), places(cells), m, count);
}

/// Blocks have as many bytes as the records they were made of.
pub proof fn blocks_have_every_byte(bytes: Seq<u8>, cells: Seq<Cell>, count: int)
    requires
        0 <= count,
        stride(cells) * count <= bytes.len(),
    ensures
        blocks_of(bytes, cells, count).len() == stride(cells) * count,
{
    let m = cells.len() as int;
    let f = picker(bytes, cells);
    assert forall|a: int, b: int| 0 <= a < m && 0 <= b < count implies (#[trigger] f(a, b)).len()
        == sizes(cells)(a) by {
        lemma_in_record(cells, count, a, b);
    }
    assert forall|a: int| 0 <= a < m implies #[trigger] places(cells)(a + 1) == places(cells)(a)
        + sizes(cells)(a) by {}
    lemma_rows_len(f, sizes(cells), places(cells), m, count);
}

/// Decoded blocks have as many bytes as the records they stand for.
pub proof fn decoded_blocks_have_every_byte(raw: Seq<u8>, cells: Seq<Cell>, count: int)
    requires
        0 <= count,
        coded_stride(cells) * count <= raw.len(),
        forall|j: int| 0 <= j < cells.len() ==> (#[trigger] cells[j]).wf(),
    ensures
        plain_blocks(raw, cells, count).len() == stride(cells) * count,
{
    let m = cells.len() as int;
    let f = decoder(raw, cells, count);
    assert forall|a: int, b: int| 0 <= a < m && 0 <= b < count implies (#[trigger] f(a, b)).len()
        == sizes(cells)(a) by {
        lemma_place_grows(cells, a, m);
        lemma_place_grows(cells, a + 1, m);
        lemma_in_block(
            coded_place(cells, a),
            cells[a].spec_width() as int,
            coded_stride(cells),
            count,
            b,
        );
        assert(cells[a].wf());
    }
    assert forall|a: int| 0 <= a < m implies #[trigger] places(cells)(a + 1) == places(cells)(a)
        + sizes(cells)(a) by {}
    lemma_rows_len(f, sizes(cells), places(cells), m, count);
}

/// The attributes of some parts.
pub open spec fn cells_of(parts: Seq<Part>) -> Seq<Cell> {
    parts.map_values(|p: Part| p.cell)
}

/// Whether each part is the attribute of the record that an index names, in its
/// own block.
pub open spec fn chosen(cells: Seq<Cell>, parts: Seq<Part>, index: Seq<int>) -> bool {
    &&& parts.len() == index.len()
    &&& forall|j: int|
        0 <= j < parts.len() ==> 0 <= index[j] < cells.len() && (#[trigger] parts[j]) == (Part {
            cell: cells[index[j]],
            start: place(cells, index[j]) as usize,
        })
}

/// Records that are made of some attributes of other records hold exactly those
/// attributes, each with every value it had, and nothing else.
pub proof fn chosen_attributes_survive(
    bytes: Seq<u8>,
    cells: Seq<Cell>,
    parts: Seq<Part>,
    index: Seq<int>,
    count: int,
    j: int,
    i: int,
)
    requires
        chosen(cells, parts, index),
        stride(cells) <= usize::MAX,
        stride(cells) * count <= bytes.len(),
        0 <= j < parts.len(),
        0 <= i < count,
    ensures
        ({
            let out = records_of(blocks_of(bytes, cells, count), parts, count);
            &&& out.len() == stride(cells_of(parts)) * count
            &&& in_record(out, cells_of(parts), j, i) == in_record(bytes, cells, index[j], i)
        }),
{
    let kept = cells_of(parts);
    let blocks = blocks_of(bytes, cells, count);
    let f = joiner(blocks, parts, count);
    let m = parts.len() as int;
    assert forall|a: int, b: int| 0 <= a < count && 0 <= b < m implies #[trigger] f(a, b)
        == in_record(bytes, cells, index[b], a) && f(a, b).len() == kept[b].size by {
        lemma_chosen(bytes, cells, parts, index, count, b, a);
    }
    assert forall|a: int| 0 <= a < count implies (#[trigger] row_of(f, m)(a)).len() == stride(
        kept,
    ) by {
        let p = piece_of(f, a);
        assert(paced(p, places(kept), m)) by {
            assert forall|b: int| 0 <= b < m implies #[trigger] places(kept)(b + 1) == places(kept)(
                b,
            ) + p(b).len() by {
                assert(f(a, b).len() == kept[b].size);
            }
        }
        lemma_run(p, places(kept), m);
    }
    lemma_steps(row_of(f, m), stride(kept), count);
    lemma_run_at(row_of(f, m), steps(stride(kept)), count, i);
    let p = piece_of(f, i);
    assert(paced(p, places(kept), m)) by {
        assert forall|b: int| 0 <= b < m implies #[trigger] places(kept)(b + 1) == places(kept)(b)
            + p(b).len() by {
            assert(f(i, b).len() == kept[b].size);
        }
    }
    lemma_run_at(p, places(kept), m, j);
    let out = records_of(blocks, parts, count);
    let row = row_of(f, m)(i);
    let base = i * stride(kept);
    let at = place(kept, j);
    assert(f(i, j).len() == kept[j].size);
    assert(out.subrange(base, base + row.len()) == row);
    assert(row.subrange(at, at + kept[j].size) == f(i, j));
    assert(count * stride(kept) == stride(kept) * count) by (nonlinear_arith);
    assert(in_record(out, kept, j, i) =~= row.subrange(at, at + kept[j].size)) by {
        assert forall|x: int| 0 <= x < kept[j].size implies in_record(out, kept, j, i)[x]
            == #[trigger] row.subrange(at, at + kept[j].size)[x] by {
            assert(out.subrange(base, base + row.len())[at + x] == row[at + x]);
        }
    }
}

proof fn lemma_chosen(
    bytes: Seq<u8>,
    cells: Seq<Cell>,
    parts: Seq<Part>,
    index: Seq<int>,
    count: int,
    b: int,
    a: int,
)
    requires
        chosen(cells, parts, index),
        stride(cells) <= usize::MAX,
        stride(cells) * count <= bytes.len(),
        0 <= b < parts.len(),
        0 <= a < count,
    ensures
        ({
            let f = joiner(blocks_of(bytes, cells, count), parts, count);
            &&& f(a, b) == in_record(bytes, cells, index[b], a)
            &&& f(a, b).len() == cells_of(parts)[b].size
        }),
{
    let k = index[b];
    assert(parts[b] == (Part { cell: cells[k], start: place(cells, k) as usize }));
    lemma_place_grows(cells, k, cells.len() as int);
    lemma_block_at(bytes, cells, count, k, a);
    lemma_in_record(cells, count, k, a);
}

/// Taking every attribute out of the blocks of some records gives the records
/// back.
pub proof fn records_read_back(bytes: Seq<u8>, cells: Seq<Cell>, count: int)
    requires
        0 <= count,
        stride(cells) <= usize::MAX,
        bytes.len() == stride(cells) * count,
    ensures
        records_of(blocks_of(bytes, cells, count), whole(cells), count) == bytes,
{
    let parts = whole(cells);
    let blocks = blocks_of(bytes, cells, count);
    let f = joiner(blocks, parts, count);
    let m = cells.len() as int;
    let g = row_of(f, m);
    let index = Seq::new(cells.len(), |j: int| j);
    assert(cells_of(parts) =~= cells);
    assert(chosen(cells, parts, index));
    let s = stride(cells);
    lemma_place_grows(cells, 0, m);
    assert forall|i: int| 0 <= i < count implies #[trigger] g(i) == bytes.subrange(
        0 + steps(s)(i),
        0 + steps(s)(i) + g(i).len(),
    ) && g(i).len() == s by {
        let p = piece_of(f, i);
        assert forall|b: int| 0 <= b < m implies #[trigger] p(b) == bytes.subrange(
            i * s + places(cells)(b),
            i * s + places(cells)(b) + p(b).len(),
        ) && p(b).len() == cells[b].size by {
            lemma_chosen(bytes, cells, parts, index, count, b, i);
        }
        assert(paced(p, places(cells), m)) by {
            assert forall|b: int| 0 <= b < m implies #[trigger] places(cells)(b + 1) == places(
                cells,
            )(b) + p(b).len() by {
                assert(p(b).len() == cells[b].size);
            }
        }
        assert forall|b: int| 0 <= b <= m implies 0 <= #[trigger] places(cells)(b) <= places(cells)(
            m,
        ) by {
            lemma_place_grows(cells, b, m);
        }
        assert(0 <= i * s && i * s + s <= s * count) by (nonlinear_arith)
            requires
                0 <= i < count,
                0 <= s,
        ;
        lemma_run_whole(bytes, p, places(cells), i * s, m);
    }
    lemma_steps(g, s, count);
    assert forall|i: int| 0 <= i <= count implies 0 <= #[trigger] steps(s)(i) <= steps(s)(
        count,
    ) by {
        assert(0 <= i * s <= count * s) by (nonlinear_arith)
            requires
                0 <= i <= count,
                0 <= s,
        ;
    }
    assert(count * s == s * count) by (nonlinear_arith);
    lemma_run_whole(bytes, g, steps(s), 0, count);
    assert(bytes.subrange(0, bytes.len() as int) =~= bytes);
}

} // verus!
