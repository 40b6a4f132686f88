//! Building an octree out of a stream of points.
//!
//! One algorithm, shared by all writers. Every node owns a grid over its own
//! box. A point is offered to a node; if its cell is free it stays, and if the
//! cell is taken it falls to the child that contains it. So each node holds at
//! most one point per cell, and the spacing between neighbours halves with every
//! level.
//!
//! Which cell and which child a point belongs to is floating point and belongs
//! to the program; where the point goes from there is decided here.

pub mod chunked;
pub mod whole;

use crate::bytes::put_range;
use crate::octree::OctreeKey;
use crate::record::RecordLayout;
use std::collections::HashSet;
use vstd::multiset::Multiset;
use vstd::prelude::*;

verus! {

broadcast use vstd::std_specs::hash::group_hash_axioms;

/// Points across a node's edge. The density knob, and the only one.
pub const DEFAULT_SPAN: u32 = 128;

/// Points a node may hold without being subdivided: big enough that the request
/// overhead disappears, small enough that the first frame does not wait on it.
pub const DEFAULT_LEAF_POINTS: usize = 50_000;

/// Deepest level a node may reach. A safety rail: a cloud with two coincident
/// points would otherwise recurse until it ran out of something.
pub const MAX_DEPTH: u32 = 21;

/// What decides the shape of the tree.
#[derive(Debug, Clone, Copy, PartialEq, Eq, Structural)]
pub struct BuildOptions {
    pub span: u32,
    pub max_depth: u32,
    /// Points a node may hold without being subdivided.
    pub leaf_points: usize,
}

impl BuildOptions {
    pub fn new() -> (o: Self)
        ensures
            o == (BuildOptions { span: 128, max_depth: 21, leaf_points: 50_000 }),
    {
        BuildOptions { span: DEFAULT_SPAN, max_depth: MAX_DEPTH, leaf_points: DEFAULT_LEAF_POINTS }
    }
}

/// One finished node: its key and the records that stay in it.
#[derive(Debug)]
pub struct BuiltNode {
    pub key: OctreeKey,
    pub records: Vec<u8>,
}

impl BuiltNode {
    pub fn point_count(&self, stride: usize) -> (n: usize)
        requires
            stride > 0,
        ensures
            n == self.records@.len() as int / stride as int,
    {
        self.records.len() / stride
    }
}

/// A record layout's stride, for callers that hold only the layout.
pub fn stride_of(layout: &RecordLayout) -> (n: usize)
    requires
        layout.wf(),
    ensures
        n == layout.base + layout.extra,
{
    layout.stride()
}

/// Where a point falls in a node: the cell of the node's grid, and the child
/// that contains it.
#[derive(Debug, Clone, Copy, PartialEq, Eq, Structural)]
pub struct Slot {
    pub cell: u32,
    pub child: u8,
}

/// The number of a cell of a node's grid.
pub open spec fn cell_number(cell: Seq<u32>, span: u32) -> int {
    (cell[0] + span * (cell[1] + span * cell[2])) % 0x1_0000_0000
}

/// Where a point falls, given the cell of the node's grid by its coordinates.
pub fn slot(cell: [u32; 3], span: u32, child: u8) -> (s: Slot)
    ensures
        s.cell == cell_number(cell@, span),
        s.child == child,
{
    let inner: u32 = cell[1].wrapping_add(span.wrapping_mul(cell[2]));
    let index: u32 = cell[0].wrapping_add(span.wrapping_mul(inner));
    proof {
        lemma_cell_number(cell@, span, inner, index);
    }
    Slot { cell: index, child }
}

proof fn lemma_cell_number(cell: Seq<u32>, span: u32, inner: u32, index: u32)
    requires
        inner as int == (cell[1] + (span * cell[2]) % 0x1_0000_0000) % 0x1_0000_0000,
        index as int == (cell[0] + (span * inner) % 0x1_0000_0000) % 0x1_0000_0000,
    ensures
        index as int == cell_number(cell, span),
{
    let m = 0x1_0000_0000int;
    let (x, y, z, n) = (cell[0] as int, cell[1] as int, cell[2] as int, span as int);
    vstd::arithmetic::div_mod::lemma_add_mod_noop_right(y, n * z, m);
    assert(inner as int == (y + n * z) % m);
    vstd::arithmetic::div_mod::lemma_mul_mod_noop_right(n, y + n * z, m);
    assert((n * inner) % m == (n * (y + n * z)) % m);
    vstd::arithmetic::div_mod::lemma_add_mod_noop_right(x, n * (inner as int), m);
    vstd::arithmetic::div_mod::lemma_add_mod_noop_right(x, n * (y + n * z), m);
}

/// The cells of a grid of up to 1,625 across have numbers of their own.
pub proof fn cells_have_numbers_of_their_own(a: Seq<u32>, b: Seq<u32>, span: u32)
    requires
        0 < span <= 1625,
        a.len() == 3,
        b.len() == 3,
        forall|i: int| 0 <= i < 3 ==> #[trigger] a[i] < span,
        forall|i: int| 0 <= i < 3 ==> #[trigger] b[i] < span,
        cell_number(a, span) == cell_number(b, span),
    ensures
        a == b,
{
    let n = span as int;
    let (p, q) = (a[1] + n * a[2], b[1] + n * b[2]);
    lemma_packs(a[0] as int, p, n);
    lemma_packs(b[0] as int, q, n);
    lemma_packs(a[1] as int, a[2] as int, n);
    lemma_packs(b[1] as int, b[2] as int, n);
    assert(0 <= p < n * n && 0 <= q < n * n) by (nonlinear_arith)
        requires
            0 <= a[1] < n,
            0 <= a[2] < n,
            0 <= b[1] < n,
            0 <= b[2] < n,
            p == a[1] + n * a[2],
            q == b[1] + n * b[2],
    ;
    assert(0 <= a[0] + n * p < 0x1_0000_0000 && 0 <= b[0] + n * q < 0x1_0000_0000)
        by (nonlinear_arith)
        requires
            0 <= a[0] < n,
            0 <= b[0] < n,
            0 <= p < n * n,
            0 <= q < n * n,
            0 < n <= 1625,
    ;
    assert(a[0] + n * p == b[0] + n * q);
    assert(a[0] == b[0] && p == q);
    assert(a[1] == b[1] && a[2] == b[2]);
    assert(a =~= b);
}

proof fn lemma_packs(low: int, high: int, n: int)
    requires
        0 <= low < n,
    ensures
        (low + n * high) % n == low,
        (low + n * high) / n == high,
{
    assert(low + n * high == high * n + low) by (nonlinear_arith);
    vstd::arithmetic::div_mod::lemma_fundamental_div_mod_converse(low + n * high, n, high, low);
}

/// Record `i` of some records.
pub open spec fn record_at(records: Seq<u8>, stride: int, i: int) -> Seq<u8> {
    records.subrange(i * stride, i * stride + stride)
}

/// Whether the point at an index is the first of its cell.
pub open spec fn is_first(slots: Seq<Slot>, i: int) -> bool {
    forall|j: int| 0 <= j < i ==> (#[trigger] slots[j]).cell != slots[i].cell
}

/// The first `n` points that stay: those that are first in their cell.
pub open spec fn staying(records: Seq<u8>, stride: int, slots: Seq<Slot>, n: int) -> Seq<u8>
    decreases n,
{
    if n <= 0 {
        Seq::empty()
    } else if is_first(slots, n - 1) {
        staying(records, stride, slots, n - 1) + record_at(records, stride, n - 1)
    } else {
        staying(records, stride, slots, n - 1)
    }
}

/// Of the first `n` points those that fall to a child: those that are not first
/// in their cell and that the child contains.
pub open spec fn falling(
    records: Seq<u8>,
    stride: int,
    slots: Seq<Slot>,
    child: int,
    n: int,
) -> Seq<u8>
    decreases n,
{
    if n <= 0 {
        Seq::empty()
    } else if !is_first(slots, n - 1) && slots[n - 1].child == child {
        falling(records, stride, slots, child, n - 1) + record_at(records, stride, n - 1)
    } else {
        falling(records, stride, slots, child, n - 1)
    }
}

/// Whether a node takes all of its input: there is little enough of it, or the
/// depth limit is reached.
pub open spec fn takes_all(count: int, level: u32, options: BuildOptions) -> bool {
    count <= options.leaf_points || level >= options.max_depth
}

/// The input of a child, with nothing in it where the node takes all.
pub open spec fn bucket(
    records: Seq<u8>,
    level: u32,
    stride: int,
    options: BuildOptions,
    slots: Seq<Slot>,
    child: int,
) -> Seq<u8> {
    let count = records.len() as int / stride;
    if takes_all(count, level, options) {
        Seq::empty()
    } else {
        falling(records, stride, slots, child, count)
    }
}

/// What a node keeps of its input.
pub open spec fn keeps(
    records: Seq<u8>,
    level: u32,
    stride: int,
    options: BuildOptions,
    slots: Seq<Slot>,
) -> Seq<u8> {
    let count = records.len() as int / stride;
    if takes_all(count, level, options) {
        records
    } else {
        staying(records, stride, slots, count)
    }
}

/// Whether slots are given for every record of an input that is split.
pub open spec fn slots_fit(
    records: Seq<u8>,
    level: u32,
    stride: int,
    options: BuildOptions,
    slots: Seq<Slot>,
) -> bool {
    let count = records.len() as int / stride;
    takes_all(count, level, options) || (slots.len() == count && forall|i: int|
        0 <= i < slots.len() ==> (#[trigger] slots[i]).child < 8)
}

/// Whether the cells seen are those of the first points.
spec fn seen(cells: Set<u32>, slots: Seq<Slot>, n: int) -> bool {
    forall|c: u32| #[trigger]
        cells.contains(c) <==> exists|j: int| 0 <= j < n && (#[trigger] slots[j]).cell == c
}

pub(crate) proof fn lemma_count(len: int, stride: int, i: int)
    requires
        0 <= len,
        0 < stride,
        0 <= i < len / stride,
    ensures
        0 <= i * stride,
        i * stride + stride <= len,
{
    vstd::arithmetic::div_mod::lemma_fundamental_div_mod(len, stride);
    assert(0 <= i * stride && i * stride + stride <= stride * (len / stride)) by (nonlinear_arith)
        requires
            0 <= i < len / stride,
            0 < stride,
    ;
}

/// Splits one node's input into what it keeps and eight child buckets.
#[verifier::rlimit(30)]
pub fn partition(
    records: &[u8],
    key: OctreeKey,
    stride: usize,
    options: &BuildOptions,
    slots: &Vec<Slot>,
) -> (r: (Vec<u8>, Vec<Vec<u8>>))
    requires
        stride > 0,
        slots_fit(records@, key.level, stride as int, *options, slots@),
    ensures
        r.0@ == keeps(records@, key.level, stride as int, *options, slots@),
        r.1@.len() == 8,
        forall|c: int|
            0 <= c < 8 ==> (#[trigger] r.1@[c])@ == bucket(
                records@,
                key.level,
                stride as int,
                *options,
                slots@,
                c,
            ),
{
    let mut children: Vec<Vec<u8>> = Vec::new();
    while children.len() < 8
        invariant
            children@.len() <= 8,
            forall|c: int|
                0 <= c < children@.len() ==> (#[trigger] children@[c])@ == Seq::<u8>::empty(),
        decreases 8 - children@.len(),
    {
        children.push(Vec::new());
    }
    let mut kept: Vec<u8> = Vec::new();
    let count: usize = records.len() / stride;
    if count <= options.leaf_points || key.level >= options.max_depth {
        put_range(&mut kept, records, 0, records.len());
        assert(records@.subrange(0, records@.len() as int) =~= records@);
        assert(kept@ =~= records@);
        return (kept, children);
    }
    let mut occupied: HashSet<u32> = HashSet::new();
    let len: usize = records.len();
    let ghost step = stride as int;
    let mut i: usize = 0;
    while i < count
        invariant
            i <= count,
            stride > 0,
            step == stride,
            len == records@.len(),
            len == records.len(),
            count == len as int / stride as int,
            slots@.len() == count,
            forall|k: int| 0 <= k < slots@.len() ==> (#[trigger] slots@[k]).child < 8,
            children@.len() == 8,
            kept@ == staying(records@, step, slots@, i as int),
            forall|c: int|
                0 <= c < 8 ==> (#[trigger] children@[c])@ == falling(
                    records@,
                    step,
                    slots@,
                    c,
                    i as int,
                ),
            seen(occupied@, slots@, i as int),
        decreases count - i,
    {
        proof {
            lemma_count(len as int, step, i as int);
        }
        let from: usize = i * stride;
        let slot = slots[i];
        assert(slots@[i as int].child < 8);
        let ghost before = occupied@;
        let fresh = occupied.insert(slot.cell);
        assert(fresh == is_first(slots@, i as int)) by {
            assert(before.contains(slot.cell) <==> exists|j: int|
                0 <= j < i && (#[trigger] slots@[j]).cell == slot.cell);
        }
        assert(seen(occupied@, slots@, i + 1)) by {
            assert forall|c: u32| #[trigger] occupied@.contains(c) <==> exists|j: int|
                0 <= j < i + 1 && (#[trigger] slots@[j]).cell == c by {
                assert(before.contains(c) <==> exists|j: int|
                    0 <= j < i && (#[trigger] slots@[j]).cell == c);
                if c == slot.cell {
                    assert(slots@[i as int].cell == c);
                }
            }
        }
        if fresh {
            put_range(&mut kept, records, from, from + stride);
        } else {
            let at: usize = slot.child as usize;
            let mut bucket: Vec<u8> = Vec::new();
            std::mem::swap(&mut bucket, &mut children[at]);
            put_range(&mut bucket, records, from, from + stride);
            children.set(at, bucket);
        }
        i = i + 1;
    }
    (kept, children)
}

/// The points of the first `n` records, in no order.
pub open spec fn some_points(records: Seq<u8>, stride: int, n: int) -> Multiset<Seq<u8>>
    decreases n,
{
    if n <= 0 {
        Multiset::empty()
    } else {
        some_points(records, stride, n - 1).insert(record_at(records, stride, n - 1))
    }
}

/// The points of some records, in no order.
pub open spec fn points(records: Seq<u8>, stride: int) -> Multiset<Seq<u8>> {
    some_points(records, stride, records.len() as int / stride)
}

proof fn lemma_some_points(a: Seq<u8>, b: Seq<u8>, stride: int, n: int)
    requires
        0 < stride,
        0 <= n,
        n * stride <= a.len(),
        n * stride <= b.len(),
        forall|i: int| 0 <= i < n * stride ==> a[i] == b[i],
    ensures
        some_points(a, stride, n) == some_points(b, stride, n),
    decreases n,
{
    if n > 0 {
        assert((n - 1) * stride + stride == n * stride && 0 <= (n - 1) * stride)
            by (nonlinear_arith)
            requires
                n >= 1,
                stride > 0,
        ;
        lemma_some_points(a, b, stride, n - 1);
        assert(record_at(a, stride, n - 1) =~= record_at(b, stride, n - 1));
    }
}

/// One more record is one more point.
proof fn lemma_point_added(records: Seq<u8>, record: Seq<u8>, stride: int)
    requires
        0 < stride,
        record.len() == stride,
        records.len() as int % stride == 0,
    ensures
        points(records + record, stride) == points(records, stride).insert(record),
        (records + record).len() as int % stride == 0,
{
    let n = records.len() as int / stride;
    let all = records + record;
    vstd::arithmetic::div_mod::lemma_fundamental_div_mod(records.len() as int, stride);
    assert(n * stride == stride * n) by (nonlinear_arith);
    assert(all.len() == (n + 1) * stride + 0) by (nonlinear_arith)
        requires
            all.len() == n * stride + stride,
    ;
    vstd::arithmetic::div_mod::lemma_fundamental_div_mod_converse(
        all.len() as int,
        stride,
        n + 1,
        0,
    );
    vstd::arithmetic::div_mod::lemma_div_pos_is_pos(records.len() as int, stride);
    lemma_some_points(records, all, stride, n);
    assert(record_at(all, stride, n) =~= record);
}

/// The points that fall to the children below `m`.
pub open spec fn fallen(
    records: Seq<u8>,
    stride: int,
    slots: Seq<Slot>,
    m: int,
    n: int,
) -> Multiset<Seq<u8>>
    decreases m,
{
    if m <= 0 {
        Multiset::empty()
    } else {
        fallen(records, stride, slots, m - 1, n).add(
            points(falling(records, stride, slots, m - 1, n), stride),
        )
    }
}

proof fn lemma_fallen_step(records: Seq<u8>, stride: int, slots: Seq<Slot>, m: int, n: int)
    requires
        0 < stride,
        0 < n,
        0 <= m,
        n * stride <= records.len(),
        forall|c: int|
            0 <= c < m ==> (#[trigger] falling(records, stride, slots, c, n - 1)).len() as int
                % stride == 0,
    ensures
        fallen(records, stride, slots, m, n) == if !is_first(slots, n - 1) && slots[n - 1].child
            < m {
            fallen(records, stride, slots, m, n - 1).insert(record_at(records, stride, n - 1))
        } else {
            fallen(records, stride, slots, m, n - 1)
        },
    decreases m,
{
    if m > 0 {
        lemma_fallen_step(records, stride, slots, m - 1, n);
        let r = record_at(records, stride, n - 1);
        assert((n - 1) * stride + stride == n * stride && 0 <= (n - 1) * stride)
            by (nonlinear_arith)
            requires
                n >= 1,
                stride > 0,
        ;
        let before = falling(records, stride, slots, m - 1, n - 1);
        assert(before.len() as int % stride == 0);
        if !is_first(slots, n - 1) && slots[n - 1].child == m - 1 {
            lemma_point_added(before, r, stride);
        }
        assert(fallen(records, stride, slots, m, n) =~= if !is_first(slots, n - 1)
            && slots[n - 1].child < m {
            fallen(records, stride, slots, m, n - 1).insert(r)
        } else {
            fallen(records, stride, slots, m, n - 1)
        });
    }
}

/// Whole records one behind the other hold the points of both.
pub(crate) proof fn lemma_points_joined(a: Seq<u8>, b: Seq<u8>, stride: int)
    requires
        0 < stride,
        a.len() as int % stride == 0,
        b.len() as int % stride == 0,
    ensures
        points(a + b, stride) == points(a, stride).add(points(b, stride)),
        (a + b).len() as int % stride == 0,
    decreases b.len(),
{
    if b.len() == 0 {
        assert(a + b =~= a);
        vstd::arithmetic::div_mod::lemma_basic_div(0, stride);
        assert(points(b, stride) =~= Multiset::empty());
        assert(points(a, stride).add(Multiset::empty()) =~= points(a, stride));
    } else {
        let n = b.len() as int / stride;
        vstd::arithmetic::div_mod::lemma_fundamental_div_mod(b.len() as int, stride);
        assert(stride * n >= stride && stride * n - stride == stride * (n - 1)) by (nonlinear_arith)
            requires
                stride * n > 0,
                stride > 0,
        ;
        let cut = b.len() - stride;
        let front = b.take(cut);
        let back = b.skip(cut);
        vstd::arithmetic::div_mod::lemma_mod_multiples_basic(n - 1, stride);
        assert((n - 1) * stride == stride * (n - 1)) by (nonlinear_arith);
        assert(front.len() as int % stride == 0);
        lemma_points_joined(a, front, stride);
        lemma_point_added(a + front, back, stride);
        lemma_point_added(front, back, stride);
        assert((a + front) + back =~= a + b);
        assert(front + back =~= b);
        assert(points(a + b, stride) =~= points(a, stride).add(points(b, stride)));
    }
}

proof fn lemma_aligned(records: Seq<u8>, stride: int, slots: Seq<Slot>, n: int)
    requires
        0 < stride,
        0 <= n,
        n * stride <= records.len(),
    ensures
        staying(records, stride, slots, n).len() as int % stride == 0,
        forall|c: int| (#[trigger] falling(records, stride, slots, c, n)).len() as int % stride == 0,
    decreases n,
{
    if n > 0 {
        assert((n - 1) * stride + stride == n * stride && 0 <= (n - 1) * stride)
            by (nonlinear_arith)
            requires
                n >= 1,
                stride > 0,
        ;
        lemma_aligned(records, stride, slots, n - 1);
        let r = record_at(records, stride, n - 1);
        lemma_point_added(staying(records, stride, slots, n - 1), r, stride);
        assert forall|c: int| (#[trigger] falling(records, stride, slots, c, n)).len() as int
            % stride == 0 by {
            assert(falling(records, stride, slots, c, n - 1).len() as int % stride == 0);
            lemma_point_added(falling(records, stride, slots, c, n - 1), r, stride);
        }
    } else {
        assert(0int % stride == 0) by {
            vstd::arithmetic::div_mod::lemma_small_mod(0, stride as nat);
        }
    }
}

proof fn lemma_split(records: Seq<u8>, stride: int, slots: Seq<Slot>, n: int)
    requires
        0 < stride,
        0 <= n <= slots.len(),
        n * stride <= records.len(),
        forall|i: int| 0 <= i < slots.len() ==> (#[trigger] slots[i]).child < 8,
    ensures
        points(staying(records, stride, slots, n), stride).add(
            fallen(records, stride, slots, 8, n),
        ) == some_points(records, stride, n),
    decreases n,
{
    if n > 0 {
        assert((n - 1) * stride + stride == n * stride && 0 <= (n - 1) * stride)
            by (nonlinear_arith)
            requires
                n >= 1,
                stride > 0,
        ;
        lemma_split(records, stride, slots, n - 1);
        lemma_aligned(records, stride, slots, n - 1);
        lemma_fallen_step(records, stride, slots, 8, n);
        let r = record_at(records, stride, n - 1);
        assert(slots[n - 1].child < 8);
        if is_first(slots, n - 1) {
            lemma_point_added(staying(records, stride, slots, n - 1), r, stride);
        }
        assert(points(staying(records, stride, slots, n), stride).add(
            fallen(records, stride, slots, 8, n),
        ) =~= some_points(records, stride, n));
    } else {
        lemma_nothing(records, stride, slots, 8);
        assert(points(Seq::<u8>::empty(), stride) =~= Multiset::empty()) by {
            assert(0int / stride == 0) by {
                vstd::arithmetic::div_mod::lemma_basic_div(0, stride);
            }
        }
        assert(Multiset::<Seq<u8>>::empty().add(Multiset::empty()) =~= Multiset::empty());
    }
}

proof fn lemma_nothing(records: Seq<u8>, stride: int, slots: Seq<Slot>, m: int)
    requires
        0 < stride,
    ensures
        fallen(records, stride, slots, m, 0) == Multiset::<Seq<u8>>::empty(),
    decreases m,
{
    if m > 0 {
        lemma_nothing(records, stride, slots, m - 1);
        assert(0int / stride == 0) by {
            vstd::arithmetic::div_mod::lemma_basic_div(0, stride);
        }
        assert(fallen(records, stride, slots, m, 0) =~= Multiset::<Seq<u8>>::empty());
    }
}

/// The points of the buckets of the children below `m`.
pub open spec fn in_buckets(
    records: Seq<u8>,
    level: u32,
    stride: int,
    options: BuildOptions,
    slots: Seq<Slot>,
    m: int,
) -> Multiset<Seq<u8>>
    decreases m,
{
    if m <= 0 {
        Multiset::empty()
    } else {
        in_buckets(records, level, stride, options, slots, m - 1).add(
            points(bucket(records, level, stride, options, slots, m - 1), stride),
        )
    }
}

/// Splitting moves points between levels and never drops or duplicates one: what
/// a node keeps and what its children get are, together, its input.
pub proof fn partition_conserves_points(
    records: Seq<u8>,
    level: u32,
    stride: int,
    options: BuildOptions,
    slots: Seq<Slot>,
)
    requires
        0 < stride,
        slots_fit(records, level, stride, options, slots),
    ensures
        points(keeps(records, level, stride, options, slots), stride).add(
            in_buckets(records, level, stride, options, slots, 8),
        ) == points(records, stride),
{
    let count = records.len() as int / stride;
    vstd::arithmetic::div_mod::lemma_fundamental_div_mod(records.len() as int, stride);
    vstd::arithmetic::div_mod::lemma_div_pos_is_pos(records.len() as int, stride);
    assert(count * stride == stride * count) by (nonlinear_arith);
    if takes_all(count, level, options) {
        lemma_empty_buckets(records, level, stride, options, slots, 8);
        assert(points(records, stride).add(Multiset::empty()) =~= points(records, stride));
    } else {
        lemma_split(records, stride, slots, count);
        lemma_same_buckets(records, level, stride, options, slots, 8);
    }
}

proof fn lemma_empty_buckets(
    records: Seq<u8>,
    level: u32,
    stride: int,
    options: BuildOptions,
    slots: Seq<Slot>,
    m: int,
)
    requires
        0 < stride,
        takes_all(records.len() as int / stride, level, options),
    ensures
        in_buckets(records, level, stride, options, slots, m) == Multiset::<Seq<u8>>::empty(),
    decreases m,
{
    if m > 0 {
        lemma_empty_buckets(records, level, stride, options, slots, m - 1);
        assert(0int / stride == 0) by {
            vstd::arithmetic::div_mod::lemma_basic_div(0, stride);
        }
        assert(in_buckets(records, level, stride, options, slots, m) =~= Multiset::<
            Seq<u8>,
        >::empty());
    }
}

proof fn lemma_same_buckets(
    records: Seq<u8>,
    level: u32,
    stride: int,
    options: BuildOptions,
    slots: Seq<Slot>,
    m: int,
)
    requires
        !takes_all(records.len() as int / stride, level, options),
    ensures
        in_buckets(records, level, stride, options, slots, m) == fallen(
            records,
            stride,
            slots,
            m,
            records.len() as int / stride,
        ),
    decreases m,
{
    if m > 0 {
        lemma_same_buckets(records, level, stride, options, slots, m - 1);
    }
}

/// A node that is split keeps no two points of one cell.
pub proof fn kept_points_have_cells_of_their_own(slots: Seq<Slot>, i: int, j: int)
    requires
        0 <= i < j < slots.len(),
        is_first(slots, i),
        is_first(slots, j),
    ensures
        slots[i].cell != slots[j].cell,
{
}

/// A node as the values it holds.
pub open spec fn node_view(n: BuiltNode) -> (OctreeKey, Seq<u8>) {
    (n.key, n.records@)
}

/// Some nodes as the values they hold.
pub open spec fn node_views(nodes: Seq<BuiltNode>) -> Seq<(OctreeKey, Seq<u8>)> {
    nodes.map_values(|n: BuiltNode| node_view(n))
}

/// The children of a node that have any points, from the last one down to child
/// `c`.
pub open spec fn children_down_to(
    key: OctreeKey,
    records: Seq<u8>,
    stride: int,
    options: BuildOptions,
    slots: Seq<Slot>,
    c: int,
) -> Seq<(OctreeKey, Seq<u8>)>
    decreases 8 - c,
{
    if c >= 8 {
        Seq::empty()
    } else {
        let above = children_down_to(key, records, stride, options, slots, c + 1);
        let b = bucket(records, key.level, stride, options, slots, c);
        if b.len() == 0 {
            above
        } else {
            above.push((key.spec_child(c as u8), b))
        }
    }
}

/// What a node keeps of whole records is whole records.
pub(crate) proof fn lemma_keeps_whole(
    records: Seq<u8>,
    level: u32,
    stride: int,
    options: BuildOptions,
    slots: Seq<Slot>,
)
    requires
        0 < stride,
        records.len() as int % stride == 0,
    ensures
        keeps(records, level, stride, options, slots).len() as int % stride == 0,
{
    let count = records.len() as int / stride;
    vstd::arithmetic::div_mod::lemma_fundamental_div_mod(records.len() as int, stride);
    vstd::arithmetic::div_mod::lemma_div_pos_is_pos(records.len() as int, stride);
    assert(count * stride == stride * count) by (nonlinear_arith);
    if !takes_all(count, level, options) {
        lemma_aligned(records, stride, slots, count);
    }
}

/// All points of some nodes, in no order.
pub open spec fn all_points(nodes: Seq<(OctreeKey, Seq<u8>)>, stride: int) -> Multiset<Seq<u8>>
    decreases nodes.len(),
{
    if nodes.len() == 0 {
        Multiset::empty()
    } else {
        all_points(nodes.drop_last(), stride).add(points(nodes.last().1, stride))
    }
}

/// Subdivides the points of a node, one node at a time.
#[derive(Debug)]
pub struct Builder {
    pub stride: usize,
    pub options: BuildOptions,
    /// The level at which a node takes its input whole, where there is one.
    pub stop_at: Option<u32>,
    /// The nodes still to be split, the next one last.
    pub pending: Vec<BuiltNode>,
}

impl Builder {
    /// Starts on the points of a node. A node without points is no node.
    pub fn new(
        stride: usize,
        options: BuildOptions,
        stop_at: Option<u32>,
        key: OctreeKey,
        records: Vec<u8>,
    ) -> (b: Self)
        ensures
            b.stride == stride,
            b.options == options,
            b.stop_at == stop_at,
            node_views(b.pending@) == if records@.len() == 0 {
                Seq::empty()
            } else {
                seq![(key, records@)]
            },
    {
        let mut pending: Vec<BuiltNode> = Vec::new();
        if records.len() > 0 {
            pending.push(BuiltNode { key, records });
            assert(node_views(pending@) =~= seq![(key, records@)]);
        } else {
            assert(node_views(pending@) =~= Seq::<(OctreeKey, Seq<u8>)>::empty());
        }
        Builder { stride, options, stop_at, pending }
    }

    /// Whether a node takes its input whole because the level to stop at is
    /// reached.
    pub open spec fn stops(self, level: u32) -> bool {
        match self.stop_at {
            Some(s) => level >= s,
            None => false,
        }
    }

    /// Whether the next node is split, so that its points have to be placed.
    pub open spec fn next_splits(self) -> bool {
        let n = self.pending@.last();
        self.pending@.len() > 0 && !self.stops(n.key.level) && !takes_all(
            n.records@.len() as int / self.stride as int,
            n.key.level,
            self.options,
        )
    }

    /// Whether the next node is split, so that its points have to be placed.
    pub fn splits(&self) -> (r: bool)
        requires
            self.stride > 0,
        ensures
            r == self.next_splits(),
    {
        let n: usize = self.pending.len();
        if n == 0 {
            return false;
        }
        let node = &self.pending[n - 1];
        if let Some(s) = self.stop_at {
            if node.key.level >= s {
                return false;
            }
        }
        let count: usize = node.records.len() / self.stride;
        !(count <= self.options.leaf_points || node.key.level >= self.options.max_depth)
    }

    /// Whether finishing the next node, its points placed, gives a node and a
    /// build. A node at the level to stop at is its input; any other keeps the
    /// first point of each cell, and its children that have any points are put
    /// in line, the first of them next.
    pub open spec fn steps_to(
        self,
        slots: Seq<Slot>,
        node: (OctreeKey, Seq<u8>),
        after: Builder,
    ) -> bool {
        let last = self.pending@.last();
        let rest = node_views(self.pending@.drop_last());
        &&& self.stride > 0
        &&& self.pending@.len() > 0
        &&& self.next_splits() ==> slots_fit(
            last.records@,
            last.key.level,
            self.stride as int,
            self.options,
            slots,
        )
        &&& node.0 == last.key
        &&& if self.stops(last.key.level) {
            node.1 == last.records@ && node_views(after.pending@) == rest
        } else {
            node.1 == keeps(
                last.records@,
                last.key.level,
                self.stride as int,
                self.options,
                slots,
            ) && node_views(after.pending@) == rest + children_down_to(
                last.key,
                last.records@,
                self.stride as int,
                self.options,
                slots,
                0,
            )
        }
    }

    /// Finishes the next node and puts its children in line. The parent comes
    /// before its children, always, and children in ascending order.
    #[verifier::rlimit(30)]
    pub fn step(&mut self, slots: &Vec<Slot>) -> (r: Option<BuiltNode>)
        requires
            old(self).stride > 0,
            old(self).next_splits() ==> slots_fit(
                old(self).pending@.last().records@,
                old(self).pending@.last().key.level,
                old(self).stride as int,
                old(self).options,
                slots@,
            ),
        ensures
            final(self).stride == old(self).stride,
            final(self).options == old(self).options,
            final(self).stop_at == old(self).stop_at,
            match r {
                None => old(self).pending@.len() == 0 && final(self).pending@.len() == 0,
                Some(node) => old(self).steps_to(slots@, node_view(node), *final(self)),
            },
    {
        let node = match self.pending.pop() {
            Some(n) => n,
            None => {
                return None;
            },
        };
        let ghost rest = self.pending@;
        assert(rest =~= old(self).pending@.drop_last());
        if let Some(s) = self.stop_at {
            if node.key.level >= s {
                return Some(node);
            }
        }
        let key = node.key;
        let (kept, children) = partition(
            node.records.as_slice(),
            key,
            self.stride,
            &self.options,
            slots,
        );
        let ghost all = node.records@;
        let ghost step = self.stride as int;
        let ghost start = node_views(rest);
        let mut children = children;
        let mut c: u8 = 8;
        assert(node_views(self.pending@) =~= start + children_down_to(
            key,
            all,
            step,
            self.options,
            slots@,
            8,
        ));
        while c > 0
            invariant
                c <= 8,
                children@.len() == c,
                step == self.stride,
                self.stride == old(self).stride,
                self.options == old(self).options,
                self.stop_at == old(self).stop_at,
                forall|k: int|
                    0 <= k < c ==> (#[trigger] children@[k])@ == bucket(
                        all,
                        key.level,
                        step,
                        self.options,
                        slots@,
                        k,
                    ),
                node_views(self.pending@) == start + children_down_to(
                    key,
                    all,
                    step,
                    self.options,
                    slots@,
                    c as int,
                ),
            decreases c,
        {
            c = c - 1;
            let ghost before = children@;
            let ghost in_line = node_views(self.pending@);
            let b = match children.pop() {
                Some(b) => b,
                None => Vec::new(),
            };
            assert(b@ == before[c as int]@);
            assert forall|k: int| 0 <= k < c implies (#[trigger] children@[k])@ == bucket(
                all,
                key.level,
                step,
                self.options,
                slots@,
                k,
            ) by {
                assert(children@[k] == before[k]);
            }
            if b.len() > 0 {
                let child = BuiltNode { key: key.child(c), records: b };
                self.pending.push(child);
                assert(node_views(self.pending@) =~= in_line.push((key.spec_child(c), b@)));
            }
            assert(node_views(self.pending@) =~= start + children_down_to(
                key,
                all,
                step,
                self.options,
                slots@,
                c as int,
            ));
        }
        Some(BuiltNode { key, records: kept })
    }
}

proof fn lemma_children_points(
    key: OctreeKey,
    records: Seq<u8>,
    stride: int,
    options: BuildOptions,
    slots: Seq<Slot>,
    c: int,
)
    requires
        0 < stride,
        0 <= c <= 8,
    ensures
        all_points(children_down_to(key, records, stride, options, slots, c), stride).add(
            in_buckets(records, key.level, stride, options, slots, c),
        ) == in_buckets(records, key.level, stride, options, slots, 8),
    decreases 8 - c,
{
    let here = in_buckets(records, key.level, stride, options, slots, c);
    let list = children_down_to(key, records, stride, options, slots, c);
    if c == 8 {
        assert(Multiset::<Seq<u8>>::empty().add(here) =~= here);
    } else {
        lemma_children_points(key, records, stride, options, slots, c + 1);
        let above = children_down_to(key, records, stride, options, slots, c + 1);
        let b = bucket(records, key.level, stride, options, slots, c);
        if b.len() == 0 {
            assert(points(b, stride) =~= Multiset::empty()) by {
                vstd::arithmetic::div_mod::lemma_basic_div(0, stride);
            }
        } else {
            assert(list.drop_last() =~= above);
        }
        assert(all_points(list, stride).add(here) =~= all_points(above, stride).add(
            in_buckets(records, key.level, stride, options, slots, c + 1),
        ));
    }
}

/// One step of a build neither drops nor duplicates a point: those of the
/// finished node and those of its children in line are, together, those it had.
pub proof fn steps_conserve_points(
    key: OctreeKey,
    records: Seq<u8>,
    stride: int,
    options: BuildOptions,
    slots: Seq<Slot>,
)
    requires
        0 < stride,
        slots_fit(records, key.level, stride, options, slots),
    ensures
        points(keeps(records, key.level, stride, options, slots), stride).add(
            all_points(children_down_to(key, records, stride, options, slots, 0), stride),
        ) == points(records, stride),
{
    partition_conserves_points(records, key.level, stride, options, slots);
    lemma_children_points(key, records, stride, options, slots, 0);
    let list = all_points(children_down_to(key, records, stride, options, slots, 0), stride);
    assert(list.add(Multiset::empty()) =~= list);
}

proof fn lemma_points_of_both(a: Seq<(OctreeKey, Seq<u8>)>, b: Seq<(OctreeKey, Seq<u8>)>, stride: int)
    ensures
        all_points(a + b, stride) == all_points(a, stride).add(all_points(b, stride)),
    decreases b.len(),
{
    let all = a + b;
    if b.len() == 0 {
        assert(all =~= a);
        assert(all_points(a, stride).add(Multiset::empty()) =~= all_points(a, stride));
    } else {
        lemma_points_of_both(a, b.drop_last(), stride);
        assert(all.drop_last() =~= a + b.drop_last());
        assert(all.last() == b.last());
        assert(all_points(all, stride) =~= all_points(a, stride).add(all_points(b, stride)));
    }
}

/// A build neither drops nor duplicates a point: those of the node it finishes
/// and those still in line are, together, those that were in line before. Over
/// all the steps of a build, the nodes hold the points it started on.
pub proof fn builds_conserve_points(
    before: Builder,
    after: Builder,
    slots: Seq<Slot>,
    node: (OctreeKey, Seq<u8>),
)
    requires
        before.steps_to(slots, node, after),
    ensures
        all_points(node_views(before.pending@), before.stride as int) == points(
            node.1,
            before.stride as int,
        ).add(all_points(node_views(after.pending@), before.stride as int)),
{
    let stride = before.stride as int;
    let last = before.pending@.last();
    let views = node_views(before.pending@);
    let rest = node_views(before.pending@.drop_last());
    assert(views.drop_last() =~= rest);
    assert(views.last() == node_view(last));
    let own = points(last.records@, stride);
    assert(all_points(views, stride) == all_points(rest, stride).add(own));
    if before.stops(last.key.level) {
        assert(all_points(rest, stride).add(own) =~= own.add(all_points(rest, stride)));
    } else {
        let below = children_down_to(
            last.key,
            last.records@,
            stride,
            before.options,
            slots,
            0,
        );
        steps_conserve_points(last.key, last.records@, stride, before.options, slots);
        lemma_points_of_both(rest, below, stride);
        let kept = points(node.1, stride);
        assert(all_points(rest, stride).add(kept.add(all_points(below, stride))) =~= kept.add(
            all_points(rest, stride).add(all_points(below, stride)),
        ));
    }
}

/// Children are put in line one level below their node, and only above the depth
/// limit: points that never separate stop there.
pub proof fn depth_is_limited(
    key: OctreeKey,
    records: Seq<u8>,
    stride: int,
    options: BuildOptions,
    slots: Seq<Slot>,
    c: int,
    i: int,
)
    requires
        0 <= c <= 8,
        0 <= i < children_down_to(key, records, stride, options, slots, c).len(),
    ensures
        key.level < options.max_depth,
        children_down_to(key, records, stride, options, slots, c)[i].0.level == key.level + 1,
        children_down_to(key, records, stride, options, slots, c)[i].0.level <= options.max_depth,
    decreases 8 - c,
{
    let above = children_down_to(key, records, stride, options, slots, c + 1);
    if c < 8 && i < above.len() {
        depth_is_limited(key, records, stride, options, slots, c + 1, i);
    }
}

} // verus!
