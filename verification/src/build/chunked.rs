//! The out-of-core path.
//!
//! Above a memory budget the points go to disk first, in a shape that lets each
//! piece be built independently: every point to the file of its cell at some
//! level, each cell then built on its own, and what the cells keep built into
//! the levels above. The files belong to the program.

use super::{
    all_points, children_down_to, keeps, lemma_keeps_whole, lemma_points_joined, node_view,
    node_views, points, slots_fit, steps_conserve_points, BuildOptions, Builder, Slot,
};
use crate::bytes::put_range;
use crate::cloud::wrap64;
use crate::double::{nearest53, to_nearest53};
use crate::octree::OctreeKey;
use crate::write::keys::{pack, packed, packed_is_unique};
use vstd::prelude::*;

verus! {

/// Records held for one cell before they are appended to its file.
pub const SPILL_BYTES: usize = 4_194_304;

/// Eight to some power.
pub open spec fn cells_at(level: u32) -> int
    decreases level,
{
    if level == 0 {
        1
    } else {
        8 * cells_at((level - 1) as u32)
    }
}

/// Whether a cell at a level fits in half of the memory budget, the points being
/// spread evenly. Both sizes count to 53 binary digits.
pub open spec fn fits(expected_bytes: u64, memory_budget: u64, level: u32) -> bool {
    let budget = nearest53(memory_budget as nat);
    let half_pairs = if budget < 2 {
        2
    } else {
        budget as int
    };
    2 * nearest53(expected_bytes as nat) <= half_pairs * cells_at(level)
}

/// The level at which the cloud is cut up: the first at which a cell fits, and
/// at most four, where there are as many cells as files may be open.
pub open spec fn cut_level(expected_bytes: u64, memory_budget: u64, from: u32) -> u32
    decreases 4 - from,
{
    if from >= 4 || fits(expected_bytes, memory_budget, from) {
        from
    } else {
        cut_level(expected_bytes, memory_budget, (from + 1) as u32)
    }
}

/// The level at which the cloud is cut up.
pub fn spill_level(expected_bytes: u64, memory_budget: u64) -> (level: u32)
    ensures
        level == cut_level(expected_bytes, memory_budget, 0),
        level <= 4,
{
    let budget: u128 = to_nearest53(memory_budget);
    let half_pairs: u128 = if budget < 2 {
        2
    } else {
        budget
    };
    let expected: u128 = to_nearest53(expected_bytes);
    let mut level: u32 = 0;
    let mut cells: u128 = 1;
    while level < 4 && 2 * expected > half_pairs * cells
        invariant
            level <= 4,
            1 <= cells <= 4096,
            level < 4 ==> cells <= 512,
            level < 3 ==> cells <= 64,
            level < 2 ==> cells <= 8,
            level < 1 ==> cells <= 1,
            cells == cells_at(level),
            expected == nearest53(expected_bytes as nat),
            expected <= 0x1_0000_0000_0000_0000,
            2 <= half_pairs <= 0x1_0000_0000_0000_0000,
            half_pairs == if nearest53(memory_budget as nat) < 2 {
                2
            } else {
                nearest53(memory_budget as nat) as int
            },
            half_pairs * cells <= u128::MAX,
            cut_level(expected_bytes, memory_budget, 0) == cut_level(
                expected_bytes,
                memory_budget,
                level,
            ),
        decreases 4 - level,
    {
        level = level + 1;
        cells = cells * 8;
        assert(half_pairs * cells <= 0x1_0000_0000_0000_0000 * 4096) by (nonlinear_arith)
            requires
                0 <= half_pairs <= 0x1_0000_0000_0000_0000,
                0 <= cells <= 4096,
        ;
    }
    level
}

/// The records of one cell that are not in its file yet, and how many records
/// the cell has in all.
#[derive(Debug)]
pub struct CellBuffer {
    pub key: OctreeKey,
    pub pending: Vec<u8>,
    pub count: u64,
}

/// Sends records to their cells.
#[derive(Debug)]
pub struct ChunkedBuild {
    pub level: u32,
    /// In ascending order of their addresses.
    pub cells: Vec<CellBuffer>,
}

/// Whether a cell has an address.
pub open spec fn has_cell(cells: Seq<CellBuffer>, key: OctreeKey) -> bool {
    exists|i: int| 0 <= i < cells.len() && (#[trigger] cells[i]).key == key
}

/// The records that wait for the file of a cell.
pub open spec fn waiting(cells: Seq<CellBuffer>, key: OctreeKey) -> Seq<u8> {
    if has_cell(cells, key) {
        let i = choose|i: int| 0 <= i < cells.len() && (#[trigger] cells[i]).key == key;
        cells[i].pending@
    } else {
        Seq::empty()
    }
}

/// How many records a cell has taken in.
pub open spec fn received(cells: Seq<CellBuffer>, key: OctreeKey) -> u64 {
    if has_cell(cells, key) {
        let i = choose|i: int| 0 <= i < cells.len() && (#[trigger] cells[i]).key == key;
        cells[i].count
    } else {
        0
    }
}

/// Whether cells are in ascending order, each once.
pub open spec fn in_order(cells: Seq<CellBuffer>) -> bool {
    forall|i: int, j: int|
        0 <= i < j < cells.len() ==> packed((#[trigger] cells[i]).key) < packed(
            (#[trigger] cells[j]).key,
        )
}

/// Whether every cell but one holds what it held.
pub open spec fn others_unchanged(
    before: Seq<CellBuffer>,
    after: Seq<CellBuffer>,
    key: OctreeKey,
) -> bool {
    forall|k: OctreeKey|
        k != key ==> #[trigger] waiting(after, k) == waiting(before, k) && has_cell(after, k)
            == has_cell(before, k) && received(after, k) == received(before, k)
}

/// How a cell takes in a record: it waits behind those that wait already, and
/// once they are as many bytes as are written at a time, all of them are handed
/// over.
pub open spec fn takes_in(
    before: Seq<u8>,
    record: Seq<u8>,
    handed: Option<Seq<u8>>,
    after: Seq<u8>,
) -> bool {
    let all = before + record;
    match handed {
        Some(bytes) => all.len() >= SPILL_BYTES && bytes == all && after == Seq::<u8>::empty(),
        None => all.len() < SPILL_BYTES && after == all,
    }
}

/// A file with what was handed over for it.
pub open spec fn with_handed(file: Seq<u8>, handed: Option<Seq<u8>>) -> Seq<u8> {
    match handed {
        Some(bytes) => file + bytes,
        None => file,
    }
}

/// Spilling neither loses a record nor moves one: the file of a cell, and what
/// waits for it, are together every record that the cell has taken in, in order.
pub proof fn spilling_keeps_every_record(
    file: Seq<u8>,
    before: Seq<u8>,
    record: Seq<u8>,
    handed: Option<Seq<u8>>,
    after: Seq<u8>,
)
    requires
        takes_in(before, record, handed, after),
    ensures
        with_handed(file, handed) + after == file + before + record,
{
    match handed {
        Some(bytes) => assert((file + bytes) + after =~= file + before + record),
        None => assert(file + after =~= file + before + record),
    }
}

/// Starts on a cell. What the cell keeps goes to the levels above, which will
/// take some of it; its own node is what they leave. The nodes below the cell
/// are left to the build that comes back.
pub fn open_cell(
    stride: usize,
    options: BuildOptions,
    key: OctreeKey,
    records: Vec<u8>,
    slots: &Vec<Slot>,
    top: &mut Vec<u8>,
) -> (b: Builder)
    requires
        stride > 0,
        slots_fit(records@, key.level, stride as int, options, slots@),
    ensures
        b.stride == stride,
        b.options == options,
        b.stop_at is None,
        if records@.len() == 0 {
            final(top)@ == old(top)@ && b.pending@.len() == 0
        } else {
            final(top)@ == old(top)@ + keeps(
                records@,
                key.level,
                stride as int,
                options,
                slots@,
            ) && node_views(b.pending@) == children_down_to(
                key,
                records@,
                stride as int,
                options,
                slots@,
                0,
            )
        },
{
    let ghost all = records@;
    let mut b = Builder::new(stride, options, None, key, records);
    let ghost start = b.pending@;
    proof {
        assert(node_views(start).len() == start.len());
        if all.len() > 0 {
            assert(node_views(start)[0] == node_view(start.last()));
            assert(node_views(start.drop_last()) =~= Seq::<(OctreeKey, Seq<u8>)>::empty());
        }
    }
    match b.step(slots) {
        Some(node) => {
            put_range(top, node.records.as_slice(), 0, node.records.len());
            proof {
                assert(node.records@.subrange(0, node.records@.len() as int) =~= node.records@);
                assert(node_view(node).1 == node.records@);
                assert(node_views(b.pending@) =~= children_down_to(
                    key,
                    all,
                    stride as int,
                    options,
                    slots@,
                    0,
                ));
            }
        },
        None => {},
    }
    b
}

/// Starts on the levels above the cells, from what the cells kept. At the level
/// of the cells a node takes its input whole: what is below is built already.
pub fn build_top(stride: usize, options: BuildOptions, level: u32, top: Vec<u8>) -> (b: Builder)
    ensures
        b.stride == stride,
        b.options == options,
        b.stop_at == Some(level),
        node_views(b.pending@) == if top@.len() == 0 {
            Seq::empty()
        } else {
            seq![(OctreeKey::root(), top@)]
        },
{
    Builder::new(stride, options, Some(level), OctreeKey::root(), top)
}

/// Opening a cell neither drops nor duplicates a point: those that go to the
/// levels above and those of the nodes below are, together, those of the cell.
pub proof fn cells_conserve_points(
    key: OctreeKey,
    records: Seq<u8>,
    stride: int,
    options: BuildOptions,
    slots: Seq<Slot>,
    top: Seq<u8>,
)
    requires
        0 < stride,
        slots_fit(records, key.level, stride, options, slots),
        records.len() as int % stride == 0,
        top.len() as int % stride == 0,
    ensures
        ({
            let more = top + keeps(records, key.level, stride, options, slots);
            let below = children_down_to(key, records, stride, options, slots, 0);
            &&& more.len() as int % stride == 0
            &&& points(more, stride).add(all_points(below, stride)) == points(top, stride).add(
                points(records, stride),
            )
        }),
{
    let kept = keeps(records, key.level, stride, options, slots);
    let below = children_down_to(key, records, stride, options, slots, 0);
    lemma_keeps_whole(records, key.level, stride, options, slots);
    lemma_points_joined(top, kept, stride);
    steps_conserve_points(key, records, stride, options, slots);
    assert(points(top, stride).add(points(kept, stride)).add(all_points(below, stride)) =~= points(
        top,
        stride,
    ).add(points(kept, stride).add(all_points(below, stride))));
}

proof fn lemma_waiting(cells: Seq<CellBuffer>, i: int)
    requires
        in_order(cells),
        0 <= i < cells.len(),
    ensures
        waiting(cells, cells[i].key) == cells[i].pending@,
        received(cells, cells[i].key) == cells[i].count,
{
    let key = cells[i].key;
    let j = choose|j: int| 0 <= j < cells.len() && (#[trigger] cells[j]).key == key;
    assert(cells[i].key == key);
    if i < j {
        assert(packed(cells[i].key) < packed(cells[j].key));
    } else if j < i {
        assert(packed(cells[j].key) < packed(cells[i].key));
    }
}

impl ChunkedBuild {
    pub fn new(expected_bytes: u64, memory_budget: u64) -> (b: Self)
        ensures
            b.level == cut_level(expected_bytes, memory_budget, 0),
            b.cells@.len() == 0,
            in_order(b.cells@),
    {
        ChunkedBuild { level: spill_level(expected_bytes, memory_budget), cells: Vec::new() }
    }

    pub fn level(&self) -> (l: u32)
        ensures
            l == self.level,
    {
        self.level
    }

    fn find(&self, key: OctreeKey) -> (at: usize)
        requires
            in_order(self.cells@),
        ensures
            at <= self.cells@.len(),
            forall|i: int|
                0 <= i < at ==> packed((#[trigger] self.cells@[i]).key) < packed(key),
            forall|i: int|
                at <= i < self.cells@.len() ==> packed((#[trigger] self.cells@[i]).key) >= packed(
                    key,
                ),
    {
        let n: u128 = pack(key);
        let mut low: usize = 0;
        let mut high: usize = self.cells.len();
        while low < high
            invariant
                low <= high <= self.cells@.len(),
                in_order(self.cells@),
                n == packed(key),
                forall|i: int|
                    0 <= i < low ==> packed((#[trigger] self.cells@[i]).key) < packed(key),
                forall|i: int|
                    high <= i < self.cells@.len() ==> packed((#[trigger] self.cells@[i]).key)
                        >= packed(key),
            decreases high - low,
        {
            let mid: usize = low + (high - low) / 2;
            if pack(self.cells[mid].key) < n {
                assert forall|i: int| 0 <= i < mid + 1 implies packed(
                    (#[trigger] self.cells@[i]).key,
                ) < packed(key) by {
                    if i < mid {
                        assert(packed(self.cells@[i].key) < packed(self.cells@[mid as int].key));
                    }
                }
                low = mid + 1;
            } else {
                assert forall|i: int| mid <= i < self.cells@.len() implies packed(
                    (#[trigger] self.cells@[i]).key,
                ) >= packed(key) by {
                    if mid < i {
                        assert(packed(self.cells@[mid as int].key) < packed(self.cells@[i].key));
                    }
                }
                high = mid;
            }
        }
        low
    }

    /// Sends one record to its cell. Returns what is to be appended to the
    /// cell's file, once enough waits for it.
    #[verifier::rlimit(30)]
    pub fn distribute(&mut self, key: OctreeKey, record: &[u8]) -> (r: Option<Vec<u8>>)
        requires
            in_order(old(self).cells@),
        ensures
            in_order(final(self).cells@),
            final(self).level == old(self).level,
            has_cell(final(self).cells@, key),
            takes_in(
                waiting(old(self).cells@, key),
                record@,
                match r {
                    Some(bytes) => Some(bytes@),
                    None => None,
                },
                waiting(final(self).cells@, key),
            ),
            received(final(self).cells@, key) == wrap64(received(old(self).cells@, key) + 1),
            others_unchanged(old(self).cells@, final(self).cells@, key),
    {
        let ghost before = self.cells@;
        let at: usize = self.find(key);
        let known = at < self.cells.len() && pack(self.cells[at].key) == pack(key);
        if !known {
            assert(!has_cell(before, key)) by {
                if has_cell(before, key) {
                    let i = choose|i: int| 0 <= i < before.len() && (#[trigger] before[i]).key
                        == key;
                    if i > at {
                        assert(packed(before[at as int].key) < packed(before[i].key));
                    }
                }
            }
            self.cells.insert(at, CellBuffer { key, pending: Vec::new(), count: 0 });
        }
        let ghost middle = self.cells@;
        proof {
            if known {
                packed_is_unique(before[at as int].key, key);
            }
            lemma_inserted(before, middle, at as int, key, known);
        }
        let mut cell = CellBuffer { key, pending: Vec::new(), count: 0 };
        std::mem::swap(&mut cell, &mut self.cells[at]);
        put_range(&mut cell.pending, record, 0, record.len());
        assert(record@.subrange(0, record@.len() as int) =~= record@);
        assert(cell.count == received(before, key));
        let count: u64 = cell.count.wrapping_add(1);
        let spill = cell.pending.len() >= SPILL_BYTES;
        let ghost all = waiting(before, key) + record@;
        assert(cell.pending@ == all);
        let (kept, out) = if spill {
            (Vec::new(), Some(cell.pending))
        } else {
            (cell.pending, None)
        };
        let ghost emptied = self.cells@;
        self.cells.set(at, CellBuffer { key, pending: kept, count });
        proof {
            assert(self.cells@ =~= middle.update(at as int, self.cells@[at as int]));
            lemma_replaced(middle, self.cells@, at as int, key);
            lemma_waiting(self.cells@, at as int);
            let after = self.cells@;
            assert(others_unchanged(before, after, key)) by {
                assert forall|k: OctreeKey| k != key implies #[trigger] waiting(after, k)
                    == waiting(before, k) && has_cell(after, k) == has_cell(before, k)
                    && received(after, k) == received(before, k) by {
                    assert(waiting(after, k) == waiting(middle, k));
                    assert(waiting(middle, k) == waiting(before, k));
                }
            }
        }
        out
    }
}

proof fn lemma_found(cells: Seq<CellBuffer>, k: OctreeKey) -> (i: int)
    requires
        has_cell(cells, k),
        in_order(cells),
    ensures
        0 <= i < cells.len(),
        cells[i].key == k,
        waiting(cells, k) == cells[i].pending@,
        received(cells, k) == cells[i].count,
{
    let i = choose|i: int| 0 <= i < cells.len() && (#[trigger] cells[i]).key == k;
    lemma_waiting(cells, i);
    i
}

proof fn lemma_inserted(
    before: Seq<CellBuffer>,
    middle: Seq<CellBuffer>,
    at: int,
    key: OctreeKey,
    known: bool,
)
    requires
        in_order(before),
        0 <= at <= before.len(),
        forall|i: int| 0 <= i < at ==> packed((#[trigger] before[i]).key) < packed(key),
        forall|i: int|
            at <= i < before.len() ==> packed((#[trigger] before[i]).key) >= packed(key),
        if known {
            at < before.len() && before[at].key == key && middle == before
        } else {
            !has_cell(before, key) && at < middle.len() && middle[at].key == key
                && middle[at].pending@ == Seq::<u8>::empty() && middle[at].count == 0 && middle == before.insert(
                at,
                middle[at],
            )
        },
    ensures
        at < middle.len(),
        in_order(middle),
        middle[at].key == key,
        middle[at].pending@ == waiting(before, key),
        middle[at].count == received(before, key),
        others_unchanged(before, middle, key),
{
    if known {
        lemma_waiting(before, at);
    } else {
        assert forall|i: int, j: int| 0 <= i < j < middle.len() implies packed(
            (#[trigger] middle[i]).key,
        ) < packed((#[trigger] middle[j]).key) by {
            let (a, b) = (
                if i < at {
                    i
                } else {
                    i - 1
                },
                if j < at {
                    j
                } else {
                    j - 1
                },
            );
            if i != at {
                assert(middle[i] == before[a]);
            }
            if j != at {
                assert(middle[j] == before[b]);
            }
            if i == at {
                assert(packed(before[b].key) >= packed(key));
                if packed(before[b].key) == packed(key) {
                    packed_is_unique(before[b].key, key);
                    assert(has_cell(before, key));
                }
            } else if j == at {
                assert(packed(before[a].key) < packed(key));
            } else {
                assert(packed(before[a].key) < packed(before[b].key));
            }
        }
        assert forall|k: OctreeKey| k != key implies #[trigger] waiting(middle, k) == waiting(
            before,
            k,
        ) && has_cell(middle, k) == has_cell(before, k) && received(middle, k) == received(
            before,
            k,
        ) by {
            lemma_inserted_other(before, middle, at, k);
        }
    }
}

proof fn lemma_inserted_other(
    before: Seq<CellBuffer>,
    middle: Seq<CellBuffer>,
    at: int,
    k: OctreeKey,
)
    requires
        in_order(before),
        in_order(middle),
        0 <= at <= before.len(),
        at < middle.len(),
        middle[at].key != k,
        middle == before.insert(at, middle[at]),
    ensures
        waiting(middle, k) == waiting(before, k),
        has_cell(middle, k) == has_cell(before, k),
        received(middle, k) == received(before, k),
{
    if has_cell(before, k) {
        let i = lemma_found(before, k);
        let m = if i < at {
            i
        } else {
            i + 1
        };
        assert(middle[m] == before[i]);
        lemma_waiting(middle, m);
    } else if has_cell(middle, k) {
        let m = lemma_found(middle, k);
        let i = if m < at {
            m
        } else {
            m - 1
        };
        assert(middle[m] == before[i]);
    }
}

proof fn lemma_replaced(
    middle: Seq<CellBuffer>,
    after: Seq<CellBuffer>,
    at: int,
    key: OctreeKey,
)
    requires
        in_order(middle),
        0 <= at < middle.len(),
        middle[at].key == key,
        after.len() == middle.len(),
        after[at].key == key,
        after == middle.update(at, after[at]),
    ensures
        in_order(after),
        has_cell(after, key),
        others_unchanged(middle, after, key),
{
    assert forall|i: int, j: int| 0 <= i < j < after.len() implies packed(
        (#[trigger] after[i]).key,
    ) < packed((#[trigger] after[j]).key) by {
        assert(packed(middle[i].key) < packed(middle[j].key));
    }
    assert(after[at].key == key);
    assert forall|k: OctreeKey| k != key implies #[trigger] waiting(after, k) == waiting(middle, k)
        && has_cell(after, k) == has_cell(middle, k) && received(after, k) == received(
        middle,
        k,
    ) by {
        lemma_replaced_other(middle, after, at, k);
    }
}

proof fn lemma_replaced_other(
    middle: Seq<CellBuffer>,
    after: Seq<CellBuffer>,
    at: int,
    k: OctreeKey,
)
    requires
        in_order(middle),
        in_order(after),
        0 <= at < middle.len(),
        middle[at].key != k,
        after.len() == middle.len(),
        after[at].key == middle[at].key,
        after == middle.update(at, after[at]),
    ensures
        waiting(after, k) == waiting(middle, k),
        has_cell(after, k) == has_cell(middle, k),
        received(after, k) == received(middle, k),
{
    if has_cell(middle, k) {
        let i = lemma_found(middle, k);
        assert(after[i] == middle[i]);
        lemma_waiting(after, i);
    } else if has_cell(after, k) {
        let i = lemma_found(after, k);
        assert(after[i] == middle[i]);
    }
}

} // verus!
