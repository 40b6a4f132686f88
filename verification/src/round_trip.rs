//! What holds of a whole rewrite of a cloud, and of two of them one after the
//! other.

use crate::attribute::Column;
use crate::format::potree::{whole_walk, PotreeNodeRef};
use crate::optimize::{
    cell_for, cells_for, decoded, encodings_are_inverse, first_named, moved, parts_for, Optimizer,
};
use crate::write::blocks::{blocks_of, stride, whole, Cell};
use crate::write::hierarchy::{first_key, hierarchy_of, own_size, Written};
use crate::write::potree::PotreeEncoding;
use crate::write::read_back::{as_read, is_tree, written_hierarchy_reads_back};
use vstd::prelude::*;

verus! {

/// Some payloads, one behind the other.
pub open spec fn file_of(parts: Seq<Seq<u8>>) -> Seq<u8>
    decreases parts.len(),
{
    if parts.len() == 0 {
        Seq::empty()
    } else {
        file_of(parts.drop_last()) + parts.last()
    }
}

/// The payload of a node.
pub open spec fn payload_of(file: Seq<u8>, node: PotreeNodeRef) -> Seq<u8> {
    file.subrange(node.byte_offset as int, node.byte_offset + node.byte_size)
}

/// Whether one step of a rewrite takes in a node of a file.
pub open spec fn absorbs(
    states: Seq<Optimizer>,
    nodes: Seq<PotreeNodeRef>,
    file: Seq<u8>,
    outs: Seq<Seq<u8>>,
    i: int,
) -> bool {
    states[i].takes(nodes[i], payload_of(file, nodes[i]), outs[i], states[i + 1])
}

/// Whether a rewrite takes in the nodes of a file, from its first state to its
/// last, and gives some payloads.
pub open spec fn is_rewrite(
    states: Seq<Optimizer>,
    nodes: Seq<PotreeNodeRef>,
    file: Seq<u8>,
    outs: Seq<Seq<u8>>,
) -> bool {
    &&& states.len() == nodes.len() + 1
    &&& outs.len() == nodes.len()
    &&& states[0].written@.len() == 0
    &&& states[0].at == 0
    &&& forall|i: int| 0 <= i < nodes.len() ==> #[trigger] absorbs(states, nodes, file, outs, i)
}

/// Where the payload of a node starts if the payloads stand end to end.
pub open spec fn start(nodes: Seq<PotreeNodeRef>, i: int) -> int
    decreases i,
{
    if i <= 0 {
        0
    } else {
        start(nodes, i - 1) + nodes[i - 1].byte_size
    }
}

/// Whether a node holds records of some size, and they start where those of the
/// nodes before it end.
pub open spec fn is_stored(nodes: Seq<PotreeNodeRef>, size: int, i: int) -> bool {
    &&& nodes[i].point_count > 0
    &&& nodes[i].byte_size == size * nodes[i].point_count
    &&& nodes[i].byte_offset == start(nodes, i)
}

/// Whether a file is the records of some nodes, end to end.
pub open spec fn stores(nodes: Seq<PotreeNodeRef>, file: Seq<u8>, size: int) -> bool {
    &&& forall|i: int| 0 <= i < nodes.len() ==> #[trigger] is_stored(nodes, size, i)
    &&& start(nodes, nodes.len() as int) == file.len()
}

/// Whether a rewrite goes from plain records to compressed blocks, or back, and
/// keeps every attribute.
pub open spec fn keeps_all(o: Optimizer, cells: Seq<Cell>, source_brotli: bool) -> bool {
    &&& o.cells@ == cells
    &&& o.parts@ == whole(cells)
    &&& o.source_brotli == source_brotli
    &&& o.target == if source_brotli {
        PotreeEncoding::Default
    } else {
        PotreeEncoding::Brotli
    }
}

/// Whether a list is the nodes that a reader finds, in ascending order of where
/// their payloads start.
pub open spec fn is_collected(nodes: Seq<PotreeNodeRef>, found: Seq<PotreeNodeRef>) -> bool {
    &&& nodes.to_multiset() == found.to_multiset()
    &&& forall|i: int, j: int|
        0 <= i <= j < nodes.len() ==> (#[trigger] nodes[i]).byte_offset <= (
        #[trigger] nodes[j]).byte_offset
}

/// A rewrite that keeps every attribute, each of a name of its own, keeps the
/// whole record.
pub proof fn keeping_all_keeps_the_record(all: Seq<Column>, keep: Seq<int>)
    requires
        forall|i: int, j: int|
            0 <= i < j < all.len() ==> (#[trigger] all[i]).name != (#[trigger] all[j]).name,
        keep == Seq::new(all.len(), |j: int| j),
    ensures
        parts_for(all, keep) == whole(cells_for(all)),
{
    assert forall|j: int| 0 <= j < all.len() implies parts_for(all, keep)[j] == whole(
        cells_for(all),
    )[j] by {
        lemma_first_named(all, j, 0);
        assert(cells_for(all)[j] == cell_for(all[j]));
    }
    assert(parts_for(all, keep) =~= whole(cells_for(all)));
}

proof fn lemma_first_named(all: Seq<Column>, j: int, from: int)
    requires
        forall|i: int, k: int|
            0 <= i < k < all.len() ==> (#[trigger] all[i]).name != (#[trigger] all[k]).name,
        0 <= from <= j < all.len(),
    ensures
        first_named(all, all[j].name, from) == j,
    decreases j - from,
{
    if from < j {
        assert(all[from].name != all[j].name);
        lemma_first_named(all, j, from + 1);
    }
}

proof fn lemma_start_grows(nodes: Seq<PotreeNodeRef>, i: int, j: int)
    requires
        0 <= i <= j,
    ensures
        0 <= start(nodes, i) <= start(nodes, j),
    decreases j,
{
    if i < j {
        lemma_start_grows(nodes, i, j - 1);
    } else if j > 0 {
        lemma_start_grows(nodes, i - 1, j - 1);
    }
}

pub(crate) proof fn lemma_file_take(parts: Seq<Seq<u8>>, i: int)
    requires
        0 <= i < parts.len(),
    ensures
        file_of(parts.take(i + 1)) == file_of(parts.take(i)) + parts[i],
{
    assert(parts.take(i + 1).drop_last() =~= parts.take(i));
    assert(parts.take(i + 1).last() == parts[i]);
}

/// A payload stands in the file behind those before it.
pub(crate) proof fn lemma_part_stands(parts: Seq<Seq<u8>>, i: int, n: int)
    requires
        0 <= i < n <= parts.len(),
    ensures
        file_of(parts.take(i)).len() + parts[i].len() <= file_of(parts.take(n)).len(),
        file_of(parts.take(n)).subrange(
            file_of(parts.take(i)).len() as int,
            (file_of(parts.take(i)).len() + parts[i].len()) as int,
        ) == parts[i],
    decreases n,
{
    lemma_file_take(parts, n - 1);
    let before = file_of(parts.take(n - 1));
    let all = file_of(parts.take(n));
    let at = file_of(parts.take(i)).len() as int;
    let to = at + parts[i].len();
    if i == n - 1 {
        assert(all.subrange(at, to) =~= parts[i]);
    } else {
        lemma_part_stands(parts, i, n - 1);
        assert(all.subrange(at, to) =~= before.subrange(at, to));
    }
}

/// What a rewrite of stored records has done after some nodes.
pub(crate) proof fn lemma_packed(
    states: Seq<Optimizer>,
    nodes: Seq<PotreeNodeRef>,
    file: Seq<u8>,
    outs: Seq<Seq<u8>>,
    cells: Seq<Cell>,
    n: int,
)
    requires
        is_rewrite(states, nodes, file, outs),
        stores(nodes, file, stride(cells)),
        keeps_all(states[0], cells, false),
        0 < stride(cells),
        file_of(outs).len() <= u64::MAX,
        0 <= n <= nodes.len(),
    ensures
        keeps_all(states[n], cells, false),
        states[n].at == file_of(outs.take(n)).len(),
        states[n].written@.len() == n,
        forall|j: int|
            0 <= j < n ==> #[trigger] states[n].written@[j] == moved(
                nodes[j],
                file_of(outs.take(j)).len() as u64,
                outs[j].len() as u64,
            ),
        forall|j: int| 0 <= j < n ==> (#[trigger] outs[j]).len() > 0,
    decreases n,
{
    if n == 0 {
        assert(outs.take(0) =~= Seq::<Seq<u8>>::empty());
    } else {
        lemma_packed(states, nodes, file, outs, cells, n - 1);
        assert(absorbs(states, nodes, file, outs, n - 1));
        assert(is_stored(nodes, stride(cells), n - 1));
        let count = nodes[n - 1].point_count as int;
        assert(stride(cells) * count > 0) by (nonlinear_arith)
            requires
                stride(cells) > 0,
                count > 0,
        ;
        reveal(Optimizer::encodes);
        lemma_file_take(outs, n - 1);
        assert(outs.take(outs.len() as int) =~= outs);
        lemma_part_stands(outs, n - 1, outs.len() as int);
        let before = states[n - 1].written@;
        assert forall|j: int| 0 <= j < n implies #[trigger] states[n].written@[j] == moved(
            nodes[j],
            file_of(outs.take(j)).len() as u64,
            outs[j].len() as u64,
        ) by {
            if j < n - 1 {
                assert(states[n].written@[j] == before[j]);
            }
        }
        assert forall|j: int| 0 <= j < n implies (#[trigger] outs[j]).len() > 0 by {}
    }
}

/// What a step of the first rewrite gave, the second gives back.
proof fn lemma_comes_back(
    states: Seq<Optimizer>,
    nodes: Seq<PotreeNodeRef>,
    file: Seq<u8>,
    outs: Seq<Seq<u8>>,
    cells: Seq<Cell>,
    i: int,
)
    requires
        is_rewrite(states, nodes, file, outs),
        stores(nodes, file, stride(cells)),
        keeps_all(states[i], cells, false),
        0 < stride(cells) <= usize::MAX,
        forall|j: int| 0 <= j < cells.len() ==> (#[trigger] cells[j]).exact(),
        0 <= i < nodes.len(),
    ensures
        ({
            let count = nodes[i].point_count as int;
            let records = payload_of(file, nodes[i]);
            &&& decoded(records, cells, count, false) is Ok
            &&& decoded(outs[i], cells, count, true) matches Ok(blocks)
                && crate::write::blocks::records_of(blocks, whole(cells), count) == records
        }),
{
    let node = nodes[i];
    let count = node.point_count as int;
    let records = payload_of(file, node);
    assert(absorbs(states, nodes, file, outs, i));
    assert(is_stored(nodes, stride(cells), i));
    lemma_start_grows(nodes, i, nodes.len() as int);
    lemma_start_grows(nodes, i + 1, nodes.len() as int);
    assert(records.len() == stride(cells) * count);
    assert(stride(cells) * count > 0) by (nonlinear_arith)
        requires
            stride(cells) > 0,
            count > 0,
    ;
    reveal(Optimizer::encodes);
    assert(decoded(records, cells, count, false) == Ok::<Seq<u8>, crate::error::Failure>(
        blocks_of(records, cells, count),
    ));
    encodings_are_inverse(records, outs[i], cells, count);
}

/// Two lists without a node twice, in strictly ascending order of a place and
/// with the same nodes, are the same list.
proof fn lemma_same_order(a: Seq<PotreeNodeRef>, b: Seq<PotreeNodeRef>, n: int)
    requires
        forall|i: int, j: int|
            0 <= i < j < a.len() ==> (#[trigger] a[i]).byte_offset < (
            #[trigger] a[j]).byte_offset,
        forall|i: int, j: int|
            0 <= i < j < b.len() ==> (#[trigger] b[i]).byte_offset < (
            #[trigger] b[j]).byte_offset,
        forall|x: PotreeNodeRef| #[trigger] a.contains(x) == b.contains(x),
        0 <= n <= a.len(),
    ensures
        n <= b.len(),
        forall|i: int| 0 <= i < n ==> a[i] == b[i],
    decreases n,
{
    if n > 0 {
        let m = n - 1;
        lemma_same_order(a, b, m);
        assert(a.contains(a[m]));
        let j = choose|j: int| 0 <= j < b.len() && b[j] == a[m];
        if j < m {
            assert(a[j] == b[j]);
            assert(a[j].byte_offset < a[m].byte_offset);
        }
        assert(m < b.len());
        assert(b.contains(b[m]) && a.contains(b[m]));
        let k = choose|k: int| 0 <= k < a.len() && a[k] == b[m];
        if k < m {
            assert(a[k] == b[k]);
            assert(b[k].byte_offset < b[m].byte_offset);
        }
        if j > m {
            assert(b[m].byte_offset < b[j].byte_offset);
            if k > m {
                assert(a[m].byte_offset < a[k].byte_offset);
            }
        }
    }
}

/// The nodes of a rewritten cloud, in order of where their payloads start, are
/// the nodes in the order in which they were written.
pub(crate) proof fn lemma_in_written_order(
    w: Seq<Written>,
    found: Seq<PotreeNodeRef>,
    nodes: Seq<PotreeNodeRef>,
)
    requires
        is_collected(nodes, found),
        forall|j: int|
            0 <= j < found.len() ==> exists|i: int|
                0 <= i < w.len() && #[trigger] as_read(w[i]) == #[trigger] found[j],
        forall|i: int| 0 <= i < w.len() ==> found.contains(as_read(#[trigger] w[i])),
        forall|a: int, b: int|
            0 <= a < b < found.len() ==> (#[trigger] found[a]).key != (#[trigger] found[b]).key,
        forall|i: int, j: int|
            0 <= i < j < w.len() ==> (#[trigger] w[i]).byte_offset < (#[trigger] w[j]).byte_offset,
    ensures
        nodes == w.map_values(|n: Written| as_read(n)),
{
    let want = w.map_values(|n: Written| as_read(n));
    found.to_multiset_ensures();
    nodes.to_multiset_ensures();
    assert(found.no_duplicates());
    found.lemma_multiset_has_no_duplicates();
    nodes.lemma_multiset_has_no_duplicates_conv();
    assert forall|x: PotreeNodeRef| #[trigger] nodes.contains(x) == want.contains(x) by {
        assert(nodes.contains(x) == found.contains(x)) by {
            assert(nodes.to_multiset().count(x) == found.to_multiset().count(x));
        }
        if found.contains(x) {
            let j = choose|j: int| 0 <= j < found.len() && found[j] == x;
            let i = choose|i: int| 0 <= i < w.len() && #[trigger] as_read(w[i]) == found[j];
            assert(want[i] == x);
        }
        if want.contains(x) {
            let i = choose|i: int| 0 <= i < want.len() && want[i] == x;
            assert(found.contains(as_read(w[i])));
        }
    }
    assert forall|i: int, j: int| 0 <= i < j < want.len() implies (#[trigger] want[i]).byte_offset
        < (#[trigger] want[j]).byte_offset by {
        assert(w[i].byte_offset < w[j].byte_offset);
    }
    assert forall|i: int, j: int| 0 <= i < j < nodes.len() implies (#[trigger] nodes[i]).byte_offset
        < (#[trigger] nodes[j]).byte_offset by {
        assert(nodes.contains(nodes[i]) && nodes.contains(nodes[j]));
        assert(want.contains(nodes[i]) && want.contains(nodes[j]));
        let a = choose|a: int| 0 <= a < want.len() && want[a] == nodes[i];
        let b = choose|b: int| 0 <= b < want.len() && want[b] == nodes[j];
        assert(nodes[i] != nodes[j]);
        if a < b {
            assert(w[a].byte_offset < w[b].byte_offset);
        } else if b < a {
            assert(w[b].byte_offset < w[a].byte_offset);
        }
    }
    lemma_same_order(nodes, want, nodes.len() as int);
    assert forall|x: PotreeNodeRef| #[trigger] want.contains(x) == nodes.contains(x) by {
        assert(nodes.contains(x) == want.contains(x));
    }
    lemma_same_order(want, nodes, want.len() as int);
    assert(nodes =~= want);
}

proof fn lemma_settings(
    states: Seq<Optimizer>,
    nodes: Seq<PotreeNodeRef>,
    file: Seq<u8>,
    outs: Seq<Seq<u8>>,
    cells: Seq<Cell>,
    source_brotli: bool,
    n: int,
)
    requires
        is_rewrite(states, nodes, file, outs),
        keeps_all(states[0], cells, source_brotli),
        0 <= n <= nodes.len(),
    ensures
        keeps_all(states[n], cells, source_brotli),
    decreases n,
{
    if n > 0 {
        lemma_settings(states, nodes, file, outs, cells, source_brotli, n - 1);
        assert(absorbs(states, nodes, file, outs, n - 1));
    }
}

/// Records that stand end to end are the file.
proof fn lemma_file_again(
    nodes: Seq<PotreeNodeRef>,
    file: Seq<u8>,
    size: int,
    outs: Seq<Seq<u8>>,
    n: int,
)
    requires
        stores(nodes, file, size),
        outs.len() == nodes.len(),
        forall|i: int| 0 <= i < nodes.len() ==> #[trigger] outs[i] == payload_of(file, nodes[i]),
        0 <= n <= nodes.len(),
    ensures
        file_of(outs.take(n)) == file.take(start(nodes, n)),
    decreases n,
{
    if n == 0 {
        assert(outs.take(0) =~= Seq::<Seq<u8>>::empty());
        assert(file.take(0) =~= Seq::<u8>::empty());
    } else {
        lemma_file_again(nodes, file, size, outs, n - 1);
        lemma_file_take(outs, n - 1);
        assert(is_stored(nodes, size, n - 1));
        lemma_start_grows(nodes, n - 1, n);
        lemma_start_grows(nodes, n, nodes.len() as int);
        assert(outs[n - 1] == payload_of(file, nodes[n - 1]));
        assert(file.take(start(nodes, n)) =~= file.take(start(nodes, n - 1)) + outs[n - 1]);
    }
}

/// The two encodings are exact inverses over a whole cloud: plain records that
/// stand end to end, rewritten as compressed blocks and back with every
/// attribute kept, are the file they were, byte for byte. No step can fail, and
/// the second rewrite meets the nodes in the order of the first.
pub proof fn a_cloud_comes_back(
    cells: Seq<Cell>,
    nodes: Seq<PotreeNodeRef>,
    file: Seq<u8>,
    there: Seq<Optimizer>,
    packed: Seq<Seq<u8>>,
    again: Seq<PotreeNodeRef>,
    back: Seq<Optimizer>,
    plain: Seq<Seq<u8>>,
)
    requires
        0 < stride(cells) <= usize::MAX,
        forall|j: int| 0 <= j < cells.len() ==> (#[trigger] cells[j]).exact(),
        stores(nodes, file, stride(cells)),
        keeps_all(there[0], cells, false),
        is_rewrite(there, nodes, file, packed),
        file_of(packed).len() <= u64::MAX,
        ({
            let w = there.last().written@;
            let h = hierarchy_of(w);
            &&& is_tree(w)
            &&& h.len() <= usize::MAX
            &&& is_collected(again, whole_walk(h, own_size(w, first_key(w)) as u64)->Ok_0.nodes)
        }),
        keeps_all(back[0], cells, true),
        is_rewrite(back, again, file_of(packed), plain),
    ensures
        file_of(plain) == file,
        again.len() == nodes.len(),
        forall|i: int|
            0 <= i < nodes.len() ==> (#[trigger] again[i]).key == nodes[i].key
                && again[i].point_count == nodes[i].point_count,
        forall|i: int|
            0 <= i < nodes.len() ==> decoded(
                payload_of(file, #[trigger] nodes[i]),
                cells,
                nodes[i].point_count as int,
                false,
            ) is Ok,
        forall|i: int|
            0 <= i < again.len() ==> decoded(
                payload_of(file_of(packed), #[trigger] again[i]),
                cells,
                again[i].point_count as int,
                true,
            ) is Ok,
{
    let n = nodes.len() as int;
    let w = there[n].written@;
    lemma_packed(there, nodes, file, packed, cells, n);
    lemma_written_rises(nodes, packed, w);
    written_hierarchy_reads_back(w);
    let found = whole_walk(hierarchy_of(w), own_size(w, first_key(w)) as u64)->Ok_0;
    lemma_in_written_order(w, found.nodes, again);
    assert(packed.take(n) =~= packed);
    assert forall|i: int| 0 <= i < n implies (#[trigger] again[i]).key == nodes[i].key
        && again[i].point_count == nodes[i].point_count && payload_of(file_of(packed), again[i])
        == packed[i] && again[i].byte_size == packed[i].len() by {
        assert(again[i] == as_read(w[i]));
        assert(w[i] == moved(
            nodes[i],
            file_of(packed.take(i)).len() as u64,
            packed[i].len() as u64,
        ));
        lemma_part_stands(packed, i, n);
    }
    assert forall|i: int| 0 <= i < n implies decoded(
        payload_of(file, #[trigger] nodes[i]),
        cells,
        nodes[i].point_count as int,
        false,
    ) is Ok by {
        lemma_settings(there, nodes, file, packed, cells, false, i);
        lemma_comes_back(there, nodes, file, packed, cells, i);
    }
    assert forall|i: int| 0 <= i < n implies decoded(
        payload_of(file_of(packed), #[trigger] again[i]),
        cells,
        again[i].point_count as int,
        true,
    ) is Ok by {
        lemma_settings(there, nodes, file, packed, cells, false, i);
        lemma_comes_back(there, nodes, file, packed, cells, i);
        assert(again[i].key == nodes[i].key);
    }
    assert forall|i: int| 0 <= i < n implies #[trigger] plain[i] == payload_of(file, nodes[i]) by {
        lemma_settings(there, nodes, file, packed, cells, false, i);
        lemma_settings(back, again, file_of(packed), plain, cells, true, i);
        lemma_comes_back(there, nodes, file, packed, cells, i);
        assert(again[i].key == nodes[i].key);
        assert(absorbs(back, again, file_of(packed), plain, i));
        assert(is_stored(nodes, stride(cells), i));
        assert(packed[i].len() > 0);
        lemma_part_stands(packed, i, n);
        reveal(Optimizer::encodes);
    }
    lemma_file_again(nodes, file, stride(cells), plain, n);
    assert(plain.take(n) =~= plain);
    assert(file.take(start(nodes, n)) =~= file);
}

proof fn lemma_written_rises(
    nodes: Seq<PotreeNodeRef>,
    packed: Seq<Seq<u8>>,
    w: Seq<Written>,
)
    requires
        w.len() == nodes.len(),
        packed.len() == nodes.len(),
        file_of(packed).len() <= u64::MAX,
        forall|j: int|
            0 <= j < w.len() ==> #[trigger] w[j] == moved(
                nodes[j],
                file_of(packed.take(j)).len() as u64,
                packed[j].len() as u64,
            ),
        forall|j: int| 0 <= j < w.len() ==> (#[trigger] packed[j]).len() > 0,
    ensures
        forall|i: int, j: int|
            0 <= i < j < w.len() ==> (#[trigger] w[i]).byte_offset < (#[trigger] w[j]).byte_offset,
{
    let n = packed.len() as int;
    assert(packed.take(n) =~= packed);
    assert forall|i: int, j: int| 0 <= i < j < w.len() implies (#[trigger] w[i]).byte_offset < (
    #[trigger] w[j]).byte_offset by {
        lemma_part_stands(packed, i, j);
        lemma_part_stands(packed, j, n);
        assert(packed[i].len() > 0);
    }
}

} // verus!
