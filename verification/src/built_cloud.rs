//! What holds of a cloud from its points to its files: the nodes that a build
//! gives, written in the order they come in, are a tree whose records stand end
//! to end, and rewriting such a cloud and rewriting it back changes nothing.

use crate::build::whole::{
    a_build_from_the_root_is_written_as_a_tree, every_node_of_a_build_has_points, is_run, Made,
};
use crate::build::{Builder, Slot};
use crate::format::potree::{whole_walk, PotreeNodeRef};
use crate::las::extra_bytes::extras_of;
use crate::octree::OctreeKey;
use crate::optimize::{moved, Optimizer};
use crate::round_trip::{
    a_cloud_comes_back, file_of, is_collected, is_rewrite, is_stored, keeps_all, lemma_file_take,
    lemma_in_written_order, lemma_packed, lemma_part_stands, start, stores,
};
use crate::write::blocks::{lemma_place_grows, place, stride, Cell};
use crate::write::hierarchy::{first_key, hierarchy_of, keys_of, own_size, Written};
use crate::write::potree::{
    cell_of, cells_of, dated, encoded_all, fields_for, leading, lemma_encoded_all_len, trailing,
    written_stride, PotreeEncoding, PotreeWriter,
};
use crate::write::read_back::{as_read, is_tree, written_hierarchy_reads_back};
use crate::write::WriteOptions;
use vstd::prelude::*;

verus! {

/// Whether a writer takes one of some nodes.
pub open spec fn writes_one(
    writers: Seq<PotreeWriter>,
    nodes: Seq<Made>,
    outs: Seq<Seq<u8>>,
    i: int,
) -> bool {
    writers[i].writes(nodes[i].0, nodes[i].1, outs[i], writers[i + 1])
}

/// Whether a writer takes some nodes, from its first state to its last, and gives
/// some payloads.
pub open spec fn is_writing(
    writers: Seq<PotreeWriter>,
    nodes: Seq<Made>,
    outs: Seq<Seq<u8>>,
) -> bool {
    &&& writers.len() == nodes.len() + 1
    &&& outs.len() == nodes.len()
    &&& writers[0].wf()
    &&& writers[0].written@.len() == 0
    &&& writers[0].at == 0
    &&& forall|i: int| 0 <= i < nodes.len() ==> #[trigger] writes_one(writers, nodes, outs, i)
}

/// Whether each of some nodes has a record of some size at least, and no more of
/// them than the hierarchy can count.
pub open spec fn are_counted(nodes: Seq<Made>, size: int) -> bool {
    forall|i: int|
        0 <= i < nodes.len() ==> size <= (#[trigger] nodes[i]).1.len() && nodes[i].1.len() as int
            / size <= u32::MAX
}

/// A node as it is written behind those before it.
pub open spec fn written_as(
    nodes: Seq<Made>,
    outs: Seq<Seq<u8>>,
    size: int,
    i: int,
) -> Written {
    Written {
        key: nodes[i].0,
        byte_offset: file_of(outs.take(i)).len() as u64,
        byte_size: outs[i].len() as u64,
        points: (nodes[i].1.len() as int / size) as u32,
    }
}

/// What a writer has done after some nodes.
proof fn lemma_written(
    writers: Seq<PotreeWriter>,
    nodes: Seq<Made>,
    outs: Seq<Seq<u8>>,
    n: int,
)
    requires
        is_writing(writers, nodes, outs),
        are_counted(nodes, writers[0].source_stride()),
        file_of(outs).len() <= u64::MAX,
        0 <= n <= nodes.len(),
    ensures
        writers[n].options == writers[0].options,
        writers[n].encoding == writers[0].encoding,
        writers[n].at == file_of(outs.take(n)).len(),
        writers[n].written@.len() == n,
        forall|j: int|
            0 <= j < n ==> #[trigger] writers[n].written@[j] == written_as(
                nodes,
                outs,
                writers[0].source_stride(),
                j,
            ),
    decreases n,
{
    if n == 0 {
        assert(outs.take(0) =~= Seq::<Seq<u8>>::empty());
    } else {
        lemma_written(writers, nodes, outs, n - 1);
        assert(writes_one(writers, nodes, outs, n - 1));
        assert(nodes[n - 1].1.len() >= writers[0].source_stride());
        lemma_file_take(outs, n - 1);
        assert(outs.take(outs.len() as int) =~= outs);
        lemma_part_stands(outs, n - 1, outs.len() as int);
        let before = writers[n - 1].written@;
        assert forall|j: int| 0 <= j < n implies #[trigger] writers[n].written@[j] == written_as(
            nodes,
            outs,
            writers[0].source_stride(),
            j,
        ) by {
            if j < n - 1 {
                assert(writers[n].written@[j] == before[j]);
            }
        }
    }
}

proof fn lemma_record_has_a_position(options: WriteOptions)
    ensures
        written_stride(fields_for(options)) >= 12,
{
    let fields = fields_for(options);
    let cells = cells_of(fields);
    assert(fields[0] == leading()[0]);
    assert(cells[0] == cell_of(fields[0]));
    assert(place(cells, 1) == place(cells, 0) + cells[0].size);
    lemma_place_grows(cells, 1, cells.len() as int);
}

/// What one node gives where nothing is compressed: one written record for each
/// record it has.
proof fn lemma_payload_size(
    writers: Seq<PotreeWriter>,
    nodes: Seq<Made>,
    outs: Seq<Seq<u8>>,
    i: int,
)
    requires
        is_writing(writers, nodes, outs),
        are_counted(nodes, writers[0].source_stride()),
        file_of(outs).len() <= u64::MAX,
        writers[0].encoding == PotreeEncoding::Default,
        0 <= i < nodes.len(),
    ensures
        ({
            let count = nodes[i].1.len() as int / writers[0].source_stride();
            &&& count > 0
            &&& outs[i].len() == written_stride(fields_for(writers[0].options)) * count
            &&& outs[i].len() > 0
        }),
{
    lemma_written(writers, nodes, outs, i);
    assert(writes_one(writers, nodes, outs, i));
    let size = writers[0].source_stride();
    let records = nodes[i].1;
    let count = records.len() as int / size;
    let fields = fields_for(writers[0].options);
    assert(records.len() >= size);
    assert(size >= 30);
    vstd::arithmetic::div_mod::lemma_fundamental_div_mod(records.len() as int, size);
    assert(count > 0 && count * size <= records.len()) by (nonlinear_arith)
        requires
            size > 0,
            records.len() >= size,
            records.len() as int == size * count + records.len() as int % size,
            0 <= records.len() as int % size < size,
    ;
    assert(outs[i] == encoded_all(fields, records, size, count));
    lemma_encoded_all_len(fields, records, size, count);
    lemma_record_has_a_position(writers[0].options);
    let w = written_stride(fields);
    assert(w * count > 0) by (nonlinear_arith)
        requires
            w > 0,
            count > 0,
    ;
}

proof fn lemma_starts(
    w: Seq<Written>,
    nodes: Seq<PotreeNodeRef>,
    outs: Seq<Seq<u8>>,
    i: int,
)
    requires
        0 <= i <= outs.len(),
        w.len() == outs.len(),
        nodes == w.map_values(|n: Written| as_read(n)),
        forall|j: int| 0 <= j < w.len() ==> (#[trigger] w[j]).byte_size == outs[j].len(),
    ensures
        start(nodes, i) == file_of(outs.take(i)).len(),
    decreases i,
{
    if i == 0 {
        assert(outs.take(0) =~= Seq::<Seq<u8>>::empty());
    } else {
        lemma_starts(w, nodes, outs, i - 1);
        lemma_file_take(outs, i - 1);
        assert(nodes[i - 1] == as_read(w[i - 1]));
    }
}

/// A cloud that was written plain is its records end to end: each node that was
/// written holds as many as it has points, and they start where those of the node
/// before it end.
pub proof fn a_written_cloud_is_stored(
    writers: Seq<PotreeWriter>,
    nodes: Seq<Made>,
    outs: Seq<Seq<u8>>,
)
    requires
        is_writing(writers, nodes, outs),
        are_counted(nodes, writers[0].source_stride()),
        file_of(outs).len() <= u64::MAX,
        writers[0].encoding == PotreeEncoding::Default,
    ensures
        stores(
            writers.last().written@.map_values(|n: Written| as_read(n)),
            file_of(outs),
            written_stride(fields_for(writers[0].options)),
        ),
{
    let n = nodes.len() as int;
    let w = writers[n].written@;
    let refs = w.map_values(|n: Written| as_read(n));
    let size = written_stride(fields_for(writers[0].options));
    lemma_written(writers, nodes, outs, n);
    assert(outs.take(n) =~= outs);
    assert forall|j: int| 0 <= j < w.len() implies (#[trigger] w[j]).byte_size
        == outs[j].len() by {
        lemma_part_stands(outs, j, n);
    }
    assert forall|i: int| 0 <= i < refs.len() implies #[trigger] is_stored(refs, size, i) by {
        assert(refs[i] == as_read(w[i]));
        assert(w[i] == written_as(nodes, outs, writers[0].source_stride(), i));
        lemma_payload_size(writers, nodes, outs, i);
        lemma_part_stands(outs, i, n);
        lemma_starts(w, refs, outs, i);
        assert(nodes[i].1.len() as int / writers[0].source_stride() <= u32::MAX);
    }
    lemma_starts(w, refs, outs, n);
}

/// The nodes of a build from the root, written in the order they come in, are
/// written as a tree: the writer leaves none out, and they hold what they held.
pub proof fn a_built_cloud_is_a_tree(
    states: Seq<Builder>,
    slots: Seq<Seq<Slot>>,
    records: Seq<u8>,
    nodes: Seq<Made>,
    writers: Seq<PotreeWriter>,
    outs: Seq<Seq<u8>>,
)
    requires
        is_run(states, slots, nodes, OctreeKey::root(), records),
        states[0].options.max_depth <= 31,
        states[0].stride == writers[0].source_stride(),
        states[0].stride <= records.len(),
        forall|i: int|
            0 <= i < nodes.len() ==> (#[trigger] nodes[i]).1.len() as int
                / writers[0].source_stride() <= u32::MAX,
        is_writing(writers, nodes, outs),
        file_of(outs).len() <= u64::MAX,
    ensures
        are_counted(nodes, writers[0].source_stride()),
        is_tree(writers.last().written@),
        writers.last().written@.len() == nodes.len(),
        forall|i: int|
            0 <= i < nodes.len() ==> (#[trigger] writers.last().written@[i]).key == nodes[i].0
                && writers.last().written@[i].points == nodes[i].1.len() as int
                / writers[0].source_stride(),
{
    let n = nodes.len() as int;
    let w = writers[n].written@;
    assert forall|i: int| 0 <= i < nodes.len() implies writers[0].source_stride() <= (
    #[trigger] nodes[i]).1.len() && nodes[i].1.len() as int / writers[0].source_stride()
        <= u32::MAX by {
        every_node_of_a_build_has_points(states, slots, nodes, OctreeKey::root(), records, i);
    }
    lemma_written(writers, nodes, outs, n);
    assert forall|i: int| 0 <= i < n implies (#[trigger] w[i]).key == nodes[i].0 && w[i].points
        == nodes[i].1.len() as int / writers[0].source_stride() by {
        assert(w[i] == written_as(nodes, outs, writers[0].source_stride(), i));
        assert(nodes[i].1.len() as int / writers[0].source_stride() >= 0) by (nonlinear_arith)
            requires
                writers[0].source_stride() > 0,
                nodes[i].1.len() >= 0,
        ;
    }
    assert(keys_of(w) =~= crate::build::whole::keys_of(nodes));
    a_build_from_the_root_is_written_as_a_tree(states, slots, nodes, records, w);
}

/// The attributes of a record without extra dimensions go through the coding of
/// compressed blocks without losing a byte.
pub proof fn plain_records_are_exact(options: WriteOptions, j: int)
    requires
        options.layout.extra_fields@.len() == 0,
        0 <= j < cells_of(fields_for(options)).len(),
    ensures
        cells_of(fields_for(options))[j].exact(),
{
    let color = options.layout.format == 7 || options.layout.format == 8;
    let fields = fields_for(options);
    let a = leading();
    let b = dated(options.legacy_fields);
    let c = trailing(color, options.has_gps_time);
    assert(extras_of(options.layout.extra_fields@).len() == 0);
    assert(fields =~= a + b + c);
    assert(cells_of(fields)[j] == cell_of(fields[j]));
    lemma_names();
    if j < a.len() {
        assert(fields[j] == a[j]);
    } else if j < a.len() + b.len() {
        assert(fields[j] == b[j - a.len()]);
    } else {
        assert(fields[j] == c[j - a.len() - b.len()]);
    }
}

/// No attribute of a record is called like the position or the colour but these.
proof fn lemma_names()
    ensures
        "intensity"@ != "position"@ && "intensity"@ != "rgb"@,
        "return number"@ != "position"@ && "return number"@ != "rgb"@,
        "number of returns"@ != "position"@ && "number of returns"@ != "rgb"@,
        "classification"@ != "position"@ && "classification"@ != "rgb"@,
        "scan angle rank"@ != "position"@ && "scan angle rank"@ != "rgb"@,
        "user data"@ != "position"@ && "user data"@ != "rgb"@,
        "classification flags"@ != "position"@ && "classification flags"@ != "rgb"@,
        "scan angle"@ != "position"@ && "scan angle"@ != "rgb"@,
        "point source id"@ != "position"@ && "point source id"@ != "rgb"@,
        "gps-time"@ != "position"@ && "gps-time"@ != "rgb"@,
        "rgb"@ != "position"@,
{
    reveal_strlit("position");
    reveal_strlit("rgb");
    reveal_strlit("intensity");
    reveal_strlit("return number");
    reveal_strlit("number of returns");
    reveal_strlit("classification");
    reveal_strlit("scan angle rank");
    reveal_strlit("user data");
    reveal_strlit("classification flags");
    reveal_strlit("scan angle");
    reveal_strlit("point source id");
    reveal_strlit("gps-time");
    assert("position"@.len() == 8 && "rgb"@.len() == 3);
    assert("intensity"@.len() == 9);
    assert("return number"@.len() == 13);
    assert("number of returns"@.len() == 17);
    assert("classification"@.len() == 14);
    assert("scan angle rank"@.len() == 15);
    assert("user data"@.len() == 9);
    assert("classification flags"@.len() == 20);
    assert("scan angle"@.len() == 10);
    assert("point source id"@.len() == 15);
    assert("gps-time"@.len() == 8);
    assert("gps-time"@[0] == 'g');
    assert("position"@[0] == 'p');
}

/// The nodes of a cloud that was written plain, in order of where their payloads
/// start, are the nodes in the order in which they were written.
proof fn lemma_collected(w: Seq<Written>, nodes: Seq<PotreeNodeRef>, file: Seq<u8>, size: int)
    requires
        0 < size,
        is_tree(w),
        hierarchy_of(w).len() <= usize::MAX,
        stores(w.map_values(|n: Written| as_read(n)), file, size),
        is_collected(
            nodes,
            whole_walk(hierarchy_of(w), own_size(w, first_key(w)) as u64)->Ok_0.nodes,
        ),
    ensures
        nodes == w.map_values(|n: Written| as_read(n)),
{
    let refs = w.map_values(|n: Written| as_read(n));
    written_hierarchy_reads_back(w);
    let found = whole_walk(hierarchy_of(w), own_size(w, first_key(w)) as u64)->Ok_0;
    assert forall|i: int, j: int| 0 <= i < j < w.len() implies (#[trigger] w[i]).byte_offset < (
    #[trigger] w[j]).byte_offset by {
        lemma_rises(refs, file, size, i, j);
        assert(refs[i] == as_read(w[i]) && refs[j] == as_read(w[j]));
    }
    lemma_in_written_order(w, found.nodes, nodes);
}

proof fn lemma_rises(nodes: Seq<PotreeNodeRef>, file: Seq<u8>, size: int, i: int, j: int)
    requires
        0 < size,
        stores(nodes, file, size),
        0 <= i < j < nodes.len(),
    ensures
        nodes[i].byte_offset < nodes[j].byte_offset,
    decreases j - i,
{
    assert(is_stored(nodes, size, i));
    assert(is_stored(nodes, size, j));
    assert(is_stored(nodes, size, j - 1));
    let count = nodes[j - 1].point_count as int;
    assert(size * count > 0) by (nonlinear_arith)
        requires
            size > 0,
            count > 0,
    ;
    assert(start(nodes, j) == start(nodes, j - 1) + nodes[j - 1].byte_size);
    if i < j - 1 {
        lemma_rises(nodes, file, size, i, j - 1);
    }
}

/// A rewrite of a tree writes a tree.
proof fn lemma_rewritten_tree(
    w: Seq<Written>,
    nodes: Seq<PotreeNodeRef>,
    file: Seq<u8>,
    cells: Seq<Cell>,
    there: Seq<Optimizer>,
    packed: Seq<Seq<u8>>,
)
    requires
        is_tree(w),
        nodes == w.map_values(|n: Written| as_read(n)),
        0 < stride(cells),
        stores(nodes, file, stride(cells)),
        keeps_all(there[0], cells, false),
        is_rewrite(there, nodes, file, packed),
        file_of(packed).len() <= u64::MAX,
    ensures
        is_tree(there.last().written@),
{
    let n = nodes.len() as int;
    let v = there[n].written@;
    lemma_packed(there, nodes, file, packed, cells, n);
    assert forall|j: int| 0 <= j < n implies keys_of(v)[j] == keys_of(w)[j] by {
        assert(v[j] == moved(
            nodes[j],
            file_of(packed.take(j)).len() as u64,
            packed[j].len() as u64,
        ));
        assert(nodes[j] == as_read(w[j]));
    }
    assert(keys_of(v) =~= keys_of(w));
}

/// A cloud that was built from its points and written plain comes back: collected
/// from its hierarchy, rewritten as compressed blocks and rewritten plain, with
/// every attribute kept, its points are the file that was written, byte for byte.
pub proof fn a_built_cloud_comes_back(
    states: Seq<Builder>,
    slots: Seq<Seq<Slot>>,
    records: Seq<u8>,
    built: Seq<Made>,
    writers: Seq<PotreeWriter>,
    outs: Seq<Seq<u8>>,
    nodes: Seq<PotreeNodeRef>,
    there: Seq<Optimizer>,
    packed: Seq<Seq<u8>>,
    again: Seq<PotreeNodeRef>,
    back: Seq<Optimizer>,
    plain: Seq<Seq<u8>>,
)
    requires
        is_run(states, slots, built, OctreeKey::root(), records),
        states[0].options.max_depth <= 31,
        states[0].stride == writers[0].source_stride(),
        states[0].stride <= records.len(),
        forall|i: int|
            0 <= i < built.len() ==> (#[trigger] built[i]).1.len() as int
                / writers[0].source_stride() <= u32::MAX,
        is_writing(writers, built, outs),
        writers[0].encoding == PotreeEncoding::Default,
        writers[0].options.layout.extra_fields@.len() == 0,
        file_of(outs).len() <= u64::MAX,
        ({
            let w = writers.last().written@;
            let h = hierarchy_of(w);
            &&& h.len() <= usize::MAX
            &&& is_collected(nodes, whole_walk(h, own_size(w, first_key(w)) as u64)->Ok_0.nodes)
        }),
        keeps_all(there[0], cells_of(fields_for(writers[0].options)), false),
        is_rewrite(there, nodes, file_of(outs), packed),
        file_of(packed).len() <= u64::MAX,
        ({
            let w = there.last().written@;
            let h = hierarchy_of(w);
            &&& h.len() <= usize::MAX
            &&& is_collected(again, whole_walk(h, own_size(w, first_key(w)) as u64)->Ok_0.nodes)
        }),
        keeps_all(back[0], cells_of(fields_for(writers[0].options)), true),
        is_rewrite(back, again, file_of(packed), plain),
    ensures
        file_of(plain) == file_of(outs),
        again.len() == built.len(),
        forall|i: int|
            0 <= i < built.len() ==> (#[trigger] again[i]).key == built[i].0
                && again[i].point_count == built[i].1.len() as int / writers[0].source_stride(),
{
    let w = writers.last().written@;
    let options = writers[0].options;
    let cells = cells_of(fields_for(options));
    let file = file_of(outs);
    a_built_cloud_is_a_tree(states, slots, records, built, writers, outs);
    a_written_cloud_is_stored(writers, built, outs);
    lemma_record_has_a_position(options);
    lemma_collected(w, nodes, file, stride(cells));
    lemma_rewritten_tree(w, nodes, file, cells, there, packed);
    assert forall|j: int| 0 <= j < cells.len() implies (#[trigger] cells[j]).exact() by {
        plain_records_are_exact(options, j);
    }
    a_cloud_comes_back(cells, nodes, file, there, packed, again, back, plain);
    assert forall|i: int| 0 <= i < built.len() implies (#[trigger] again[i]).key == built[i].0
        && again[i].point_count == built[i].1.len() as int / writers[0].source_stride() by {
        assert(nodes[i] == as_read(w[i]));
        assert(again[i].key == nodes[i].key);
    }
}

} // verus!
