//! What holds of a whole build, from its first step to its last.

use super::{
    all_points, builds_conserve_points, children_down_to, falling, is_first, lemma_count, node_views,
    points, staying, BuildOptions, Builder, Slot,
};
use crate::octree::{child_then_parent, OctreeKey};
use crate::write::copc_pages::above;
use crate::write::copc_total::{lemma_above_child, lemma_above_is_unique};
use crate::write::hierarchy::{can_split, Written};
use crate::write::read_back::is_tree;
use vstd::arithmetic::power2::{lemma2_to64, lemma_pow2_strictly_increases, lemma_pow2_unfold, pow2};
use vstd::multiset::Multiset;
use vstd::prelude::*;

verus! {

/// A node as a build gives it: its address and its records.
pub type Made = (OctreeKey, Seq<u8>);

/// Whether one step of a build leads from a state to the next and gives a node.
pub open spec fn follows(
    states: Seq<Builder>,
    slots: Seq<Seq<Slot>>,
    nodes: Seq<Made>,
    i: int,
) -> bool {
    &&& states[i].steps_to(slots[i], nodes[i], states[i + 1])
    &&& states[i + 1].stride == states[i].stride
    &&& states[i + 1].options == states[i].options
    &&& states[i + 1].stop_at == states[i].stop_at
}

/// Whether the steps of a build lead through some states and give some nodes,
/// from the points of one node until nothing is in line.
pub open spec fn is_run(
    states: Seq<Builder>,
    slots: Seq<Seq<Slot>>,
    nodes: Seq<Made>,
    key: OctreeKey,
    records: Seq<u8>,
) -> bool {
    &&& states.len() == nodes.len() + 1
    &&& node_views(states[0].pending@) == seq![(key, records)]
    &&& states.last().pending@.len() == 0
    &&& forall|i: int| 0 <= i < nodes.len() ==> #[trigger] follows(states, slots, nodes, i)
}

/// Whether an address lies on the grid of its level, not too deep to be split
/// once more.
pub open spec fn on_grid(k: OctreeKey) -> bool {
    &&& k.level <= 31
    &&& k.x < pow2(k.level as nat)
    &&& k.y < pow2(k.level as nat)
    &&& k.z < pow2(k.level as nat)
}

/// The addresses of some nodes.
pub open spec fn keys_of(nodes: Seq<Made>) -> Seq<OctreeKey> {
    nodes.map_values(|n: Made| n.0)
}

/// Whether an address is that of the first node, or its parent is among some.
spec fn is_hung(key: OctreeKey, done: Seq<OctreeKey>, k: OctreeKey) -> bool {
    k == key || (k.level > 0 && done.contains(k.spec_parent()->0))
}

/// Whether none of the nodes in line is a node that is done, or above one, or
/// above another in line.
spec fn are_apart(done: Seq<OctreeKey>, line: Seq<OctreeKey>) -> bool {
    &&& forall|i: int, j: int|
        0 <= i < line.len() && 0 <= j < done.len() ==> !above(
            #[trigger] line[i],
            #[trigger] done[j],
        )
    &&& forall|i: int, j: int|
        0 <= i < line.len() && 0 <= j < line.len() && i != j ==> !above(
            #[trigger] line[i],
            #[trigger] line[j],
        )
}

/// Whether some nodes are done and some are in line as they are in a build.
spec fn is_state(key: OctreeKey, done: Seq<OctreeKey>, line: Seq<OctreeKey>) -> bool {
    &&& are_apart(done, line)
    &&& done.no_duplicates()
    &&& forall|i: int| 0 <= i < line.len() ==> on_grid(#[trigger] line[i])
    &&& forall|i: int| 0 <= i < line.len() ==> is_hung(key, done, #[trigger] line[i])
    &&& forall|i: int|
        0 <= i < done.len() ==> is_hung(key, done.take(i), #[trigger] done[i])
}

/// Whether some addresses are children of a node, none twice.
spec fn are_kids(k: OctreeKey, kids: Seq<OctreeKey>) -> bool {
    &&& kids.len() > 0 ==> k.level < 31
    &&& kids.no_duplicates()
    &&& forall|i: int|
        0 <= i < kids.len() ==> exists|c: int|
            0 <= c < 8 && #[trigger] kids[i] == #[trigger] k.spec_child(c as u8)
}

proof fn lemma_splits(k: OctreeKey)
    requires
        on_grid(k),
        k.level < 31,
    ensures
        can_split(k),
{
    lemma2_to64();
    assert(pow2(30) == 0x4000_0000) by {
        lemma2_to64();
    }
    if k.level < 30 {
        lemma_pow2_strictly_increases(k.level as nat, 30);
    }
}

proof fn lemma_child_on_grid(k: OctreeKey, c: int)
    requires
        on_grid(k),
        k.level < 31,
        0 <= c < 8,
    ensures
        on_grid(k.spec_child(c as u8)),
        k.spec_child(c as u8).level == k.level + 1,
        k.spec_child(c as u8).spec_parent() == Some(k),
{
    lemma_splits(k);
    child_then_parent(k, c as u8);
    lemma_pow2_unfold((k.level + 1) as nat);
    let child = k.spec_child(c as u8);
    assert(child.level == k.level + 1);
    assert(child.x / 2 == k.x && child.y / 2 == k.y && child.z / 2 == k.z);
}

proof fn lemma_kid(k: OctreeKey, kids: Seq<OctreeKey>, i: int) -> (c: int)
    requires
        on_grid(k),
        are_kids(k, kids),
        0 <= i < kids.len(),
    ensures
        0 <= c < 8,
        kids[i] == k.spec_child(c as u8),
        can_split(k),
        on_grid(kids[i]),
        kids[i].level == k.level + 1,
        kids[i].spec_parent() == Some(k),
{
    let c = choose|c: int| 0 <= c < 8 && #[trigger] kids[i] == #[trigger] k.spec_child(c as u8);
    lemma_child_on_grid(k, c);
    lemma_splits(k);
    c
}

/// What a child of a node is above, the node is above too; what is above a child
/// and is not the child is above the node.
proof fn lemma_kid_apart(k: OctreeKey, kids: Seq<OctreeKey>, i: int, x: OctreeKey)
    requires
        on_grid(k),
        are_kids(k, kids),
        0 <= i < kids.len(),
    ensures
        above(kids[i], x) ==> above(k, x) && x != k,
        above(x, kids[i]) ==> x == kids[i] || above(x, k),
{
    let c = lemma_kid(k, kids, i);
    if above(kids[i], x) {
        lemma_above_child(k, x, c);
    }
}

proof fn lemma_kids_apart(k: OctreeKey, kids: Seq<OctreeKey>, i: int, j: int)
    requires
        on_grid(k),
        are_kids(k, kids),
        0 <= i < kids.len(),
        0 <= j < kids.len(),
        i != j,
    ensures
        !above(kids[i], kids[j]),
{
    lemma_kid(k, kids, i);
    lemma_kid(k, kids, j);
    if above(kids[i], kids[j]) {
        assert(above(kids[j], kids[j]));
        lemma_above_is_unique(kids[i], kids[j], kids[j]);
    }
}

/// The nodes stay apart when the next one is done and its children are in line.
proof fn lemma_still_apart(done: Seq<OctreeKey>, line: Seq<OctreeKey>, kids: Seq<OctreeKey>)
    requires
        line.len() > 0,
        are_apart(done, line),
        on_grid(line.last()),
        are_kids(line.last(), kids),
    ensures
        are_apart(done.push(line.last()), line.drop_last() + kids),
{
    let k = line.last();
    let n = line.len() - 1;
    let more = done.push(k);
    let next = line.drop_last() + kids;
    assert(line[n] == k);
    assert forall|i: int, j: int| 0 <= i < next.len() && 0 <= j < more.len() implies !above(
        #[trigger] next[i],
        #[trigger] more[j],
    ) by {
        if i < n {
            assert(next[i] == line[i]);
            if j < done.len() {
                assert(more[j] == done[j]);
            }
        } else {
            lemma_kid_apart(k, kids, i - n, more[j]);
            assert(next[i] == kids[i - n]);
            if j < done.len() {
                assert(more[j] == done[j]);
                assert(!above(line[n], done[j]));
            }
        }
    }
    assert forall|i: int, j: int|
        0 <= i < next.len() && 0 <= j < next.len() && i != j implies !above(
        #[trigger] next[i],
        #[trigger] next[j],
    ) by {
        if i < n && j < n {
            assert(next[i] == line[i] && next[j] == line[j]);
        } else if i < n {
            assert(next[i] == line[i] && next[j] == kids[j - n]);
            lemma_kid_apart(k, kids, j - n, line[i]);
            assert(!above(line[i], line[n]));
            if line[i] == kids[j - n] {
                assert(above(kids[j - n], line[i]));
                assert(!above(line[n], line[i]));
            }
        } else if j < n {
            assert(next[i] == kids[i - n] && next[j] == line[j]);
            lemma_kid_apart(k, kids, i - n, line[j]);
            assert(!above(line[n], line[j]));
        } else {
            assert(next[i] == kids[i - n] && next[j] == kids[j - n]);
            lemma_kids_apart(k, kids, i - n, j - n);
        }
    }
}

proof fn lemma_still_distinct(done: Seq<OctreeKey>, line: Seq<OctreeKey>)
    requires
        line.len() > 0,
        are_apart(done, line),
        done.no_duplicates(),
    ensures
        done.push(line.last()).no_duplicates(),
{
    let k = line[line.len() - 1];
    let more = done.push(k);
    assert(above(k, k));
    assert forall|i: int, j: int| 0 <= i < more.len() && 0 <= j < more.len() && i
        != j implies more[i] != more[j] by {
        if i == done.len() {
            assert(!above(line[line.len() - 1], done[j]));
        } else if j == done.len() {
            assert(!above(line[line.len() - 1], done[i]));
        }
    }
}

/// What hangs on some nodes hangs on them and one more.
proof fn lemma_still_hung(key: OctreeKey, done: Seq<OctreeKey>, k: OctreeKey, x: OctreeKey)
    requires
        is_hung(key, done, x),
    ensures
        is_hung(key, done.push(k), x),
{
    if x != key {
        let p = x.spec_parent()->0;
        let j = choose|j: int| 0 <= j < done.len() && done[j] == p;
        assert(done.push(k)[j] == p);
    }
}

proof fn lemma_line_hung(
    key: OctreeKey,
    done: Seq<OctreeKey>,
    line: Seq<OctreeKey>,
    kids: Seq<OctreeKey>,
    i: int,
)
    requires
        line.len() > 0,
        forall|i: int| 0 <= i < line.len() ==> on_grid(#[trigger] line[i]),
        forall|i: int| 0 <= i < line.len() ==> is_hung(key, done, #[trigger] line[i]),
        are_kids(line.last(), kids),
        0 <= i < (line.drop_last() + kids).len(),
    ensures
        on_grid((line.drop_last() + kids)[i]),
        is_hung(key, done.push(line.last()), (line.drop_last() + kids)[i]),
{
    let k = line.last();
    let n = line.len() - 1;
    let next = line.drop_last() + kids;
    assert(on_grid(line[n]));
    if i < n {
        assert(next[i] == line[i]);
        lemma_still_hung(key, done, k, line[i]);
    } else {
        assert(next[i] == kids[i - n]);
        lemma_kid(k, kids, i - n);
        assert(done.push(k)[done.len() as int] == k);
    }
}

proof fn lemma_done_hung(key: OctreeKey, done: Seq<OctreeKey>, k: OctreeKey, i: int)
    requires
        forall|i: int|
            0 <= i < done.len() ==> is_hung(key, done.take(i), #[trigger] done[i]),
        is_hung(key, done, k),
        0 <= i <= done.len(),
    ensures
        is_hung(key, done.push(k).take(i), done.push(k)[i]),
{
    let more = done.push(k);
    if i < done.len() {
        assert(more[i] == done[i]);
        assert(more.take(i) =~= done.take(i));
    } else {
        assert(more.take(i) =~= done);
    }
}

/// A state of a build stays one when the next node is done and its children are
/// in line.
proof fn lemma_next_state(
    key: OctreeKey,
    done: Seq<OctreeKey>,
    line: Seq<OctreeKey>,
    kids: Seq<OctreeKey>,
)
    requires
        line.len() > 0,
        is_state(key, done, line),
        are_kids(line.last(), kids),
    ensures
        is_state(key, done.push(line.last()), line.drop_last() + kids),
{
    let k = line.last();
    let more = done.push(k);
    let next = line.drop_last() + kids;
    assert(on_grid(line[line.len() - 1]) && is_hung(key, done, line[line.len() - 1]));
    lemma_still_apart(done, line, kids);
    lemma_still_distinct(done, line);
    assert forall|i: int| 0 <= i < next.len() implies on_grid(#[trigger] next[i]) by {
        lemma_line_hung(key, done, line, kids, i);
    }
    assert forall|i: int| 0 <= i < next.len() implies is_hung(key, more, #[trigger] next[i]) by {
        lemma_line_hung(key, done, line, kids, i);
    }
    assert forall|i: int| 0 <= i < more.len() implies is_hung(
        key,
        more.take(i),
        #[trigger] more[i],
    ) by {
        lemma_done_hung(key, done, k, i);
    }
}

proof fn lemma_children(
    key: OctreeKey,
    records: Seq<u8>,
    stride: int,
    options: BuildOptions,
    slots: Seq<Slot>,
    c: int,
)
    requires
        0 <= c <= 8,
        on_grid(key),
        options.max_depth <= 31,
    ensures
        ({
            let list = children_down_to(key, records, stride, options, slots, c);
            &&& list.len() > 0 ==> key.level < options.max_depth
            &&& keys_of(list).no_duplicates()
            &&& forall|i: int|
                0 <= i < list.len() ==> exists|d: int|
                    c <= d < 8 && #[trigger] keys_of(list)[i] == #[trigger] key.spec_child(d as u8)
        }),
    decreases 8 - c,
{
    let list = children_down_to(key, records, stride, options, slots, c);
    let keys = keys_of(list);
    if c < 8 {
        lemma_children(key, records, stride, options, slots, c + 1);
        let higher = children_down_to(key, records, stride, options, slots, c + 1);
        let before = keys_of(higher);
        let b = super::bucket(records, key.level, stride, options, slots, c);
        if b.len() > 0 {
            let new = key.spec_child(c as u8);
            assert(key.level < options.max_depth);
            lemma_splits(key);
            assert(keys =~= before.push(new));
            assert forall|i: int| 0 <= i < list.len() implies exists|d: int|
                c <= d < 8 && #[trigger] keys[i] == #[trigger] key.spec_child(d as u8) by {
                if i < before.len() {
                    assert(keys[i] == before[i]);
                    let d = choose|d: int|
                        c + 1 <= d < 8 && #[trigger] before[i] == #[trigger] key.spec_child(d as u8);
                    assert(keys[i] == key.spec_child(d as u8));
                } else {
                    assert(keys[i] == key.spec_child(c as u8));
                }
            }
            assert forall|i: int| 0 <= i < before.len() implies #[trigger] before[i] != new by {
                let d = choose|d: int|
                    c + 1 <= d < 8 && #[trigger] before[i] == #[trigger] key.spec_child(d as u8);
                child_then_parent(key, c as u8);
                child_then_parent(key, d as u8);
            }
            assert forall|i: int, j: int| 0 <= i < keys.len() && 0 <= j < keys.len() && i
                != j implies keys[i] != keys[j] by {
                if i < before.len() && j < before.len() {
                    assert(keys[i] == before[i] && keys[j] == before[j]);
                } else if i < before.len() {
                    assert(keys[i] == before[i]);
                } else {
                    assert(keys[j] == before[j]);
                }
            }
        } else {
            assert(list == higher);
            assert forall|i: int| 0 <= i < list.len() implies exists|d: int|
                c <= d < 8 && #[trigger] keys[i] == #[trigger] key.spec_child(d as u8) by {
                let d = choose|d: int|
                    c + 1 <= d < 8 && #[trigger] before[i] == #[trigger] key.spec_child(d as u8);
                assert(keys[i] == key.spec_child(d as u8));
            }
        }
    }
}

/// One step of a build, by the addresses of its nodes.
proof fn lemma_step_keys(
    before: Builder,
    after: Builder,
    slots: Seq<Slot>,
    node: Made,
    key: OctreeKey,
    done: Seq<OctreeKey>,
)
    requires
        before.steps_to(slots, node, after),
        before.options.max_depth <= 31,
        is_state(key, done, keys_of(node_views(before.pending@))),
    ensures
        is_state(key, done.push(node.0), keys_of(node_views(after.pending@))),
{
    let last = before.pending@.last();
    let line = keys_of(node_views(before.pending@));
    let rest = node_views(before.pending@.drop_last());
    assert(line.last() == last.key);
    assert(line[line.len() - 1] == last.key);
    assert(on_grid(line[line.len() - 1]));
    assert(keys_of(rest) =~= line.drop_last());
    if before.stops(last.key.level) {
        let none = Seq::<OctreeKey>::empty();
        assert(line.drop_last() + none =~= keys_of(node_views(after.pending@)));
        lemma_next_state(key, done, line, none);
    } else {
        let list = children_down_to(
            last.key,
            last.records@,
            before.stride as int,
            before.options,
            slots,
            0,
        );
        lemma_children(last.key, last.records@, before.stride as int, before.options, slots, 0);
        let kids = keys_of(list);
        assert(keys_of(rest + list) =~= line.drop_last() + kids);
        assert(are_kids(last.key, kids));
        lemma_next_state(key, done, line, kids);
    }
}

proof fn lemma_prefix_keys(
    states: Seq<Builder>,
    slots: Seq<Seq<Slot>>,
    nodes: Seq<Made>,
    key: OctreeKey,
    records: Seq<u8>,
    n: int,
)
    requires
        is_run(states, slots, nodes, key, records),
        on_grid(key),
        states[0].options.max_depth <= 31,
        0 <= n <= nodes.len(),
    ensures
        states[n].options == states[0].options,
        states[n].stride == states[0].stride,
        is_state(key, keys_of(nodes).take(n), keys_of(node_views(states[n].pending@))),
    decreases n,
{
    let all = keys_of(nodes);
    if n == 0 {
        let line = keys_of(node_views(states[0].pending@));
        assert(line =~= seq![key]);
        assert(all.take(0).len() == 0);
        assert(is_hung(key, all.take(0), line[0]));
    } else {
        lemma_prefix_keys(states, slots, nodes, key, records, n - 1);
        assert(follows(states, slots, nodes, n - 1));
        lemma_step_keys(
            states[n - 1],
            states[n],
            slots[n - 1],
            nodes[n - 1],
            key,
            all.take(n - 1),
        );
        assert(all.take(n - 1).push(nodes[n - 1].0) =~= all.take(n));
    }
}

proof fn lemma_prefix_points(
    states: Seq<Builder>,
    slots: Seq<Seq<Slot>>,
    nodes: Seq<Made>,
    key: OctreeKey,
    records: Seq<u8>,
    n: int,
)
    requires
        is_run(states, slots, nodes, key, records),
        0 <= n <= nodes.len(),
    ensures
        states[n].stride == states[0].stride,
        all_points(nodes.take(n), states[0].stride as int).add(
            all_points(node_views(states[n].pending@), states[0].stride as int),
        ) == points(records, states[0].stride as int),
    decreases n,
{
    let stride = states[0].stride as int;
    if n == 0 {
        let line = node_views(states[0].pending@);
        assert(line.drop_last() =~= Seq::<Made>::empty());
        assert(line.last() == (key, records));
        assert(all_points(Seq::<Made>::empty(), stride) == Multiset::<Seq<u8>>::empty());
        assert(nodes.take(0) =~= Seq::<Made>::empty());
        assert(Multiset::<Seq<u8>>::empty().add(
            Multiset::<Seq<u8>>::empty().add(points(records, stride)),
        ) =~= points(records, stride));
    } else {
        lemma_prefix_points(states, slots, nodes, key, records, n - 1);
        assert(follows(states, slots, nodes, n - 1));
        builds_conserve_points(states[n - 1], states[n], slots[n - 1], nodes[n - 1]);
        let done = nodes.take(n);
        assert(done.drop_last() =~= nodes.take(n - 1));
        assert(done.last() == nodes[n - 1]);
        let a = all_points(nodes.take(n - 1), stride);
        let b = points(nodes[n - 1].1, stride);
        let c = all_points(node_views(states[n].pending@), stride);
        assert(a.add(b).add(c) =~= a.add(b.add(c)));
    }
}

/// A whole build gives a tree: it starts with the node it was given, no address
/// comes twice, every other node comes after its parent, and the nodes hold,
/// together, exactly the points it started on.
pub proof fn a_build_gives_a_tree(
    states: Seq<Builder>,
    slots: Seq<Seq<Slot>>,
    nodes: Seq<Made>,
    key: OctreeKey,
    records: Seq<u8>,
)
    requires
        is_run(states, slots, nodes, key, records),
        on_grid(key),
        states[0].options.max_depth <= 31,
    ensures
        nodes.len() > 0,
        nodes[0].0 == key,
        keys_of(nodes).no_duplicates(),
        forall|i: int|
            0 < i < nodes.len() ==> (#[trigger] nodes[i]).0.level > 0 && keys_of(nodes).take(
                i,
            ).contains(nodes[i].0.spec_parent()->0),
        all_points(nodes, states[0].stride as int) == points(records, states[0].stride as int),
{
    let n = nodes.len() as int;
    let all = keys_of(nodes);
    let stride = states[0].stride as int;
    assert(node_views(states[0].pending@).len() == 1);
    lemma_prefix_keys(states, slots, nodes, key, records, n);
    lemma_prefix_points(states, slots, nodes, key, records, n);
    assert(all.take(n) =~= all);
    assert(nodes.take(n) =~= nodes);
    assert(node_views(states[n].pending@) =~= Seq::<Made>::empty());
    assert(all_points(nodes, stride).add(Multiset::empty()) =~= all_points(nodes, stride));
    assert(follows(states, slots, nodes, 0));
    let first = states[0].pending@.last();
    assert(node_views(states[0].pending@)[0] == super::node_view(first));
    assert forall|i: int| 0 < i < nodes.len() implies (#[trigger] nodes[i]).0.level > 0 && all.take(
        i,
    ).contains(nodes[i].0.spec_parent()->0) by {
        assert(is_hung(key, all.take(i), all[i]));
        assert(all[0] != all[i]);
    }
}

/// The nodes of a whole build from the root, written in the order they come in,
/// make a tree as the hierarchies are written from.
pub proof fn a_build_from_the_root_is_written_as_a_tree(
    states: Seq<Builder>,
    slots: Seq<Seq<Slot>>,
    nodes: Seq<Made>,
    records: Seq<u8>,
    w: Seq<Written>,
)
    requires
        is_run(states, slots, nodes, OctreeKey::root(), records),
        states[0].options.max_depth <= 31,
        crate::write::hierarchy::keys_of(w) == keys_of(nodes),
    ensures
        is_tree(w),
{
    let root = OctreeKey::root();
    let keys = keys_of(nodes);
    lemma2_to64();
    a_build_gives_a_tree(states, slots, nodes, root, records);
    assert(keys[0] == root);
    assert forall|k: OctreeKey| #[trigger] keys.contains(k) implies k == root || (k.level > 0
        && keys.contains(k.spec_parent()->0)) by {
        let i = choose|i: int| 0 <= i < keys.len() && keys[i] == k;
        if i > 0 {
            let p = nodes[i].0.spec_parent()->0;
            assert(keys.take(i).contains(p));
            let j = choose|j: int| 0 <= j < i && keys.take(i)[j] == p;
            assert(keys[j] == p);
        }
    }
}

/// A node with a point keeps one: the first of its input is the first of its
/// cell.
proof fn lemma_keeps_one(records: Seq<u8>, stride: int, slots: Seq<Slot>, n: int)
    requires
        0 < stride,
        0 < n <= records.len() as int / stride,
    ensures
        staying(records, stride, slots, n).len() >= stride,
    decreases n,
{
    lemma_count(records.len() as int, stride, n - 1);
    if n == 1 {
        assert(is_first(slots, 0));
        assert(staying(records, stride, slots, 0).len() == 0);
    } else {
        lemma_keeps_one(records, stride, slots, n - 1);
    }
}

/// What falls to a child is nothing, or a record at least.
proof fn lemma_falls_whole(records: Seq<u8>, stride: int, slots: Seq<Slot>, child: int, n: int)
    requires
        0 < stride,
        n <= records.len() as int / stride,
    ensures
        falling(records, stride, slots, child, n).len() > 0 ==> falling(
            records,
            stride,
            slots,
            child,
            n,
        ).len() >= stride,
    decreases n,
{
    if n > 0 {
        lemma_count(records.len() as int, stride, n - 1);
        lemma_falls_whole(records, stride, slots, child, n - 1);
    }
}

/// Whether each of some nodes has a record at least.
spec fn filled(list: Seq<Made>, stride: int) -> bool {
    forall|i: int| 0 <= i < list.len() ==> (#[trigger] list[i]).1.len() >= stride
}

proof fn lemma_children_filled(
    key: OctreeKey,
    records: Seq<u8>,
    stride: int,
    options: BuildOptions,
    slots: Seq<Slot>,
    c: int,
)
    requires
        0 < stride,
    ensures
        filled(children_down_to(key, records, stride, options, slots, c), stride),
    decreases 8 - c,
{
    if c < 8 {
        lemma_children_filled(key, records, stride, options, slots, c + 1);
        lemma_falls_whole(records, stride, slots, c, records.len() as int / stride);
    }
}

proof fn lemma_filled(
    states: Seq<Builder>,
    slots: Seq<Seq<Slot>>,
    nodes: Seq<Made>,
    key: OctreeKey,
    records: Seq<u8>,
    n: int,
)
    requires
        is_run(states, slots, nodes, key, records),
        records.len() >= states[0].stride,
        0 <= n <= nodes.len(),
    ensures
        states[n].stride == states[0].stride,
        filled(node_views(states[n].pending@), states[0].stride as int),
        forall|i: int| 0 <= i < n ==> (#[trigger] nodes[i]).1.len() >= states[0].stride,
    decreases n,
{
    let stride = states[0].stride as int;
    if n > 0 {
        lemma_filled(states, slots, nodes, key, records, n - 1);
        let m = n - 1;
        assert(follows(states, slots, nodes, m));
        let here = node_views(states[m].pending@);
        let last = states[m].pending@.last();
        let rest = node_views(states[m].pending@.drop_last());
        assert(here[here.len() - 1] == super::node_view(last));
        assert forall|i: int| 0 <= i < rest.len() implies (#[trigger] rest[i]).1.len()
            >= stride by {
            assert(rest[i] == here[i]);
        }
        let count = last.records@.len() as int / stride;
        assert(count >= 1) by (nonlinear_arith)
            requires
                last.records@.len() as int >= stride,
                stride > 0,
                count == last.records@.len() as int / stride,
        ;
        if !states[m].stops(last.key.level) {
            lemma_children_filled(
                last.key,
                last.records@,
                stride,
                states[m].options,
                slots[m],
                0,
            );
            lemma_keeps_one(last.records@, stride, slots[m], count);
        }
    }
}

/// No node of a build is empty, where the node it starts on is not.
pub proof fn every_node_of_a_build_has_points(
    states: Seq<Builder>,
    slots: Seq<Seq<Slot>>,
    nodes: Seq<Made>,
    key: OctreeKey,
    records: Seq<u8>,
    i: int,
)
    requires
        is_run(states, slots, nodes, key, records),
        records.len() >= states[0].stride,
        0 <= i < nodes.len(),
    ensures
        nodes[i].1.len() >= states[0].stride,
{
    lemma_filled(states, slots, nodes, key, records, i + 1);
}

} // verus!
