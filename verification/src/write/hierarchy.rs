//! `hierarchy.bin` of a Potree v2 cloud, written from the list of its nodes.
//!
//! Chunks are level-ordered from a seed and cover [`STEP_SIZE`] levels. A node
//! at the cut becomes a proxy record whose offset and size name its own chunk.

use super::keys::{last_at, last_at_is_there, occurrences, pack, packed, packed_is_unique, KeyIndex};
use crate::bytes::{bytes32, bytes64, put_u32, put_u64};
use crate::format::potree::names_child;
use crate::octree::OctreeKey;
use std::collections::HashMap;
use vstd::prelude::*;

verus! {

broadcast use vstd::std_specs::hash::group_hash_axioms;

/// Levels a hierarchy chunk covers before the tree continues in another.
pub const STEP_SIZE: u32 = 5;

/// One node as it landed in `octree.bin`.
#[derive(Debug, Clone, Copy, PartialEq, Eq, Structural)]
pub struct Written {
    pub key: OctreeKey,
    pub byte_offset: u64,
    pub byte_size: u64,
    pub points: u32,
}

/// The addresses of some nodes.
pub open spec fn keys_of(w: Seq<Written>) -> Seq<OctreeKey> {
    w.map_values(|n: Written| n.key)
}

/// Whether the addresses of a node's children can be written down.
pub open spec fn can_split(k: OctreeKey) -> bool {
    k.level < u32::MAX && k.x < 0x8000_0000 && k.y < 0x8000_0000 && k.z < 0x8000_0000
}

/// How many of the nodes are child `c` of a node.
pub open spec fn kid_count(w: Seq<Written>, k: OctreeKey, c: int) -> nat {
    if can_split(k) {
        occurrences(keys_of(w), k.spec_child(c as u8))
    } else {
        0
    }
}

/// The children of a node among the nodes, those with an index below `n`, in
/// ascending order.
pub open spec fn kids_below(w: Seq<Written>, k: OctreeKey, n: int) -> Seq<OctreeKey>
    decreases n,
{
    if n <= 0 {
        Seq::empty()
    } else {
        kids_below(w, k, n - 1) + Seq::new(
            kid_count(w, k, n - 1),
            |i: int| k.spec_child((n - 1) as u8),
        )
    }
}

/// The children of a node among the nodes, in ascending order.
pub open spec fn kids(w: Seq<Written>, k: OctreeKey) -> Seq<OctreeKey> {
    kids_below(w, k, 8)
}

/// The children of several nodes, in the order of the nodes.
pub open spec fn all_kids(w: Seq<Written>, nodes: Seq<OctreeKey>) -> Seq<OctreeKey>
    decreases nodes.len(),
{
    if nodes.len() == 0 {
        Seq::empty()
    } else {
        all_kids(w, nodes.drop_last()) + kids(w, nodes.last())
    }
}

/// The nodes `d` levels below a node, in level order.
pub open spec fn level_below(w: Seq<Written>, k: OctreeKey, d: int) -> Seq<OctreeKey>
    decreases d,
{
    if d <= 0 {
        seq![k]
    } else {
        all_kids(w, level_below(w, k, d - 1))
    }
}

/// The nodes of a chunk above the cut, in level order.
pub open spec fn upper(w: Seq<Written>, k: OctreeKey) -> Seq<OctreeKey> {
    level_below(w, k, 0) + level_below(w, k, 1) + level_below(w, k, 2) + level_below(w, k, 3)
}

/// The nodes of a chunk at the cut.
pub open spec fn cut(w: Seq<Written>, k: OctreeKey) -> Seq<OctreeKey> {
    level_below(w, k, 4)
}

/// The nodes of a chunk.
pub open spec fn order(w: Seq<Written>, k: OctreeKey) -> Seq<OctreeKey> {
    upper(w, k) + cut(w, k)
}

spec fn bit_if(b: bool, bit: u8) -> u8 {
    if b {
        bit
    } else {
        0
    }
}

/// The mask that names some children: bit `c` for child `c`.
pub closed spec fn mask_of(
    b0: bool,
    b1: bool,
    b2: bool,
    b3: bool,
    b4: bool,
    b5: bool,
    b6: bool,
    b7: bool,
) -> u8 {
    bit_if(b0, 1) | bit_if(b1, 2) | bit_if(b2, 4) | bit_if(b3, 8) | bit_if(b4, 16) | bit_if(b5, 32)
        | bit_if(b6, 64) | bit_if(b7, 128)
}

/// The mask that names the children of a node.
pub open spec fn mask(w: Seq<Written>, k: OctreeKey) -> u8 {
    mask_of(
        kid_count(w, k, 0) > 0,
        kid_count(w, k, 1) > 0,
        kid_count(w, k, 2) > 0,
        kid_count(w, k, 3) > 0,
        kid_count(w, k, 4) > 0,
        kid_count(w, k, 5) > 0,
        kid_count(w, k, 6) > 0,
        kid_count(w, k, 7) > 0,
    )
}

/// The mask of a node names exactly its children.
pub proof fn lemma_bits(w: Seq<Written>, k: OctreeKey)
    ensures
        forall|c: int|
            0 <= c < 8 ==> #[trigger] names_child(mask(w, k), c) == (kid_count(w, k, c) > 0),
        (mask(w, k) == 0) == (forall|c: int| 0 <= c < 8 ==> #[trigger] kid_count(w, k, c) == 0),
{
    let (b0, b1, b2, b3) = (
        kid_count(w, k, 0) > 0,
        kid_count(w, k, 1) > 0,
        kid_count(w, k, 2) > 0,
        kid_count(w, k, 3) > 0,
    );
    let (b4, b5, b6, b7) = (
        kid_count(w, k, 4) > 0,
        kid_count(w, k, 5) > 0,
        kid_count(w, k, 6) > 0,
        kid_count(w, k, 7) > 0,
    );
    let m = mask(w, k);
    let (m0, m1, m2, m3) = (bit_if(b0, 1), bit_if(b1, 2), bit_if(b2, 4), bit_if(b3, 8));
    let (m4, m5, m6, m7) = (bit_if(b4, 16), bit_if(b5, 32), bit_if(b6, 64), bit_if(b7, 128));
    assert(((m >> 0u8) & 1u8 == 1u8) == (m0 == 1) && ((m >> 1u8) & 1u8 == 1u8) == (m1 == 2) && ((m
        >> 2u8) & 1u8 == 1u8) == (m2 == 4) && ((m >> 3u8) & 1u8 == 1u8) == (m3 == 8) && ((m >> 4u8)
        & 1u8 == 1u8) == (m4 == 16) && ((m >> 5u8) & 1u8 == 1u8) == (m5 == 32) && ((m >> 6u8) & 1u8
        == 1u8) == (m6 == 64) && ((m >> 7u8) & 1u8 == 1u8) == (m7 == 128) && (m == 0) == (m0 == 0
        && m1 == 0 && m2 == 0 && m3 == 0 && m4 == 0 && m5 == 0 && m6 == 0 && m7 == 0))
        by (bit_vector)
        requires
            m == m0 | m1 | m2 | m3 | m4 | m5 | m6 | m7,
            m0 == 0 || m0 == 1,
            m1 == 0 || m1 == 2,
            m2 == 0 || m2 == 4,
            m3 == 0 || m3 == 8,
            m4 == 0 || m4 == 16,
            m5 == 0 || m5 == 32,
            m6 == 0 || m6 == 64,
            m7 == 0 || m7 == 128,
    ;
    assert forall|c: int| 0 <= c < 8 implies #[trigger] names_child(m, c) == (kid_count(w, k, c)
        > 0) by {
        assert(c == 0 || c == 1 || c == 2 || c == 3 || c == 4 || c == 5 || c == 6 || c == 7);
    }
    if m == 0 {
        assert forall|c: int| 0 <= c < 8 implies #[trigger] kid_count(w, k, c) == 0 by {
            assert(c == 0 || c == 1 || c == 2 || c == 3 || c == 4 || c == 5 || c == 6 || c == 7);
        }
    }
}

/// One record.
pub open spec fn record_bytes(kind: u8, mask: u8, points: u32, offset: u64, size: u64) -> Seq<u8> {
    seq![kind, mask] + bytes32(points as int) + bytes64(offset as int) + bytes64(size as int)
}

/// The last of the nodes with an address.
pub open spec fn node_with(w: Seq<Written>, k: OctreeKey) -> Option<Written> {
    let at = last_at(keys_of(w), k);
    if at < 0 {
        None
    } else {
        Some(w[at])
    }
}

/// The record of a node that is not a proxy.
pub open spec fn plain_record(w: Seq<Written>, k: OctreeKey) -> Seq<u8> {
    let m = mask(w, k);
    let kind = if m == 0 {
        1u8
    } else {
        0u8
    };
    match node_with(w, k) {
        Some(n) => record_bytes(kind, m, n.points, n.byte_offset, n.byte_size),
        None => record_bytes(kind, m, 0, 0, 0),
    }
}

/// The record of a node whose children continue in the chunk at a place. It
/// carries the node's point count.
pub open spec fn proxy_record(w: Seq<Written>, k: OctreeKey, place: (u64, u64)) -> Seq<u8> {
    let points = match node_with(w, k) {
        Some(n) => n.points,
        None => 0,
    };
    record_bytes(2, 0, points, place.0, place.1)
}

/// The records of the nodes above the cut.
pub open spec fn plain_records(w: Seq<Written>, nodes: Seq<OctreeKey>) -> Seq<u8>
    decreases nodes.len(),
{
    if nodes.len() == 0 {
        Seq::empty()
    } else {
        plain_records(w, nodes.drop_last()) + plain_record(w, nodes.last())
    }
}

/// The record of a node at the cut.
pub open spec fn cut_record(
    w: Seq<Written>,
    k: OctreeKey,
    places: Map<OctreeKey, (u64, u64)>,
) -> Seq<u8> {
    if places.contains_key(k) {
        proxy_record(w, k, places[k])
    } else {
        plain_record(w, k)
    }
}

/// The records of the nodes at the cut, given where their own chunks are.
pub open spec fn cut_records(
    w: Seq<Written>,
    nodes: Seq<OctreeKey>,
    places: Map<OctreeKey, (u64, u64)>,
) -> Seq<u8>
    decreases nodes.len(),
{
    if nodes.len() == 0 {
        Seq::empty()
    } else {
        cut_records(w, nodes.drop_last(), places) + cut_record(w, nodes.last(), places)
    }
}

/// The records of a chunk, given where the chunks below it are.
pub open spec fn own_records(
    w: Seq<Written>,
    k: OctreeKey,
    places: Map<OctreeKey, (u64, u64)>,
) -> Seq<u8> {
    plain_records(w, upper(w, k)) + cut_records(w, cut(w, k), places)
}

/// Bytes of a chunk.
pub open spec fn own_size(w: Seq<Written>, k: OctreeKey) -> int {
    (22 * order(w, k).len()) as int
}

proof fn lemma_kid_levels(w: Seq<Written>, k: OctreeKey, n: int)
    requires
        n <= 8,
    ensures
        forall|i: int|
            0 <= i < kids_below(w, k, n).len() ==> #[trigger] is_kid(kids_below(w, k, n)[i], k),
    decreases n,
{
    if n > 0 {
        lemma_kid_levels(w, k, n - 1);
        let before = kids_below(w, k, n - 1);
        let after = kids_below(w, k, n);
        assert forall|i: int| 0 <= i < after.len() implies #[trigger] is_kid(after[i], k) by {
            if i < before.len() {
                assert(after[i] == before[i]);
                assert(is_kid(before[i], k));
            } else {
                assert(after[i] == k.spec_child((n - 1) as u8));
            }
        }
    }
}

/// Whether an address is one level below another that can have children.
spec fn is_kid(kid: OctreeKey, k: OctreeKey) -> bool {
    can_split(k) && kid.level == k.level + 1
}

proof fn lemma_all_kid_levels(w: Seq<Written>, nodes: Seq<OctreeKey>, level: int)
    requires
        forall|i: int| 0 <= i < nodes.len() ==> (#[trigger] nodes[i]).level == level,
    ensures
        forall|i: int|
            0 <= i < all_kids(w, nodes).len() ==> (#[trigger] all_kids(w, nodes)[i]).level == level
                + 1,
    decreases nodes.len(),
{
    if nodes.len() > 0 {
        let shorter = nodes.drop_last();
        assert forall|i: int| 0 <= i < shorter.len() implies (#[trigger] shorter[i]).level
            == level by {
            assert(shorter[i] == nodes[i]);
        }
        lemma_all_kid_levels(w, shorter, level);
        lemma_kid_levels(w, nodes.last(), 8);
        assert(nodes[nodes.len() - 1].level == level);
        let before = all_kids(w, shorter);
        assert forall|i: int| 0 <= i < all_kids(w, nodes).len() implies (#[trigger] all_kids(
            w,
            nodes,
        )[i]).level == level + 1 by {
            if i < before.len() {
                assert(all_kids(w, nodes)[i] == before[i]);
            } else {
                let last = kids_below(w, nodes.last(), 8);
                assert(all_kids(w, nodes)[i] == last[i - before.len()]);
                assert(is_kid(last[i - before.len()], nodes.last()));
            }
        }
    }
}

/// Nodes some levels below a node have its level and as many more.
pub proof fn lemma_levels(w: Seq<Written>, k: OctreeKey, d: int)
    requires
        0 <= d,
    ensures
        forall|i: int|
            0 <= i < level_below(w, k, d).len() ==> (#[trigger] level_below(w, k, d)[i]).level
                == k.level + d,
    decreases d,
{
    if d > 0 {
        lemma_levels(w, k, d - 1);
        lemma_all_kid_levels(w, level_below(w, k, d - 1), k.level + d - 1);
    }
}

/// The chunks below the first `n` nodes at the cut of a chunk, one after the
/// other from byte `from` on, and where each of them is.
pub open spec fn below(w: Seq<Written>, k: OctreeKey, n: int, from: int) -> (
    Seq<u8>,
    Map<OctreeKey, (u64, u64)>,
)
    decreases u32::MAX - k.level, n,
{
    if n <= 0 || n > cut(w, k).len() {
        (Seq::empty(), Map::empty())
    } else {
        let node = cut(w, k)[n - 1];
        let before = below(w, k, n - 1, from);
        if kids(w, node).len() == 0 {
            before
        } else {
            proof {
                lemma_levels(w, k, 4);
            }
            let at = from + before.0.len();
            let chunk = chunk_bytes(w, node, at);
            (
                before.0 + chunk,
                before.1.insert(
                    node,
                    ((at + chunk.len() - own_size(w, node)) as u64, own_size(w, node) as u64),
                ),
            )
        }
    }
}

/// The chunk of a node behind every chunk below it, from byte `from` on. A
/// proxy has to know where its chunk went before its own chunk is written.
pub open spec fn chunk_bytes(w: Seq<Written>, k: OctreeKey, from: int) -> Seq<u8>
    decreases u32::MAX - k.level, cut(w, k).len() + 1,
{
    let b = below(w, k, cut(w, k).len() as int, from);
    b.0 + own_records(w, k, b.1)
}

/// Whether an address comes before another: level first, then along each axis.
pub open spec fn comes_before(a: OctreeKey, b: OctreeKey) -> bool {
    packed(a) < packed(b)
}

/// The first address of some nodes, shallowest first; the root where there are
/// none.
pub open spec fn first_key(w: Seq<Written>) -> OctreeKey
    decreases w.len(),
{
    if w.len() == 0 {
        OctreeKey::root()
    } else if w.len() == 1 {
        w[0].key
    } else {
        let f = first_key(w.drop_last());
        if comes_before(w.last().key, f) {
            w.last().key
        } else {
            f
        }
    }
}

/// A whole hierarchy: the chunk of the first node, which has to be at byte
/// zero, and behind it every chunk below.
pub open spec fn hierarchy_of(w: Seq<Written>) -> Seq<u8> {
    let k = first_key(w);
    let b = below(w, k, cut(w, k).len() as int, own_size(w, k));
    own_records(w, k, b.1) + b.0
}

/// A list of nodes, with the means to look them up.
struct Nodes<'a> {
    list: &'a Vec<Written>,
    index: KeyIndex,
}

impl<'a> Nodes<'a> {
    spec fn wf(self) -> bool {
        self.index.of(keys_of(self.list@))
    }

    fn new(list: &'a Vec<Written>) -> (r: Self)
        ensures
            r.wf(),
            r.list == list,
    {
        let mut index = KeyIndex::new();
        let ghost keys = keys_of(list@);
        assert(keys.take(0) =~= Seq::<OctreeKey>::empty());
        let mut i: usize = 0;
        while i < list.len()
            invariant
                i <= list.len(),
                keys == keys_of(list@),
                index.of(keys.take(i as int)),
            decreases list.len() - i,
        {
            index.add(Ghost(keys.take(i as int)), list[i].key, i);
            assert(keys.take(i as int).push(list@[i as int].key) =~= keys.take(i + 1));
            i = i + 1;
        }
        assert(keys.take(i as int) =~= keys);
        Nodes { list, index }
    }

    fn find(&self, k: OctreeKey) -> (r: Option<Written>)
        requires
            self.wf(),
        ensures
            r == node_with(self.list@, k),
    {
        proof {
            last_at_is_there(keys_of(self.list@), k);
        }
        match self.index.find(Ghost(keys_of(self.list@)), k) {
            Some((_, at)) => Some(self.list[at]),
            None => None,
        }
    }

    fn count(&self, k: OctreeKey, c: u8) -> (n: usize)
        requires
            self.wf(),
            c < 8,
        ensures
            n == kid_count(self.list@, k, c as int),
    {
        if k.level == u32::MAX || k.x >= 0x8000_0000 || k.y >= 0x8000_0000 || k.z >= 0x8000_0000 {
            return 0;
        }
        match self.index.find(Ghost(keys_of(self.list@)), k.child(c)) {
            Some((n, _)) => n,
            None => 0,
        }
    }

    fn mask(&self, k: OctreeKey) -> (m: u8)
        requires
            self.wf(),
        ensures
            m == mask(self.list@, k),
    {
        let b0: u8 = if self.count(k, 0) > 0 { 1 } else { 0 };
        let b1: u8 = if self.count(k, 1) > 0 { 2 } else { 0 };
        let b2: u8 = if self.count(k, 2) > 0 { 4 } else { 0 };
        let b3: u8 = if self.count(k, 3) > 0 { 8 } else { 0 };
        let b4: u8 = if self.count(k, 4) > 0 { 16 } else { 0 };
        let b5: u8 = if self.count(k, 5) > 0 { 32 } else { 0 };
        let b6: u8 = if self.count(k, 6) > 0 { 64 } else { 0 };
        let b7: u8 = if self.count(k, 7) > 0 { 128 } else { 0 };
        b0 | b1 | b2 | b3 | b4 | b5 | b6 | b7
    }

    /// Appends the children of a node.
    fn push_kids(&self, k: OctreeKey, out: &mut Vec<OctreeKey>)
        requires
            self.wf(),
        ensures
            final(out)@ == old(out)@ + kids(self.list@, k),
    {
        let mut c: u8 = 0;
        assert(out@ =~= old(out)@ + kids_below(self.list@, k, 0));
        while c < 8
            invariant
                c <= 8,
                self.wf(),
                out@ == old(out)@ + kids_below(self.list@, k, c as int),
            decreases 8 - c,
        {
            let n: usize = self.count(k, c);
            let child = k.child(c);
            let ghost before = out@;
            let mut i: usize = 0;
            assert(out@ =~= before + Seq::new(0, |j: int| child));
            while i < n
                invariant
                    i <= n,
                    out@ == before + Seq::new(i as nat, |j: int| child),
                decreases n - i,
            {
                out.push(child);
                i = i + 1;
                assert(out@ =~= before + Seq::new(i as nat, |j: int| child));
            }
            assert(Seq::new(n as nat, |j: int| child) =~= Seq::new(
                kid_count(self.list@, k, c as int),
                |j: int| k.spec_child(c),
            ));
            c = c + 1;
            assert(out@ =~= old(out)@ + kids_below(self.list@, k, c as int));
        }
    }

    /// The children of several nodes.
    fn next_level(&self, nodes: &Vec<OctreeKey>) -> (out: Vec<OctreeKey>)
        requires
            self.wf(),
        ensures
            out@ == all_kids(self.list@, nodes@),
    {
        let mut out: Vec<OctreeKey> = Vec::new();
        let mut i: usize = 0;
        assert(nodes@.take(0) =~= Seq::<OctreeKey>::empty());
        while i < nodes.len()
            invariant
                i <= nodes.len(),
                self.wf(),
                out@ == all_kids(self.list@, nodes@.take(i as int)),
            decreases nodes.len() - i,
        {
            assert(nodes@.take(i + 1).drop_last() =~= nodes@.take(i as int));
            self.push_kids(nodes[i], &mut out);
            i = i + 1;
        }
        assert(nodes@.take(i as int) =~= nodes@);
        out
    }

    /// The nodes of a chunk: those above the cut, and those at it.
    fn level_order(&self, k: OctreeKey) -> (r: (Vec<OctreeKey>, Vec<OctreeKey>))
        requires
            self.wf(),
        ensures
            r.0@ == upper(self.list@, k),
            r.1@ == cut(self.list@, k),
    {
        let ghost w = self.list@;
        let mut l0: Vec<OctreeKey> = Vec::new();
        l0.push(k);
        assert(l0@ =~= level_below(w, k, 0));
        let mut l1 = self.next_level(&l0);
        assert(l1@ == level_below(w, k, 1));
        let mut l2 = self.next_level(&l1);
        assert(l2@ == level_below(w, k, 2));
        let mut l3 = self.next_level(&l2);
        assert(l3@ == level_below(w, k, 3));
        let l4 = self.next_level(&l3);
        assert(l4@ == level_below(w, k, 4));
        l0.append(&mut l1);
        l0.append(&mut l2);
        l0.append(&mut l3);
        (l0, l4)
    }

    fn put_record(
        &self,
        kind: u8,
        mask: u8,
        points: u32,
        offset: u64,
        size: u64,
        out: &mut Vec<u8>,
    )
        ensures
            final(out)@ == old(out)@ + record_bytes(kind, mask, points, offset, size),
    {
        out.push(kind);
        out.push(mask);
        put_u32(out, points);
        put_u64(out, offset);
        put_u64(out, size);
        assert(out@ =~= old(out)@ + record_bytes(kind, mask, points, offset, size));
    }

    fn put_plain(&self, k: OctreeKey, out: &mut Vec<u8>)
        requires
            self.wf(),
        ensures
            final(out)@ == old(out)@ + plain_record(self.list@, k),
    {
        let m: u8 = self.mask(k);
        let kind: u8 = if m == 0 {
            1
        } else {
            0
        };
        match self.find(k) {
            Some(n) => self.put_record(kind, m, n.points, n.byte_offset, n.byte_size, out),
            None => self.put_record(kind, m, 0, 0, 0, out),
        }
    }

    /// Appends the records of the nodes above the cut.
    fn put_above(&self, above: &Vec<OctreeKey>, out: &mut Vec<u8>)
        requires
            self.wf(),
        ensures
            final(out)@ == old(out)@ + plain_records(self.list@, above@),
    {
        let ghost w = self.list@;
        let ghost start = out@;
        let mut i: usize = 0;
        assert(above@.take(0) =~= Seq::<OctreeKey>::empty());
        assert(out@ =~= start + plain_records(w, above@.take(0)));
        while i < above.len()
            invariant
                i <= above.len(),
                self.wf(),
                w == self.list@,
                out@ == start + plain_records(w, above@.take(i as int)),
            decreases above.len() - i,
        {
            assert(above@.take(i + 1).drop_last() =~= above@.take(i as int));
            let ghost before = plain_records(w, above@.take(i as int));
            self.put_plain(above[i], out);
            assert(start + before + plain_record(w, above@[i as int]) =~= start + (before
                + plain_record(w, above@[i as int])));
            i = i + 1;
        }
        assert(above@.take(i as int) =~= above@);
    }

    /// Appends the record of a node at the cut.
    fn put_cut_one(
        &self,
        node: OctreeKey,
        places: &HashMap<u128, (u64, u64)>,
        map: Ghost<Map<OctreeKey, (u64, u64)>>,
        out: &mut Vec<u8>,
    )
        requires
            self.wf(),
            says(places@, map@),
        ensures
            final(out)@ == old(out)@ + cut_record(self.list@, node, map@),
    {
        let n: u128 = pack(node);
        assert(packed(node) as u128 == n);
        match places.get(&n) {
            Some(p) => {
                let points: u32 = match self.find(node) {
                    Some(found) => found.points,
                    None => 0,
                };
                self.put_record(2, 0, points, p.0, p.1, out);
            },
            None => self.put_plain(node, out),
        }
    }

    /// Appends the records of a chunk.
    fn put_own(
        &self,
        k: OctreeKey,
        above: &Vec<OctreeKey>,
        at: &Vec<OctreeKey>,
        places: &HashMap<u128, (u64, u64)>,
        map: Ghost<Map<OctreeKey, (u64, u64)>>,
        out: &mut Vec<u8>,
    )
        requires
            self.wf(),
            above@ == upper(self.list@, k),
            at@ == cut(self.list@, k),
            says(places@, map@),
        ensures
            final(out)@ == old(out)@ + own_records(self.list@, k, map@),
    {
        let ghost w = self.list@;
        let ghost start = out@;
        self.put_above(above, out);
        let ghost middle = out@;
        let mut j: usize = 0;
        assert(at@.take(0) =~= Seq::<OctreeKey>::empty());
        assert(out@ =~= middle + cut_records(w, at@.take(0), map@));
        while j < at.len()
            invariant
                j <= at.len(),
                self.wf(),
                w == self.list@,
                says(places@, map@),
                out@ == middle + cut_records(w, at@.take(j as int), map@),
            decreases at.len() - j,
        {
            assert(at@.take(j + 1).drop_last() =~= at@.take(j as int));
            let ghost before = cut_records(w, at@.take(j as int), map@);
            let ghost one = cut_record(w, at@[j as int], map@);
            self.put_cut_one(at[j], places, map, out);
            assert(middle + before + one =~= middle + (before + one));
            j = j + 1;
        }
        assert(at@.take(j as int) =~= at@);
        assert(out@ =~= start + own_records(w, k, map@));
    }

    /// Appends the chunks below the nodes at the cut. Returns where each of them
    /// is.
    fn put_below(&self, k: OctreeKey, at: &Vec<OctreeKey>, buffer: &mut Vec<u8>) -> (r: (
        HashMap<u128, (u64, u64)>,
        Ghost<Map<OctreeKey, (u64, u64)>>,
    ))
        requires
            self.wf(),
            at@ == cut(self.list@, k),
        ensures
            ({
                let b = below(
                    self.list@,
                    k,
                    cut(self.list@, k).len() as int,
                    old(buffer)@.len() as int,
                );
                final(buffer)@ == old(buffer)@ + b.0 && says(r.0@, b.1) && r.1@ == b.1
            }),
        decreases u32::MAX - k.level, 0int,
    {
        let ghost w = self.list@;
        let ghost start = buffer@;
        let ghost from: int = start.len() as int;
        let mut places: HashMap<u128, (u64, u64)> = HashMap::new();
        let mut i: usize = 0;
        assert(buffer@ =~= start + below(w, k, 0, from).0);
        while i < at.len()
            invariant
                i <= at.len(),
                self.wf(),
                w == self.list@,
                at@ == cut(w, k),
                from == start.len() as int,
                buffer@ == start + below(w, k, i as int, from).0,
                says(places@, below(w, k, i as int, from).1),
            decreases at.len() - i,
        {
            let node = at[i];
            let ghost before = below(w, k, i as int, from);
            let mut any: Vec<OctreeKey> = Vec::new();
            self.push_kids(node, &mut any);
            assert(any@ =~= kids(w, node));
            if any.len() > 0 {
                proof {
                    lemma_levels(w, k, 4);
                    assert(level_below(w, k, 4)[i as int] == node);
                    lemma_kid_levels(w, node, 8);
                    assert(can_split(node)) by {
                        assert(is_kid(kids_below(w, node, 8)[0], node));
                    }
                }
                let (offset, size) = self.write_chunk(node, buffer);
                let n: u128 = pack(node);
                let ghost seen = places@;
                places.insert(n, (offset, size));
                assert(buffer@ =~= start + below(w, k, i + 1, from).0);
                proof {
                    lemma_says_insert(seen, before.1, node, (offset, size));
                }
            }
            i = i + 1;
        }
        let ghost b = below(w, k, at@.len() as int, from);
        (places, Ghost(b.1))
    }

    /// Appends the chunk of a node and every chunk below it. Returns where the
    /// chunk is, and its size.
    fn write_chunk(&self, k: OctreeKey, buffer: &mut Vec<u8>) -> (r: (u64, u64))
        requires
            self.wf(),
        ensures
            ({
                let c = chunk_bytes(self.list@, k, old(buffer)@.len() as int);
                let at = old(buffer)@.len() as int + c.len() - own_size(self.list@, k);
                final(buffer)@ == old(buffer)@ + c && r.0 == at as u64 && r.1 == own_size(
                    self.list@,
                    k,
                ) as u64
            }),
        decreases u32::MAX - k.level, 1int,
    {
        let ghost w = self.list@;
        let ghost start = buffer@;
        let (above, at) = self.level_order(k);
        let (places, map) = self.put_below(k, &at, buffer);
        let begin: usize = buffer.len();
        self.put_own(k, &above, &at, &places, map, buffer);
        let end: usize = buffer.len();
        proof {
            lemma_own_size(w, k, map@);
            assert(buffer@ =~= start + chunk_bytes(w, k, start.len() as int));
        }
        (begin as u64, (end - begin) as u64)
    }
}

/// Whether a map by packed address says what a map by address says.
spec fn says(places: Map<u128, (u64, u64)>, map: Map<OctreeKey, (u64, u64)>) -> bool {
    forall|k: OctreeKey|
        {
            let n = #[trigger] packed(k) as u128;
            places.contains_key(n) == map.contains_key(k) && (map.contains_key(k) ==> places[n]
                == map[k])
        }
}

proof fn lemma_says_insert(
    places: Map<u128, (u64, u64)>,
    map: Map<OctreeKey, (u64, u64)>,
    k: OctreeKey,
    place: (u64, u64),
)
    requires
        says(places, map),
    ensures
        says(places.insert(packed(k) as u128, place), map.insert(k, place)),
{
    let more = places.insert(packed(k) as u128, place);
    let known = map.insert(k, place);
    assert forall|j: OctreeKey|
        {
            let n = #[trigger] packed(j) as u128;
            more.contains_key(n) == known.contains_key(j) && (known.contains_key(j) ==> more[n]
                == known[j])
        } by {
        super::keys::lemma_packed_range(j);
        super::keys::lemma_packed_range(k);
        if j != k && packed(j) == packed(k) {
            packed_is_unique(j, k);
        }
        let n = packed(j) as u128;
        assert(places.contains_key(n) == map.contains_key(j));
    }
}

pub proof fn lemma_plain_len(w: Seq<Written>, nodes: Seq<OctreeKey>)
    ensures
        plain_records(w, nodes).len() == 22 * nodes.len(),
    decreases nodes.len(),
{
    if nodes.len() > 0 {
        lemma_plain_len(w, nodes.drop_last());
    }
}

#[verifier::spinoff_prover]
#[verifier::rlimit(40)]
pub proof fn lemma_cut_len(w: Seq<Written>, nodes: Seq<OctreeKey>, places: Map<OctreeKey, (u64, u64)>)
    ensures
        cut_records(w, nodes, places).len() == 22 * nodes.len(),
    decreases nodes.len(),
{
    if nodes.len() > 0 {
        lemma_cut_len(w, nodes.drop_last(), places);
    }
}

pub proof fn lemma_own_size(w: Seq<Written>, k: OctreeKey, places: Map<OctreeKey, (u64, u64)>)
    ensures
        own_records(w, k, places).len() == own_size(w, k),
{
    lemma_plain_len(w, upper(w, k));
    lemma_cut_len(w, cut(w, k), places);
}

/// The first address of some nodes, shallowest first; the root where there are
/// none.
fn find_first(list: &Vec<Written>) -> (k: OctreeKey)
    ensures
        k == first_key(list@),
{
    if list.len() == 0 {
        return OctreeKey::root();
    }
    let mut best = list[0].key;
    let mut i: usize = 1;
    assert(list@.take(1).len() == 1);
    while i < list.len()
        invariant
            1 <= i <= list.len(),
            best == first_key(list@.take(i as int)),
        decreases list.len() - i,
    {
        assert(list@.take(i + 1).drop_last() =~= list@.take(i as int));
        if pack(list[i].key) < pack(best) {
            best = list[i].key;
        }
        i = i + 1;
    }
    assert(list@.take(i as int) =~= list@);
    best
}

/// Serialises a whole `hierarchy.bin`, returning it and the root chunk's size.
///
/// The root is the shallowest node, whatever order the nodes are in.
pub fn hierarchy_bytes(written: &Vec<Written>) -> (r: (Vec<u8>, u64))
    ensures
        r.0@ == hierarchy_of(written@),
        r.1 == own_size(written@, first_key(written@)),
{
    let ghost w = written@;
    let nodes = Nodes::new(written);
    let k = find_first(written);
    let (above, at) = nodes.level_order(k);
    // Room for the root's chunk, so that the chunks behind it are written where
    // they will stand.
    let mut buffer: Vec<u8> = Vec::new();
    let mut i: usize = 0;
    while i < above.len()
        invariant
            i <= above.len(),
            buffer@.len() == 22 * i,
        decreases above.len() - i,
    {
        crate::bytes::put_zeros(&mut buffer, 22);
        i = i + 1;
    }
    let mut j: usize = 0;
    while j < at.len()
        invariant
            j <= at.len(),
            buffer@.len() == 22 * (above@.len() + j),
        decreases at.len() - j,
    {
        crate::bytes::put_zeros(&mut buffer, 22);
        j = j + 1;
    }
    let size: usize = buffer.len();
    let ghost room = buffer@;
    let (places, map) = nodes.put_below(k, &at, &mut buffer);
    let mut out: Vec<u8> = Vec::new();
    nodes.put_own(k, &above, &at, &places, map, &mut out);
    let total: usize = buffer.len();
    crate::bytes::put_range(&mut out, buffer.as_slice(), size, total);
    proof {
        let b = below(w, k, cut(w, k).len() as int, size as int);
        assert(buffer@.subrange(size as int, total as int) =~= b.0);
        assert(out@ =~= hierarchy_of(w));
    }
    (out, size as u64)
}

} // verus!
