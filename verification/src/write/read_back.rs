//! What the reader of a hierarchy makes of what the writer wrote.

use super::hierarchy::{
    all_kids, below, can_split, chunk_bytes, cut, cut_record, cut_records, first_key, hierarchy_of,
    keys_of, kid_count, kids, kids_below, lemma_bits, lemma_cut_len, lemma_levels, lemma_own_size,
    lemma_plain_len, level_below, mask, node_with, order, own_records, own_size,
    plain_record, plain_records, record_bytes, upper, Written,
};
use super::keys::{
    distinct_keys_occur_once, last_at, last_at_is_there, packed, packed_is_unique,
};
use crate::bytes::{bytes32, bytes64, le32, le32_reads_bytes32, le64, le64_reads_bytes64};
use crate::error::Failure;
use crate::format::potree::{
    chunk_at, chunk_of, distinct_within, entry_at, lemma_visit, named_children,
    names_child, walk, whole_walk, Chunk, Entry, Found, PotreeNodeRef,
};
use crate::octree::{child_then_parent, OctreeKey};
use vstd::prelude::*;

verus! {

/// Whether some nodes make a tree: no address twice, the root among them, and
/// with every other node its parent.
pub open spec fn is_tree(w: Seq<Written>) -> bool {
    &&& keys_of(w).no_duplicates()
    &&& keys_of(w).contains(OctreeKey::root())
    &&& forall|k: OctreeKey| #[trigger]
        keys_of(w).contains(k) ==> k == OctreeKey::root() || (k.level > 0 && keys_of(w).contains(
            k.spec_parent()->0,
        ))
}

/// A node as a reader of the hierarchy gives it.
pub open spec fn ref_of(w: Seq<Written>, k: OctreeKey) -> PotreeNodeRef {
    match node_with(w, k) {
        Some(n) => PotreeNodeRef {
            key: k,
            point_count: n.points,
            byte_offset: n.byte_offset,
            byte_size: n.byte_size,
        },
        None => PotreeNodeRef { key: k, point_count: 0, byte_offset: 0, byte_size: 0 },
    }
}

spec fn refs(w: Seq<Written>, nodes: Seq<OctreeKey>) -> Seq<PotreeNodeRef> {
    nodes.map_values(|k: OctreeKey| ref_of(w, k))
}

/// The nodes at a cut that have no children: those a chunk holds itself.
spec fn cut_refs(w: Seq<Written>, nodes: Seq<OctreeKey>) -> Seq<PotreeNodeRef>
    decreases nodes.len(),
{
    if nodes.len() == 0 {
        Seq::empty()
    } else if kids(w, nodes.last()).len() == 0 {
        cut_refs(w, nodes.drop_last()).push(ref_of(w, nodes.last()))
    } else {
        cut_refs(w, nodes.drop_last())
    }
}

/// The nodes at a cut that have children, with where their chunks are.
spec fn proxies(
    w: Seq<Written>,
    nodes: Seq<OctreeKey>,
    places: Map<OctreeKey, (u64, u64)>,
) -> Seq<(OctreeKey, u64, u64)>
    decreases nodes.len(),
{
    if nodes.len() == 0 {
        Seq::empty()
    } else if kids(w, nodes.last()).len() == 0 {
        proxies(w, nodes.drop_last(), places)
    } else {
        let p = places[nodes.last()];
        proxies(w, nodes.drop_last(), places).push((nodes.last(), p.0, p.1))
    }
}

proof fn lemma_mask(w: Seq<Written>, k: OctreeKey, n: int)
    requires
        keys_of(w).no_duplicates(),
        0 <= n <= 8,
    ensures
        named_children(k, mask(w, k), n) == kids_below(w, k, n),
    decreases n,
{
    if n > 0 {
        lemma_mask(w, k, n - 1);
        lemma_bits(w, k);
        distinct_keys_occur_once(keys_of(w), k.spec_child((n - 1) as u8));
        assert(names_child(mask(w, k), n - 1) == (kid_count(w, k, n - 1) > 0));
        assert(named_children(k, mask(w, k), n) =~= kids_below(w, k, n));
    }
}

proof fn lemma_entry(
    h: Seq<u8>,
    at: int,
    kind: u8,
    mask: u8,
    points: u32,
    offset: u64,
    size: u64,
)
    requires
        0 <= at,
        at + 22 <= h.len(),
        h.subrange(at, at + 22) == record_bytes(kind, mask, points, offset, size),
    ensures
        entry_at(h, at) == (Entry { kind, mask, points, offset, size }),
{
    le32_reads_bytes32(points as int);
    le64_reads_bytes64(offset as int);
    le64_reads_bytes64(size as int);
    let a = seq![kind, mask];
    lemma_parts(a, bytes32(points as int), bytes64(offset as int), bytes64(size as int), h, at);
    assert(a[0] == kind && a[1] == mask);
}

proof fn lemma_parts(a: Seq<u8>, p: Seq<u8>, o: Seq<u8>, s: Seq<u8>, h: Seq<u8>, at: int)
    requires
        a.len() == 2,
        p.len() == 4,
        o.len() == 8,
        s.len() == 8,
        0 <= at,
        at + 22 <= h.len(),
        h.subrange(at, at + 22) == a + p + o + s,
    ensures
        h[at] == a[0],
        h[at + 1] == a[1],
        le32(h, at + 2) == le32(p, 0),
        le64(h, at + 6) == le64(o, 0),
        le64(h, at + 14) == le64(s, 0),
{
    let r = a + p + o + s;
    assert forall|i: int| 0 <= i < 22 implies #[trigger] h[at + i] == r[i] by {
        assert(h.subrange(at, at + 22)[i] == h[at + i]);
    }
    assert(h[at + 0] == a[0] && h[at + 1] == a[1]);
    assert(h[at + 2] == p[0] && h[at + 3] == p[1] && h[at + 4] == p[2] && h[at + 5] == p[3]);
    assert(h[at + 6] == o[0] && h[at + 7] == o[1] && h[at + 8] == o[2] && h[at + 9] == o[3]);
    assert(h[at + 10] == o[4] && h[at + 11] == o[5] && h[at + 12] == o[6] && h[at + 13] == o[7]);
    assert(h[at + 14] == s[0] && h[at + 15] == s[1] && h[at + 16] == s[2] && h[at + 17] == s[3]);
    assert(h[at + 18] == s[4] && h[at + 19] == s[5] && h[at + 20] == s[6] && h[at + 21] == s[7]);
}

proof fn lemma_plain_at(w: Seq<Written>, nodes: Seq<OctreeKey>, i: int)
    requires
        0 <= i < nodes.len(),
    ensures
        22 * i + 22 <= plain_records(w, nodes).len(),
        plain_records(w, nodes).subrange(22 * i, 22 * i + 22) == plain_record(w, nodes[i]),
    decreases nodes.len(),
{
    let shorter = nodes.drop_last();
    lemma_plain_len(w, nodes);
    lemma_plain_len(w, shorter);
    let before = plain_records(w, shorter);
    let last = plain_record(w, nodes.last());
    if i < shorter.len() {
        lemma_plain_at(w, shorter, i);
        assert((before + last).subrange(22 * i, 22 * i + 22) =~= before.subrange(
            22 * i,
            22 * i + 22,
        ));
    } else {
        assert((before + last).subrange(22 * i, 22 * i + 22) =~= last);
    }
}

proof fn lemma_cut_at(
    w: Seq<Written>,
    nodes: Seq<OctreeKey>,
    places: Map<OctreeKey, (u64, u64)>,
    i: int,
)
    requires
        0 <= i < nodes.len(),
    ensures
        22 * i + 22 <= cut_records(w, nodes, places).len(),
        cut_records(w, nodes, places).subrange(22 * i, 22 * i + 22) == cut_record(
            w,
            nodes[i],
            places,
        ),
    decreases nodes.len(),
{
    let shorter = nodes.drop_last();
    lemma_cut_len(w, nodes, places);
    lemma_cut_len(w, shorter, places);
    let before = cut_records(w, shorter, places);
    let last = cut_record(w, nodes.last(), places);
    if i < shorter.len() {
        lemma_cut_at(w, shorter, places, i);
        assert((before + last).subrange(22 * i, 22 * i + 22) =~= before.subrange(
            22 * i,
            22 * i + 22,
        ));
    } else {
        assert((before + last).subrange(22 * i, 22 * i + 22) =~= last);
    }
}

proof fn lemma_all_kids_concat(w: Seq<Written>, a: Seq<OctreeKey>, b: Seq<OctreeKey>)
    ensures
        all_kids(w, a + b) == all_kids(w, a) + all_kids(w, b),
    decreases b.len(),
{
    if b.len() == 0 {
        assert(a + b =~= a);
        assert(all_kids(w, a) + all_kids(w, b) =~= all_kids(w, a));
    } else {
        lemma_all_kids_concat(w, a, b.drop_last());
        assert((a + b).drop_last() =~= a + b.drop_last());
        assert((a + b).last() == b.last());
        assert(all_kids(w, a + b) =~= all_kids(w, a) + all_kids(w, b));
    }
}

/// What a reader has in line after the first `i` records of a chunk.
spec fn in_line(w: Seq<Written>, k: OctreeKey, i: int) -> Seq<OctreeKey> {
    let u = upper(w, k);
    seq![k] + all_kids(
        w,
        if i <= u.len() {
            u.take(i)
        } else {
            u
        },
    )
}

proof fn lemma_in_line_grows(w: Seq<Written>, k: OctreeKey, i: int)
    requires
        0 <= i < upper(w, k).len(),
    ensures
        in_line(w, k, i + 1) == in_line(w, k, i) + kids(w, upper(w, k)[i]),
{
    let u = upper(w, k);
    assert(u.take(i + 1).drop_last() =~= u.take(i));
    assert(u.take(i + 1).last() == u[i]);
    assert(in_line(w, k, i + 1) =~= in_line(w, k, i) + kids(w, u[i]));
}

proof fn lemma_order(w: Seq<Written>, k: OctreeKey)
    ensures
        order(w, k) == seq![k] + all_kids(w, upper(w, k)),
{
    let (l0, l1, l2, l3) = (
        level_below(w, k, 0),
        level_below(w, k, 1),
        level_below(w, k, 2),
        level_below(w, k, 3),
    );
    lemma_all_kids_concat(w, l0, l1);
    lemma_all_kids_concat(w, l0 + l1, l2);
    lemma_all_kids_concat(w, l0 + l1 + l2, l3);
    assert(order(w, k) =~= seq![k] + all_kids(w, upper(w, k)));
}

proof fn lemma_take_kids(w: Seq<Written>, u: Seq<OctreeKey>, i: int, j: int)
    requires
        0 <= i <= j <= u.len(),
    ensures
        all_kids(w, u.take(i)).len() <= all_kids(w, u.take(j)).len(),
        all_kids(w, u.take(j)) == all_kids(w, u.take(i)) + all_kids(w, u.subrange(i, j)),
{
    lemma_all_kids_concat(w, u.take(i), u.subrange(i, j));
    assert(u.take(i) + u.subrange(i, j) =~= u.take(j));
}

/// A reader always has the node of the next record in line.
proof fn lemma_in_line(w: Seq<Written>, k: OctreeKey, i: int)
    requires
        0 <= i < order(w, k).len(),
    ensures
        in_line(w, k, i).len() > i,
        in_line(w, k, i)[i] == order(w, k)[i],
{
    let u = upper(w, k);
    lemma_order(w, k);
    if i < u.len() {
        let (l0, l1, l2, l3) = (
            level_below(w, k, 0),
            level_below(w, k, 1),
            level_below(w, k, 2),
            level_below(w, k, 3),
        );
        lemma_take_kids(w, u, i, u.len() as int);
        assert(u.take(u.len() as int) =~= u);
        let (s0, s1, s2) = (
            l0.len() as int,
            (l0.len() + l1.len()) as int,
            (l0.len() + l1.len() + l2.len()) as int,
        );
        if i >= s2 {
            lemma_take_kids(w, u, s2, i);
            assert(u.take(s2) =~= l0 + l1 + l2);
            lemma_all_kids_concat(w, l0 + l1, l2);
            lemma_all_kids_concat(w, l0, l1);
        } else if i >= s1 {
            lemma_take_kids(w, u, s1, i);
            assert(u.take(s1) =~= l0 + l1);
            lemma_all_kids_concat(w, l0, l1);
        } else if i >= s0 {
            lemma_take_kids(w, u, s0, i);
            assert(u.take(s0) =~= l0);
        }
        assert(in_line(w, k, i).len() > i);
        assert(order(w, k) =~= in_line(w, k, i) + all_kids(w, u.subrange(i, u.len() as int)));
    } else {
        assert(in_line(w, k, i) == order(w, k)) by {
            if i == u.len() {
                assert(u.take(i) =~= u);
            }
        }
    }
}

/// What a reader has after the first `i` records of a chunk.
spec fn read_so_far(
    w: Seq<Written>,
    k: OctreeKey,
    places: Map<OctreeKey, (u64, u64)>,
    i: int,
) -> Chunk {
    let u = upper(w, k);
    let c = cut(w, k);
    if i <= u.len() {
        Chunk { keys: in_line(w, k, i), nodes: refs(w, u.take(i)), further: Seq::empty() }
    } else {
        Chunk {
            keys: order(w, k),
            nodes: refs(w, u) + cut_refs(w, c.take(i - u.len())),
            further: proxies(w, c.take(i - u.len()), places),
        }
    }
}

/// Whether the places of the chunks below a cut are known, and no others.
spec fn knows(
    w: Seq<Written>,
    nodes: Seq<OctreeKey>,
    places: Map<OctreeKey, (u64, u64)>,
) -> bool {
    forall|i: int|
        0 <= i < nodes.len() ==> places.contains_key(#[trigger] nodes[i]) == (kids(
            w,
            nodes[i],
        ).len() > 0)
}

/// Whether a chunk stands at a place of a file.
spec fn stands_at(
    h: Seq<u8>,
    at: int,
    w: Seq<Written>,
    k: OctreeKey,
    places: Map<OctreeKey, (u64, u64)>,
) -> bool {
    &&& 0 <= at
    &&& at + own_size(w, k) <= h.len()
    &&& h.subrange(at, at + own_size(w, k)) == own_records(w, k, places)
}

proof fn lemma_record_at(
    h: Seq<u8>,
    at: int,
    w: Seq<Written>,
    k: OctreeKey,
    places: Map<OctreeKey, (u64, u64)>,
    j: int,
)
    requires
        stands_at(h, at, w, k, places),
        0 <= j < order(w, k).len(),
    ensures
        at + 22 * j + 22 <= h.len(),
        h.subrange(at + 22 * j, at + 22 * j + 22) == if j < upper(w, k).len() {
            plain_record(w, order(w, k)[j])
        } else {
            cut_record(w, order(w, k)[j], places)
        },
{
    let u = upper(w, k);
    let c = cut(w, k);
    let a = plain_records(w, u);
    let b = cut_records(w, c, places);
    let all = a + b;
    lemma_plain_len(w, u);
    lemma_cut_len(w, c, places);
    let piece = h.subrange(at + 22 * j, at + 22 * j + 22);
    let part = all.subrange(22 * j, 22 * j + 22);
    assert(piece =~= part) by {
        assert forall|n: int| 0 <= n < 22 implies #[trigger] piece[n] == part[n] by {
            assert(h.subrange(at, at + own_size(w, k))[22 * j + n] == h[at + (22 * j + n)]);
        }
    }
    if j < u.len() {
        lemma_plain_at(w, u, j);
        assert(part =~= a.subrange(22 * j, 22 * j + 22));
    } else {
        let m = j - u.len();
        lemma_cut_at(w, c, places, m);
        assert(part =~= b.subrange(22 * m, 22 * m + 22));
    }
}

/// One record above the cut takes the reader one node further.
#[verifier::spinoff_prover]
#[verifier::rlimit(40)]
proof fn lemma_plain_step(
    h: Seq<u8>,
    at: int,
    w: Seq<Written>,
    k: OctreeKey,
    places: Map<OctreeKey, (u64, u64)>,
    j: int,
)
    requires
        keys_of(w).no_duplicates(),
        stands_at(h, at, w, k, places),
        0 <= j < upper(w, k).len(),
        chunk_of(h, at, k, j) == Some(read_so_far(w, k, places, j)),
    ensures
        chunk_of(h, at, k, j + 1) == Some(read_so_far(w, k, places, j + 1)),
{
    let u = upper(w, k);
    let key = order(w, k)[j];
    lemma_in_line(w, k, j);
    lemma_record_at(h, at, w, k, places, j);
    lemma_plain_entry(h, at + 22 * j, w, key);
    lemma_mask(w, key, 8);
    lemma_in_line_grows(w, k, j);
    assert(key == u[j]);
    assert(u.take(j + 1) =~= u.take(j).push(key));
    assert(refs(w, u.take(j + 1)) =~= refs(w, u.take(j)).push(ref_of(w, key)));
}

/// One record at the cut takes the reader one node, or one chunk, further.
proof fn lemma_cut_step(
    h: Seq<u8>,
    at: int,
    w: Seq<Written>,
    k: OctreeKey,
    places: Map<OctreeKey, (u64, u64)>,
    j: int,
)
    requires
        keys_of(w).no_duplicates(),
        stands_at(h, at, w, k, places),
        knows(w, cut(w, k), places),
        upper(w, k).len() <= j < order(w, k).len(),
        chunk_of(h, at, k, j) == Some(read_so_far(w, k, places, j)),
    ensures
        chunk_of(h, at, k, j + 1) == Some(read_so_far(w, k, places, j + 1)),
{
    let u = upper(w, k);
    let c = cut(w, k);
    let m = j - u.len();
    let key = order(w, k)[j];
    assert(key == c[m]);
    lemma_record_at(h, at, w, k, places, j);
    lemma_order(w, k);
    assert(c.take(m + 1).drop_last() =~= c.take(m));
    assert(c.take(m + 1).last() == key);
    assert(places.contains_key(c[m]) == (kids(w, c[m]).len() > 0));
    let nodes = refs(w, u) + cut_refs(w, c.take(m));
    assert(read_so_far(w, k, places, j) =~= (Chunk {
        keys: order(w, k),
        nodes,
        further: proxies(w, c.take(m), places),
    })) by {
        if m == 0 {
            assert(u.take(j) =~= u);
            assert(c.take(0) =~= Seq::<OctreeKey>::empty());
            assert(nodes =~= refs(w, u));
        }
    }
    assert(u.len() >= 1);
    if kids(w, key).len() > 0 {
        let points = match node_with(w, key) {
            Some(n) => n.points,
            None => 0,
        };
        lemma_entry(h, at + 22 * j, 2, 0, points, places[key].0, places[key].1);
    } else {
        lemma_plain_entry(h, at + 22 * j, w, key);
        lemma_mask(w, key, 8);
        assert(order(w, k) + kids(w, key) =~= order(w, k));
        assert(refs(w, u) + cut_refs(w, c.take(m + 1)) =~= nodes.push(ref_of(w, key)));
    }
}

/// The records of a chunk read back as the chunk.
proof fn lemma_chunk(
    h: Seq<u8>,
    at: int,
    w: Seq<Written>,
    k: OctreeKey,
    places: Map<OctreeKey, (u64, u64)>,
    i: int,
)
    requires
        keys_of(w).no_duplicates(),
        stands_at(h, at, w, k, places),
        knows(w, cut(w, k), places),
        0 <= i <= order(w, k).len(),
    ensures
        chunk_of(h, at, k, i) == Some(read_so_far(w, k, places, i)),
    decreases i,
{
    let u = upper(w, k);
    if i == 0 {
        assert(u.take(0) =~= Seq::<OctreeKey>::empty());
        assert(read_so_far(w, k, places, 0) =~= (Chunk {
            keys: seq![k],
            nodes: Seq::empty(),
            further: Seq::empty(),
        }));
    } else {
        lemma_chunk(h, at, w, k, places, i - 1);
        if i - 1 < u.len() {
            lemma_plain_step(h, at, w, k, places, i - 1);
        } else {
            lemma_cut_step(h, at, w, k, places, i - 1);
        }
    }
}

/// A plain record reads back as its node.
proof fn lemma_plain_entry(h: Seq<u8>, at: int, w: Seq<Written>, k: OctreeKey)
    requires
        0 <= at,
        at + 22 <= h.len(),
        h.subrange(at, at + 22) == plain_record(w, k),
    ensures
        ({
            let e = entry_at(h, at);
            let r = ref_of(w, k);
            &&& e.kind != 2
            &&& e.mask == mask(w, k)
            &&& e.points == r.point_count
            &&& e.offset == r.byte_offset
            &&& e.size == r.byte_size
        }),
{
    let m = mask(w, k);
    let kind = if m == 0 {
        1u8
    } else {
        0u8
    };
    match node_with(w, k) {
        Some(n) => lemma_entry(h, at, kind, m, n.points, n.byte_offset, n.byte_size),
        None => lemma_entry(h, at, kind, m, 0, 0, 0),
    }
}

proof fn lemma_kid_shape(w: Seq<Written>, k: OctreeKey, n: int, i: int)
    requires
        keys_of(w).no_duplicates(),
        n <= 8,
        0 <= i < kids_below(w, k, n).len(),
    ensures
        ({
            let kid = kids_below(w, k, n)[i];
            &&& can_split(k)
            &&& kid.level == k.level + 1
            &&& kid.spec_parent() == Some(k)
            &&& kid.spec_child_index()->0 < n
            &&& keys_of(w).contains(kid)
        }),
    decreases n,
{
    let before = kids_below(w, k, n - 1);
    if i < before.len() {
        lemma_kid_shape(w, k, n - 1, i);
    } else {
        let c = (n - 1) as u8;
        let kid = k.spec_child(c);
        last_at_is_there(keys_of(w), kid);
        child_then_parent(k, c);
    }
}

proof fn lemma_kids_distinct(w: Seq<Written>, k: OctreeKey, n: int)
    requires
        keys_of(w).no_duplicates(),
        n <= 8,
    ensures
        kids_below(w, k, n).no_duplicates(),
    decreases n,
{
    if n > 0 {
        lemma_kids_distinct(w, k, n - 1);
        let c = (n - 1) as u8;
        distinct_keys_occur_once(keys_of(w), k.spec_child(c));
        let before = kids_below(w, k, n - 1);
        let all = kids_below(w, k, n);
        assert forall|i: int, j: int|
            0 <= i < all.len() && 0 <= j < all.len() && i != j implies all[i] != all[j] by {
            if i < before.len() && j < before.len() {
                assert(before[i] != before[j]);
            } else if i < before.len() {
                lemma_kid_shape(w, k, n - 1, i);
                lemma_kid_shape(w, k, n, j);
                lemma_index_of_child(k, c);
            } else {
                lemma_kid_shape(w, k, n - 1, j);
                lemma_kid_shape(w, k, n, i);
                lemma_index_of_child(k, c);
            }
        }
    }
}

proof fn lemma_index_of_child(k: OctreeKey, c: u8)
    requires
        can_split(k),
        c < 8,
    ensures
        k.spec_child(c).spec_child_index() == Some(c),
{
    child_then_parent(k, c);
}

proof fn lemma_all_kids_source(w: Seq<Written>, nodes: Seq<OctreeKey>, i: int) -> (j: int)
    requires
        keys_of(w).no_duplicates(),
        0 <= i < all_kids(w, nodes).len(),
    ensures
        0 <= j < nodes.len(),
        all_kids(w, nodes)[i].spec_parent() == Some(nodes[j]),
        keys_of(w).contains(all_kids(w, nodes)[i]),
    decreases nodes.len(),
{
    let shorter = nodes.drop_last();
    let before = all_kids(w, shorter);
    if i < before.len() {
        let j = lemma_all_kids_source(w, shorter, i);
        assert(shorter[j] == nodes[j]);
        j
    } else {
        lemma_kid_shape(w, nodes.last(), 8, i - before.len());
        nodes.len() - 1
    }
}

proof fn lemma_all_kids_distinct(w: Seq<Written>, nodes: Seq<OctreeKey>)
    requires
        keys_of(w).no_duplicates(),
        nodes.no_duplicates(),
    ensures
        all_kids(w, nodes).no_duplicates(),
    decreases nodes.len(),
{
    if nodes.len() > 0 {
        let shorter = nodes.drop_last();
        assert(shorter.no_duplicates());
        lemma_all_kids_distinct(w, shorter);
        lemma_kids_distinct(w, nodes.last(), 8);
        let before = all_kids(w, shorter);
        let own = kids(w, nodes.last());
        let all = all_kids(w, nodes);
        assert forall|i: int, j: int|
            0 <= i < all.len() && 0 <= j < all.len() && i != j implies all[i] != all[j] by {
            if i < before.len() && j < before.len() {
                assert(before[i] != before[j]);
            } else if i >= before.len() && j >= before.len() {
                assert(own[i - before.len()] != own[j - before.len()]);
            } else {
                let (a, b) = if i < before.len() {
                    (i, j)
                } else {
                    (j, i)
                };
                let s = lemma_all_kids_source(w, shorter, a);
                assert(shorter[s] == nodes[s]);
                assert(nodes[s] != nodes[nodes.len() - 1]);
                lemma_kid_shape(w, nodes.last(), 8, b - before.len());
            }
        }
    }
}

proof fn lemma_level_distinct(w: Seq<Written>, k: OctreeKey, d: int)
    requires
        keys_of(w).no_duplicates(),
    ensures
        level_below(w, k, d).no_duplicates(),
    decreases d,
{
    if d > 0 {
        lemma_level_distinct(w, k, d - 1);
        lemma_all_kids_distinct(w, level_below(w, k, d - 1));
    }
}

/// Where the chunk of a node at the cut stands, and its size.
spec fn place_of(w: Seq<Written>, k: OctreeKey, i: int, from: int) -> (u64, u64) {
    let node = cut(w, k)[i];
    let at = from + below(w, k, i, from).0.len();
    (
        (at + chunk_bytes(w, node, at).len() - own_size(w, node)) as u64,
        own_size(w, node) as u64,
    )
}

/// Whether a map holds the places of the chunks below the first nodes at a cut.
spec fn places_hold(
    w: Seq<Written>,
    k: OctreeKey,
    n: int,
    from: int,
    places: Map<OctreeKey, (u64, u64)>,
) -> bool {
    forall|i: int|
        0 <= i < n && kids(w, #[trigger] cut(w, k)[i]).len() > 0 ==> places.contains_key(
            cut(w, k)[i],
        ) && places[cut(w, k)[i]] == place_of(w, k, i, from)
}

proof fn lemma_places(w: Seq<Written>, k: OctreeKey, n: int, from: int)
    requires
        keys_of(w).no_duplicates(),
        0 <= n <= cut(w, k).len(),
    ensures
        places_hold(w, k, n, from, below(w, k, n, from).1),
        forall|x: OctreeKey| #[trigger]
            below(w, k, n, from).1.contains_key(x) ==> kids(w, x).len() > 0,
    decreases n,
{
    if n > 0 {
        lemma_places(w, k, n - 1, from);
        lemma_level_distinct(w, k, 4);
        let c = cut(w, k);
        let node = c[n - 1];
        let before = below(w, k, n - 1, from).1;
        let after = below(w, k, n, from).1;
        assert forall|i: int| 0 <= i < n && kids(w, #[trigger] c[i]).len() > 0 implies after.contains_key(
            c[i],
        ) && after[c[i]] == place_of(w, k, i, from) by {
            if i < n - 1 {
                assert(c[i] != c[n - 1]);
                assert(before.contains_key(c[i]));
            }
        }
    }
}

/// Every node of a tree, in the order a reader meets them.
spec fn tree_refs(w: Seq<Written>, k: OctreeKey) -> Seq<PotreeNodeRef>
    decreases u32::MAX - k.level, cut(w, k).len() + 1,
{
    refs(w, upper(w, k)) + cut_refs(w, cut(w, k)) + below_refs(w, k, cut(w, k).len() as int)
}

/// Every node of the trees below the first nodes at a cut.
spec fn below_refs(w: Seq<Written>, k: OctreeKey, n: int) -> Seq<PotreeNodeRef>
    decreases u32::MAX - k.level, n,
{
    if n <= 0 || n > cut(w, k).len() {
        Seq::empty()
    } else {
        let node = cut(w, k)[n - 1];
        if kids(w, node).len() == 0 {
            below_refs(w, k, n - 1)
        } else {
            proof {
                lemma_levels(w, k, 4);
            }
            tree_refs(w, node) + below_refs(w, k, n - 1)
        }
    }
}

/// What a walk of the chunks in line finds.
#[verifier::opaque]
spec fn walked(
    h: Seq<u8>,
    q: Seq<(OctreeKey, u64, u64)>,
    visited: Seq<u64>,
) -> Result<Found, Failure> {
    walk(h, q, visited)
}

/// What a walk finds, with some nodes before it.
spec fn join(nodes: Seq<PotreeNodeRef>, r: Result<Found, Failure>) -> Result<Found, Failure> {
    match r {
        Err(f) => Err(f),
        Ok(found) => Ok(Found { nodes: nodes + found.nodes, cycles: found.cycles }),
    }
}

proof fn lemma_join(a: Seq<PotreeNodeRef>, b: Seq<PotreeNodeRef>, r: Result<Found, Failure>)
    ensures
        join(a, join(b, r)) == join(a + b, r),
{
    match r {
        Ok(found) => {
            assert(a + (b + found.nodes) =~= a + b + found.nodes);
        },
        Err(_) => {},
    }
}

spec fn away(visited: Seq<u64>, a: int, b: int) -> bool {
    forall|i: int| 0 <= i < visited.len() ==> !(a <= #[trigger] visited[i] < b)
}

/// Whether offsets were only added from a range, or one place beside it.
spec fn grown(before: Seq<u64>, after: Seq<u64>, a: int, b: int, at: int) -> bool {
    forall|i: int|
        0 <= i < after.len() ==> before.contains(#[trigger] after[i]) || a <= after[i] < b
            || after[i] == at
}

proof fn lemma_chunk_done(
    h: Seq<u8>,
    at: int,
    w: Seq<Written>,
    k: OctreeKey,
    places: Map<OctreeKey, (u64, u64)>,
)
    requires
        keys_of(w).no_duplicates(),
        h.len() <= usize::MAX,
        stands_at(h, at, w, k, places),
        knows(w, cut(w, k), places),
    ensures
        own_size(w, k) > 0,
        chunk_at(h, k, at as u64, own_size(w, k) as u64) matches Ok(c) && c.nodes == refs(
            w,
            upper(w, k),
        ) + cut_refs(w, cut(w, k)) && c.further == proxies(w, cut(w, k), places),
{
    let u = upper(w, k);
    let c = cut(w, k);
    let n = order(w, k).len() as int;
    assert(level_below(w, k, 0).len() == 1);
    lemma_chunk(h, at, w, k, places, n);
    assert(own_size(w, k) / 22 == n && own_size(w, k) % 22 == 0);
    let got = read_so_far(w, k, places, n);
    if c.len() == 0 {
        assert(u.take(n) =~= u);
        assert(got.nodes =~= refs(w, u) + cut_refs(w, c));
        assert(got.further =~= proxies(w, c, places));
    } else {
        assert(c.take(n - u.len()) =~= c);
    }
}

/// A chunk in line is read, and the chunks it names take its place.
proof fn lemma_walk_step(
    h: Seq<u8>,
    q: Seq<(OctreeKey, u64, u64)>,
    k: OctreeKey,
    offset: u64,
    size: u64,
    visited: Seq<u64>,
    c: Chunk,
)
    requires
        distinct_within(visited, h.len()),
        !visited.contains(offset),
        chunk_at(h, k, offset, size) == Ok::<Chunk, Failure>(c),
    ensures
        distinct_within(visited.push(offset), h.len()),
        walked(h, q.push((k, offset, size)), visited) == join(
            c.nodes,
            walked(h, q + c.further, visited.push(offset)),
        ),
{
    reveal(walked);
    lemma_visit(h, k, offset, size, visited);
    let line = q.push((k, offset, size));
    assert(line.drop_last() =~= q);
    assert(line.last() == (k, offset, size));
}

/// A chunk in line, with all that is below it, gives the nodes of its tree.
proof fn lemma_walk_at(
    w: Seq<Written>,
    h: Seq<u8>,
    k: OctreeKey,
    at: int,
    from: int,
    q: Seq<(OctreeKey, u64, u64)>,
    visited: Seq<u64>,
) -> (v2: Seq<u64>)
    requires
        keys_of(w).no_duplicates(),
        h.len() <= usize::MAX,
        0 <= from,
        ({
            let b = below(w, k, cut(w, k).len() as int, from);
            &&& stands_at(h, at, w, k, b.1)
            &&& from + b.0.len() <= h.len()
            &&& h.subrange(from, from + b.0.len()) == b.0
            &&& !(from <= at < from + b.0.len())
            &&& away(visited, from, from + b.0.len())
        }),
        distinct_within(visited, h.len()),
        !visited.contains(at as u64),
    ensures
        distinct_within(v2, h.len()),
        grown(
            visited,
            v2,
            from,
            from + below(w, k, cut(w, k).len() as int, from).0.len(),
            at,
        ),
        walked(h, q.push((k, at as u64, own_size(w, k) as u64)), visited) == join(
            tree_refs(w, k),
            walked(h, q, v2),
        ),
    decreases u32::MAX - k.level, cut(w, k).len() + 1,
{
    let n = cut(w, k).len() as int;
    let b = below(w, k, n, from);
    lemma_places(w, k, n, from);
    assert(knows(w, cut(w, k), b.1));
    lemma_chunk_done(h, at, w, k, b.1);
    let size = own_size(w, k) as u64;
    let seen = visited.push(at as u64);
    let here = refs(w, upper(w, k)) + cut_refs(w, cut(w, k));
    let c = chunk_at(h, k, at as u64, size)->Ok_0;
    lemma_walk_step(h, q, k, at as u64, size, visited, c);
    assert(cut(w, k).take(n) =~= cut(w, k));
    assert(away(seen, from, from + b.0.len())) by {
        assert forall|i: int| 0 <= i < seen.len() implies !(from <= #[trigger] seen[i] < from
            + b.0.len()) by {
            if i < visited.len() {
                assert(!(from <= visited[i] < from + b.0.len()));
            }
        }
    }
    let v2 = lemma_walk_below(w, h, k, n, from, b.1, q, seen);
    lemma_join(here, below_refs(w, k, n), walked(h, q, v2));
    assert forall|i: int| 0 <= i < v2.len() implies visited.contains(#[trigger] v2[i]) || from
        <= v2[i] < from + b.0.len() || v2[i] == at by {
        if seen.contains(v2[i]) && v2[i] != at as u64 {
            let j = choose|j: int| 0 <= j < seen.len() && seen[j] == v2[i];
            assert(visited[j] == v2[i]);
        }
    }
    v2
}

/// The chunks below a cut, in line, give the nodes of their trees.
proof fn lemma_walk_below(
    w: Seq<Written>,
    h: Seq<u8>,
    k: OctreeKey,
    n: int,
    from: int,
    places: Map<OctreeKey, (u64, u64)>,
    q: Seq<(OctreeKey, u64, u64)>,
    visited: Seq<u64>,
) -> (v2: Seq<u64>)
    requires
        keys_of(w).no_duplicates(),
        h.len() <= usize::MAX,
        0 <= n <= cut(w, k).len(),
        0 <= from,
        places_hold(w, k, n, from, places),
        ({
            let b = below(w, k, n, from);
            &&& from + b.0.len() <= h.len()
            &&& h.subrange(from, from + b.0.len()) == b.0
            &&& away(visited, from, from + b.0.len())
        }),
        distinct_within(visited, h.len()),
    ensures
        distinct_within(v2, h.len()),
        grown(visited, v2, from, from + below(w, k, n, from).0.len(), -1),
        walked(h, q + proxies(w, cut(w, k).take(n), places), visited) == join(
            below_refs(w, k, n),
            walked(h, q, v2),
        ),
    decreases u32::MAX - k.level, n,
{
    let c = cut(w, k);
    if n == 0 {
        assert(c.take(0) =~= Seq::<OctreeKey>::empty());
        assert(q + proxies(w, c.take(0), places) =~= q);
        let r = walked(h, q, visited);
        match r {
            Ok(found) => {
                assert(Seq::<PotreeNodeRef>::empty() + found.nodes =~= found.nodes);
            },
            Err(_) => {},
        }
        visited
    } else {
        let node = c[n - 1];
        let before = below(w, k, n - 1, from);
        let b = below(w, k, n, from);
        assert(c.take(n).drop_last() =~= c.take(n - 1));
        assert(c.take(n).last() == node);
        let earlier = proxies(w, c.take(n - 1), places);
        if kids(w, node).len() == 0 {
            lemma_walk_below(w, h, k, n - 1, from, places, q, visited)
        } else {
            lemma_levels(w, k, 4);
            assert(level_below(w, k, 4)[n - 1] == node);
            lemma_last_part(w, h, k, n, from);
            let start = from + before.0.len();
            let inner = below(w, node, cut(w, node).len() as int, start);
            let at = start + inner.0.len();
            assert(places[c[n - 1]] == place_of(w, k, n - 1, from));
            assert(q + proxies(w, c.take(n), places) =~= (q + earlier).push(
                (node, at as u64, own_size(w, node) as u64),
            ));
            lemma_away(visited, from, start, at, from + b.0.len());
            let v1 = lemma_walk_at(w, h, node, at, start, q + earlier, visited);
            lemma_still_away(visited, v1, from, start, at, from + b.0.len());
            let v2 = lemma_walk_below(w, h, k, n - 1, from, places, q, v1);
            lemma_join(tree_refs(w, node), below_refs(w, k, n - 1), walked(h, q, v2));
            lemma_grown(visited, v1, v2, from, start, at, from + b.0.len());
            v2
        }
    }
}

/// The last chunk below a cut stands behind the others.
proof fn lemma_last_part(w: Seq<Written>, h: Seq<u8>, k: OctreeKey, n: int, from: int)
    requires
        0 < n <= cut(w, k).len(),
        kids(w, cut(w, k)[n - 1]).len() > 0,
        0 <= from,
        from + below(w, k, n, from).0.len() <= h.len() <= usize::MAX,
        h.subrange(from, from + below(w, k, n, from).0.len()) == below(w, k, n, from).0,
    ensures
        ({
            let node = cut(w, k)[n - 1];
            let before = below(w, k, n - 1, from);
            let start = from + before.0.len();
            let inner = below(w, node, cut(w, node).len() as int, start);
            let at = start + inner.0.len();
            &&& h.subrange(from, start) == before.0
            &&& h.subrange(start, at) == inner.0
            &&& stands_at(h, at, w, node, inner.1)
            &&& own_size(w, node) > 0
            &&& below(w, k, n, from).0.len() == before.0.len() + inner.0.len() + own_size(w, node)
            &&& place_of(w, k, n - 1, from) == (at as u64, own_size(w, node) as u64)
        }),
{
    let node = cut(w, k)[n - 1];
    let before = below(w, k, n - 1, from);
    let start = from + before.0.len();
    let inner = below(w, node, cut(w, node).len() as int, start);
    let own = own_records(w, node, inner.1);
    lemma_own_size(w, node, inner.1);
    assert(level_below(w, node, 0).len() == 1);
    assert(order(w, node).len() > 0);
    lemma_below_step(w, k, n, from);
    lemma_slices(h, from, before.0, inner.0, own);
}

proof fn lemma_below_step(w: Seq<Written>, k: OctreeKey, n: int, from: int)
    requires
        0 < n <= cut(w, k).len(),
        kids(w, cut(w, k)[n - 1]).len() > 0,
    ensures
        ({
            let node = cut(w, k)[n - 1];
            let before = below(w, k, n - 1, from).0;
            let inner = below(w, node, cut(w, node).len() as int, from + before.len());
            below(w, k, n, from).0 == before + (inner.0 + own_records(w, node, inner.1))
        }),
{
    lemma_below_is(w, k, n, from);
    lemma_chunk_is(w, cut(w, k)[n - 1], from + below(w, k, n - 1, from).0.len());
}

proof fn lemma_below_is(w: Seq<Written>, k: OctreeKey, n: int, from: int)
    requires
        0 < n <= cut(w, k).len(),
        kids(w, cut(w, k)[n - 1]).len() > 0,
    ensures
        below(w, k, n, from).0 == below(w, k, n - 1, from).0 + chunk_bytes(
            w,
            cut(w, k)[n - 1],
            from + below(w, k, n - 1, from).0.len(),
        ),
{
}

proof fn lemma_chunk_is(w: Seq<Written>, k: OctreeKey, from: int)
    ensures
        chunk_bytes(w, k, from) == below(w, k, cut(w, k).len() as int, from).0 + own_records(
            w,
            k,
            below(w, k, cut(w, k).len() as int, from).1,
        ),
{
}

proof fn lemma_away(visited: Seq<u64>, from: int, start: int, at: int, end: int)
    requires
        away(visited, from, end),
        from <= start <= at < end <= usize::MAX,
        0 <= from,
    ensures
        away(visited, start, at),
        away(visited, from, start),
        !visited.contains(at as u64),
{
    assert forall|i: int| 0 <= i < visited.len() implies !(start <= #[trigger] visited[i] < at)
        && visited[i] != at && !(from <= visited[i] < start) by {
        assert(!(from <= visited[i] < end));
    }
}

proof fn lemma_still_away(
    visited: Seq<u64>,
    v1: Seq<u64>,
    from: int,
    start: int,
    at: int,
    end: int,
)
    requires
        away(visited, from, end),
        from <= start <= at < end,
        grown(visited, v1, start, at, at),
    ensures
        away(v1, from, start),
{
    assert forall|i: int| 0 <= i < v1.len() implies !(from <= #[trigger] v1[i] < start) by {
        if visited.contains(v1[i]) {
            let j = choose|j: int| 0 <= j < visited.len() && visited[j] == v1[i];
            assert(!(from <= visited[j] < end));
        }
    }
}

proof fn lemma_grown(
    visited: Seq<u64>,
    v1: Seq<u64>,
    v2: Seq<u64>,
    from: int,
    start: int,
    at: int,
    end: int,
)
    requires
        from <= start <= at < end,
        grown(visited, v1, start, at, at),
        grown(v1, v2, from, start, -1),
    ensures
        grown(visited, v2, from, end, -1),
{
    assert forall|i: int| 0 <= i < v2.len() implies visited.contains(#[trigger] v2[i]) || from
        <= v2[i] < end || v2[i] == -1 by {
        if v1.contains(v2[i]) {
            let j = choose|j: int| 0 <= j < v1.len() && v1[j] == v2[i];
            assert(visited.contains(v1[j]) || start <= v1[j] < at || v1[j] == at);
        }
    }
}

proof fn lemma_slices(h: Seq<u8>, from: int, a: Seq<u8>, b: Seq<u8>, c: Seq<u8>)
    requires
        0 <= from,
        from + a.len() + b.len() + c.len() <= h.len(),
        h.subrange(from, from + a.len() + b.len() + c.len()) == a + (b + c),
    ensures
        h.subrange(from, from + a.len()) == a,
        h.subrange(from + a.len(), from + a.len() + b.len()) == b,
        h.subrange(from + a.len() + b.len(), from + a.len() + b.len() + c.len()) == c,
{
    let all = a + (b + c);
    let s = h.subrange(from, from + a.len() + b.len() + c.len());
    let z = h.subrange(from, from + a.len());
    assert forall|i: int| 0 <= i < a.len() implies #[trigger] z[i] == a[i] by {
        assert(s[i] == all[i]);
    }
    assert(z =~= a);
    let x = h.subrange(from + a.len(), from + a.len() + b.len());
    let y = h.subrange(from + a.len() + b.len(), from + a.len() + b.len() + c.len());
    assert forall|i: int| 0 <= i < b.len() implies #[trigger] x[i] == b[i] by {
        assert(s[a.len() + i] == all[a.len() + i]);
    }
    assert forall|i: int| 0 <= i < c.len() implies #[trigger] y[i] == c[i] by {
        assert(s[a.len() + b.len() + i] == all[a.len() + b.len() + i]);
    }
    assert(x =~= b);
    assert(y =~= c);
}

/// The node some levels up.
spec fn up(x: OctreeKey, n: int) -> OctreeKey
    decreases n,
{
    if n <= 0 {
        x
    } else {
        up(x.spec_parent()->0, n - 1)
    }
}

proof fn lemma_up(x: OctreeKey, a: int, b: int)
    requires
        0 <= a,
        0 <= b,
        a + b <= x.level,
    ensures
        up(x, a + b) == up(up(x, a), b),
        up(x, a).level == x.level - a,
    decreases a,
{
    if a > 0 {
        lemma_up(x.spec_parent()->0, a - 1, b);
    }
}

/// Whether a node is below another, or the same.
spec fn is_under(x: OctreeKey, k: OctreeKey) -> bool {
    x.level >= k.level && up(x, x.level - k.level) == k
}

/// Whether a node that was read is one that belongs below another.
spec fn belongs(w: Seq<Written>, k: OctreeKey, r: PotreeNodeRef) -> bool {
    &&& r == ref_of(w, r.key)
    &&& is_under(r.key, k)
    &&& r.key == k || keys_of(w).contains(r.key)
}

proof fn lemma_level_member(w: Seq<Written>, k: OctreeKey, d: int, i: int)
    requires
        keys_of(w).no_duplicates(),
        0 <= d,
        0 <= i < level_below(w, k, d).len(),
    ensures
        ({
            let e = level_below(w, k, d)[i];
            &&& e.level == k.level + d
            &&& is_under(e, k)
            &&& e == k || keys_of(w).contains(e)
        }),
    decreases d,
{
    if d > 0 {
        let above = level_below(w, k, d - 1);
        let j = lemma_all_kids_source(w, above, i);
        lemma_level_member(w, k, d - 1, j);
        lemma_levels(w, k, d);
    }
}

proof fn lemma_kid_in(w: Seq<Written>, x: OctreeKey)
    requires
        keys_of(w).no_duplicates(),
        keys_of(w).contains(x),
        x.level > 0,
    ensures
        kids(w, x.spec_parent()->0).contains(x),
        can_split(x.spec_parent()->0),
{
    let p = x.spec_parent()->0;
    let c = x.spec_child_index()->0;
    assert(c < 8);
    assert(p.spec_child(c) == x) by {
        assert(c / 4 % 2 == x.x % 2 && c / 2 % 2 == x.y % 2 && c % 2 == x.z % 2);
    }
    last_at_is_there(keys_of(w), x);
    distinct_keys_occur_once(keys_of(w), x);
    lemma_kids_hold(w, p, c as int, 8);
}

proof fn lemma_kids_hold(w: Seq<Written>, p: OctreeKey, c: int, n: int)
    requires
        0 <= c < n <= 8,
        kid_count(w, p, c) > 0,
    ensures
        kids_below(w, p, n).contains(p.spec_child(c as u8)),
    decreases n,
{
    let before = kids_below(w, p, n - 1);
    let all = kids_below(w, p, n);
    if c < n - 1 {
        lemma_kids_hold(w, p, c, n - 1);
        let i = choose|i: int| 0 <= i < before.len() && before[i] == p.spec_child(c as u8);
        assert(all[i] == before[i]);
    } else {
        assert(all[before.len() as int] == p.spec_child(c as u8));
    }
}

proof fn lemma_all_kids_hold(w: Seq<Written>, nodes: Seq<OctreeKey>, j: int, x: OctreeKey)
    requires
        0 <= j < nodes.len(),
        kids(w, nodes[j]).contains(x),
    ensures
        all_kids(w, nodes).contains(x),
    decreases nodes.len(),
{
    let shorter = nodes.drop_last();
    let before = all_kids(w, shorter);
    let own = kids(w, nodes.last());
    let all = all_kids(w, nodes);
    if j < shorter.len() {
        lemma_all_kids_hold(w, shorter, j, x);
        let i = choose|i: int| 0 <= i < before.len() && before[i] == x;
        assert(all[i] == x);
    } else {
        let i = choose|i: int| 0 <= i < own.len() && own[i] == x;
        assert(all[before.len() + i] == x);
    }
}

proof fn lemma_in_level(w: Seq<Written>, k: OctreeKey, d: int, x: OctreeKey) -> (i: int)
    requires
        is_tree(w),
        0 <= d,
        keys_of(w).contains(x),
        x.level == k.level + d,
        up(x, d) == k,
    ensures
        0 <= i < level_below(w, k, d).len(),
        level_below(w, k, d)[i] == x,
    decreases d,
{
    if d == 0 {
        0
    } else {
        let p = x.spec_parent()->0;
        let j = lemma_in_level(w, k, d - 1, p);
        lemma_kid_in(w, x);
        let above = level_below(w, k, d - 1);
        lemma_all_kids_hold(w, above, j, x);
        let here = level_below(w, k, d);
        choose|i: int| 0 <= i < here.len() && here[i] == x
    }
}

proof fn lemma_cut_refs_hold(w: Seq<Written>, nodes: Seq<OctreeKey>, i: int)
    requires
        0 <= i < nodes.len(),
        kids(w, nodes[i]).len() == 0,
    ensures
        cut_refs(w, nodes).contains(ref_of(w, nodes[i])),
    decreases nodes.len(),
{
    let shorter = nodes.drop_last();
    let before = cut_refs(w, shorter);
    let all = cut_refs(w, nodes);
    if i < shorter.len() {
        lemma_cut_refs_hold(w, shorter, i);
        let j = choose|j: int| 0 <= j < before.len() && before[j] == ref_of(w, nodes[i]);
        assert(all[j] == before[j]);
    } else {
        assert(all[all.len() - 1] == ref_of(w, nodes[i]));
    }
}

proof fn lemma_cut_refs_source(w: Seq<Written>, nodes: Seq<OctreeKey>, j: int) -> (i: int)
    requires
        0 <= j < cut_refs(w, nodes).len(),
    ensures
        0 <= i < nodes.len(),
        kids(w, nodes[i]).len() == 0,
        cut_refs(w, nodes)[j] == ref_of(w, nodes[i]),
    decreases nodes.len(),
{
    let shorter = nodes.drop_last();
    let before = cut_refs(w, shorter);
    if j < before.len() {
        let i = lemma_cut_refs_source(w, shorter, j);
        assert(shorter[i] == nodes[i]);
        i
    } else {
        nodes.len() - 1
    }
}

proof fn lemma_cut_refs_distinct(w: Seq<Written>, nodes: Seq<OctreeKey>, a: int, b: int)
    requires
        nodes.no_duplicates(),
        0 <= a < b < cut_refs(w, nodes).len(),
    ensures
        cut_refs(w, nodes)[a].key != cut_refs(w, nodes)[b].key,
    decreases nodes.len(),
{
    let shorter = nodes.drop_last();
    let before = cut_refs(w, shorter);
    assert(shorter.no_duplicates());
    if b < before.len() {
        lemma_cut_refs_distinct(w, shorter, a, b);
    } else {
        let i = lemma_cut_refs_source(w, shorter, a);
        assert(shorter[i] == nodes[i]);
        assert(nodes[i] != nodes[nodes.len() - 1]);
    }
}

/// Where a node among those below a cut comes from: the tree of a node at the
/// cut that has children.
proof fn lemma_below_source(w: Seq<Written>, k: OctreeKey, n: int, j: int) -> (i: int)
    requires
        keys_of(w).no_duplicates(),
        0 <= n <= cut(w, k).len(),
        0 <= j < below_refs(w, k, n).len(),
    ensures
        0 <= i < n,
        kids(w, cut(w, k)[i]).len() > 0,
        belongs(w, cut(w, k)[i], below_refs(w, k, n)[j]),
    decreases u32::MAX - k.level, n,
{
    let c = cut(w, k);
    let node = c[n - 1];
    lemma_levels(w, k, 4);
    assert(level_below(w, k, 4)[n - 1] == node);
    if kids(w, node).len() == 0 {
        lemma_below_source(w, k, n - 1, j)
    } else {
        let own = tree_refs(w, node);
        if j < own.len() {
            lemma_belongs(w, node, j);
            n - 1
        } else {
            lemma_below_source(w, k, n - 1, j - own.len())
        }
    }
}

/// Every node read belongs to the tree.
proof fn lemma_belongs(w: Seq<Written>, k: OctreeKey, j: int)
    requires
        keys_of(w).no_duplicates(),
        0 <= j < tree_refs(w, k).len(),
    ensures
        belongs(w, k, tree_refs(w, k)[j]),
    decreases u32::MAX - k.level, cut(w, k).len() + 1,
{
    let u = upper(w, k);
    let c = cut(w, k);
    let a = refs(w, u);
    let b = cut_refs(w, c);
    let n = c.len() as int;
    let all = tree_refs(w, k);
    if j < a.len() {
        assert(all[j] == ref_of(w, u[j]));
        lemma_upper_member(w, k, j);
    } else if j < a.len() + b.len() {
        assert(all[j] == b[j - a.len()]);
        let i = lemma_cut_refs_source(w, c, j - a.len());
        lemma_level_member(w, k, 4, i);
    } else {
        let m = j - a.len() - b.len();
        assert(all[j] == below_refs(w, k, n)[m]);
        let i = lemma_below_source(w, k, n, m);
        lemma_level_member(w, k, 4, i);
        let x = all[j].key;
        lemma_up(x, x.level - c[i].level, 4);
    }
}

proof fn lemma_upper_member(w: Seq<Written>, k: OctreeKey, j: int) -> (d: int)
    requires
        keys_of(w).no_duplicates(),
        0 <= j < upper(w, k).len(),
    ensures
        0 <= d < 4,
        ({
            let e = upper(w, k)[j];
            &&& e.level == k.level + d
            &&& is_under(e, k)
            &&& e == k || keys_of(w).contains(e)
        }),
{
    let (l0, l1, l2, l3) = (
        level_below(w, k, 0),
        level_below(w, k, 1),
        level_below(w, k, 2),
        level_below(w, k, 3),
    );
    if j < l0.len() {
        assert(upper(w, k)[j] == l0[j]);
        lemma_level_member(w, k, 0, j);
        0
    } else if j < l0.len() + l1.len() {
        let i = j - l0.len();
        assert(upper(w, k)[j] == l1[i]);
        lemma_level_member(w, k, 1, i);
        1
    } else if j < l0.len() + l1.len() + l2.len() {
        let i = j - l0.len() - l1.len();
        assert(upper(w, k)[j] == l2[i]);
        lemma_level_member(w, k, 2, i);
        2
    } else {
        let i = j - l0.len() - l1.len() - l2.len();
        assert(upper(w, k)[j] == l3[i]);
        lemma_level_member(w, k, 3, i);
        3
    }
}

proof fn lemma_upper_distinct(w: Seq<Written>, k: OctreeKey)
    requires
        keys_of(w).no_duplicates(),
    ensures
        upper(w, k).no_duplicates(),
{
    let (l0, l1, l2, l3) = (
        level_below(w, k, 0),
        level_below(w, k, 1),
        level_below(w, k, 2),
        level_below(w, k, 3),
    );
    lemma_level_distinct(w, k, 0);
    lemma_level_distinct(w, k, 1);
    lemma_level_distinct(w, k, 2);
    lemma_level_distinct(w, k, 3);
    lemma_levels(w, k, 0);
    lemma_levels(w, k, 1);
    lemma_levels(w, k, 2);
    lemma_levels(w, k, 3);
    let top = k.level as int;
    lemma_shelved(l0, l1, top + 1);
    lemma_shelved(l0 + l1, l2, top + 2);
    lemma_shelved(l0 + l1 + l2, l3, top + 3);
}

/// Lists without repetition whose levels are apart make one without repetition.
proof fn lemma_shelved(a: Seq<OctreeKey>, b: Seq<OctreeKey>, level: int)
    requires
        a.no_duplicates(),
        b.no_duplicates(),
        forall|i: int| 0 <= i < a.len() ==> (#[trigger] a[i]).level < level,
        forall|i: int| 0 <= i < b.len() ==> (#[trigger] b[i]).level == level,
    ensures
        (a + b).no_duplicates(),
        forall|i: int| 0 <= i < (a + b).len() ==> (#[trigger] (a + b)[i]).level < level + 1,
{
    let all = a + b;
    assert forall|i: int| 0 <= i < all.len() implies (#[trigger] all[i]).level < level + 1 by {
        if i < a.len() {
            assert(all[i] == a[i]);
        } else {
            assert(all[i] == b[i - a.len()]);
        }
    }
    assert forall|i: int, j: int|
        0 <= i < all.len() && 0 <= j < all.len() && i != j implies all[i] != all[j] by {
        if i < a.len() && j < a.len() {
            assert(a[i] != a[j]);
        } else if i >= a.len() && j >= a.len() {
            assert(b[i - a.len()] != b[j - a.len()]);
        } else if i < a.len() {
            assert(a[i].level < b[j - a.len()].level);
        } else {
            assert(a[j].level < b[i - a.len()].level);
        }
    }
}

/// No node is read twice below a cut.
proof fn lemma_below_distinct(w: Seq<Written>, k: OctreeKey, n: int, a: int, b: int)
    requires
        keys_of(w).no_duplicates(),
        0 <= n <= cut(w, k).len(),
        0 <= a < b < below_refs(w, k, n).len(),
    ensures
        below_refs(w, k, n)[a].key != below_refs(w, k, n)[b].key,
    decreases u32::MAX - k.level, n,
{
    let c = cut(w, k);
    let node = c[n - 1];
    lemma_levels(w, k, 4);
    assert(level_below(w, k, 4)[n - 1] == node);
    if kids(w, node).len() == 0 {
        lemma_below_distinct(w, k, n - 1, a, b);
    } else {
        let own = tree_refs(w, node);
        let rest = below_refs(w, k, n - 1);
        assert(below_refs(w, k, n) =~= own + rest);
        if b < own.len() {
            lemma_read_once(w, node, a, b);
        } else if a >= own.len() {
            lemma_below_distinct(w, k, n - 1, a - own.len(), b - own.len());
        } else {
            lemma_belongs(w, node, a);
            let i = lemma_below_source(w, k, n - 1, b - own.len());
            lemma_level_distinct(w, k, 4);
            assert(level_below(w, k, 4)[i] == c[i]);
            assert(c[i] != c[n - 1]);
        }
    }
}

/// No node is read twice.
#[verifier::rlimit(30)]
proof fn lemma_read_once(w: Seq<Written>, k: OctreeKey, a: int, b: int)
    requires
        keys_of(w).no_duplicates(),
        0 <= a < b < tree_refs(w, k).len(),
    ensures
        tree_refs(w, k)[a].key != tree_refs(w, k)[b].key,
    decreases u32::MAX - k.level, cut(w, k).len() + 1,
{
    let u = upper(w, k);
    let c = cut(w, k);
    let n = c.len() as int;
    let one = refs(w, u);
    let two = cut_refs(w, c);
    let three = below_refs(w, k, n);
    let all = tree_refs(w, k);
    lemma_level_distinct(w, k, 4);
    lemma_levels(w, k, 4);
    if b < one.len() {
        lemma_upper_distinct(w, k);
        assert(all[a] == ref_of(w, u[a]) && all[b] == ref_of(w, u[b]));
        assert(u[a] != u[b]);
    } else if b < one.len() + two.len() {
        let bb = b - one.len();
        let i = lemma_cut_refs_source(w, c, bb);
        assert(all[b] == two[bb]);
        assert(level_below(w, k, 4)[i] == c[i]);
        if a < one.len() {
            assert(all[a] == ref_of(w, u[a]));
            let d = lemma_upper_member(w, k, a);
        } else {
            assert(all[a] == two[a - one.len()]);
            lemma_cut_refs_distinct(w, c, a - one.len(), bb);
        }
    } else {
        let bb = b - one.len() - two.len();
        assert(all[b] == three[bb]);
        let i = lemma_below_source(w, k, n, bb);
        assert(level_below(w, k, 4)[i] == c[i]);
        if a < one.len() {
            assert(all[a] == ref_of(w, u[a]));
            let d = lemma_upper_member(w, k, a);
        } else if a < one.len() + two.len() {
            let aa = a - one.len();
            assert(all[a] == two[aa]);
            let j = lemma_cut_refs_source(w, c, aa);
            assert(level_below(w, k, 4)[j] == c[j]);
        } else {
            assert(all[a] == three[a - one.len() - two.len()]);
            lemma_below_distinct(w, k, n, a - one.len() - two.len(), bb);
        }
    }
}

proof fn lemma_below_holds(w: Seq<Written>, k: OctreeKey, n: int, i: int, r: PotreeNodeRef)
    requires
        0 <= i < n <= cut(w, k).len(),
        kids(w, cut(w, k)[i]).len() > 0,
        tree_refs(w, cut(w, k)[i]).contains(r),
    ensures
        below_refs(w, k, n).contains(r),
    decreases n,
{
    let c = cut(w, k);
    let node = c[n - 1];
    let rest = below_refs(w, k, n - 1);
    let all = below_refs(w, k, n);
    if i < n - 1 {
        lemma_below_holds(w, k, n - 1, i, r);
        let j = choose|j: int| 0 <= j < rest.len() && rest[j] == r;
        if kids(w, node).len() > 0 {
            let own = tree_refs(w, node);
            assert(all[own.len() + j] == r);
        } else {
            assert(all[j] == r);
        }
    } else {
        let own = tree_refs(w, node);
        let j = choose|j: int| 0 <= j < own.len() && own[j] == r;
        assert(all[j] == r);
    }
}

/// Every node of the tree is read.
#[verifier::rlimit(30)]
proof fn lemma_reads_all(w: Seq<Written>, k: OctreeKey, x: OctreeKey)
    requires
        is_tree(w),
        keys_of(w).contains(x),
        is_under(x, k),
    ensures
        tree_refs(w, k).contains(ref_of(w, x)),
    decreases u32::MAX - k.level,
{
    let c = cut(w, k);
    let n = c.len() as int;
    let d = x.level - k.level;
    let r = ref_of(w, x);
    if d < 4 {
        lemma_in_upper(w, k, x);
        lemma_in_parts(w, k, r);
    } else {
        lemma_up(x, d - 4, 4);
        let y = up(x, d - 4);
        lemma_ancestor_in(w, x, d - 4);
        let i = lemma_in_level(w, k, 4, y);
        assert(c[i] == y);
        if kids(w, y).len() == 0 {
            if d > 4 {
                lemma_up(x, d - 5, 1);
                let z = up(x, d - 5);
                lemma_ancestor_in(w, x, d - 5);
                lemma_kid_in(w, z);
                assert(up(z, 1) == z.spec_parent()->0) by {
                    reveal_with_fuel(up, 2);
                }
                assert(kids(w, y).contains(z));
                assert(false);
            }
            lemma_cut_refs_hold(w, c, i);
            lemma_in_parts(w, k, r);
        } else {
            lemma_reads_all(w, y, x);
            lemma_below_holds(w, k, n, i, r);
            lemma_in_parts(w, k, r);
        }
    }
}

proof fn lemma_in_parts(w: Seq<Written>, k: OctreeKey, r: PotreeNodeRef)
    requires
        refs(w, upper(w, k)).contains(r) || cut_refs(w, cut(w, k)).contains(r) || below_refs(
            w,
            k,
            cut(w, k).len() as int,
        ).contains(r),
    ensures
        tree_refs(w, k).contains(r),
{
    let one = refs(w, upper(w, k));
    let two = cut_refs(w, cut(w, k));
    let three = below_refs(w, k, cut(w, k).len() as int);
    let all = tree_refs(w, k);
    assert(all == one + two + three);
    if one.contains(r) {
        let j = choose|j: int| 0 <= j < one.len() && one[j] == r;
        assert(all[j] == r);
    } else if two.contains(r) {
        let j = choose|j: int| 0 <= j < two.len() && two[j] == r;
        assert(all[one.len() + j] == r);
    } else {
        let j = choose|j: int| 0 <= j < three.len() && three[j] == r;
        assert(all[one.len() + two.len() + j] == r);
    }
}

proof fn lemma_in_upper(w: Seq<Written>, k: OctreeKey, x: OctreeKey)
    requires
        is_tree(w),
        keys_of(w).contains(x),
        is_under(x, k),
        x.level < k.level + 4,
    ensures
        refs(w, upper(w, k)).contains(ref_of(w, x)),
{
    let u = upper(w, k);
    let d = x.level - k.level;
    let i = lemma_in_level(w, k, d, x);
    let (l0, l1, l2) = (
        level_below(w, k, 0).len() as int,
        level_below(w, k, 1).len() as int,
        level_below(w, k, 2).len() as int,
    );
    let j = if d == 0 {
        i
    } else if d == 1 {
        l0 + i
    } else if d == 2 {
        l0 + l1 + i
    } else {
        l0 + l1 + l2 + i
    };
    assert(u[j] == x);
    assert(refs(w, u)[j] == ref_of(w, x));
}

proof fn lemma_ancestor_in(w: Seq<Written>, x: OctreeKey, n: int)
    requires
        is_tree(w),
        keys_of(w).contains(x),
        0 <= n <= x.level,
    ensures
        keys_of(w).contains(up(x, n)),
    decreases n,
{
    if n > 0 {
        lemma_ancestor_in(w, x.spec_parent()->0, n - 1);
    }
}

proof fn lemma_first_key(w: Seq<Written>, i: int)
    requires
        0 <= i < w.len(),
    ensures
        packed(first_key(w)) <= packed(w[i].key),
    decreases w.len(),
{
    if w.len() > 1 && i < w.len() - 1 {
        lemma_first_key(w.drop_last(), i);
    }
}

proof fn lemma_root_first(w: Seq<Written>)
    requires
        keys_of(w).contains(OctreeKey::root()),
    ensures
        first_key(w) == OctreeKey::root(),
{
    let keys = keys_of(w);
    let i = choose|i: int| 0 <= i < keys.len() && keys[i] == OctreeKey::root();
    lemma_first_key(w, i);
    super::keys::lemma_packed_range(first_key(w));
    packed_is_unique(first_key(w), OctreeKey::root());
}

/// A node that was written, as a reader gives it.
pub open spec fn as_read(n: Written) -> PotreeNodeRef {
    PotreeNodeRef {
        key: n.key,
        point_count: n.points,
        byte_offset: n.byte_offset,
        byte_size: n.byte_size,
    }
}

proof fn lemma_ref_is(w: Seq<Written>, i: int)
    requires
        keys_of(w).no_duplicates(),
        0 <= i < w.len(),
    ensures
        ref_of(w, w[i].key) == as_read(w[i]),
{
    let keys = keys_of(w);
    let k = w[i].key;
    assert(keys[i] == k);
    last_at_is_there(keys, k);
    let at = last_at(keys, k);
    assert(keys[at] == keys[i]);
    assert(at == i);
}

/// A hierarchy that was written from a tree reads back as the tree: the walk
/// succeeds and meets no chunk twice, every node it gives is one that was
/// written, with its place and its points, every node that was written is given,
/// and none is given twice.
#[verifier::spinoff_prover]
#[verifier::rlimit(40)]
pub proof fn written_hierarchy_reads_back(w: Seq<Written>)
    requires
        is_tree(w),
        hierarchy_of(w).len() <= usize::MAX,
    ensures
        whole_walk(hierarchy_of(w), own_size(w, first_key(w)) as u64) matches Ok(found) && {
            &&& found.cycles.len() == 0
            &&& forall|j: int|
                0 <= j < found.nodes.len() ==> exists|i: int|
                    0 <= i < w.len() && #[trigger] as_read(w[i]) == #[trigger] found.nodes[j]
            &&& forall|i: int|
                0 <= i < w.len() ==> found.nodes.contains(as_read(#[trigger] w[i]))
            &&& forall|a: int, b: int|
                0 <= a < b < found.nodes.len() ==> (#[trigger] found.nodes[a]).key != (
                #[trigger] found.nodes[b]).key
        },
{
    let k = OctreeKey::root();
    lemma_root_first(w);
    let size = own_size(w, k);
    let h = hierarchy_of(w);
    let n = cut(w, k).len() as int;
    let b = below(w, k, n, size);
    let own = own_records(w, k, b.1);
    lemma_own_size(w, k, b.1);
    assert(h == own + b.0);
    assert(h.subrange(0, size) =~= own);
    assert(h.subrange(size, size + b.0.len()) =~= b.0);
    let nothing = Seq::<(OctreeKey, u64, u64)>::empty();
    let fresh = Seq::<u64>::empty();
    assert(level_below(w, k, 0).len() == 1);
    let v2 = lemma_walk_at(w, h, k, 0, size, nothing, fresh);
    lemma_nothing_left(h, v2);
    assert(nothing.push((k, 0u64, size as u64)) =~= seq![(k, 0u64, size as u64)]);
    lemma_whole(h, size as u64);
    let found = whole_walk(h, size as u64)->Ok_0;
    assert(found.nodes =~= tree_refs(w, k));
    lemma_tree_is_read(w, found.nodes);
}

proof fn lemma_tree_is_read(w: Seq<Written>, nodes: Seq<PotreeNodeRef>)
    requires
        is_tree(w),
        nodes == tree_refs(w, OctreeKey::root()),
    ensures
        forall|j: int|
            0 <= j < nodes.len() ==> exists|i: int|
                0 <= i < w.len() && #[trigger] as_read(w[i]) == #[trigger] nodes[j],
        forall|i: int| 0 <= i < w.len() ==> nodes.contains(as_read(#[trigger] w[i])),
        forall|a: int, b: int|
            0 <= a < b < nodes.len() ==> (#[trigger] nodes[a]).key != (#[trigger] nodes[b]).key,
{
    let k = OctreeKey::root();
    let keys = keys_of(w);
    assert forall|j: int| 0 <= j < nodes.len() implies exists|i: int|
        0 <= i < w.len() && #[trigger] as_read(w[i]) == #[trigger] nodes[j] by {
        lemma_belongs(w, k, j);
        let x = nodes[j].key;
        let i = choose|i: int| 0 <= i < keys.len() && keys[i] == x;
        lemma_ref_is(w, i);
        assert(as_read(w[i]) == nodes[j]);
    }
    assert forall|i: int| 0 <= i < w.len() implies nodes.contains(as_read(#[trigger] w[i])) by {
        assert(keys[i] == w[i].key);
        lemma_under_root(w, w[i].key);
        lemma_reads_all(w, k, w[i].key);
        lemma_ref_is(w, i);
    }
    assert forall|x: int, y: int| 0 <= x < y < nodes.len() implies (#[trigger] nodes[x]).key != (
    #[trigger] nodes[y]).key by {
        lemma_read_once(w, k, x, y);
    }
}

/// A proxy record carries the point count of the node it stands for, so that a
/// total taken before its chunk is read misses nothing.
pub proof fn proxies_carry_their_points(
    w: Seq<Written>,
    k: OctreeKey,
    place: (u64, u64),
    h: Seq<u8>,
    at: int,
)
    requires
        0 <= at,
        at + 22 <= h.len(),
        h.subrange(at, at + 22) == super::hierarchy::proxy_record(w, k, place),
    ensures
        entry_at(h, at).kind == 2,
        entry_at(h, at).points == ref_of(w, k).point_count,
        entry_at(h, at).offset == place.0,
        entry_at(h, at).size == place.1,
{
    let points = match node_with(w, k) {
        Some(n) => n.points,
        None => 0,
    };
    lemma_entry(h, at, 2, 0, points, place.0, place.1);
}

proof fn lemma_nothing_left(h: Seq<u8>, visited: Seq<u64>)
    requires
        distinct_within(visited, h.len()),
    ensures
        walked(h, Seq::empty(), visited) == Ok::<Found, Failure>(
            Found { nodes: Seq::empty(), cycles: Seq::empty() },
        ),
{
    reveal(walked);
}

proof fn lemma_whole(h: Seq<u8>, size: u64)
    ensures
        whole_walk(h, size) == walked(h, seq![(OctreeKey::root(), 0u64, size)], Seq::empty()),
{
    reveal(walked);
}

proof fn lemma_under_root(w: Seq<Written>, x: OctreeKey)
    requires
        is_tree(w),
        keys_of(w).contains(x),
    ensures
        is_under(x, OctreeKey::root()),
{
    // A node at level zero of a tree is the root itself.
    lemma_ancestor_in(w, x, x.level as int);
    lemma_up(x, x.level as int, 0);
    let y = up(x, x.level as int);
    assert(y.level == 0);
}

/// Whether a record, where it is a proxy, names a chunk inside the bytes that
/// starts with the record of a node with as many points as the proxy carries.
#[verifier::opaque]
pub open spec fn proxy_holds(h: Seq<u8>, at: int) -> bool {
    let e = entry_at(h, at);
    e.kind == 2 ==> {
        &&& e.offset as int % 22 == 0
        &&& e.size as int % 22 == 0
        &&& 22 <= e.size
        &&& e.offset + e.size <= h.len()
        &&& entry_at(h, e.offset as int).kind != 2
        &&& entry_at(h, e.offset as int).points == e.points
    }
}

/// Whether every record between two bytes holds as a proxy.
spec fn proxies_hold(h: Seq<u8>, from: int, to: int) -> bool {
    forall|at: int| from <= at < to && at % 22 == 0 ==> #[trigger] proxy_holds(h, at)
}

/// Whether the chunk of a node stands at a place.
#[verifier::opaque]
spec fn place_reaches(w: Seq<Written>, h: Seq<u8>, k: OctreeKey, place: (u64, u64)) -> bool {
    &&& place.0 as int % 22 == 0
    &&& place.1 as int % 22 == 0
    &&& 22 <= place.1
    &&& place.0 + place.1 <= h.len()
    &&& entry_at(h, place.0 as int).kind != 2
    &&& entry_at(h, place.0 as int).points == ref_of(w, k).point_count
}

spec fn places_reach(w: Seq<Written>, h: Seq<u8>, places: Map<OctreeKey, (u64, u64)>) -> bool {
    forall|x: OctreeKey| #[trigger] places.contains_key(x) ==> place_reaches(w, h, x, places[x])
}

/// A place with a chunk of a node is reached by its proxy.
proof fn lemma_proxy_holds(
    w: Seq<Written>,
    h: Seq<u8>,
    at: int,
    k: OctreeKey,
    place: (u64, u64),
)
    requires
        0 <= at,
        at + 22 <= h.len(),
        h.subrange(at, at + 22) == super::hierarchy::proxy_record(w, k, place),
        place_reaches(w, h, k, place),
    ensures
        proxy_holds(h, at),
{
    reveal(proxy_holds);
    reveal(place_reaches);
    proxies_carry_their_points(w, k, place, h, at);
}

/// The record of a node that is no proxy holds as one.
proof fn lemma_plain_holds(w: Seq<Written>, h: Seq<u8>, at: int, k: OctreeKey)
    requires
        0 <= at,
        at + 22 <= h.len(),
        h.subrange(at, at + 22) == plain_record(w, k),
    ensures
        proxy_holds(h, at),
{
    reveal(proxy_holds);
    lemma_plain_entry(h, at, w, k);
}

/// The chunk of a node is reached at its place.
proof fn lemma_place_reaches(
    w: Seq<Written>,
    h: Seq<u8>,
    k: OctreeKey,
    at: int,
    places: Map<OctreeKey, (u64, u64)>,
)
    requires
        stands_at(h, at, w, k, places),
        at % 22 == 0,
        h.len() <= usize::MAX,
    ensures
        own_size(w, k) % 22 == 0,
        place_reaches(w, h, k, (at as u64, own_size(w, k) as u64)),
{
    reveal(place_reaches);
    let n = order(w, k).len() as int;
    assert(level_below(w, k, 0) == seq![k]);
    assert(upper(w, k)[0] == k);
    assert(order(w, k)[0] == k);
    lemma_record_at(h, at, w, k, places, 0);
    assert(at + 22 * 0 == at);
    lemma_plain_entry(h, at, w, k);
    assert(own_size(w, k) == 22 * n);
    assert((22 * n) % 22 == 0) by (nonlinear_arith);
}

proof fn lemma_own_holds(
    w: Seq<Written>,
    h: Seq<u8>,
    k: OctreeKey,
    at: int,
    places: Map<OctreeKey, (u64, u64)>,
    j: int,
)
    requires
        stands_at(h, at, w, k, places),
        places_reach(w, h, places),
        0 <= j < order(w, k).len(),
    ensures
        proxy_holds(h, at + 22 * j),
{
    let x = order(w, k)[j];
    lemma_record_at(h, at, w, k, places, j);
    if j < upper(w, k).len() || !places.contains_key(x) {
        lemma_plain_holds(w, h, at + 22 * j, x);
    } else {
        assert(place_reaches(w, h, x, places[x]));
        lemma_proxy_holds(w, h, at + 22 * j, x, places[x]);
    }
}

proof fn lemma_own_proxies(
    w: Seq<Written>,
    h: Seq<u8>,
    k: OctreeKey,
    at: int,
    places: Map<OctreeKey, (u64, u64)>,
)
    requires
        stands_at(h, at, w, k, places),
        at % 22 == 0,
        places_reach(w, h, places),
    ensures
        proxies_hold(h, at, at + own_size(w, k)),
{
    let n = order(w, k).len() as int;
    assert(own_size(w, k) == 22 * n);
    assert forall|b: int| at <= b < at + 22 * n && b % 22 == 0 implies
        #[trigger] proxy_holds(h, b) by {
        let j = (b - at) / 22;
        assert(b == at + 22 * j && 0 <= j < n) by (nonlinear_arith)
            requires
                at <= b < at + 22 * n,
                b % 22 == 0,
                at % 22 == 0,
                j == (b - at) / 22,
        ;
        lemma_own_holds(w, h, k, at, places, j);
    }
}

/// What holds of the chunks below the first nodes at a cut: they are whole
/// records, every proxy among them holds, and they are reached at their places.
#[verifier::opaque]
spec fn tail_holds(
    w: Seq<Written>,
    h: Seq<u8>,
    b: (Seq<u8>, Map<OctreeKey, (u64, u64)>),
    from: int,
) -> bool {
    &&& b.0.len() as int % 22 == 0
    &&& proxies_hold(h, from, from + b.0.len())
    &&& places_reach(w, h, b.1)
}

spec fn below_holds(w: Seq<Written>, h: Seq<u8>, k: OctreeKey, n: int, from: int) -> bool {
    tail_holds(w, h, below(w, k, n, from), from)
}

/// Whether the chunks below the first nodes at a cut stand in a file.
#[verifier::opaque]
spec fn below_stands(w: Seq<Written>, h: Seq<u8>, k: OctreeKey, n: int, from: int) -> bool {
    let b = below(w, k, n, from).0;
    from + b.len() <= h.len() && h.subrange(from, from + b.len()) == b
}

proof fn lemma_none_holds(w: Seq<Written>, h: Seq<u8>, k: OctreeKey, from: int)
    ensures
        below_holds(w, h, k, 0, from),
{
    reveal(tail_holds);
}

proof fn lemma_leaf_holds(w: Seq<Written>, h: Seq<u8>, k: OctreeKey, n: int, from: int)
    requires
        0 < n <= cut(w, k).len(),
        kids(w, cut(w, k)[n - 1]).len() == 0,
    ensures
        below_holds(w, h, k, n, from) == below_holds(w, h, k, n - 1, from),
        below_stands(w, h, k, n, from) == below_stands(w, h, k, n - 1, from),
{
    reveal(below_stands);
}

/// The parts of the chunks below a cut stand where they should.
proof fn lemma_parts_stand(w: Seq<Written>, h: Seq<u8>, k: OctreeKey, n: int, from: int)
    requires
        0 < n <= cut(w, k).len(),
        kids(w, cut(w, k)[n - 1]).len() > 0,
        0 <= from,
        h.len() <= usize::MAX,
        below_stands(w, h, k, n, from),
    ensures
        below_stands(w, h, k, n - 1, from),
        ({
            let node = cut(w, k)[n - 1];
            let start = from + below(w, k, n - 1, from).0.len();
            below_stands(w, h, node, cut(w, node).len() as int, start)
        }),
{
    reveal(below_stands);
    lemma_last_part(w, h, k, n, from);
}

proof fn lemma_inserted(
    w: Seq<Written>,
    h: Seq<u8>,
    before: Map<OctreeKey, (u64, u64)>,
    node: OctreeKey,
    place: (u64, u64),
)
    requires
        places_reach(w, h, before),
        place_reaches(w, h, node, place),
    ensures
        places_reach(w, h, before.insert(node, place)),
{
    let after = before.insert(node, place);
    assert forall|x: OctreeKey| #[trigger] after.contains_key(x) implies place_reaches(
        w,
        h,
        x,
        after[x],
    ) by {
        if x != node {
            assert(before.contains_key(x));
        }
    }
}

proof fn lemma_places_step(w: Seq<Written>, k: OctreeKey, n: int, from: int)
    requires
        0 < n <= cut(w, k).len(),
        kids(w, cut(w, k)[n - 1]).len() > 0,
    ensures
        below(w, k, n, from).1 == below(w, k, n - 1, from).1.insert(
            cut(w, k)[n - 1],
            place_of(w, k, n - 1, from),
        ),
{
}

proof fn lemma_tail_grows(
    w: Seq<Written>,
    h: Seq<u8>,
    before: (Seq<u8>, Map<OctreeKey, (u64, u64)>),
    inner: (Seq<u8>, Map<OctreeKey, (u64, u64)>),
    after: (Seq<u8>, Map<OctreeKey, (u64, u64)>),
    node: OctreeKey,
    from: int,
)
    requires
        0 <= from,
        from % 22 == 0,
        h.len() <= usize::MAX,
        tail_holds(w, h, before, from),
        tail_holds(w, h, inner, from + before.0.len()),
        stands_at(h, from + before.0.len() + inner.0.len(), w, node, inner.1),
        after.0.len() == before.0.len() + inner.0.len() + own_size(w, node),
        after.1 == before.1.insert(
            node,
            (
                (from + before.0.len() + inner.0.len()) as u64,
                own_size(w, node) as u64,
            ),
        ),
    ensures
        tail_holds(w, h, after, from),
{
    let start = from + before.0.len();
    let at = start + inner.0.len();
    lemma_start(w, h, before, from);
    lemma_start(w, h, inner, start);
    lemma_place_reaches(w, h, node, at, inner.1);
    lemma_own_proxies(w, h, node, at, inner.1);
    lemma_inserted(w, h, before.1, node, (at as u64, own_size(w, node) as u64));
    lemma_tail(w, h, after, from, start, at, own_size(w, node));
}

proof fn lemma_tail(
    w: Seq<Written>,
    h: Seq<u8>,
    after: (Seq<u8>, Map<OctreeKey, (u64, u64)>),
    from: int,
    start: int,
    at: int,
    size: int,
)
    requires
        from % 22 == 0,
        at % 22 == 0,
        size % 22 == 0,
        from + after.0.len() == at + size,
        proxies_hold(h, from, start),
        proxies_hold(h, start, at),
        proxies_hold(h, at, at + size),
        places_reach(w, h, after.1),
    ensures
        tail_holds(w, h, after, from),
{
    reveal(tail_holds);
    lemma_three(h, from, start, at, at + size);
}

proof fn lemma_next_holds(w: Seq<Written>, h: Seq<u8>, k: OctreeKey, n: int, from: int)
    requires
        0 < n <= cut(w, k).len(),
        kids(w, cut(w, k)[n - 1]).len() > 0,
        0 <= from,
        from % 22 == 0,
        h.len() <= usize::MAX,
        below_stands(w, h, k, n, from),
        below_holds(w, h, k, n - 1, from),
        ({
            let node = cut(w, k)[n - 1];
            let start = from + below(w, k, n - 1, from).0.len();
            below_holds(w, h, node, cut(w, node).len() as int, start)
        }),
    ensures
        below_holds(w, h, k, n, from),
{
    reveal(below_stands);
    let node = cut(w, k)[n - 1];
    let before = below(w, k, n - 1, from);
    let inner = below(w, node, cut(w, node).len() as int, from + before.0.len());
    lemma_last_part(w, h, k, n, from);
    lemma_places_step(w, k, n, from);
    lemma_tail_grows(w, h, before, inner, below(w, k, n, from), node, from);
}

proof fn lemma_start(
    w: Seq<Written>,
    h: Seq<u8>,
    b: (Seq<u8>, Map<OctreeKey, (u64, u64)>),
    from: int,
)
    requires
        from % 22 == 0,
        tail_holds(w, h, b, from),
    ensures
        (from + b.0.len()) % 22 == 0,
        proxies_hold(h, from, from + b.0.len()),
        places_reach(w, h, b.1),
{
    reveal(tail_holds);
}

proof fn lemma_below_proxies(w: Seq<Written>, h: Seq<u8>, k: OctreeKey, n: int, from: int)
    requires
        0 <= n <= cut(w, k).len(),
        0 <= from,
        from % 22 == 0,
        h.len() <= usize::MAX,
        below_stands(w, h, k, n, from),
    ensures
        below_holds(w, h, k, n, from),
    decreases u32::MAX - k.level, n,
{
    if n == 0 {
        lemma_none_holds(w, h, k, from);
    } else {
        let node = cut(w, k)[n - 1];
        if kids(w, node).len() == 0 {
            lemma_leaf_holds(w, h, k, n, from);
            lemma_below_proxies(w, h, k, n - 1, from);
        } else {
            lemma_parts_stand(w, h, k, n, from);
            lemma_below_proxies(w, h, k, n - 1, from);
            lemma_start(w, h, below(w, k, n - 1, from), from);
            let start = from + below(w, k, n - 1, from).0.len();
            lemma_levels(w, k, 4);
            assert(level_below(w, k, 4)[n - 1] == node);
            lemma_below_proxies(w, h, node, cut(w, node).len() as int, start);
            lemma_next_holds(w, h, k, n, from);
        }
    }
}

proof fn lemma_three(h: Seq<u8>, a: int, b: int, c: int, d: int)
    requires
        proxies_hold(h, a, b),
        proxies_hold(h, b, c),
        proxies_hold(h, c, d),
    ensures
        proxies_hold(h, a, d),
{
}

/// A hierarchy is whole records, and every proxy in it names a chunk inside it:
/// whole records again, the first of which is that of a node with the points
/// that the proxy carries.
pub proof fn proxies_name_chunks_inside(w: Seq<Written>)
    requires
        hierarchy_of(w).len() <= usize::MAX,
    ensures
        hierarchy_of(w).len() as int % 22 == 0,
        forall|at: int|
            0 <= at < hierarchy_of(w).len() && at % 22 == 0 ==> #[trigger] proxy_holds(
                hierarchy_of(w),
                at,
            ),
{
    let k = first_key(w);
    let size = own_size(w, k);
    let h = hierarchy_of(w);
    let n = cut(w, k).len() as int;
    let b = below(w, k, n, size);
    let own = own_records(w, k, b.1);
    lemma_own_size(w, k, b.1);
    assert(h == own + b.0);
    assert(h.subrange(0, size) =~= own);
    assert(h.subrange(size, size + b.0.len()) =~= b.0);
    assert(below_stands(w, h, k, n, size)) by {
        reveal(below_stands);
    }
    lemma_place_reaches(w, h, k, 0, b.1);
    lemma_below_proxies(w, h, k, n, size);
    lemma_whole_holds(w, h, k, b);
}

proof fn lemma_whole_holds(
    w: Seq<Written>,
    h: Seq<u8>,
    k: OctreeKey,
    b: (Seq<u8>, Map<OctreeKey, (u64, u64)>),
)
    requires
        stands_at(h, 0, w, k, b.1),
        h.len() == own_size(w, k) + b.0.len(),
        h.len() <= usize::MAX,
        tail_holds(w, h, b, own_size(w, k)),
    ensures
        h.len() as int % 22 == 0,
        proxies_hold(h, 0, h.len() as int),
{
    lemma_place_reaches(w, h, k, 0, b.1);
    lemma_start(w, h, b, own_size(w, k));
    lemma_own_proxies(w, h, k, 0, b.1);
    lemma_three(h, 0, own_size(w, k), h.len() as int, h.len() as int);
}

} // verus!
