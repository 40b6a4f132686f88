//! What the pages of an EPT hierarchy add up to: the points of every node that
//! was written, each counted once.

use super::ept::{
    deferred, filled, kids_below, lemma_deferred_levels, page_nodes, page_roots, points_of,
    roots_below, PAGE_NODES,
};
use super::ept_pages::hangs_from;
use super::hierarchy::can_split;
use crate::octree::{child_then_parent, parent_then_child, OctreeKey};
use vstd::prelude::*;

verus! {

/// The points that the first `n` of some nodes hold.
pub open spec fn first_points(m: Map<OctreeKey, u64>, nodes: Seq<OctreeKey>, n: int) -> int
    decreases n,
{
    if n <= 0 {
        0
    } else {
        first_points(m, nodes, n - 1) + points_of(m, nodes[n - 1])
    }
}

/// The points that the page that starts at a node states: those of its nodes,
/// but for the ones it defers.
pub open spec fn page_points(m: Map<OctreeKey, u64>, k: OctreeKey) -> int {
    let nodes = page_nodes(m, k);
    if nodes.len() > PAGE_NODES {
        first_points(m, nodes, PAGE_NODES as int)
    } else {
        first_points(m, nodes, nodes.len() as int)
    }
}

/// The points that the pages that start at some nodes state.
pub open spec fn pages_points(m: Map<OctreeKey, u64>, roots: Seq<OctreeKey>) -> int
    decreases roots.len(),
{
    if roots.len() == 0 {
        0
    } else {
        pages_points(m, roots.drop_last()) + page_points(m, roots.last())
    }
}

/// The points of a node and of all that hangs from it.
pub open spec fn hung(m: Map<OctreeKey, u64>, k: OctreeKey) -> int
    decreases u32::MAX - k.level, 1int, 0int,
{
    points_of(m, k) + hung_through(m, k, 8)
}

/// The points of what hangs from a node by its children with an index below `n`.
pub open spec fn hung_through(m: Map<OctreeKey, u64>, k: OctreeKey, n: int) -> int
    decreases u32::MAX - k.level, 0int, n,
{
    if n <= 0 || !can_split(k) {
        0
    } else {
        let child = k.spec_child((n - 1) as u8);
        hung_through(m, k, n - 1) + if m.contains_key(child) {
            hung(m, child)
        } else {
            0
        }
    }
}

/// The points of some nodes and of all that hangs from them.
pub open spec fn hung_all(m: Map<OctreeKey, u64>, nodes: Seq<OctreeKey>) -> int
    decreases nodes.len(),
{
    if nodes.len() == 0 {
        0
    } else {
        hung_all(m, nodes.drop_last()) + hung(m, nodes.last())
    }
}

pub(crate) proof fn lemma_hung_add(m: Map<OctreeKey, u64>, a: Seq<OctreeKey>, b: Seq<OctreeKey>)
    ensures
        hung_all(m, a + b) == hung_all(m, a) + hung_all(m, b),
    decreases b.len(),
{
    if b.len() == 0 {
        assert(a + b =~= a);
    } else {
        lemma_hung_add(m, a, b.drop_last());
        assert((a + b).drop_last() =~= a + b.drop_last());
    }
}

proof fn lemma_hung_one(m: Map<OctreeKey, u64>, k: OctreeKey)
    ensures
        hung_all(m, seq![k]) == hung(m, k),
{
    assert(seq![k].drop_last() =~= Seq::<OctreeKey>::empty());
    assert(hung_all(m, Seq::<OctreeKey>::empty()) == 0);
}

proof fn lemma_kids_hung(m: Map<OctreeKey, u64>, k: OctreeKey, n: int)
    ensures
        hung_all(m, kids_below(m, k, n)) == hung_through(m, k, n),
    decreases n,
{
    if n > 0 && can_split(k) {
        lemma_kids_hung(m, k, n - 1);
        let child = k.spec_child((n - 1) as u8);
        if m.contains_key(child) {
            assert(kids_below(m, k, n).drop_last() =~= kids_below(m, k, n - 1));
            assert(kids_below(m, k, n).last() == child);
        }
    }
}

proof fn lemma_first_points(
    m: Map<OctreeKey, u64>,
    a: Seq<OctreeKey>,
    b: Seq<OctreeKey>,
    n: int,
)
    requires
        n <= a.len(),
        n <= b.len(),
        forall|i: int| 0 <= i < n ==> a[i] == b[i],
    ensures
        first_points(m, a, n) == first_points(m, b, n),
    decreases n,
{
    if n > 0 {
        lemma_first_points(m, a, b, n - 1);
        assert(a[n - 1] == b[n - 1]);
    }
}

/// What a page states, and what hangs from the nodes it defers.
spec fn filled_points(m: Map<OctreeKey, u64>, nodes: Seq<OctreeKey>, n: int) -> int {
    first_points(m, nodes, n) + hung_all(m, nodes.skip(n))
}

proof fn lemma_filled_points(m: Map<OctreeKey, u64>, list: Seq<OctreeKey>, i: int)
    requires
        0 <= i <= list.len(),
        i <= PAGE_NODES,
    ensures
        ({
            let all = filled(m, list, i);
            let n = if all.len() > PAGE_NODES {
                PAGE_NODES as int
            } else {
                all.len() as int
            };
            filled_points(m, all, n) == filled_points(m, list, i)
        }),
    decreases PAGE_NODES - i,
{
    if i < list.len() && i < PAGE_NODES {
        let kids = kids_below(m, list[i], 8);
        let next = list + kids;
        lemma_filled_points(m, next, i + 1);
        lemma_first_points(m, list, next, i);
        assert(next[i] == list[i]);
        assert(first_points(m, next, i + 1) == first_points(m, list, i) + points_of(m, list[i]));
        assert(next.skip(i + 1) =~= list.skip(i + 1) + kids);
        lemma_hung_add(m, list.skip(i + 1), kids);
        lemma_kids_hung(m, list[i], 8);
        assert(list.skip(i) =~= seq![list[i]] + list.skip(i + 1));
        lemma_hung_add(m, seq![list[i]], list.skip(i + 1));
        lemma_hung_one(m, list[i]);
    }
}

pub(crate) proof fn lemma_page_hung(m: Map<OctreeKey, u64>, k: OctreeKey)
    ensures
        page_points(m, k) + hung_all(m, deferred(m, k)) == hung(m, k),
{
    reveal(page_nodes);
    lemma_filled_points(m, seq![k], 0);
    assert(seq![k].skip(0) =~= seq![k]);
    lemma_hung_one(m, k);
    let all = page_nodes(m, k);
    if all.len() <= PAGE_NODES {
        assert(all.skip(all.len() as int) =~= Seq::<OctreeKey>::empty());
    }
}

proof fn lemma_pages_add(m: Map<OctreeKey, u64>, a: Seq<OctreeKey>, b: Seq<OctreeKey>)
    ensures
        pages_points(m, a + b) == pages_points(m, a) + pages_points(m, b),
    decreases b.len(),
{
    if b.len() == 0 {
        assert(a + b =~= a);
    } else {
        lemma_pages_add(m, a, b.drop_last());
        assert((a + b).drop_last() =~= a + b.drop_last());
    }
}

proof fn lemma_roots_hung(m: Map<OctreeKey, u64>, k: OctreeKey)
    ensures
        pages_points(m, page_roots(m, k)) == hung(m, k),
    decreases u32::MAX - k.level, 1int, 0int,
{
    let later = deferred(m, k);
    let n = later.len() as int;
    lemma_below_hung(m, k, n);
    lemma_pages_add(m, seq![k], roots_below(m, k, n));
    assert(seq![k].drop_last() =~= Seq::<OctreeKey>::empty());
    assert(pages_points(m, Seq::<OctreeKey>::empty()) == 0);
    assert(pages_points(m, seq![k]) == page_points(m, k));
    assert(later.take(n) =~= later);
    lemma_page_hung(m, k);
}

proof fn lemma_below_hung(m: Map<OctreeKey, u64>, k: OctreeKey, n: int)
    requires
        0 <= n <= deferred(m, k).len(),
    ensures
        pages_points(m, roots_below(m, k, n)) == hung_all(m, deferred(m, k).take(n)),
    decreases u32::MAX - k.level, 0int, n,
{
    if n > 0 {
        let later = deferred(m, k);
        lemma_deferred_levels(m, k);
        assert(later[n - 1].level > k.level);
        lemma_roots_hung(m, later[n - 1]);
        lemma_below_hung(m, k, n - 1);
        lemma_pages_add(m, page_roots(m, later[n - 1]), roots_below(m, k, n - 1));
        assert(later.take(n).drop_last() =~= later.take(n - 1));
        assert(later.take(n).last() == later[n - 1]);
    }
}

/// The points of those of some nodes that hang from a node.
pub open spec fn hanging(m: Map<OctreeKey, u64>, keys: Seq<OctreeKey>, k: OctreeKey) -> int
    decreases keys.len(),
{
    if keys.len() == 0 {
        0
    } else {
        hanging(m, keys.drop_last(), k) + if hangs_from(m, k, keys.last()) {
            points_of(m, keys.last()) as int
        } else {
            0
        }
    }
}

/// The points of a node, as often as it is among some nodes.
pub open spec fn occurring(m: Map<OctreeKey, u64>, keys: Seq<OctreeKey>, k: OctreeKey) -> int
    decreases keys.len(),
{
    if keys.len() == 0 {
        0
    } else {
        occurring(m, keys.drop_last(), k) + if keys.last() == k {
            points_of(m, k) as int
        } else {
            0
        }
    }
}

/// The points of those of some nodes that hang from a node's children with an
/// index below `n`.
spec fn hanging_through(m: Map<OctreeKey, u64>, keys: Seq<OctreeKey>, k: OctreeKey, n: int) -> int
    decreases n,
{
    if n <= 0 || !can_split(k) {
        0
    } else {
        let child = k.spec_child((n - 1) as u8);
        hanging_through(m, keys, k, n - 1) + if m.contains_key(child) {
            hanging(m, keys, child)
        } else {
            0
        }
    }
}

/// The share of one node among the children of another.
spec fn share(m: Map<OctreeKey, u64>, k: OctreeKey, x: OctreeKey, n: int) -> int
    decreases n,
{
    if n <= 0 || !can_split(k) {
        0
    } else {
        let child = k.spec_child((n - 1) as u8);
        share(m, k, x, n - 1) + if m.contains_key(child) && hangs_from(m, child, x) {
            points_of(m, x) as int
        } else {
            0
        }
    }
}

proof fn lemma_hangs_levels(m: Map<OctreeKey, u64>, k: OctreeKey, x: OctreeKey)
    requires
        hangs_from(m, k, x),
    ensures
        k.level <= x.level,
        k.level == x.level ==> k == x,
    decreases x.level,
{
    if k != x {
        lemma_hangs_levels(m, k, x.spec_parent()->0);
    }
}

/// Of the nodes of one level, a node hangs from at most one.
proof fn lemma_hangs_from_one(m: Map<OctreeKey, u64>, a: OctreeKey, b: OctreeKey, x: OctreeKey)
    requires
        hangs_from(m, a, x),
        hangs_from(m, b, x),
        a.level == b.level,
    ensures
        a == b,
    decreases x.level,
{
    lemma_hangs_levels(m, a, x);
    lemma_hangs_levels(m, b, x);
    if a != x && b != x {
        lemma_hangs_from_one(m, a, b, x.spec_parent()->0);
    }
}

/// What hangs from a written child of a node hangs from the node, and is not it.
proof fn lemma_hangs_by_child(m: Map<OctreeKey, u64>, k: OctreeKey, x: OctreeKey, c: int)
    requires
        can_split(k),
        0 <= c < 8,
        m.contains_key(k.spec_child(c as u8)),
        hangs_from(m, k.spec_child(c as u8), x),
    ensures
        hangs_from(m, k, x),
        x != k,
    decreases x.level,
{
    let child = k.spec_child(c as u8);
    child_then_parent(k, c as u8);
    lemma_hangs_levels(m, child, x);
    assert(child.level == k.level + 1);
    if child == x {
        assert(hangs_from(m, k, x.spec_parent()->0));
    } else {
        lemma_hangs_by_child(m, k, x.spec_parent()->0, c);
    }
}

/// What hangs from a node and is not it hangs from one of its written children.
proof fn lemma_hangs_down(m: Map<OctreeKey, u64>, k: OctreeKey, x: OctreeKey) -> (c: int)
    requires
        hangs_from(m, k, x),
        x != k,
    ensures
        0 <= c < 8,
        can_split(k),
        m.contains_key(k.spec_child(c as u8)),
        hangs_from(m, k.spec_child(c as u8), x),
    decreases x.level,
{
    let p = x.spec_parent()->0;
    if p == k {
        let c = x.spec_child_index()->0;
        parent_then_child(x);
        assert(k.spec_child(c) == x);
        c as int
    } else {
        lemma_hangs_down(m, k, p)
    }
}

proof fn lemma_through_last(m: Map<OctreeKey, u64>, keys: Seq<OctreeKey>, k: OctreeKey, n: int)
    requires
        keys.len() > 0,
    ensures
        hanging_through(m, keys, k, n) == hanging_through(m, keys.drop_last(), k, n) + share(
            m,
            k,
            keys.last(),
            n,
        ),
    decreases n,
{
    if n > 0 && can_split(k) {
        lemma_through_last(m, keys, k, n - 1);
    }
}

proof fn lemma_nothing_through(m: Map<OctreeKey, u64>, keys: Seq<OctreeKey>, k: OctreeKey, n: int)
    requires
        keys.len() == 0,
    ensures
        hanging_through(m, keys, k, n) == 0,
    decreases n,
{
    if n > 0 && can_split(k) {
        lemma_nothing_through(m, keys, k, n - 1);
    }
}

proof fn lemma_no_share(m: Map<OctreeKey, u64>, k: OctreeKey, x: OctreeKey, n: int)
    requires
        n <= 8,
        !hangs_from(m, k, x) || x == k,
    ensures
        share(m, k, x, n) == 0,
    decreases n,
{
    if n > 0 && can_split(k) {
        lemma_no_share(m, k, x, n - 1);
        let child = k.spec_child((n - 1) as u8);
        if m.contains_key(child) && hangs_from(m, child, x) {
            lemma_hangs_by_child(m, k, x, n - 1);
        }
    }
}

proof fn lemma_one_share(m: Map<OctreeKey, u64>, k: OctreeKey, x: OctreeKey, n: int, c: int)
    requires
        0 <= c < 8,
        n <= 8,
        can_split(k),
        m.contains_key(k.spec_child(c as u8)),
        hangs_from(m, k.spec_child(c as u8), x),
    ensures
        share(m, k, x, n) == if c < n {
            points_of(m, x) as int
        } else {
            0
        },
    decreases n,
{
    if n > 0 {
        lemma_one_share(m, k, x, n - 1, c);
        let child = k.spec_child((n - 1) as u8);
        let own = k.spec_child(c as u8);
        if c != n - 1 && hangs_from(m, child, x) {
            assert(child.level == k.level + 1 && own.level == k.level + 1);
            lemma_hangs_from_one(m, child, own, x);
            child_then_parent(k, (n - 1) as u8);
            child_then_parent(k, c as u8);
        }
    }
}

proof fn lemma_hanging_splits(m: Map<OctreeKey, u64>, keys: Seq<OctreeKey>, k: OctreeKey)
    ensures
        hanging(m, keys, k) == occurring(m, keys, k) + hanging_through(m, keys, k, 8),
    decreases keys.len(),
{
    if keys.len() == 0 {
        lemma_nothing_through(m, keys, k, 8);
    } else {
        let x = keys.last();
        lemma_hanging_splits(m, keys.drop_last(), k);
        lemma_through_last(m, keys, k, 8);
        if hangs_from(m, k, x) && x != k {
            let c = lemma_hangs_down(m, k, x);
            lemma_one_share(m, k, x, 8, c);
        } else {
            lemma_no_share(m, k, x, 8);
        }
    }
}

pub(crate) proof fn lemma_occurring(m: Map<OctreeKey, u64>, keys: Seq<OctreeKey>, k: OctreeKey)
    requires
        keys.no_duplicates(),
    ensures
        keys.contains(k) ==> occurring(m, keys, k) == points_of(m, k),
        !keys.contains(k) ==> occurring(m, keys, k) == 0,
    decreases keys.len(),
{
    if keys.len() > 0 {
        let shorter = keys.drop_last();
        assert(shorter.no_duplicates());
        lemma_occurring(m, shorter, k);
        assert(keys[keys.len() - 1] == keys.last());
        if shorter.contains(k) {
            let i = choose|i: int| 0 <= i < shorter.len() && shorter[i] == k;
            assert(keys[i] == k);
        } else if keys.contains(k) {
            let i = choose|i: int| 0 <= i < keys.len() && keys[i] == k;
            if i < shorter.len() {
                assert(shorter[i] == k);
            }
        }
    }
}

pub(crate) proof fn lemma_hung_is_hanging(m: Map<OctreeKey, u64>, keys: Seq<OctreeKey>, k: OctreeKey)
    requires
        keys.no_duplicates(),
        forall|x: OctreeKey| #[trigger] keys.contains(x) == m.contains_key(x),
    ensures
        hung(m, k) == hanging(m, keys, k),
    decreases u32::MAX - k.level, 1int, 0int,
{
    lemma_through_is_hanging(m, keys, k, 8);
    lemma_hanging_splits(m, keys, k);
    lemma_occurring(m, keys, k);
    assert(keys.contains(k) == m.contains_key(k));
}

proof fn lemma_through_is_hanging(m: Map<OctreeKey, u64>, keys: Seq<OctreeKey>, k: OctreeKey, n: int)
    requires
        keys.no_duplicates(),
        forall|x: OctreeKey| #[trigger] keys.contains(x) == m.contains_key(x),
    ensures
        hung_through(m, k, n) == hanging_through(m, keys, k, n),
    decreases u32::MAX - k.level, 0int, n,
{
    if n > 0 && can_split(k) {
        let child = k.spec_child((n - 1) as u8);
        lemma_through_is_hanging(m, keys, k, n - 1);
        if m.contains_key(child) {
            assert(child.level == k.level + 1);
            lemma_hung_is_hanging(m, keys, child);
        }
    }
}

pub(crate) proof fn lemma_all_hanging(m: Map<OctreeKey, u64>, keys: Seq<OctreeKey>, root: OctreeKey, n: int)
    requires
        0 <= n <= keys.len(),
        forall|i: int| 0 <= i < keys.len() ==> hangs_from(m, root, #[trigger] keys[i]),
    ensures
        hanging(m, keys.take(n), root) == first_points(m, keys, n),
    decreases n,
{
    if n > 0 {
        lemma_all_hanging(m, keys, root, n - 1);
        assert(keys.take(n).drop_last() =~= keys.take(n - 1));
        assert(keys.take(n).last() == keys[n - 1]);
    } else {
        assert(keys.take(0).len() == 0);
    }
}

/// The pages of a hierarchy state, all together, the points of all its nodes:
/// none is left out, and none is counted in two pages.
pub proof fn pages_account_for_every_point(
    m: Map<OctreeKey, u64>,
    keys: Seq<OctreeKey>,
    root: OctreeKey,
)
    requires
        keys.no_duplicates(),
        forall|x: OctreeKey| #[trigger] keys.contains(x) == m.contains_key(x),
        forall|i: int| 0 <= i < keys.len() ==> hangs_from(m, root, #[trigger] keys[i]),
    ensures
        pages_points(m, page_roots(m, root)) == first_points(m, keys, keys.len() as int),
{
    lemma_roots_hung(m, root);
    lemma_hung_is_hanging(m, keys, root);
    lemma_all_hanging(m, keys, root, keys.len() as int);
    assert(keys.take(keys.len() as int) =~= keys);
}

} // verus!
