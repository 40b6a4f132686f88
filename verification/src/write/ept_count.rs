//! How often a node stands in the pages of an EPT hierarchy. A hierarchy whose
//! nodes hold one point, or none but for a single node, has the same pages; what
//! is known of points is known of how many nodes there are, and of each node.

use super::ept::{deferred, filled, kids_below, page_nodes, points_of, PAGE_NODES};
use super::ept_pages::hangs_from;
use super::ept_total::{
    first_points, hanging, hung, hung_all, hung_through, lemma_all_hanging, lemma_hung_is_hanging,
    lemma_occurring, lemma_page_hung, occurring, page_points,
};
use super::hierarchy::can_split;
use crate::octree::OctreeKey;
use vstd::prelude::*;

verus! {

/// A hierarchy of the same nodes, with one point in one of them.
pub open spec fn marked(m: Map<OctreeKey, u64>, x: OctreeKey) -> Map<OctreeKey, u64> {
    Map::new(
        |k: OctreeKey| m.contains_key(k),
        |k: OctreeKey|
            if k == x {
                1u64
            } else {
                0
            },
    )
}

/// A hierarchy of the same nodes, with one point in each of them.
pub open spec fn ones(m: Map<OctreeKey, u64>) -> Map<OctreeKey, u64> {
    Map::new(|k: OctreeKey| m.contains_key(k), |k: OctreeKey| 1u64)
}

/// Whether two hierarchies have the same nodes.
pub open spec fn are_alike(m: Map<OctreeKey, u64>, n: Map<OctreeKey, u64>) -> bool {
    forall|k: OctreeKey| #[trigger] m.contains_key(k) == n.contains_key(k)
}

/// The sum of a number over some nodes.
pub open spec fn sum_over(f: spec_fn(OctreeKey) -> int, list: Seq<OctreeKey>) -> int
    decreases list.len(),
{
    if list.len() == 0 {
        0
    } else {
        sum_over(f, list.drop_last()) + f(list.last())
    }
}

/// The points of a node, for a sum over nodes.
pub open spec fn points_in(m: Map<OctreeKey, u64>) -> spec_fn(OctreeKey) -> int {
    |k: OctreeKey| points_of(m, k) as int
}

/// What hangs from a node, for a sum over nodes.
pub open spec fn hung_in(m: Map<OctreeKey, u64>) -> spec_fn(OctreeKey) -> int {
    |k: OctreeKey| hung(m, k)
}

proof fn lemma_sum_without(f: spec_fn(OctreeKey) -> int, list: Seq<OctreeKey>, j: int)
    requires
        0 <= j < list.len(),
    ensures
        sum_over(f, list) == sum_over(f, list.remove(j)) + f(list[j]),
    decreases list.len(),
{
    if j == list.len() - 1 {
        assert(list.remove(j) =~= list.drop_last());
    } else {
        lemma_sum_without(f, list.drop_last(), j);
        assert(list.remove(j).drop_last() =~= list.drop_last().remove(j));
        assert(list.remove(j).last() == list.last());
    }
}

/// The order of some nodes does not matter to a sum.
pub proof fn lemma_same_sum(
    f: spec_fn(OctreeKey) -> int,
    a: Seq<OctreeKey>,
    b: Seq<OctreeKey>,
)
    requires
        a.no_duplicates(),
        b.no_duplicates(),
        forall|x: OctreeKey| #[trigger] a.contains(x) == b.contains(x),
    ensures
        sum_over(f, a) == sum_over(f, b),
        a.len() == b.len(),
    decreases a.len(),
{
    if a.len() == 0 {
        if b.len() > 0 {
            assert(b.contains(b[0]));
            assert(a.contains(b[0]));
        }
    } else {
        let x = a.last();
        assert(a[a.len() - 1] == x);
        assert(a.contains(x));
        let j = choose|j: int| 0 <= j < b.len() && b[j] == x;
        let (c, d) = (a.drop_last(), b.remove(j));
        assert forall|y: OctreeKey| #[trigger] c.contains(y) == d.contains(y) by {
            if c.contains(y) {
                let i = choose|i: int| 0 <= i < c.len() && c[i] == y;
                assert(a[i] == y);
                assert(a.contains(y));
                let k = choose|k: int| 0 <= k < b.len() && b[k] == y;
                assert(k != j);
                if k < j {
                    assert(d[k] == y);
                } else {
                    assert(d[k - 1] == y);
                }
            }
            if d.contains(y) {
                let k = choose|k: int| 0 <= k < d.len() && d[k] == y;
                if k < j {
                    assert(b[k] == y);
                } else {
                    assert(b[k + 1] == y);
                }
                assert(b.contains(y));
                assert(a.contains(y));
                let i = choose|i: int| 0 <= i < a.len() && a[i] == y;
                assert(y != x) by {
                    if k < j {
                        assert(b[k] != b[j]);
                    } else {
                        assert(b[k + 1] != b[j]);
                    }
                }
                assert(c[i] == y);
            }
        }
        assert(d.no_duplicates()) by {
            assert forall|p: int, q: int| 0 <= p < q < d.len() implies d[p] != d[q] by {
                let p2 = if p < j {
                    p
                } else {
                    p + 1
                };
                let q2 = if q < j {
                    q
                } else {
                    q + 1
                };
                assert(b[p2] != b[q2]);
            }
        }
        lemma_same_sum(f, c, d);
        lemma_sum_without(f, b, j);
    }
}

proof fn lemma_kids_alike(m: Map<OctreeKey, u64>, n: Map<OctreeKey, u64>, k: OctreeKey, c: int)
    requires
        are_alike(m, n),
    ensures
        kids_below(m, k, c) == kids_below(n, k, c),
    decreases c,
{
    if c > 0 && can_split(k) {
        lemma_kids_alike(m, n, k, c - 1);
        assert(m.contains_key(k.spec_child((c - 1) as u8)) == n.contains_key(
            k.spec_child((c - 1) as u8),
        ));
    }
}

proof fn lemma_filled_alike(
    m: Map<OctreeKey, u64>,
    n: Map<OctreeKey, u64>,
    list: Seq<OctreeKey>,
    i: int,
)
    requires
        are_alike(m, n),
    ensures
        filled(m, list, i) == filled(n, list, i),
    decreases PAGE_NODES - i,
{
    if i < list.len() && i < PAGE_NODES {
        lemma_kids_alike(m, n, list[i], 8);
        lemma_filled_alike(m, n, list + kids_below(m, list[i], 8), i + 1);
    }
}

/// Hierarchies of the same nodes have the same pages.
pub proof fn lemma_pages_alike(m: Map<OctreeKey, u64>, n: Map<OctreeKey, u64>, k: OctreeKey)
    requires
        are_alike(m, n),
    ensures
        page_nodes(m, k) == page_nodes(n, k),
        deferred(m, k) == deferred(n, k),
{
    reveal(page_nodes);
    lemma_filled_alike(m, n, seq![k], 0);
}

proof fn lemma_hangs_alike(
    m: Map<OctreeKey, u64>,
    n: Map<OctreeKey, u64>,
    root: OctreeKey,
    k: OctreeKey,
)
    requires
        are_alike(m, n),
    ensures
        hangs_from(m, root, k) == hangs_from(n, root, k),
    decreases k.level,
{
    assert(m.contains_key(k) == n.contains_key(k));
    if k != root && k.level > 0 {
        lemma_hangs_alike(m, n, root, k.spec_parent()->0);
    }
}

/// What a page states of its nodes, as many as it has room for.
pub open spec fn stated(m: Map<OctreeKey, u64>, k: OctreeKey) -> Seq<OctreeKey> {
    let nodes = page_nodes(m, k);
    if nodes.len() > PAGE_NODES {
        nodes.take(PAGE_NODES as int)
    } else {
        nodes
    }
}

proof fn lemma_first_is_sum(m: Map<OctreeKey, u64>, nodes: Seq<OctreeKey>, n: int)
    requires
        0 <= n <= nodes.len(),
    ensures
        first_points(m, nodes, n) == sum_over(points_in(m), nodes.take(n)),
    decreases n,
{
    if n > 0 {
        lemma_first_is_sum(m, nodes, n - 1);
        assert(nodes.take(n).drop_last() =~= nodes.take(n - 1));
        assert(nodes.take(n).last() == nodes[n - 1]);
    }
}

proof fn lemma_hung_is_sum(m: Map<OctreeKey, u64>, nodes: Seq<OctreeKey>)
    ensures
        hung_all(m, nodes) == sum_over(hung_in(m), nodes),
    decreases nodes.len(),
{
    if nodes.len() > 0 {
        lemma_hung_is_sum(m, nodes.drop_last());
    }
}

/// What hangs from a node is what its page states and what hangs from the nodes
/// it defers.
pub proof fn lemma_hung_splits(m: Map<OctreeKey, u64>, k: OctreeKey)
    ensures
        hung(m, k) == sum_over(points_in(m), stated(m, k)) + sum_over(
            hung_in(m),
            deferred(m, k),
        ),
        page_points(m, k) == sum_over(points_in(m), stated(m, k)),
{
    let nodes = page_nodes(m, k);
    lemma_page_hung(m, k);
    lemma_hung_is_sum(m, deferred(m, k));
    if nodes.len() > PAGE_NODES {
        lemma_first_is_sum(m, nodes, PAGE_NODES as int);
    } else {
        lemma_first_is_sum(m, nodes, nodes.len() as int);
        assert(nodes.take(nodes.len() as int) =~= nodes);
    }
}

proof fn lemma_hanging_once(
    m: Map<OctreeKey, u64>,
    x: OctreeKey,
    keys: Seq<OctreeKey>,
    k: OctreeKey,
)
    ensures
        0 <= hanging(marked(m, x), keys, k) <= occurring(marked(m, x), keys, x),
    decreases keys.len(),
{
    if keys.len() > 0 {
        lemma_hanging_once(m, x, keys.drop_last(), k);
    }
}

/// A node hangs from another once at most.
pub proof fn lemma_hung_once(
    m: Map<OctreeKey, u64>,
    keys: Seq<OctreeKey>,
    x: OctreeKey,
    k: OctreeKey,
)
    requires
        keys.no_duplicates(),
        forall|y: OctreeKey| #[trigger] keys.contains(y) == m.contains_key(y),
    ensures
        0 <= hung(marked(m, x), k) <= 1,
{
    let n = marked(m, x);
    assert forall|y: OctreeKey| #[trigger] keys.contains(y) == n.contains_key(y) by {
        assert(keys.contains(y) == m.contains_key(y));
    }
    lemma_hung_is_hanging(n, keys, k);
    lemma_hanging_once(m, x, keys, k);
    lemma_occurring(n, keys, x);
}

proof fn lemma_first_marked(m: Map<OctreeKey, u64>, x: OctreeKey, keys: Seq<OctreeKey>, n: int)
    requires
        0 <= n <= keys.len(),
        forall|i: int| 0 <= i < keys.len() ==> m.contains_key(#[trigger] keys[i]),
    ensures
        first_points(marked(m, x), keys, n) == occurring(marked(m, x), keys.take(n), x),
        first_points(ones(m), keys, n) == n,
    decreases n,
{
    if n > 0 {
        lemma_first_marked(m, x, keys, n - 1);
        assert(keys.take(n).drop_last() =~= keys.take(n - 1));
        assert(keys.take(n).last() == keys[n - 1]);
        assert(m.contains_key(keys[n - 1]));
    }
}

/// What hangs from the root of a hierarchy: each of its nodes once, all of them,
/// and all their points.
pub proof fn lemma_hung_from_root(
    m: Map<OctreeKey, u64>,
    keys: Seq<OctreeKey>,
    root: OctreeKey,
    x: OctreeKey,
)
    requires
        keys.no_duplicates(),
        forall|y: OctreeKey| #[trigger] keys.contains(y) == m.contains_key(y),
        forall|i: int| 0 <= i < keys.len() ==> hangs_from(m, root, #[trigger] keys[i]),
    ensures
        hung(m, root) == first_points(m, keys, keys.len() as int),
        hung(ones(m), root) == keys.len(),
        hung(marked(m, x), root) == if m.contains_key(x) {
            1int
        } else {
            0
        },
{
    let n = keys.len() as int;
    assert(keys.take(n) =~= keys);
    lemma_hung_is_hanging(m, keys, root);
    lemma_all_hanging(m, keys, root, n);
    assert forall|i: int| 0 <= i < keys.len() implies m.contains_key(#[trigger] keys[i]) by {
        assert(keys.contains(keys[i]));
    }
    lemma_first_marked(m, x, keys, n);
    lemma_alike_hung(m, ones(m), keys, root);
    lemma_alike_hung(m, marked(m, x), keys, root);
    lemma_occurring(marked(m, x), keys, x);
    assert(keys.contains(x) == m.contains_key(x));
}

proof fn lemma_alike_hung(
    m: Map<OctreeKey, u64>,
    n: Map<OctreeKey, u64>,
    keys: Seq<OctreeKey>,
    root: OctreeKey,
)
    requires
        are_alike(m, n),
        keys.no_duplicates(),
        forall|y: OctreeKey| #[trigger] keys.contains(y) == m.contains_key(y),
        forall|i: int| 0 <= i < keys.len() ==> hangs_from(m, root, #[trigger] keys[i]),
    ensures
        hung(n, root) == first_points(n, keys, keys.len() as int),
{
    assert forall|y: OctreeKey| #[trigger] keys.contains(y) == n.contains_key(y) by {
        assert(keys.contains(y) == m.contains_key(y));
        assert(m.contains_key(y) == n.contains_key(y));
    }
    assert forall|i: int| 0 <= i < keys.len() implies hangs_from(n, root, #[trigger] keys[i]) by {
        lemma_hangs_alike(m, n, root, keys[i]);
    }
    lemma_hung_is_hanging(n, keys, root);
    lemma_all_hanging(n, keys, root, keys.len() as int);
    assert(keys.take(keys.len() as int) =~= keys);
}

/// A sum over some nodes and then some more.
pub proof fn lemma_sum_add(f: spec_fn(OctreeKey) -> int, a: Seq<OctreeKey>, b: Seq<OctreeKey>)
    ensures
        sum_over(f, a + b) == sum_over(f, a) + sum_over(f, b),
    decreases b.len(),
{
    if b.len() == 0 {
        assert(a + b =~= a);
    } else {
        lemma_sum_add(f, a, b.drop_last());
        assert((a + b).drop_last() =~= a + b.drop_last());
    }
}

proof fn lemma_through_is_not_negative(
    m: Map<OctreeKey, u64>,
    keys: Seq<OctreeKey>,
    x: OctreeKey,
    k: OctreeKey,
    n: int,
)
    requires
        keys.no_duplicates(),
        forall|y: OctreeKey| #[trigger] keys.contains(y) == m.contains_key(y),
    ensures
        hung_through(marked(m, x), k, n) >= 0,
    decreases n,
{
    if n > 0 && can_split(k) {
        lemma_through_is_not_negative(m, keys, x, k, n - 1);
        lemma_hung_once(m, keys, x, k.spec_child((n - 1) as u8));
    }
}

/// A sum of what hangs from some nodes holds what they hold themselves.
proof fn lemma_sum_holds_points(
    m: Map<OctreeKey, u64>,
    keys: Seq<OctreeKey>,
    x: OctreeKey,
    list: Seq<OctreeKey>,
)
    requires
        keys.no_duplicates(),
        forall|y: OctreeKey| #[trigger] keys.contains(y) == m.contains_key(y),
    ensures
        0 <= sum_over(points_in(marked(m, x)), list) <= sum_over(hung_in(marked(m, x)), list),
    decreases list.len(),
{
    if list.len() > 0 {
        lemma_sum_holds_points(m, keys, x, list.drop_last());
        lemma_through_is_not_negative(m, keys, x, list.last(), 8);
    }
}

/// A node that is among some nodes adds to their sum, each time it is.
proof fn lemma_sum_counts(m: Map<OctreeKey, u64>, list: Seq<OctreeKey>, i: int, j: int)
    requires
        0 <= i < list.len(),
        m.contains_key(list[i]),
    ensures
        sum_over(points_in(marked(m, list[i])), list) >= 1,
        i < j < list.len() && list[j] == list[i] ==> sum_over(
            points_in(marked(m, list[i])),
            list,
        ) >= 2,
    decreases list.len(),
{
    let f = points_in(marked(m, list[i]));
    let shorter = list.drop_last();
    lemma_sum_is_not_negative(m, list[i], shorter);
    if i < shorter.len() {
        assert(shorter[i] == list[i]);
        lemma_sum_counts(m, shorter, i, j);
    }
}

proof fn lemma_sum_is_not_negative(m: Map<OctreeKey, u64>, x: OctreeKey, list: Seq<OctreeKey>)
    ensures
        sum_over(points_in(marked(m, x)), list) >= 0,
    decreases list.len(),
{
    if list.len() > 0 {
        lemma_sum_is_not_negative(m, x, list.drop_last());
    }
}

proof fn lemma_filled_is_written(
    m: Map<OctreeKey, u64>,
    list: Seq<OctreeKey>,
    i: int,
)
    requires
        0 <= i,
        forall|j: int| 0 <= j < list.len() ==> m.contains_key(#[trigger] list[j]),
    ensures
        forall|j: int|
            0 <= j < filled(m, list, i).len() ==> m.contains_key(
                #[trigger] filled(m, list, i)[j],
            ),
    decreases PAGE_NODES - i,
{
    if i < list.len() && i < PAGE_NODES {
        let kids = kids_below(m, list[i], 8);
        lemma_kids_are_written(m, list[i], 8);
        let next = list + kids;
        assert forall|j: int| 0 <= j < next.len() implies m.contains_key(#[trigger] next[j]) by {
            if j >= list.len() {
                assert(next[j] == kids[j - list.len()]);
            }
        }
        lemma_filled_is_written(m, next, i + 1);
        assert(filled(m, list, i) == filled(m, next, i + 1));
    } else {
        assert(filled(m, list, i) == list);
    }
}

proof fn lemma_kids_are_written(m: Map<OctreeKey, u64>, k: OctreeKey, n: int)
    ensures
        forall|j: int|
            0 <= j < kids_below(m, k, n).len() ==> m.contains_key(#[trigger] kids_below(m, k, n)[j]),
    decreases n,
{
    if n > 0 && can_split(k) {
        lemma_kids_are_written(m, k, n - 1);
        let before = kids_below(m, k, n - 1);
        let after = kids_below(m, k, n);
        assert forall|j: int| 0 <= j < after.len() implies m.contains_key(#[trigger] after[j]) by {
            if j < before.len() {
                assert(after[j] == before[j]);
            }
        }
    }
}

/// The nodes of a page were written, and none is there twice.
pub proof fn lemma_page_is_written(m: Map<OctreeKey, u64>, keys: Seq<OctreeKey>, k: OctreeKey)
    requires
        keys.no_duplicates(),
        forall|y: OctreeKey| #[trigger] keys.contains(y) == m.contains_key(y),
        m.contains_key(k),
    ensures
        forall|j: int|
            0 <= j < page_nodes(m, k).len() ==> m.contains_key(#[trigger] page_nodes(m, k)[j]),
        page_nodes(m, k).no_duplicates(),
{
    let nodes = page_nodes(m, k);
    assert(forall|j: int| 0 <= j < nodes.len() ==> m.contains_key(#[trigger] nodes[j])) by {
        reveal(page_nodes);
        lemma_filled_is_written(m, seq![k], 0);
    }
    assert forall|i: int, j: int| 0 <= i < j < nodes.len() implies nodes[i] != nodes[j] by {
        if nodes[i] == nodes[j] {
            let x = nodes[i];
            let n = marked(m, x);
            lemma_hung_once(m, keys, x, k);
            lemma_pages_alike(m, n, k);
            lemma_hung_splits(n, k);
            lemma_sum_holds_points(m, keys, x, deferred(m, k));
            lemma_sum_add(points_in(n), stated(m, k), deferred(m, k));
            assert(stated(m, k) + deferred(m, k) =~= nodes);
            lemma_sum_counts(m, nodes, i, j);
        }
    }
}

} // verus!
