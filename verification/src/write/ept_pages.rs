//! What holds of the pages of an EPT hierarchy: every node has its entry, and
//! every page is named by another.

use super::ept::{
    deferred, filled, kids_below, lemma_deferred_levels, page_nodes, page_path, page_roots,
    roots_below, PAGE_NODES,
};
use super::hierarchy::can_split;
use crate::format::ept::{at_start, key_of, names_read_back};
use crate::octree::{parent_then_child, OctreeKey};
use crate::text::decimal;
use vstd::prelude::*;

verus! {

/// Whether a node hangs from another by nodes that were written.
pub open spec fn hangs_from(m: Map<OctreeKey, u64>, root: OctreeKey, k: OctreeKey) -> bool
    decreases k.level,
{
    k == root || (k.level > 0 && m.contains_key(k) && hangs_from(m, root, k.spec_parent()->0))
}

/// Whether the page that starts at a node states the points of another.
pub open spec fn states(m: Map<OctreeKey, u64>, p: OctreeKey, k: OctreeKey) -> bool {
    exists|i: int|
        0 <= i < page_nodes(m, p).len() && i < PAGE_NODES && #[trigger] page_nodes(m, p)[i] == k
}

proof fn lemma_is_kid(m: Map<OctreeKey, u64>, k: OctreeKey, c: u8, n: int)
    requires
        can_split(k),
        c < n <= 8,
        m.contains_key(k.spec_child(c)),
    ensures
        kids_below(m, k, n).contains(k.spec_child(c)),
    decreases n,
{
    let kids = kids_below(m, k, n);
    if n - 1 == c {
        assert(kids.last() == k.spec_child(c));
    } else {
        lemma_is_kid(m, k, c, n - 1);
        let before = kids_below(m, k, n - 1);
        let i = choose|i: int| 0 <= i < before.len() && before[i] == k.spec_child(c);
        assert(kids[i] == k.spec_child(c));
    }
}

proof fn lemma_filled(m: Map<OctreeKey, u64>, list: Seq<OctreeKey>, i: int, j: int, k: OctreeKey)
    requires
        0 <= i,
    ensures
        ({
            let all = filled(m, list, i);
            &&& list.len() <= all.len()
            &&& forall|a: int| 0 <= a < list.len() ==> #[trigger] all[a] == list[a]
            &&& i <= j < all.len() && j < PAGE_NODES && kids_below(m, all[j], 8).contains(k)
                ==> all.contains(k)
        }),
    decreases PAGE_NODES - i,
{
    if i < list.len() && i < PAGE_NODES {
        let kids = kids_below(m, list[i], 8);
        let next = list + kids;
        lemma_filled(m, next, i + 1, j, k);
        let all = filled(m, list, i);
        assert(all == filled(m, next, i + 1));
        assert forall|a: int| 0 <= a < list.len() implies #[trigger] all[a] == list[a] by {
            assert(all[a] == next[a]);
        }
        if j == i && kids.contains(k) {
            let b = choose|b: int| 0 <= b < kids.len() && kids[b] == k;
            assert(all[list.len() + b] == next[list.len() + b]);
        }
    }
}

pub(crate) proof fn lemma_page(m: Map<OctreeKey, u64>, p: OctreeKey, j: int, k: OctreeKey)
    ensures
        page_nodes(m, p).len() > 0,
        page_nodes(m, p)[0] == p,
        0 <= j < page_nodes(m, p).len() && j < PAGE_NODES && kids_below(
            m,
            page_nodes(m, p)[j],
            8,
        ).contains(k) ==> page_nodes(m, p).contains(k),
{
    reveal(page_nodes);
    lemma_filled(m, seq![p], 0, j, k);
    assert(page_nodes(m, p)[0] == seq![p][0]);
}

proof fn lemma_within(m: Map<OctreeKey, u64>, k: OctreeKey, n: int, d: int, p: OctreeKey)
    requires
        0 <= d < n <= deferred(m, k).len(),
        page_roots(m, deferred(m, k)[d]).contains(p),
    ensures
        roots_below(m, k, n).contains(p),
    decreases n,
{
    let first = page_roots(m, deferred(m, k)[n - 1]);
    let rest = roots_below(m, k, n - 1);
    assert(roots_below(m, k, n) == first + rest);
    if d == n - 1 {
        let i = choose|i: int| 0 <= i < first.len() && first[i] == p;
        assert((first + rest)[i] == p);
    } else {
        lemma_within(m, k, n - 1, d, p);
        let i = choose|i: int| 0 <= i < rest.len() && rest[i] == p;
        assert((first + rest)[first.len() + i] == p);
    }
}

proof fn lemma_whose(m: Map<OctreeKey, u64>, k: OctreeKey, n: int, p: OctreeKey) -> (d: int)
    requires
        0 <= n <= deferred(m, k).len(),
        roots_below(m, k, n).contains(p),
    ensures
        0 <= d < n,
        page_roots(m, deferred(m, k)[d]).contains(p),
    decreases n,
{
    let i = choose|i: int| 0 <= i < roots_below(m, k, n).len() && roots_below(m, k, n)[i] == p;
    if n <= 0 {
        0
    } else {
        let first = page_roots(m, deferred(m, k)[n - 1]);
        let rest = roots_below(m, k, n - 1);
        assert(roots_below(m, k, n) == first + rest);
        if i < first.len() {
            assert(first[i] == p);
            n - 1
        } else {
            assert(rest[i - first.len()] == p);
            lemma_whose(m, k, n - 1, p)
        }
    }
}

pub(crate) proof fn lemma_own_root(m: Map<OctreeKey, u64>, k: OctreeKey)
    ensures
        page_roots(m, k).contains(k),
{
    assert(page_roots(m, k)[0] == k);
}

proof fn lemma_below(m: Map<OctreeKey, u64>, k: OctreeKey, p: OctreeKey)
    requires
        roots_below(m, k, deferred(m, k).len() as int).contains(p),
    ensures
        page_roots(m, k).contains(p),
{
    let rest = roots_below(m, k, deferred(m, k).len() as int);
    let i = choose|i: int| 0 <= i < rest.len() && rest[i] == p;
    assert((seq![k] + rest)[i + 1] == p);
}

/// The two parts of the pages from a node down: its own, and those further down.
proof fn lemma_parted(m: Map<OctreeKey, u64>, k: OctreeKey, p: OctreeKey)
    requires
        page_roots(m, k).contains(p),
        p != k,
    ensures
        roots_below(m, k, deferred(m, k).len() as int).contains(p),
{
    let rest = roots_below(m, k, deferred(m, k).len() as int);
    let i = choose|i: int| 0 <= i < page_roots(m, k).len() && page_roots(m, k)[i] == p;
    assert((seq![k] + rest)[i] == rest[i - 1]);
}

pub(crate) proof fn lemma_closed(m: Map<OctreeKey, u64>, k: OctreeKey, p: OctreeKey, d: OctreeKey)
    requires
        page_roots(m, k).contains(p),
        deferred(m, p).contains(d),
    ensures
        page_roots(m, k).contains(d),
    decreases u32::MAX - k.level,
{
    let later = deferred(m, k);
    lemma_deferred_levels(m, k);
    if p == k {
        let i = choose|i: int| 0 <= i < later.len() && later[i] == d;
        lemma_own_root(m, d);
        lemma_within(m, k, later.len() as int, i, d);
    } else {
        lemma_parted(m, k, p);
        let i = lemma_whose(m, k, later.len() as int, p);
        assert(later[i].level > k.level);
        lemma_closed(m, later[i], p, d);
        lemma_within(m, k, later.len() as int, i, d);
    }
    lemma_below(m, k, d);
}

/// Every written node that hangs from the root has its points stated in one of
/// the pages.
pub proof fn every_node_is_listed(m: Map<OctreeKey, u64>, root: OctreeKey, k: OctreeKey)
    requires
        hangs_from(m, root, k),
    ensures
        exists|p: OctreeKey| #[trigger] page_roots(m, root).contains(p) && states(m, p, k),
    decreases k.level,
{
    if k == root {
        lemma_own_root(m, root);
        lemma_page(m, root, 0, root);
        assert(page_nodes(m, root)[0] == root);
        assert(states(m, root, root));
    } else {
        let above = k.spec_parent()->0;
        every_node_is_listed(m, root, above);
        let p = choose|p: OctreeKey|
            #[trigger] page_roots(m, root).contains(p) && states(m, p, above);
        let j = choose|j: int|
            0 <= j < page_nodes(m, p).len() && j < PAGE_NODES && #[trigger] page_nodes(m, p)[j]
                == above;
        parent_then_child(k);
        lemma_is_kid(m, above, k.spec_child_index()->0, 8);
        lemma_page(m, p, j, k);
        let all = page_nodes(m, p);
        let i = choose|i: int| 0 <= i < all.len() && all[i] == k;
        if i < PAGE_NODES {
            assert(states(m, p, k));
        } else {
            assert(deferred(m, p)[i - PAGE_NODES] == k);
            lemma_closed(m, root, p, k);
            lemma_page(m, k, 0, k);
            assert(page_nodes(m, k)[0] == k);
            assert(states(m, k, k));
        }
    }
}

/// Every page but the first is named by a page: its node is deferred there, so a
/// reader that follows the references from the first page comes to all of them.
pub proof fn every_page_is_reached(m: Map<OctreeKey, u64>, root: OctreeKey, p: OctreeKey)
    requires
        page_roots(m, root).contains(p),
        p != root,
    ensures
        exists|q: OctreeKey| #[trigger] page_roots(m, root).contains(q) && deferred(m, q).contains(p),
    decreases u32::MAX - root.level,
{
    let later = deferred(m, root);
    lemma_deferred_levels(m, root);
    lemma_parted(m, root, p);
    let i = lemma_whose(m, root, later.len() as int, p);
    if later[i] == p {
        lemma_own_root(m, root);
    } else {
        assert(later[i].level > root.level);
        every_page_is_reached(m, later[i], p);
        let q = choose|q: OctreeKey|
            #[trigger] page_roots(m, later[i]).contains(q) && deferred(m, q).contains(p);
        lemma_within(m, root, later.len() as int, i, q);
        lemma_below(m, root, q);
    }
}

/// A page is written where a reader looks for it: under the name that refers to
/// it, which reads back as its node. The page of the root is where a reader
/// starts.
pub proof fn pages_stand_where_they_are_looked_for(k: OctreeKey)
    ensures
        crate::format::ept::page_path(k.spec_ept_name()) == page_path(k),
        key_of(k.spec_ept_name()) == Some(k),
        at_start().queue == seq![page_path(OctreeKey::root())],
{
    names_read_back(k);
    reveal_strlit("ept-hierarchy/0-0-0-0.json");
    reveal_strlit("ept-hierarchy/");
    reveal_strlit(".json");
    reveal_strlit("-");
    assert(decimal(0) =~= seq!['0']);
    assert(page_path(OctreeKey::root()) =~= "ept-hierarchy/0-0-0-0.json"@);
    assert(at_start().queue =~= seq![page_path(OctreeKey::root())]);
}

} // verus!
