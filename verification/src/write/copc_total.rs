//! What the pages of a COPC hierarchy add up to: the points of every node that
//! was written, each counted once, in one entry for every node.

use super::copc_pages::{
    above, all_pages, deeper, described, has_kid, lemma_above_levels,
    lemma_described_above, lemma_has_entry, lemma_top_above,
    lemma_way_down, own_entry, paged_out, pages_size, top, top_key, visit, visit_kids,
    whole_listing, Listing, PAGE_LEVELS,
};
use super::hierarchy::{can_split, keys_of, node_with, Written};
use super::keys::{last_at, last_at_is_there};
use crate::las::copc::Entry;
use crate::octree::{child_then_parent, OctreeKey};
use vstd::prelude::*;

verus! {

/// The points that an entry states of its own node.
pub open spec fn entry_points(e: Entry) -> int {
    match e {
        Entry::Node { point_count, .. } => point_count as int,
        Entry::Page { .. } => 0,
    }
}

/// The points that the entries of a page state.
pub open spec fn page_points(list: Seq<Entry>) -> int
    decreases list.len(),
{
    if list.len() == 0 {
        0
    } else {
        page_points(list.drop_last()) + entry_points(list.last())
    }
}

/// The points that some pages state.
pub open spec fn pages_points(pages: Seq<Seq<Entry>>) -> int
    decreases pages.len(),
{
    if pages.len() == 0 {
        0
    } else {
        pages_points(pages.drop_last()) + page_points(pages.last())
    }
}

/// The points that a walk states, in the pages it closes and the page it is in.
spec fn listing_points(l: Listing) -> int {
    pages_points(l.pages) + page_points(l.own)
}

/// Two walks, one after the other.
pub open spec fn joined(a: Listing, b: Listing) -> Listing {
    Listing { pages: a.pages + b.pages, own: a.own + b.own }
}

/// The points of some written nodes.
pub open spec fn written_points(w: Seq<Written>) -> int
    decreases w.len(),
{
    if w.len() == 0 {
        0
    } else {
        written_points(w.drop_last()) + w.last().points
    }
}

/// The points written at a node and below it.
pub open spec fn points_under(w: Seq<Written>, k: OctreeKey) -> int
    decreases w.len(),
{
    if w.len() == 0 {
        0
    } else {
        points_under(w.drop_last(), k) + if above(k, w.last().key) {
            w.last().points as int
        } else {
            0
        }
    }
}

/// The points written at a node itself.
pub open spec fn points_at(w: Seq<Written>, k: OctreeKey) -> int
    decreases w.len(),
{
    if w.len() == 0 {
        0
    } else {
        points_at(w.drop_last(), k) + if w.last().key == k {
            w.last().points as int
        } else {
            0
        }
    }
}

/// The points written below a node, through its children with an index below
/// `n`.
pub open spec fn points_through(w: Seq<Written>, k: OctreeKey, n: int) -> int
    decreases n,
{
    if n <= 0 || !can_split(k) {
        0
    } else {
        points_through(w, k, n - 1) + points_under(w, k.spec_child((n - 1) as u8))
    }
}

proof fn lemma_pages_points_add(a: Seq<Seq<Entry>>, b: Seq<Seq<Entry>>)
    ensures
        pages_points(a + b) == pages_points(a) + pages_points(b),
    decreases b.len(),
{
    if b.len() == 0 {
        assert(a + b =~= a);
    } else {
        lemma_pages_points_add(a, b.drop_last());
        assert((a + b).drop_last() =~= a + b.drop_last());
    }
}

proof fn lemma_page_points_add(a: Seq<Entry>, b: Seq<Entry>)
    ensures
        page_points(a + b) == page_points(a) + page_points(b),
    decreases b.len(),
{
    if b.len() == 0 {
        assert(a + b =~= a);
    } else {
        lemma_page_points_add(a, b.drop_last());
        assert((a + b).drop_last() =~= a + b.drop_last());
    }
}

proof fn lemma_joined_points(a: Listing, b: Listing)
    ensures
        listing_points(joined(a, b)) == listing_points(a) + listing_points(b),
{
    lemma_pages_points_add(a.pages, b.pages);
    lemma_page_points_add(a.own, b.own);
}

proof fn lemma_page_points_one(e: Entry)
    ensures
        page_points(seq![e]) == entry_points(e),
{
    assert(seq![e].drop_last() =~= Seq::<Entry>::empty());
    assert(page_points(Seq::<Entry>::empty()) == 0);
}

/// Two nodes of one level above the same node are one.
pub proof fn lemma_above_is_unique(a: OctreeKey, b: OctreeKey, k: OctreeKey)
    requires
        above(a, k),
        above(b, k),
        a.level == b.level,
    ensures
        a == b,
    decreases k.level,
{
    lemma_above_levels(a, k);
    lemma_above_levels(b, k);
    if a == k {
        if b != k {
            lemma_above_levels(b, k.spec_parent()->0);
        }
    } else if b == k {
        lemma_above_levels(a, k.spec_parent()->0);
    } else {
        lemma_above_is_unique(a, b, k.spec_parent()->0);
    }
}

/// Only one child of a node is above another node.
proof fn lemma_one_child(k: OctreeKey, x: OctreeKey, a: int, b: int)
    requires
        can_split(k),
        0 <= a < 8,
        0 <= b < 8,
        above(k.spec_child(a as u8), x),
        above(k.spec_child(b as u8), x),
    ensures
        a == b,
{
    let (one, other) = (k.spec_child(a as u8), k.spec_child(b as u8));
    child_then_parent(k, a as u8);
    child_then_parent(k, b as u8);
    assert(one.level == k.level + 1 && other.level == k.level + 1);
    lemma_above_is_unique(one, other, x);
}

/// What is under a child of a node is under the node, and is not the node.
pub proof fn lemma_above_child(k: OctreeKey, x: OctreeKey, c: int)
    requires
        can_split(k),
        0 <= c < 8,
        above(k.spec_child(c as u8), x),
    ensures
        above(k, x),
        x != k,
    decreases x.level,
{
    let child = k.spec_child(c as u8);
    child_then_parent(k, c as u8);
    lemma_above_levels(child, x);
    assert(child.level == k.level + 1);
    if child == x {
        assert(above(k, x.spec_parent()->0));
    } else {
        lemma_above_child(k, x.spec_parent()->0, c);
    }
}

/// The share of one written node among the children of another.
spec fn share(k: OctreeKey, x: Written, n: int) -> int
    decreases n,
{
    if n <= 0 || !can_split(k) {
        0
    } else {
        share(k, x, n - 1) + if above(k.spec_child((n - 1) as u8), x.key) {
            x.points as int
        } else {
            0
        }
    }
}

proof fn lemma_through_last(w: Seq<Written>, k: OctreeKey, n: int)
    requires
        w.len() > 0,
    ensures
        points_through(w, k, n) == points_through(w.drop_last(), k, n) + share(k, w.last(), n),
    decreases n,
{
    if n > 0 && can_split(k) {
        lemma_through_last(w, k, n - 1);
    }
}

proof fn lemma_no_share(k: OctreeKey, x: Written, n: int)
    requires
        n <= 8,
        !above(k, x.key) || x.key == k,
    ensures
        share(k, x, n) == 0,
    decreases n,
{
    if n > 0 && can_split(k) {
        lemma_no_share(k, x, n - 1);
        if above(k.spec_child((n - 1) as u8), x.key) {
            lemma_above_child(k, x.key, n - 1);
        }
    }
}

proof fn lemma_one_share(k: OctreeKey, x: Written, n: int, c: int)
    requires
        0 <= c < 8,
        n <= 8,
        can_split(k),
        above(k.spec_child(c as u8), x.key),
    ensures
        share(k, x, n) == if c < n {
            x.points as int
        } else {
            0
        },
    decreases n,
{
    if n > 0 {
        lemma_one_share(k, x, n - 1, c);
        if above(k.spec_child((n - 1) as u8), x.key) {
            lemma_one_child(k, x.key, n - 1, c);
        }
    }
}

/// What is written under a node is what is written at it and under its children.
proof fn lemma_under_splits(w: Seq<Written>, k: OctreeKey)
    ensures
        points_under(w, k) == points_at(w, k) + points_through(w, k, 8),
    decreases w.len(),
{
    if w.len() == 0 {
        lemma_nothing_through(w, k, 8);
    } else {
        let x = w.last();
        lemma_under_splits(w.drop_last(), k);
        lemma_through_last(w, k, 8);
        if above(k, x.key) && x.key != k {
            let c = lemma_way_down(k, x.key);
            lemma_one_share(k, x, 8, c);
        } else {
            lemma_no_share(k, x, 8);
        }
    }
}

proof fn lemma_nothing_through(w: Seq<Written>, k: OctreeKey, n: int)
    requires
        w.len() == 0,
    ensures
        points_through(w, k, n) == 0,
    decreases n,
{
    if n > 0 && can_split(k) {
        lemma_nothing_through(w, k, n - 1);
    }
}

proof fn lemma_nothing_under(w: Seq<Written>, k: OctreeKey)
    requires
        !described(w, k),
    ensures
        points_under(w, k) == 0,
    decreases w.len(),
{
    if w.len() > 0 {
        let shorter = w.drop_last();
        assert(!above(k, w[w.len() - 1].key));
        assert forall|i: int| 0 <= i < shorter.len() implies !above(k, (#[trigger] shorter[i]).key) by {
            assert(shorter[i] == w[i]);
        }
        lemma_nothing_under(shorter, k);
    }
}

proof fn lemma_nothing_at(w: Seq<Written>, k: OctreeKey)
    requires
        forall|i: int| 0 <= i < w.len() ==> (#[trigger] w[i]).key != k,
    ensures
        points_at(w, k) == 0,
    decreases w.len(),
{
    if w.len() > 0 {
        let shorter = w.drop_last();
        assert(w[w.len() - 1].key != k);
        assert forall|i: int| 0 <= i < shorter.len() implies (#[trigger] shorter[i]).key != k by {
            assert(shorter[i] == w[i]);
        }
        lemma_nothing_at(shorter, k);
    }
}

proof fn lemma_points_at(w: Seq<Written>, k: OctreeKey, i: int)
    requires
        keys_of(w).no_duplicates(),
        0 <= i < w.len(),
        w[i].key == k,
    ensures
        points_at(w, k) == w[i].points,
    decreases w.len(),
{
    let shorter = w.drop_last();
    assert(keys_of(w)[i] == k);
    if i == w.len() - 1 {
        assert forall|j: int| 0 <= j < shorter.len() implies (#[trigger] shorter[j]).key != k by {
            assert(keys_of(w)[j] == w[j].key);
        }
        lemma_nothing_at(shorter, k);
    } else {
        assert(keys_of(w)[w.len() - 1] == w.last().key);
        assert(keys_of(shorter) =~= keys_of(w).drop_last());
        assert(keys_of(shorter).no_duplicates());
        lemma_points_at(shorter, k, i);
    }
}

/// The entry of a node states the points that were written at it.
proof fn lemma_own_points(w: Seq<Written>, k: OctreeKey)
    requires
        keys_of(w).no_duplicates(),
    ensures
        page_points(own_entry(w, k)) == points_at(w, k),
{
    last_at_is_there(keys_of(w), k);
    match node_with(w, k) {
        Some(n) => {
            let at = last_at(keys_of(w), k);
            assert(keys_of(w)[at] == w[at].key);
            lemma_points_at(w, k, at);
            lemma_page_points_one(own_entry(w, k)[0]);
            assert(own_entry(w, k) =~= seq![own_entry(w, k)[0]]);
        },
        None => {
            assert forall|i: int| 0 <= i < w.len() implies (#[trigger] w[i]).key != k by {
                assert(keys_of(w)[i] == w[i].key);
            }
            lemma_nothing_at(w, k);
            if has_kid(w, k, 8) {
                lemma_page_points_one(own_entry(w, k)[0]);
                assert(own_entry(w, k) =~= seq![own_entry(w, k)[0]]);
            }
        },
    }
}

proof fn lemma_visit_points(w: Seq<Written>, k: OctreeKey, d: int, at: int)
    requires
        keys_of(w).no_duplicates(),
    ensures
        listing_points(visit(w, k, d, at)) == points_under(w, k),
    decreases
            u32::MAX - k.level,
            if d >= PAGE_LEVELS {
                2int
            } else {
                1int
            },
            0int,
{
    if paged_out(w, k, d) {
        let page = visit(w, k, 0, at);
        let l = visit(w, k, d, at);
        lemma_visit_points(w, k, 0, at);
        assert(l.pages.drop_last() =~= page.pages);
        lemma_page_points_one(l.own[0]);
        assert(l.own =~= seq![l.own[0]]);
    } else {
        lemma_kids_points(w, k, d, 8, at);
        lemma_own_points(w, k);
        lemma_page_points_add(own_entry(w, k), visit_kids(w, k, d, 8, at).own);
        lemma_under_splits(w, k);
    }
}

#[verifier::spinoff_prover]
#[verifier::rlimit(30)]
proof fn lemma_kids_points(w: Seq<Written>, k: OctreeKey, d: int, n: int, at: int)
    requires
        keys_of(w).no_duplicates(),
        n <= 8,
    ensures
        listing_points(visit_kids(w, k, d, n, at)) == points_through(w, k, n),
    decreases u32::MAX - k.level, 0int, n,
{
    if n > 0 && can_split(k) {
        let child = k.spec_child((n - 1) as u8);
        if described(w, child) {
            let a = visit(w, child, deeper(d), at);
            let b = visit_kids(w, k, d, n - 1, at + pages_size(a.pages));
            assert(child.level == k.level + 1);
            lemma_visit_points(w, child, deeper(d), at);
            lemma_kids_points(w, k, d, n - 1, at + pages_size(a.pages));
            assert(visit_kids(w, k, d, n, at) == joined(a, b));
            lemma_joined_points(a, b);
        } else {
            assert(visit_kids(w, k, d, n, at) == visit_kids(w, k, d, n - 1, at));
            lemma_nothing_under(w, child);
            lemma_kids_points(w, k, d, n - 1, at);
        }
    }
}

proof fn lemma_all_under(w: Seq<Written>, k: OctreeKey)
    requires
        forall|i: int| 0 <= i < w.len() ==> above(k, (#[trigger] w[i]).key),
    ensures
        points_under(w, k) == written_points(w),
    decreases w.len(),
{
    if w.len() > 0 {
        let shorter = w.drop_last();
        assert(above(k, w[w.len() - 1].key));
        assert forall|i: int| 0 <= i < shorter.len() implies above(k, (#[trigger] shorter[i]).key) by {
            assert(shorter[i] == w[i]);
        }
        lemma_all_under(shorter, k);
    }
}

/// The pages of a tree state, all together, the points of all its nodes: none
/// is left out, and none is counted in two pages.
pub proof fn pages_account_for_every_point(w: Seq<Written>, base: int)
    requires
        keys_of(w).no_duplicates(),
        forall|i: int| 0 <= i < w.len() ==> top((#[trigger] w[i]).key) == top_key(w),
    ensures
        pages_points(all_pages(w, base)) == written_points(w),
{
    reveal(whole_listing);
    let l = whole_listing(w, base);
    assert(all_pages(w, base).drop_last() =~= l.pages);
    lemma_visit_points(w, top_key(w), 0, base);
    assert forall|i: int| 0 <= i < w.len() implies above(top_key(w), (#[trigger] w[i]).key) by {
        lemma_top_above(w[i].key);
    }
    lemma_all_under(w, top_key(w));
}

/// How many entries of a page are for a node itself.
pub open spec fn page_entries(list: Seq<Entry>, k: OctreeKey) -> nat
    decreases list.len(),
{
    if list.len() == 0 {
        0
    } else {
        page_entries(list.drop_last(), k) + if is_entry_of(list.last(), k) {
            1nat
        } else {
            0
        }
    }
}

/// Whether an entry is for a node itself.
pub open spec fn is_entry_of(e: Entry, k: OctreeKey) -> bool {
    e matches Entry::Node { key, .. } && key == k
}

/// How many entries of some pages are for a node itself.
pub open spec fn pages_entries(pages: Seq<Seq<Entry>>, k: OctreeKey) -> nat
    decreases pages.len(),
{
    if pages.len() == 0 {
        0
    } else {
        pages_entries(pages.drop_last(), k) + page_entries(pages.last(), k)
    }
}

spec fn listing_entries(l: Listing, k: OctreeKey) -> nat {
    pages_entries(l.pages, k) + page_entries(l.own, k)
}

proof fn lemma_page_entries_add(a: Seq<Entry>, b: Seq<Entry>, k: OctreeKey)
    ensures
        page_entries(a + b, k) == page_entries(a, k) + page_entries(b, k),
    decreases b.len(),
{
    if b.len() == 0 {
        assert(a + b =~= a);
    } else {
        lemma_page_entries_add(a, b.drop_last(), k);
        assert((a + b).drop_last() =~= a + b.drop_last());
    }
}

proof fn lemma_pages_entries_add(a: Seq<Seq<Entry>>, b: Seq<Seq<Entry>>, k: OctreeKey)
    ensures
        pages_entries(a + b, k) == pages_entries(a, k) + pages_entries(b, k),
    decreases b.len(),
{
    if b.len() == 0 {
        assert(a + b =~= a);
    } else {
        lemma_pages_entries_add(a, b.drop_last(), k);
        assert((a + b).drop_last() =~= a + b.drop_last());
    }
}

proof fn lemma_joined_entries(a: Listing, b: Listing, k: OctreeKey)
    ensures
        listing_entries(joined(a, b), k) == listing_entries(a, k) + listing_entries(b, k),
{
    lemma_pages_entries_add(a.pages, b.pages, k);
    lemma_page_entries_add(a.own, b.own, k);
}

proof fn lemma_page_entries_one(e: Entry, k: OctreeKey)
    ensures
        page_entries(seq![e], k) == if is_entry_of(e, k) {
            1nat
        } else {
            0
        },
{
    assert(seq![e].drop_last() =~= Seq::<Entry>::empty());
    assert(page_entries(Seq::<Entry>::empty(), k) == 0);
}

/// Whether the walk from a node gives an entry for another.
spec fn is_met(w: Seq<Written>, k: OctreeKey, x: OctreeKey) -> bool {
    described(w, x) && above(k, x)
}

/// Through how many of a node's children with an index below `n` the walk meets
/// another node.
spec fn met_through(w: Seq<Written>, k: OctreeKey, x: OctreeKey, n: int) -> nat
    decreases n,
{
    if n <= 0 || !can_split(k) {
        0
    } else {
        met_through(w, k, x, n - 1) + if is_met(w, k.spec_child((n - 1) as u8), x) {
            1nat
        } else {
            0
        }
    }
}

proof fn lemma_not_met(w: Seq<Written>, k: OctreeKey, x: OctreeKey, n: int)
    requires
        n <= 8,
        !is_met(w, k, x) || x == k,
    ensures
        met_through(w, k, x, n) == 0,
    decreases n,
{
    if n > 0 && can_split(k) {
        lemma_not_met(w, k, x, n - 1);
        if above(k.spec_child((n - 1) as u8), x) {
            lemma_above_child(k, x, n - 1);
        }
    }
}

proof fn lemma_met_once(w: Seq<Written>, k: OctreeKey, x: OctreeKey, n: int, c: int)
    requires
        0 <= c < 8,
        n <= 8,
        can_split(k),
        is_met(w, k.spec_child(c as u8), x),
    ensures
        met_through(w, k, x, n) == if c < n {
            1nat
        } else {
            0
        },
    decreases n,
{
    if n > 0 {
        lemma_met_once(w, k, x, n - 1, c);
        if above(k.spec_child((n - 1) as u8), x) {
            lemma_one_child(k, x, n - 1, c);
        }
    }
}

/// A node is met where it is, or through one child.
proof fn lemma_met(w: Seq<Written>, k: OctreeKey, x: OctreeKey)
    ensures
        met_through(w, k, x, 8) == if is_met(w, k, x) && x != k {
            1nat
        } else {
            0
        },
{
    if is_met(w, k, x) && x != k {
        let c = lemma_way_down(k, x);
        lemma_met_once(w, k, x, 8, c);
    } else {
        lemma_not_met(w, k, x, 8);
    }
}

proof fn lemma_own_entries(w: Seq<Written>, k: OctreeKey, x: OctreeKey)
    requires
        described(w, k),
    ensures
        page_entries(own_entry(w, k), x) == if x == k {
            1nat
        } else {
            0
        },
{
    lemma_has_entry(w, k);
    let e = own_entry(w, k)[0];
    assert(own_entry(w, k) =~= seq![e]);
    lemma_page_entries_one(e, x);
}

proof fn lemma_visit_entries(w: Seq<Written>, k: OctreeKey, d: int, at: int, x: OctreeKey)
    requires
        described(w, k),
    ensures
        listing_entries(visit(w, k, d, at), x) == if is_met(w, k, x) {
            1nat
        } else {
            0
        },
    decreases
            u32::MAX - k.level,
            if d >= PAGE_LEVELS {
                2int
            } else {
                1int
            },
            0int,
{
    if paged_out(w, k, d) {
        let page = visit(w, k, 0, at);
        let l = visit(w, k, d, at);
        lemma_visit_entries(w, k, 0, at, x);
        assert(l.pages.drop_last() =~= page.pages);
        lemma_page_entries_one(l.own[0], x);
        assert(l.own =~= seq![l.own[0]]);
    } else {
        lemma_kids_entries(w, k, d, 8, at, x);
        lemma_own_entries(w, k, x);
        lemma_page_entries_add(own_entry(w, k), visit_kids(w, k, d, 8, at).own, x);
        lemma_met(w, k, x);
    }
}

#[verifier::spinoff_prover]
#[verifier::rlimit(30)]
proof fn lemma_kids_entries(
    w: Seq<Written>,
    k: OctreeKey,
    d: int,
    n: int,
    at: int,
    x: OctreeKey,
)
    requires
        n <= 8,
    ensures
        listing_entries(visit_kids(w, k, d, n, at), x) == met_through(w, k, x, n),
    decreases u32::MAX - k.level, 0int, n,
{
    if n > 0 && can_split(k) {
        let child = k.spec_child((n - 1) as u8);
        if described(w, child) {
            let a = visit(w, child, deeper(d), at);
            let b = visit_kids(w, k, d, n - 1, at + pages_size(a.pages));
            assert(child.level == k.level + 1);
            lemma_visit_entries(w, child, deeper(d), at, x);
            lemma_kids_entries(w, k, d, n - 1, at + pages_size(a.pages), x);
            assert(visit_kids(w, k, d, n, at) == joined(a, b));
            lemma_joined_entries(a, b, x);
        } else {
            assert(visit_kids(w, k, d, n, at) == visit_kids(w, k, d, n - 1, at));
            if is_met(w, child, x) {
                lemma_described_above(w, child, x);
            }
            lemma_kids_entries(w, k, d, n - 1, at, x);
        }
    }
}

/// The pages of a tree have one entry for every node that was written and for
/// every ancestor of one, and none for any other: no address has two.
pub proof fn every_node_has_one_entry(w: Seq<Written>, base: int, k: OctreeKey)
    requires
        w.len() > 0,
        forall|i: int| 0 <= i < w.len() ==> top((#[trigger] w[i]).key) == top_key(w),
    ensures
        pages_entries(all_pages(w, base), k) == if described(w, k) {
            1nat
        } else {
            0
        },
{
    reveal(whole_listing);
    let l = whole_listing(w, base);
    let t = top_key(w);
    assert(all_pages(w, base).drop_last() =~= l.pages);
    lemma_top_above(w[0].key);
    assert(described(w, t));
    lemma_visit_entries(w, t, 0, base, k);
    if described(w, k) {
        let i = choose|i: int| 0 <= i < w.len() && above(k, (#[trigger] w[i]).key);
        lemma_tops(k, w[i].key);
        lemma_top_above(k);
    }
}

/// A node has the top that what is below it has.
proof fn lemma_tops(a: OctreeKey, b: OctreeKey)
    requires
        above(a, b),
    ensures
        top(a) == top(b),
    decreases b.level,
{
    if a != b {
        lemma_tops(a, b.spec_parent()->0);
    }
}

/// Whether an entry says of its node what was written of it: where its points
/// are, or zeros for an ancestor that was not written.
pub open spec fn is_true(w: Seq<Written>, e: Entry) -> bool {
    match e {
        Entry::Node { key, offset, byte_size, point_count } => described(w, key) && match node_with(
            w,
            key,
        ) {
            Some(n) => offset == n.byte_offset && byte_size == n.byte_size && point_count
                == n.points,
            None => offset == 0 && byte_size == 0 && point_count == 0,
        },
        Entry::Page { .. } => true,
    }
}

spec fn page_is_true(w: Seq<Written>, list: Seq<Entry>) -> bool {
    forall|i: int| 0 <= i < list.len() ==> is_true(w, #[trigger] list[i])
}

spec fn listing_is_true(w: Seq<Written>, l: Listing) -> bool {
    page_is_true(w, l.own) && forall|p: int|
        0 <= p < l.pages.len() ==> page_is_true(w, #[trigger] l.pages[p])
}

proof fn lemma_joined_true(w: Seq<Written>, a: Listing, b: Listing)
    requires
        listing_is_true(w, a),
        listing_is_true(w, b),
    ensures
        listing_is_true(w, joined(a, b)),
{
    let l = joined(a, b);
    assert forall|i: int| 0 <= i < l.own.len() implies is_true(w, #[trigger] l.own[i]) by {
        if i < a.own.len() {
            assert(l.own[i] == a.own[i]);
        } else {
            assert(l.own[i] == b.own[i - a.own.len()]);
        }
    }
    assert forall|p: int| 0 <= p < l.pages.len() implies page_is_true(w, #[trigger] l.pages[p]) by {
        if p < a.pages.len() {
            assert(l.pages[p] == a.pages[p]);
        } else {
            assert(l.pages[p] == b.pages[p - a.pages.len()]);
        }
    }
}

proof fn lemma_visit_true(w: Seq<Written>, k: OctreeKey, d: int, at: int)
    requires
        described(w, k),
    ensures
        listing_is_true(w, visit(w, k, d, at)),
    decreases
            u32::MAX - k.level,
            if d >= PAGE_LEVELS {
                2int
            } else {
                1int
            },
            0int,
{
    let l = visit(w, k, d, at);
    if paged_out(w, k, d) {
        let page = visit(w, k, 0, at);
        lemma_visit_true(w, k, 0, at);
        assert forall|p: int| 0 <= p < l.pages.len() implies page_is_true(
            w,
            #[trigger] l.pages[p],
        ) by {
            if p < page.pages.len() {
                assert(l.pages[p] == page.pages[p]);
            }
        }
    } else {
        let own = Listing { pages: Seq::empty(), own: own_entry(w, k) };
        let rest = visit_kids(w, k, d, 8, at);
        lemma_kids_true(w, k, d, 8, at);
        assert(page_is_true(w, own.own));
        lemma_joined_true(w, own, rest);
        assert(own.pages + rest.pages =~= rest.pages);
        assert(l == joined(own, rest));
    }
}

#[verifier::spinoff_prover]
#[verifier::rlimit(40)]
proof fn lemma_kids_true(w: Seq<Written>, k: OctreeKey, d: int, n: int, at: int)
    requires
        n <= 8,
    ensures
        listing_is_true(w, visit_kids(w, k, d, n, at)),
    decreases u32::MAX - k.level, 0int, n,
{
    if n > 0 && can_split(k) {
        let child = k.spec_child((n - 1) as u8);
        if described(w, child) {
            let a = visit(w, child, deeper(d), at);
            let b = visit_kids(w, k, d, n - 1, at + pages_size(a.pages));
            assert(child.level == k.level + 1);
            lemma_visit_true(w, child, deeper(d), at);
            lemma_kids_true(w, k, d, n - 1, at + pages_size(a.pages));
            lemma_joined_true(w, a, b);
            assert(visit_kids(w, k, d, n, at) == joined(a, b));
        } else {
            lemma_kids_true(w, k, d, n - 1, at);
            assert(visit_kids(w, k, d, n, at) == visit_kids(w, k, d, n - 1, at));
        }
    }
}

/// Every entry of the pages that is for a node says of it what was written, and
/// is for a written node or for an ancestor of one, with zeros where that
/// ancestor was not written itself.
pub proof fn every_entry_is_true(w: Seq<Written>, base: int, p: int, i: int)
    requires
        w.len() > 0,
        forall|i: int| 0 <= i < w.len() ==> top((#[trigger] w[i]).key) == top_key(w),
        0 <= p < all_pages(w, base).len(),
        0 <= i < all_pages(w, base)[p].len(),
    ensures
        is_true(w, all_pages(w, base)[p][i]),
{
    reveal(whole_listing);
    let l = whole_listing(w, base);
    let t = top_key(w);
    lemma_top_above(w[0].key);
    assert(described(w, t));
    lemma_visit_true(w, t, 0, base);
    if p < l.pages.len() {
        assert(all_pages(w, base)[p] == l.pages[p]);
        assert(page_is_true(w, l.pages[p]));
    }
}

} // verus!
