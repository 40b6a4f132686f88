//! The pages of a COPC hierarchy as a reader meets them: every number fits the
//! field it is written in, so every page is read back, and every reference to a
//! page leads to the bytes of that page.

use super::copc_pages::{
    above, all_pages, deeper, described, every_page_is_reached, lemma_pages_size, own_entry,
    page_reads_back, paged_out, pages_put, pages_size, pages_stand_in_order, refers, subtree_size,
    subtrees_size, top, top_key, visit, visit_kids, whole_listing, Listing, MIN_PAGE_NODES,
    PAGE_LEVELS,
};
use super::copc_total::joined;
use super::hierarchy::{can_split, keys_of, Written};
use super::keys::last_at_is_there;
use crate::error::Failure;
use crate::las::copc::{entry_fits, page_of, Entry};
use crate::octree::OctreeKey;
use vstd::prelude::*;

verus! {

/// Whether the level and the coordinates of a node fit their fields.
pub open spec fn key_fits(k: OctreeKey) -> bool {
    k.level < 0x8000_0000 && k.x < 0x8000_0000 && k.y < 0x8000_0000 && k.z < 0x8000_0000
}

/// Whether what is known of every written node fits its fields.
pub open spec fn nodes_fit(w: Seq<Written>) -> bool {
    forall|i: int|
        0 <= i < w.len() ==> key_fits((#[trigger] w[i]).key) && w[i].byte_size < 0x8000_0000
            && w[i].points < 0x8000_0000
}

/// The most entries that a page leaves to a walk at level `d` of it.
pub open spec fn most_entries(d: int) -> int
    decreases PAGE_LEVELS - d,
{
    if d >= PAGE_LEVELS {
        MIN_PAGE_NODES - 1
    } else {
        1 + 8 * most_entries(d + 1)
    }
}

spec fn page_fits(list: Seq<Entry>) -> bool {
    forall|i: int| 0 <= i < list.len() ==> entry_fits(#[trigger] list[i])
}

spec fn listing_fits(l: Listing) -> bool {
    page_fits(l.own) && forall|p: int|
        0 <= p < l.pages.len() ==> page_fits(#[trigger] l.pages[p])
}

proof fn lemma_joined_fits(a: Listing, b: Listing)
    requires
        listing_fits(a),
        listing_fits(b),
    ensures
        listing_fits(joined(a, b)),
{
    let l = joined(a, b);
    assert forall|i: int| 0 <= i < l.own.len() implies entry_fits(#[trigger] l.own[i]) by {
        if i < a.own.len() {
            assert(l.own[i] == a.own[i]);
        } else {
            assert(l.own[i] == b.own[i - a.own.len()]);
        }
    }
    assert forall|p: int| 0 <= p < l.pages.len() implies page_fits(#[trigger] l.pages[p]) by {
        if p < a.pages.len() {
            assert(l.pages[p] == a.pages[p]);
        } else {
            assert(l.pages[p] == b.pages[p - a.pages.len()]);
        }
    }
}

proof fn lemma_above_fits(a: OctreeKey, b: OctreeKey)
    requires
        above(a, b),
        key_fits(b),
    ensures
        key_fits(a),
    decreases b.level,
{
    if a != b {
        lemma_above_fits(a, b.spec_parent()->0);
    }
}

proof fn lemma_described_fits(w: Seq<Written>, k: OctreeKey)
    requires
        nodes_fit(w),
        described(w, k),
    ensures
        key_fits(k),
{
    let i = choose|i: int| 0 <= i < w.len() && above(k, (#[trigger] w[i]).key);
    lemma_above_fits(k, w[i].key);
}

proof fn lemma_top_fits(k: OctreeKey)
    requires
        key_fits(k),
    ensures
        key_fits(top(k)),
    decreases k.level,
{
    if k.level > 0 {
        lemma_top_fits(k.spec_parent()->0);
    }
}

proof fn lemma_top_key_fits(w: Seq<Written>)
    requires
        nodes_fit(w),
    ensures
        key_fits(top_key(w)),
    decreases w.len(),
{
    if w.len() == 1 {
        lemma_top_fits(w[0].key);
    } else if w.len() > 1 {
        let before = w.drop_last();
        assert forall|i: int| 0 <= i < before.len() implies key_fits((#[trigger] before[i]).key)
            && before[i].byte_size < 0x8000_0000 && before[i].points < 0x8000_0000 by {
            assert(before[i] == w[i]);
        }
        lemma_top_key_fits(before);
        lemma_top_fits(w.last().key);
    }
}

proof fn lemma_own_fits(w: Seq<Written>, k: OctreeKey)
    requires
        nodes_fit(w),
        key_fits(k),
    ensures
        page_fits(own_entry(w, k)),
        own_entry(w, k).len() <= 1,
{
    last_at_is_there(keys_of(w), k);
}

/// Below the levels of a page, a walk leaves no more entries than there are
/// nodes.
proof fn lemma_few_entries(w: Seq<Written>, k: OctreeKey, d: int, at: int)
    requires
        d >= PAGE_LEVELS,
    ensures
        visit(w, k, d, at).own.len() <= subtree_size(w, k),
        visit(w, k, d, at).own.len() < MIN_PAGE_NODES,
    decreases u32::MAX - k.level, 1int, 0int,
{
    if !paged_out(w, k, d) {
        lemma_few_below(w, k, d, 8, at);
        assert(own_entry(w, k).len() <= 1);
    }
}

proof fn lemma_few_below(w: Seq<Written>, k: OctreeKey, d: int, n: int, at: int)
    requires
        d >= PAGE_LEVELS,
        n <= 8,
    ensures
        visit_kids(w, k, d, n, at).own.len() <= subtrees_size(w, k, n),
    decreases u32::MAX - k.level, 0int, n,
{
    if n > 0 && can_split(k) {
        let child = k.spec_child((n - 1) as u8);
        if described(w, child) {
            let a = visit(w, child, deeper(d), at);
            assert(child.level == k.level + 1);
            lemma_few_entries(w, child, deeper(d), at);
            lemma_few_below(w, k, d, n - 1, at + pages_size(a.pages));
        } else {
            lemma_few_below(w, k, d, n - 1, at);
        }
    }
}

proof fn lemma_most_entries(d: int)
    requires
        0 <= d,
    ensures
        1 <= most_entries(d) <= 127_561,
{
    reveal_with_fuel(most_entries, 5);
    assert(most_entries(4) == 31);
    assert(most_entries(3) == 249);
    assert(most_entries(2) == 1_993);
    assert(most_entries(1) == 15_945);
    assert(most_entries(0) == 127_561);
}

/// A walk at level `d` of a page leaves it a bounded number of entries, however
/// many nodes there are.
proof fn lemma_page_is_bounded(w: Seq<Written>, k: OctreeKey, d: int, at: int)
    requires
        0 <= d,
    ensures
        visit(w, k, d, at).own.len() <= most_entries(d),
    decreases u32::MAX - k.level, 1int, 0int,
{
    if d >= PAGE_LEVELS {
        lemma_few_entries(w, k, d, at);
    } else {
        lemma_kids_are_bounded(w, k, d, 8, at);
        assert(own_entry(w, k).len() <= 1);
    }
}

proof fn lemma_kids_are_bounded(w: Seq<Written>, k: OctreeKey, d: int, n: int, at: int)
    requires
        0 <= d < PAGE_LEVELS,
        0 <= n <= 8,
    ensures
        visit_kids(w, k, d, n, at).own.len() <= n * most_entries(d + 1),
    decreases u32::MAX - k.level, 0int, n,
{
    lemma_most_entries(d + 1);
    let m = most_entries(d + 1);
    if n > 0 && can_split(k) {
        let child = k.spec_child((n - 1) as u8);
        if described(w, child) {
            let a = visit(w, child, deeper(d), at);
            assert(child.level == k.level + 1);
            lemma_page_is_bounded(w, child, deeper(d), at);
            lemma_kids_are_bounded(w, k, d, n - 1, at + pages_size(a.pages));
        } else {
            lemma_kids_are_bounded(w, k, d, n - 1, at);
        }
        assert((n - 1) * m + m == n * m) by (nonlinear_arith);
    }
    assert(0 <= n * m) by (nonlinear_arith)
        requires
            0 <= n,
            0 <= m,
    ;
}

#[verifier::spinoff_prover]
#[verifier::rlimit(40)]
proof fn lemma_visit_fits(w: Seq<Written>, k: OctreeKey, d: int, at: int)
    requires
        nodes_fit(w),
        key_fits(k),
    ensures
        listing_fits(visit(w, k, d, at)),
    decreases
            u32::MAX - k.level,
            if d >= PAGE_LEVELS {
                2int
            } else {
                1int
            },
            0int,
{
    let l = visit(w, k, d, at);
    if paged_out(w, k, d) {
        let page = visit(w, k, 0, at);
        lemma_visit_fits(w, k, 0, at);
        lemma_page_is_bounded(w, k, 0, at);
        lemma_most_entries(0);
        assert(entry_fits(l.own[0]));
        assert forall|p: int| 0 <= p < l.pages.len() implies page_fits(#[trigger] l.pages[p]) by {
            if p < page.pages.len() {
                assert(l.pages[p] == page.pages[p]);
            }
        }
    } else {
        let own = Listing { pages: Seq::empty(), own: own_entry(w, k) };
        let rest = visit_kids(w, k, d, 8, at);
        lemma_own_fits(w, k);
        lemma_kids_fit(w, k, d, 8, at);
        lemma_joined_fits(own, rest);
        assert(own.pages + rest.pages =~= rest.pages);
        assert(l == joined(own, rest));
    }
}

#[verifier::spinoff_prover]
#[verifier::rlimit(40)]
proof fn lemma_kids_fit(w: Seq<Written>, k: OctreeKey, d: int, n: int, at: int)
    requires
        nodes_fit(w),
        n <= 8,
    ensures
        listing_fits(visit_kids(w, k, d, n, at)),
    decreases u32::MAX - k.level, 0int, n,
{
    if n > 0 && can_split(k) {
        let child = k.spec_child((n - 1) as u8);
        if described(w, child) {
            let a = visit(w, child, deeper(d), at);
            let b = visit_kids(w, k, d, n - 1, at + pages_size(a.pages));
            assert(child.level == k.level + 1);
            lemma_described_fits(w, child);
            lemma_visit_fits(w, child, deeper(d), at);
            lemma_kids_fit(w, k, d, n - 1, at + pages_size(a.pages));
            lemma_joined_fits(a, b);
            assert(visit_kids(w, k, d, n, at) == joined(a, b));
        } else {
            lemma_kids_fit(w, k, d, n - 1, at);
            assert(visit_kids(w, k, d, n, at) == visit_kids(w, k, d, n - 1, at));
        }
    }
}

/// Every entry of the pages fits its fields, where the keys, the sizes and the
/// counts of the written nodes do. A reference to a page does so however large
/// the tree is.
pub proof fn every_entry_fits(w: Seq<Written>, base: int, p: int, i: int)
    requires
        nodes_fit(w),
        0 <= p < all_pages(w, base).len(),
        0 <= i < all_pages(w, base)[p].len(),
    ensures
        entry_fits(all_pages(w, base)[p][i]),
{
    reveal(whole_listing);
    let l = whole_listing(w, base);
    lemma_top_key_fits(w);
    lemma_visit_fits(w, top_key(w), 0, base);
    if p < l.pages.len() {
        assert(all_pages(w, base)[p] == l.pages[p]);
        assert(page_fits(l.pages[p]));
    }
}

/// Every page that was written is read back: the bytes where it stands are read
/// as its entries.
pub proof fn every_page_reads_back(w: Seq<Written>, base: int, p: int, label: Seq<char>)
    requires
        nodes_fit(w),
        0 <= p < all_pages(w, base).len(),
    ensures
        ({
            let pages = all_pages(w, base);
            let from = pages_size(pages.take(p));
            page_of(pages_put(pages).subrange(from, from + 32 * pages[p].len()), label) == Ok::<
                Seq<Entry>,
                Failure,
            >(pages[p])
        }),
{
    let pages = all_pages(w, base);
    assert forall|i: int| 0 <= i < pages[p].len() implies entry_fits(#[trigger] pages[p][i]) by {
        every_entry_fits(w, base, p, i);
    }
    page_reads_back(pages[p], label);
    pages_stand_in_order(pages, p);
}

/// Whether an entry is a reference that leads to a page: the bytes it names, of
/// pages that start at byte `base`, are read as that page.
pub open spec fn leads_to(
    e: Entry,
    pages: Seq<Seq<Entry>>,
    base: int,
    p: int,
    label: Seq<char>,
) -> bool {
    e matches Entry::Page { offset, byte_size, .. } && page_of(
        pages_put(pages).subrange(offset - base, offset - base + byte_size),
        label,
    ) == Ok::<Seq<Entry>, Failure>(pages[p])
}

pub(crate) proof fn lemma_place(e: Entry, pages: Seq<Seq<Entry>>, base: int, p: int)
    requires
        0 <= p < pages.len(),
        0 <= base,
        base + pages_size(pages) <= u64::MAX,
        refers(e, pages, p, base),
    ensures
        e matches Entry::Page { offset, byte_size, .. } && offset - base == pages_size(
            pages.take(p),
        ) && byte_size == 32 * pages[p].len(),
{
    pages_stand_in_order(pages, p);
    lemma_pages_size(pages);
}

pub(crate) proof fn lemma_leads(
    e: Entry,
    pages: Seq<Seq<Entry>>,
    base: int,
    p: int,
    label: Seq<char>,
    from: int,
    to: int,
)
    requires
        e matches Entry::Page { offset, byte_size, .. } && offset - base == from && byte_size == to
            - from,
        page_of(pages_put(pages).subrange(from, to), label) == Ok::<Seq<Entry>, Failure>(pages[p]),
    ensures
        leads_to(e, pages, base, p, label),
{
}

/// Every page but the root's is read by following a reference from a later page,
/// where the pages end within what 64 bits address.
#[verifier::spinoff_prover]
#[verifier::rlimit(40)]
pub proof fn every_page_can_be_followed(w: Seq<Written>, base: int, p: int, label: Seq<char>)
    requires
        nodes_fit(w),
        0 <= base,
        base + pages_size(all_pages(w, base)) <= u64::MAX,
        0 <= p < all_pages(w, base).len() - 1,
    ensures
        exists|q: int, i: int|
            p < q < all_pages(w, base).len() && 0 <= i < all_pages(w, base)[q].len() && leads_to(
                #[trigger] all_pages(w, base)[q][i],
                all_pages(w, base),
                base,
                p,
                label,
            ),
{
    let pages = all_pages(w, base);
    every_page_is_reached(w, base, p);
    let (q, i) = choose|q: int, i: int|
        p < q < pages.len() && 0 <= i < pages[q].len() && refers(
            #[trigger] pages[q][i],
            pages,
            p,
            base,
        );
    every_page_reads_back(w, base, p, label);
    lemma_place(pages[q][i], pages, base, p);
    let from = pages_size(pages.take(p));
    let to = from + 32 * pages[p].len();
    lemma_leads(pages[q][i], pages, base, p, label, from, to);
}

} // verus!
