//! The references between the pages of a COPC hierarchy: every one leads to one
//! page, before the one it stands in, and every page but the root's has one.

use super::copc_fits::{every_page_reads_back, leads_to, lemma_leads, lemma_place, nodes_fit};
use super::copc_pages::{
    all_pages, deeper, described, every_page_is_reached, lemma_has_entry, lemma_pages_add,
    lemma_pages_size, lemma_take_add, lemma_top_above, own_entry, paged_out, pages_size,
    refers, top, top_key, visit, visit_kids, whole_listing, Listing,
    PAGE_LEVELS,
};
use super::copc_total::{
    every_node_has_one_entry, is_entry_of, joined, page_entries, pages_entries,
};
use super::hierarchy::{can_split, Written};
use crate::las::copc::Entry;
use crate::octree::OctreeKey;
use vstd::prelude::*;

verus! {

/// Whether a walk lists an entry `i` in page `q`; the page it is in counts as the
/// last.
spec fn is_place(l: Listing, q: int, i: int) -> bool {
    0 <= q <= l.pages.len() && 0 <= i < l.pages.push(l.own)[q].len()
}

spec fn entry_at(l: Listing, q: int, i: int) -> Entry {
    l.pages.push(l.own)[q][i]
}

/// Whether an entry of a walk refers to page `p`.
spec fn is_link(l: Listing, at: int, p: int, q: int, i: int) -> bool {
    0 <= p < l.pages.len() && is_place(l, q, i) && refers(entry_at(l, q, i), l.pages, p, at)
}

/// Whether an entry of a walk refers to a page before its own, if to any.
spec fn is_led(l: Listing, at: int, q: int, i: int) -> bool {
    entry_at(l, q, i) is Page ==> exists|p: int| p < q && #[trigger] is_link(l, at, p, q, i)
}

/// Whether every page of a walk starts with a node.
spec fn are_full(pages: Seq<Seq<Entry>>) -> bool {
    forall|p: int|
        0 <= p < pages.len() ==> (#[trigger] pages[p]).len() > 0 && pages[p][0] is Node
}

/// Whether every reference of a walk leads to a page before its own, and no page
/// has two.
#[verifier::opaque]
spec fn is_neat(l: Listing, at: int) -> bool {
    &&& are_full(l.pages)
    &&& forall|q: int, i: int| #[trigger] is_place(l, q, i) ==> is_led(l, at, q, i)
    &&& forall|p: int, q: int, i: int, r: int, j: int|
        #[trigger] is_link(l, at, p, q, i) && #[trigger] is_link(l, at, p, r, j) ==> q == r && i
            == j
}

proof fn lemma_take_grows(pages: Seq<Seq<Entry>>, a: int, b: int)
    requires
        are_full(pages),
        0 <= a < b <= pages.len(),
    ensures
        0 <= pages_size(pages.take(a)) < pages_size(pages.take(b)),
        pages_size(pages.take(b)) <= pages_size(pages),
    decreases b - a,
{
    lemma_pages_size(pages.take(a));
    assert(pages.take(b).drop_last() =~= pages.take(b - 1));
    assert(pages.take(b).last() == pages[b - 1]);
    if a < b - 1 {
        lemma_take_grows(pages, a, b - 1);
    }
    lemma_pages_add(pages.take(b), pages.skip(b));
    assert(pages.take(b) + pages.skip(b) =~= pages);
    lemma_pages_size(pages.skip(b));
}

/// An entry refers to one page at most.
proof fn lemma_one_target(e: Entry, pages: Seq<Seq<Entry>>, at: int, a: int, b: int)
    requires
        are_full(pages),
        0 <= at,
        at + pages_size(pages) <= u64::MAX,
        0 <= a < pages.len(),
        0 <= b < pages.len(),
        refers(e, pages, a, at),
        refers(e, pages, b, at),
    ensures
        a == b,
{
    lemma_take_grows(pages, a, a + 1);
    lemma_take_grows(pages, b, b + 1);
    if a < b {
        lemma_take_grows(pages, a, b);
    } else if b < a {
        lemma_take_grows(pages, b, a);
    }
}

/// A reference among the first of two walks is one among both, and the other way
/// round.
proof fn lemma_link_first(a: Listing, b: Listing, at: int, p: int, e: Entry)
    requires
        0 <= p < a.pages.len(),
    ensures
        refers(e, joined(a, b).pages, p, at) == refers(e, a.pages, p, at),
{
    assert((a.pages + b.pages).take(p) =~= a.pages.take(p));
}

proof fn lemma_link_second(a: Listing, b: Listing, at: int, p: int, e: Entry)
    requires
        0 <= p < b.pages.len(),
    ensures
        refers(e, joined(a, b).pages, a.pages.len() + p, at) == refers(
            e,
            b.pages,
            p,
            at + pages_size(a.pages),
        ),
{
    lemma_take_add(a.pages, b.pages, p);
}

/// Where an entry of two walks comes from: the first or the second, and where in
/// it.
spec fn came_from(a: Listing, b: Listing, q: int, i: int) -> (bool, int, int) {
    if q < a.pages.len() {
        (true, q, i)
    } else if q < a.pages.len() + b.pages.len() {
        (false, q - a.pages.len(), i)
    } else if i < a.own.len() {
        (true, a.pages.len() as int, i)
    } else {
        (false, b.pages.len() as int, i - a.own.len())
    }
}

proof fn lemma_came_from(a: Listing, b: Listing, q: int, i: int)
    requires
        is_place(joined(a, b), q, i),
    ensures
        ({
            let (first, r, j) = came_from(a, b, q, i);
            let l = if first {
                a
            } else {
                b
            };
            is_place(l, r, j) && entry_at(joined(a, b), q, i) == entry_at(l, r, j)
        }),
{
}

/// Which page a reference of two walks leads to: one of those of the walk it
/// comes from.
proof fn lemma_led_in_both(a: Listing, b: Listing, at: int, q: int, i: int)
    requires
        is_neat(a, at),
        is_neat(b, at + pages_size(a.pages)),
        is_place(joined(a, b), q, i),
        entry_at(joined(a, b), q, i) is Page,
    ensures
        ({
            let (first, r, j) = came_from(a, b, q, i);
            exists|p: int|
                {
                    &&& p < q
                    &&& #[trigger] is_link(joined(a, b), at, p, q, i)
                    &&& first ==> p < a.pages.len() && is_link(a, at, p, r, j)
                    &&& !first ==> p >= a.pages.len() && is_link(
                        b,
                        at + pages_size(a.pages),
                        p - a.pages.len(),
                        r,
                        j,
                    )
                }
        }),
{
    reveal(is_neat);
    let (first, r, j) = came_from(a, b, q, i);
    let l = joined(a, b);
    let e = entry_at(l, q, i);
    lemma_came_from(a, b, q, i);
    if first {
        assert(is_led(a, at, r, j));
        let p = choose|p: int| p < r && #[trigger] is_link(a, at, p, r, j);
        lemma_link_first(a, b, at, p, e);
        assert(is_link(l, at, p, q, i));
    } else {
        let from = at + pages_size(a.pages);
        assert(is_led(b, from, r, j));
        let p = choose|p: int| p < r && #[trigger] is_link(b, from, p, r, j);
        lemma_link_second(a, b, at, p, e);
        assert(is_link(l, at, a.pages.len() + p, q, i));
    }
}

#[verifier::spinoff_prover]
#[verifier::rlimit(40)]
proof fn lemma_joined_neat(a: Listing, b: Listing, at: int)
    requires
        is_neat(a, at),
        is_neat(b, at + pages_size(a.pages)),
        0 <= at,
        at + pages_size(joined(a, b).pages) <= u64::MAX,
    ensures
        is_neat(joined(a, b), at),
{
    reveal(is_neat);
    let l = joined(a, b);
    let from = at + pages_size(a.pages);
    assert forall|p: int| 0 <= p < l.pages.len() implies (#[trigger] l.pages[p]).len() > 0
        && l.pages[p][0] is Node by {
        if p < a.pages.len() {
            assert(l.pages[p] == a.pages[p]);
        } else {
            assert(l.pages[p] == b.pages[p - a.pages.len()]);
        }
    }
    assert forall|q: int, i: int| #[trigger] is_place(l, q, i) implies is_led(l, at, q, i) by {
        if entry_at(l, q, i) is Page {
            lemma_led_in_both(a, b, at, q, i);
        }
    }
    assert forall|p: int, q: int, i: int, r: int, j: int|
        #[trigger] is_link(l, at, p, q, i) && #[trigger] is_link(l, at, p, r, j) implies q == r && i
        == j by {
        let (x, xq, xi) = came_from(a, b, q, i);
        let (y, yq, yi) = came_from(a, b, r, j);
        lemma_led_in_both(a, b, at, q, i);
        lemma_led_in_both(a, b, at, r, j);
        let m = choose|m: int|
            {
                &&& m < q
                &&& #[trigger] is_link(l, at, m, q, i)
                &&& x ==> m < a.pages.len() && is_link(a, at, m, xq, xi)
                &&& !x ==> m >= a.pages.len() && is_link(b, from, m - a.pages.len(), xq, xi)
            };
        let n = choose|n: int|
            {
                &&& n < r
                &&& #[trigger] is_link(l, at, n, r, j)
                &&& y ==> n < a.pages.len() && is_link(a, at, n, yq, yi)
                &&& !y ==> n >= a.pages.len() && is_link(b, from, n - a.pages.len(), yq, yi)
            };
        lemma_one_target(entry_at(l, q, i), l.pages, at, p, m);
        lemma_one_target(entry_at(l, r, j), l.pages, at, p, n);
        assert(x == y);
        if x {
            assert(is_link(a, at, p, xq, xi) && is_link(a, at, p, yq, yi));
        } else {
            assert(is_link(b, from, p - a.pages.len(), xq, xi));
            assert(is_link(b, from, p - a.pages.len(), yq, yi));
        }
        assert(xq == yq && xi == yi);
    }
}

/// A page that is closed, with the reference to it, keeps the references neat.
proof fn lemma_closed_neat(page: Listing, e: Entry, at: int)
    requires
        is_neat(page, at),
        page.own.len() > 0,
        page.own[0] is Node,
        0 <= at,
        at + pages_size(page.pages.push(page.own)) <= u64::MAX,
        refers(e, page.pages.push(page.own), page.pages.len() as int, at),
    ensures
        is_neat((Listing { pages: page.pages.push(page.own), own: seq![e] }), at),
{
    reveal(is_neat);
    let l = Listing { pages: page.pages.push(page.own), own: seq![e] };
    let last = page.pages.len() as int;
    assert forall|p: int| 0 <= p < l.pages.len() implies (#[trigger] l.pages[p]).len() > 0
        && l.pages[p][0] is Node by {
        if p < last {
            assert(l.pages[p] == page.pages[p]);
        }
    }
    assert forall|q: int, i: int| #[trigger] is_place(l, q, i) implies is_led(l, at, q, i) by {
        if q <= last {
            if entry_at(l, q, i) is Page {
                let p = lemma_led_within(page, e, at, q, i);
                assert(is_link(l, at, p, q, i));
            }
        } else {
            assert(is_link(l, at, last, q, i));
        }
    }
    assert forall|p: int, q: int, i: int, r: int, j: int|
        #[trigger] is_link(l, at, p, q, i) && #[trigger] is_link(l, at, p, r, j) implies q == r && i
        == j by {
        if q <= last {
            let m = lemma_led_within(page, e, at, q, i);
            lemma_one_target(entry_at(l, q, i), l.pages, at, p, m);
        } else {
            lemma_one_target(entry_at(l, q, i), l.pages, at, p, last);
        }
        if r <= last {
            let m = lemma_led_within(page, e, at, r, j);
            lemma_one_target(entry_at(l, r, j), l.pages, at, p, m);
        } else {
            lemma_one_target(entry_at(l, r, j), l.pages, at, p, last);
        }
        if q <= last {
            assert(is_link(page, at, p, q, i) && is_link(page, at, p, r, j));
        }
    }
}

proof fn lemma_led_within(page: Listing, e: Entry, at: int, q: int, i: int) -> (p: int)
    requires
        is_neat(page, at),
        ({
            let l = Listing { pages: page.pages.push(page.own), own: seq![e] };
            is_place(l, q, i) && q <= page.pages.len() && entry_at(l, q, i) is Page
        }),
    ensures
        ({
            let l = Listing { pages: page.pages.push(page.own), own: seq![e] };
            p < q && p < page.pages.len() && is_link(page, at, p, q, i) && is_link(l, at, p, q, i)
        }),
{
    reveal(is_neat);
    let l = Listing { pages: page.pages.push(page.own), own: seq![e] };
    assert(l.pages.push(l.own)[q] == page.pages.push(page.own)[q]);
    assert(is_place(page, q, i));
    assert(is_led(page, at, q, i));
    let p = choose|p: int| p < q && #[trigger] is_link(page, at, p, q, i);
    assert(l.pages.take(p) =~= page.pages.take(p));
    assert(l.pages[p] == page.pages[p]);
    p
}

proof fn lemma_visit_neat(w: Seq<Written>, k: OctreeKey, d: int, at: int)
    requires
        described(w, k),
        0 <= at,
        at + pages_size(visit(w, k, d, at).pages) <= u64::MAX,
    ensures
        is_neat(visit(w, k, d, at), at),
        visit(w, k, d, at).own.len() > 0,
        !paged_out(w, k, d) ==> visit(w, k, d, at).own[0] is Node,
    decreases
            u32::MAX - k.level,
            if d >= PAGE_LEVELS {
                2int
            } else {
                1int
            },
            0int,
{
    let l = visit(w, k, d, at);
    if paged_out(w, k, d) {
        let page = visit(w, k, 0, at);
        assert(l.pages.drop_last() =~= page.pages);
        lemma_pages_size(page.pages);
        lemma_visit_neat(w, k, 0, at);
        assert(l.pages.take(page.pages.len() as int) =~= page.pages);
        lemma_closed_neat(page, l.own[0], at);
        assert(l.own =~= seq![l.own[0]]);
    } else {
        let own = Listing { pages: Seq::empty(), own: own_entry(w, k) };
        let rest = visit_kids(w, k, d, 8, at);
        lemma_has_entry(w, k);
        lemma_kids_neat(w, k, d, 8, at);
        assert(is_neat(own, at)) by {
            reveal(is_neat);
            assert forall|q: int, i: int| #[trigger] is_place(own, q, i) implies is_led(
                own,
                at,
                q,
                i,
            ) by {
                assert(entry_at(own, q, i) == own_entry(w, k)[i]);
            }
        }
        assert(own.pages + rest.pages =~= rest.pages);
        assert(l == joined(own, rest));
        assert(l.own[0] == own_entry(w, k)[0]);
        lemma_joined_neat(own, rest, at);
    }
}

#[verifier::spinoff_prover]
#[verifier::rlimit(40)]
proof fn lemma_kids_neat(w: Seq<Written>, k: OctreeKey, d: int, n: int, at: int)
    requires
        n <= 8,
        0 <= at,
        at + pages_size(visit_kids(w, k, d, n, at).pages) <= u64::MAX,
    ensures
        is_neat(visit_kids(w, k, d, n, at), at),
    decreases u32::MAX - k.level, 0int, n,
{
    let l = visit_kids(w, k, d, n, at);
    if n > 0 && can_split(k) {
        let child = k.spec_child((n - 1) as u8);
        if described(w, child) {
            let a = visit(w, child, deeper(d), at);
            let from = at + pages_size(a.pages);
            let b = visit_kids(w, k, d, n - 1, from);
            assert(child.level == k.level + 1);
            lemma_pages_add(a.pages, b.pages);
            lemma_pages_size(a.pages);
            lemma_pages_size(b.pages);
            lemma_visit_neat(w, child, deeper(d), at);
            lemma_kids_neat(w, k, d, n - 1, from);
            lemma_joined_neat(a, b, at);
            assert(l == joined(a, b));
        } else {
            lemma_kids_neat(w, k, d, n - 1, at);
        }
    } else {
        lemma_nothing_neat(at);
    }
}

proof fn lemma_nothing_neat(at: int)
    ensures
        is_neat((Listing { pages: Seq::empty(), own: Seq::empty() }), at),
{
    reveal(is_neat);
}

proof fn lemma_pages_neat(w: Seq<Written>, base: int)
    requires
        w.len() > 0,
        forall|i: int| 0 <= i < w.len() ==> top((#[trigger] w[i]).key) == top_key(w),
        0 <= base,
        base + pages_size(all_pages(w, base)) <= u64::MAX,
    ensures
        is_neat(whole_listing(w, base), base),
        are_full(all_pages(w, base)),
{
    reveal(is_neat);
    reveal(whole_listing);
    let l = whole_listing(w, base);
    let t = top_key(w);
    assert(all_pages(w, base).drop_last() =~= l.pages);
    lemma_top_above(w[0].key);
    assert(described(w, t));
    lemma_visit_neat(w, t, 0, base);
    assert forall|p: int| 0 <= p < all_pages(w, base).len() implies (#[trigger] all_pages(
        w,
        base,
    )[p]).len() > 0 && all_pages(w, base)[p][0] is Node by {
        if p < l.pages.len() {
            assert(all_pages(w, base)[p] == l.pages[p]);
        }
    }
}

proof fn lemma_entry_counts(list: Seq<Entry>, i: int, k: OctreeKey)
    requires
        0 <= i < list.len(),
        is_entry_of(list[i], k),
    ensures
        page_entries(list, k) > 0,
    decreases list.len(),
{
    if i < list.len() - 1 {
        lemma_entry_counts(list.drop_last(), i, k);
    }
}

proof fn lemma_page_counts(pages: Seq<Seq<Entry>>, p: int, k: OctreeKey)
    requires
        0 <= p < pages.len(),
    ensures
        pages_entries(pages, k) >= page_entries(pages[p], k),
    decreases pages.len(),
{
    if p < pages.len() - 1 {
        lemma_page_counts(pages.drop_last(), p, k);
    }
}

proof fn lemma_two_pages_count(pages: Seq<Seq<Entry>>, p: int, q: int, k: OctreeKey)
    requires
        0 <= p < q < pages.len(),
    ensures
        pages_entries(pages, k) >= page_entries(pages[p], k) + page_entries(pages[q], k),
    decreases pages.len(),
{
    if q < pages.len() - 1 {
        lemma_two_pages_count(pages.drop_last(), p, q, k);
    } else {
        lemma_page_counts(pages.drop_last(), p, k);
    }
}

/// No two pages of a tree are the same.
proof fn lemma_pages_differ(w: Seq<Written>, base: int, p: int, q: int)
    requires
        w.len() > 0,
        forall|i: int| 0 <= i < w.len() ==> top((#[trigger] w[i]).key) == top_key(w),
        0 <= base,
        base + pages_size(all_pages(w, base)) <= u64::MAX,
        0 <= p < q < all_pages(w, base).len(),
    ensures
        all_pages(w, base)[p] != all_pages(w, base)[q],
{
    let pages = all_pages(w, base);
    lemma_pages_neat(w, base);
    assert(pages[p].len() > 0 && pages[p][0] is Node);
    match pages[p][0] {
        Entry::Node { key, .. } => {
            every_node_has_one_entry(w, base, key);
            lemma_entry_counts(pages[p], 0, key);
            lemma_two_pages_count(pages, p, q, key);
        },
        Entry::Page { .. } => {},
    }
}

/// Every reference in the pages of a tree leads to exactly one page, before the
/// one it stands in: the bytes it names are read as that page, and as no other.
pub proof fn every_reference_leads_to_one_page(
    w: Seq<Written>,
    base: int,
    p: int,
    i: int,
    label: Seq<char>,
)
    requires
        w.len() > 0,
        forall|j: int| 0 <= j < w.len() ==> top((#[trigger] w[j]).key) == top_key(w),
        nodes_fit(w),
        0 <= base,
        base + pages_size(all_pages(w, base)) <= u64::MAX,
        0 <= p < all_pages(w, base).len(),
        0 <= i < all_pages(w, base)[p].len(),
        all_pages(w, base)[p][i] is Page,
    ensures
        exists|q: int|
            0 <= q < p && #[trigger] leads_to(
                all_pages(w, base)[p][i],
                all_pages(w, base),
                base,
                q,
                label,
            ),
        forall|q: int, r: int|
            {
                &&& 0 <= q < all_pages(w, base).len()
                &&& 0 <= r < all_pages(w, base).len()
                &&& #[trigger] leads_to(
                    all_pages(w, base)[p][i],
                    all_pages(w, base),
                    base,
                    q,
                    label,
                )
                &&& #[trigger] leads_to(
                    all_pages(w, base)[p][i],
                    all_pages(w, base),
                    base,
                    r,
                    label,
                )
            } ==> q == r,
{
    reveal(is_neat);
    let pages = all_pages(w, base);
    let l = whole_listing(w, base);
    let e = pages[p][i];
    lemma_pages_neat(w, base);
    assert(is_place(l, p, i));
    assert(is_led(l, base, p, i));
    let q = choose|q: int| q < p && #[trigger] is_link(l, base, q, p, i);
    assert(pages.take(q) =~= l.pages.take(q));
    assert(pages[q] == l.pages[q]);
    every_page_reads_back(w, base, q, label);
    lemma_place(e, pages, base, q);
    let from = pages_size(pages.take(q));
    lemma_leads(e, pages, base, q, label, from, from + 32 * pages[q].len());
    assert forall|q: int, r: int|
        {
            &&& 0 <= q < pages.len()
            &&& 0 <= r < pages.len()
            &&& #[trigger] leads_to(e, pages, base, q, label)
            &&& #[trigger] leads_to(e, pages, base, r, label)
        } implies q == r by {
        if q < r {
            lemma_pages_differ(w, base, q, r);
        } else if r < q {
            lemma_pages_differ(w, base, r, q);
        }
    }
}

/// Every page of a tree but the root's has exactly one reference.
pub proof fn every_page_has_one_reference(w: Seq<Written>, base: int, p: int)
    requires
        w.len() > 0,
        forall|i: int| 0 <= i < w.len() ==> top((#[trigger] w[i]).key) == top_key(w),
        0 <= base,
        base + pages_size(all_pages(w, base)) <= u64::MAX,
        0 <= p < all_pages(w, base).len() - 1,
    ensures
        exists|q: int, i: int|
            0 <= q < all_pages(w, base).len() && 0 <= i < all_pages(w, base)[q].len() && refers(
                #[trigger] all_pages(w, base)[q][i],
                all_pages(w, base),
                p,
                base,
            ),
        forall|q: int, i: int, r: int, j: int|
            {
                &&& 0 <= q < all_pages(w, base).len()
                &&& 0 <= i < all_pages(w, base)[q].len()
                &&& 0 <= r < all_pages(w, base).len()
                &&& 0 <= j < all_pages(w, base)[r].len()
                &&& refers(#[trigger] all_pages(w, base)[q][i], all_pages(w, base), p, base)
                &&& refers(#[trigger] all_pages(w, base)[r][j], all_pages(w, base), p, base)
            } ==> q == r && i == j,
{
    reveal(is_neat);
    let pages = all_pages(w, base);
    let l = whole_listing(w, base);
    lemma_pages_neat(w, base);
    every_page_is_reached(w, base, p);
    assert(pages.take(p) =~= l.pages.take(p));
    assert(pages[p] == l.pages[p]);
    assert forall|q: int, i: int, r: int, j: int|
        {
            &&& 0 <= q < pages.len()
            &&& 0 <= i < pages[q].len()
            &&& 0 <= r < pages.len()
            &&& 0 <= j < pages[r].len()
            &&& refers(#[trigger] pages[q][i], pages, p, base)
            &&& refers(#[trigger] pages[r][j], pages, p, base)
        } implies q == r && i == j by {
        assert(is_link(l, base, p, q, i));
        assert(is_link(l, base, p, r, j));
    }
}

} // verus!
