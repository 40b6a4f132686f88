//! A COPC hierarchy that was written, walked by its reader: the reader is led
//! from the root page to every page, to each of them once, and counts every node.

use super::account::{
    lemma_tally_counts, lemma_tally_on, lemma_told_add, lemma_told_twice, lemma_told_where, points_told,
    told,
};
use super::copc_fits::{every_page_reads_back, key_fits, nodes_fit};
use super::copc_pages::{
    above, all_pages, deeper, described, lemma_has_entry, lemma_pages_add, lemma_pages_size,
    lemma_take_add, lemma_top_above, own_entry, paged_out, pages_put, pages_size,
    the_grid_hangs_from_the_root, top, top_key, visit, visit_kids, whole_listing, PAGE_LEVELS,
};
use super::copc_total::{
    every_entry_is_true, every_node_has_one_entry, is_true, page_entries, page_points,
    pages_account_for_every_point, pages_entries, pages_points, written_points,
};
use super::hierarchy::{can_split, keys_of, node_with, Written};
use super::read_back::is_tree;
use crate::build::whole::on_grid;
use crate::cloud::{sum, wrap64, NodeInfo, Tally};
use crate::error::Failure;
use crate::format::copc::{
    absorbed, advance, at_start, nodes_in, pages_in, Pending, Progress,
};
use crate::las::copc::{page_of, CopcInfo, Entry};
use crate::octree::OctreeKey;
use vstd::arithmetic::power2::{lemma2_to64, lemma_pow2_strictly_increases};
use vstd::prelude::*;

verus! {

/// One step of a reader through a file whose first byte is byte `base`: it is
/// asked what it wants, and handed that.
pub open spec fn read_next(v: Progress, file: Seq<u8>, base: int) -> Result<Progress, Failure> {
    match advance(v) {
        (u, None) => Ok(u),
        (u, Some((offset, size))) => absorbed(
            u,
            file.subrange(offset - base, offset - base + size),
        ),
    }
}

/// A reader after `n` steps.
pub open spec fn walked(v: Progress, file: Seq<u8>, base: int, n: nat) -> Result<Progress, Failure>
    decreases n,
{
    if n == 0 {
        Ok(v)
    } else {
        match walked(v, file, base, (n - 1) as nat) {
            Ok(u) => read_next(u, file, base),
            Err(f) => Err(f),
        }
    }
}

/// The nodes that some pages hold, from the last page to the first.
pub open spec fn held_by(pages: Seq<Seq<Entry>>) -> Seq<NodeInfo>
    decreases pages.len(),
{
    if pages.len() == 0 {
        Seq::empty()
    } else {
        nodes_in(pages.last()) + held_by(pages.drop_last())
    }
}

/// Where page `p` of some pages stands, and how long it is.
pub open spec fn place_of(pages: Seq<Seq<Entry>>, at: int, p: int) -> (u64, u64) {
    ((at + pages_size(pages.take(p))) as u64, (32 * pages[p].len()) as u64)
}

/// Whether the bytes where page `p` of some pages stands are read as that page.
#[verifier::opaque]
pub open spec fn is_read(
    pages: Seq<Seq<Entry>>,
    file: Seq<u8>,
    base: int,
    at: int,
    p: int,
) -> bool {
    let from = at - base + pages_size(pages.take(p));
    forall|label: Seq<char>| #[trigger]
        page_of(file.subrange(from, from + 32 * pages[p].len()), label) == Ok::<Seq<Entry>, Failure>(
            pages[p],
        )
}

/// Whether some pages stand in a file from byte `at` on, each to be read there.
pub open spec fn are_read(pages: Seq<Seq<Entry>>, file: Seq<u8>, base: int, at: int) -> bool {
    forall|p: int| 0 <= p < pages.len() ==> #[trigger] is_read(pages, file, base, at, p)
}

/// Whether a reader has asked for nothing in some bytes.
pub open spec fn is_fresh(v: Progress, from: int, to: int) -> bool {
    forall|i: int|
        0 <= i < v.visited.len() ==> !(from <= #[trigger] v.visited[i] < to)
}

/// What a reader is once it has read some pages: those it was told of are gone
/// from its queue, their nodes are counted, and nothing was noted.
pub open spec fn is_through(
    v: Progress,
    u: Progress,
    pages: Seq<Seq<Entry>>,
    at: int,
    queue: Seq<Pending>,
) -> bool {
    &&& u.queue == queue
    &&& u.tally == v.tally.with_all(held_by(pages))
    &&& u.warnings == v.warnings
    &&& u.hierarchy_bytes == wrap64(v.hierarchy_bytes + pages_size(pages))
    &&& u.hierarchy_requests as int == (v.hierarchy_requests + pages.len()) % 0x1_0000_0000
    &&& forall|i: int|
        0 <= i < u.visited.len() ==> v.visited.contains(#[trigger] u.visited[i]) || at
            <= u.visited[i] < at + pages_size(pages)
}

/// Whether a reader asks, in step `m`, for a page.
pub open spec fn asks_for(
    v: Progress,
    file: Seq<u8>,
    base: int,
    m: nat,
    place: (u64, u64),
) -> bool {
    walked(v, file, base, m) matches Ok(x) && advance(x).1 == Some(place)
}

/// Whether a reader goes through some pages, from the last to the first.
pub open spec fn goes_through(
    v: Progress,
    file: Seq<u8>,
    base: int,
    pages: Seq<Seq<Entry>>,
    at: int,
    queue: Seq<Pending>,
) -> bool {
    &&& walked(v, file, base, pages.len()) matches Ok(u) && is_through(v, u, pages, at, queue)
    &&& forall|m: nat|
        m < pages.len() ==> #[trigger] asks_for(
            v,
            file,
            base,
            m,
            place_of(pages, at, pages.len() - 1 - m),
        )
}

proof fn lemma_walked_on(v: Progress, file: Seq<u8>, base: int, a: nat, b: nat)
    requires
        walked(v, file, base, a) is Ok,
    ensures
        walked(v, file, base, a + b) == walked(walked(v, file, base, a)->Ok_0, file, base, b),
    decreases b,
{
    if b > 0 {
        lemma_walked_on(v, file, base, a, (b - 1) as nat);
        assert((a + b - 1) as nat == a + (b - 1) as nat);
    }
}

proof fn lemma_held_add(a: Seq<Seq<Entry>>, b: Seq<Seq<Entry>>)
    ensures
        held_by(a + b) == held_by(b) + held_by(a),
    decreases b.len(),
{
    if b.len() == 0 {
        assert(a + b =~= a);
        assert(held_by(b) + held_by(a) =~= held_by(a));
    } else {
        lemma_held_add(a, b.drop_last());
        assert((a + b).drop_last() =~= a + b.drop_last());
        assert(held_by(a + b) =~= held_by(b) + held_by(a));
    }
}

proof fn lemma_pages_in_add(a: Seq<Entry>, b: Seq<Entry>)
    ensures
        pages_in(a + b) == pages_in(a) + pages_in(b),
    decreases b.len(),
{
    if b.len() == 0 {
        assert(a + b =~= a);
        assert(pages_in(a) + pages_in(b) =~= pages_in(a));
    } else {
        lemma_pages_in_add(a, b.drop_last());
        assert((a + b).drop_last() =~= a + b.drop_last());
        assert(pages_in(a + b) =~= pages_in(a) + pages_in(b));
    }
}

/// Pages that stand in a row stand in two rows.
proof fn lemma_read_apart(
    a: Seq<Seq<Entry>>,
    b: Seq<Seq<Entry>>,
    file: Seq<u8>,
    base: int,
    at: int,
)
    requires
        are_read(a + b, file, base, at),
    ensures
        are_read(a, file, base, at),
        are_read(b, file, base, at + pages_size(a)),
{
    reveal(is_read);
    assert forall|p: int| 0 <= p < a.len() implies #[trigger] is_read(a, file, base, at, p) by {
        assert(is_read(a + b, file, base, at, p));
        assert((a + b).take(p) =~= a.take(p));
        assert((a + b)[p] == a[p]);
    }
    assert forall|p: int| 0 <= p < b.len() implies #[trigger] is_read(
        b,
        file,
        base,
        at + pages_size(a),
        p,
    ) by {
        assert(is_read(a + b, file, base, at, a.len() + p));
        lemma_take_add(a, b, p);
        assert((a + b)[a.len() + p] == b[p]);
    }
}

proof fn lemma_places(a: Seq<Seq<Entry>>, b: Seq<Seq<Entry>>, at: int, p: int)
    requires
        0 <= p < a.len() + b.len(),
    ensures
        p < a.len() ==> place_of(a + b, at, p) == place_of(a, at, p),
        p >= a.len() ==> place_of(a + b, at, p) == place_of(b, at + pages_size(a), p - a.len()),
{
    if p < a.len() {
        assert((a + b).take(p) =~= a.take(p));
    } else {
        lemma_take_add(a, b, p - a.len());
    }
}

/// A reader that goes through some pages, and then through those before them,
/// goes through them all.
proof fn lemma_goes_on(
    v: Progress,
    file: Seq<u8>,
    base: int,
    a: Seq<Seq<Entry>>,
    b: Seq<Seq<Entry>>,
    at: int,
    between: Seq<Pending>,
    queue: Seq<Pending>,
)
    requires
        goes_through(v, file, base, b, at + pages_size(a), between),
        goes_through(walked(v, file, base, b.len())->Ok_0, file, base, a, at, queue),
    ensures
        goes_through(v, file, base, a + b, at, queue),
{
    let u = walked(v, file, base, b.len())->Ok_0;
    let pages = a + b;
    lemma_walked_on(v, file, base, b.len(), a.len());
    assert(pages.len() == b.len() + a.len());
    let x = walked(u, file, base, a.len())->Ok_0;
    lemma_held_add(a, b);
    lemma_tally_on(v.tally, held_by(b), held_by(a));
    lemma_pages_add(a, b);
    lemma_pages_size(a);
    lemma_pages_size(b);
    lemma_through(v, u, x, a, b, at, between, queue);
    assert forall|m: nat| m < pages.len() implies #[trigger] asks_for(
        v,
        file,
        base,
        m,
        place_of(pages, at, pages.len() - 1 - m),
    ) by {
        lemma_places(a, b, at, pages.len() - 1 - m);
        if m < b.len() {
            assert(asks_for(
                v,
                file,
                base,
                m,
                place_of(b, at + pages_size(a), b.len() - 1 - m),
            ));
        } else {
            let r = (m - b.len()) as nat;
            lemma_walked_on(v, file, base, b.len(), r);
            assert(asks_for(u, file, base, r, place_of(a, at, a.len() - 1 - r)));
        }
    }
}

proof fn lemma_through(
    v: Progress,
    u: Progress,
    x: Progress,
    a: Seq<Seq<Entry>>,
    b: Seq<Seq<Entry>>,
    at: int,
    between: Seq<Pending>,
    queue: Seq<Pending>,
)
    requires
        is_through(v, u, b, at + pages_size(a), between),
        is_through(u, x, a, at, queue),
        held_by(a + b) == held_by(b) + held_by(a),
        v.tally.with_all(held_by(b) + held_by(a)) == v.tally.with_all(held_by(b)).with_all(
            held_by(a),
        ),
        pages_size(a + b) == pages_size(a) + pages_size(b),
        0 <= pages_size(a),
        0 <= pages_size(b),
    ensures
        is_through(v, x, a + b, at, queue),
{
    lemma_wraps(v.hierarchy_bytes as int, pages_size(b), pages_size(a));
    assert forall|i: int| 0 <= i < x.visited.len() implies v.visited.contains(
        #[trigger] x.visited[i],
    ) || at <= x.visited[i] < at + pages_size(a + b) by {
        if u.visited.contains(x.visited[i]) {
            let j = choose|j: int| 0 <= j < u.visited.len() && u.visited[j] == x.visited[i];
            assert(v.visited.contains(u.visited[j]) || at + pages_size(a) <= u.visited[j] < at
                + pages_size(a) + pages_size(b));
        }
    }
}

proof fn lemma_wraps(n: int, a: int, b: int)
    ensures
        wrap64(wrap64(n + a) + b) == wrap64(n + (a + b)),
{
    vstd::arithmetic::div_mod::lemma_add_mod_noop_right(b, n + a, 0x1_0000_0000_0000_0000);
}

/// A reader that has read nothing has gone through no pages.
proof fn lemma_goes_nowhere(v: Progress, file: Seq<u8>, base: int, at: int)
    ensures
        goes_through(v, file, base, Seq::empty(), at, v.queue),
{
    assert(held_by(Seq::empty()) =~= Seq::<NodeInfo>::empty());
    assert(v.tally.with_all(Seq::empty()) == v.tally);
}

/// A reader takes the page at the end of its queue, where it has not been.
proof fn lemma_takes_page(
    v: Progress,
    file: Seq<u8>,
    base: int,
    pages: Seq<Seq<Entry>>,
    at: int,
    queue: Seq<Pending>,
    label: Seq<char>,
)
    requires
        pages.len() == 1,
        pages[0].len() > 0,
        0 <= at,
        at + 32 * pages[0].len() <= u64::MAX,
        are_read(pages, file, base, at),
        is_fresh(v, at, at + 32 * pages[0].len()),
        v.queue == queue.push(
            Pending { label, offset: at as u64, size: (32 * pages[0].len()) as u64 },
        ),
    ensures
        goes_through(v, file, base, pages, at, queue + pages_in(pages[0])),
{
    let next = v.queue.last();
    let list = pages[0];
    assert(v.queue.drop_last() =~= queue);
    assert(!v.visited.contains(next.offset));
    let u = advance(v).0;
    assert(advance(v).1 == Some((next.offset, next.size)));
    assert(is_read(pages, file, base, at, 0));
    reveal(is_read);
    assert(pages.take(0) =~= Seq::<Seq<Entry>>::empty());
    let bytes = file.subrange(next.offset - base, next.offset - base + next.size);
    assert(page_of(bytes, u.reading) == Ok::<Seq<Entry>, Failure>(list));
    reveal_with_fuel(walked, 2);
    assert(walked(v, file, base, 0) == Ok::<Progress, Failure>(v));
    assert(walked(v, file, base, 1) == read_next(v, file, base));
    assert(pages.drop_last() =~= Seq::<Seq<Entry>>::empty());
    assert(held_by(pages.drop_last()) =~= Seq::<NodeInfo>::empty());
    assert(held_by(pages) =~= nodes_in(list));
    assert(pages_size(pages) == 32 * list.len());
    lemma_page_bytes(file, next.offset - base, 32 * list.len() as int, list, u.reading);
    let x = walked(v, file, base, 1)->Ok_0;
    assert forall|i: int| 0 <= i < x.visited.len() implies v.visited.contains(
        #[trigger] x.visited[i],
    ) || at <= x.visited[i] < at + pages_size(pages) by {
        if i < v.visited.len() {
            assert(x.visited[i] == v.visited[i]);
        }
    }
    assert forall|m: nat| m < pages.len() implies #[trigger] asks_for(
        v,
        file,
        base,
        m,
        place_of(pages, at, pages.len() - 1 - m),
    ) by {
        assert(m == 0);
    }
}

/// Bytes that are read as a page are as many as its entries take.
proof fn lemma_page_bytes(file: Seq<u8>, from: int, size: int, list: Seq<Entry>, label: Seq<char>)
    requires
        page_of(file.subrange(from, from + size), label) == Ok::<Seq<Entry>, Failure>(list),
        size == 32 * list.len(),
    ensures
        file.subrange(from, from + size).len() == size,
{
}

/// A described node leaves an entry to the page it is in.
proof fn lemma_leaves_one(w: Seq<Written>, k: OctreeKey, d: int, at: int)
    requires
        described(w, k),
    ensures
        visit(w, k, d, at).own.len() > 0,
{
    if !paged_out(w, k, d) {
        lemma_has_entry(w, k);
    }
}

proof fn lemma_own_leads_nowhere(w: Seq<Written>, k: OctreeKey)
    ensures
        pages_in(own_entry(w, k)) == Seq::<Pending>::empty(),
{
    let own = own_entry(w, k);
    if own.len() > 0 {
        assert(own.len() == 1);
        assert(own.drop_last() =~= Seq::<Entry>::empty());
        assert(pages_in(own.drop_last()) =~= Seq::<Pending>::empty());
    }
}

/// A reader that has been told of the pages of a subtree goes through all of
/// them, and through nothing else.
#[verifier::spinoff_prover]
#[verifier::rlimit(40)]
proof fn lemma_walk(
    w: Seq<Written>,
    k: OctreeKey,
    d: int,
    at: int,
    v: Progress,
    file: Seq<u8>,
    base: int,
    queue: Seq<Pending>,
)
    requires
        described(w, k),
        0 <= at,
        at + pages_size(visit(w, k, d, at).pages) <= u64::MAX,
        are_read(visit(w, k, d, at).pages, file, base, at),
        is_fresh(v, at, at + pages_size(visit(w, k, d, at).pages)),
        v.queue == queue + pages_in(visit(w, k, d, at).own),
    ensures
        goes_through(v, file, base, visit(w, k, d, at).pages, at, queue),
    decreases
            u32::MAX - k.level,
            if d >= PAGE_LEVELS {
                2int
            } else {
                1int
            },
            0int,
{
    let l = visit(w, k, d, at);
    if paged_out(w, k, d) {
        let page = visit(w, k, 0, at);
        let last = seq![page.own];
        lemma_leaves_one(w, k, 0, at);
        lemma_pages_size(page.pages);
        assert(l.pages =~= page.pages + last);
        assert(l.pages.drop_last() =~= page.pages);
        lemma_read_apart(page.pages, last, file, base, at);
        let from = at + pages_size(page.pages);
        let e = l.own[0];
        let label = k.spec_ept_name();
        assert(l.own.drop_last() =~= Seq::<Entry>::empty());
        assert(pages_in(l.own.drop_last()) =~= Seq::<Pending>::empty());
        assert(pages_in(l.own) =~= seq![
            Pending { label, offset: from as u64, size: (32 * page.own.len()) as u64 },
        ]);
        assert(v.queue =~= queue.push(
            Pending { label, offset: from as u64, size: (32 * page.own.len()) as u64 },
        ));
        let told = queue + pages_in(page.own);
        lemma_takes_page(v, file, base, last, from, queue, label);
        let u = walked(v, file, base, 1)->Ok_0;
        lemma_stays_fresh(v, u, last, from, at, told);
        lemma_walk(w, k, 0, at, u, file, base, queue);
        lemma_goes_on(v, file, base, page.pages, last, at, told, queue);
    } else {
        let rest = visit_kids(w, k, d, 8, at);
        lemma_own_leads_nowhere(w, k);
        lemma_pages_in_add(own_entry(w, k), rest.own);
        assert(pages_in(l.own) =~= pages_in(rest.own));
        lemma_walk_kids(w, k, d, 8, at, v, file, base, queue);
    }
}

/// A reader that has read pages has asked for nothing before them that it had
/// not asked for.
proof fn lemma_stays_fresh(
    v: Progress,
    u: Progress,
    pages: Seq<Seq<Entry>>,
    from: int,
    at: int,
    queue: Seq<Pending>,
)
    requires
        is_through(v, u, pages, from, queue),
        is_fresh(v, at, from),
    ensures
        is_fresh(u, at, from),
{
    assert forall|i: int| 0 <= i < u.visited.len() implies !(at <= #[trigger] u.visited[i]
        < from) by {
        if v.visited.contains(u.visited[i]) {
            let j = choose|j: int| 0 <= j < v.visited.len() && v.visited[j] == u.visited[i];
            assert(!(at <= v.visited[j] < from));
        }
    }
}

#[verifier::spinoff_prover]
#[verifier::rlimit(40)]
proof fn lemma_walk_kids(
    w: Seq<Written>,
    k: OctreeKey,
    d: int,
    n: int,
    at: int,
    v: Progress,
    file: Seq<u8>,
    base: int,
    queue: Seq<Pending>,
)
    requires
        n <= 8,
        0 <= at,
        at + pages_size(visit_kids(w, k, d, n, at).pages) <= u64::MAX,
        are_read(visit_kids(w, k, d, n, at).pages, file, base, at),
        is_fresh(v, at, at + pages_size(visit_kids(w, k, d, n, at).pages)),
        v.queue == queue + pages_in(visit_kids(w, k, d, n, at).own),
    ensures
        goes_through(v, file, base, visit_kids(w, k, d, n, at).pages, at, queue),
    decreases u32::MAX - k.level, 0int, n,
{
    if n > 0 && can_split(k) {
        let child = k.spec_child((n - 1) as u8);
        if described(w, child) {
            let a = visit(w, child, deeper(d), at);
            let from = at + pages_size(a.pages);
            let b = visit_kids(w, k, d, n - 1, from);
            assert(child.level == k.level + 1);
            lemma_pages_add(a.pages, b.pages);
            lemma_pages_size(a.pages);
            lemma_pages_size(b.pages);
            lemma_read_apart(a.pages, b.pages, file, base, at);
            lemma_pages_in_add(a.own, b.own);
            let told = queue + pages_in(a.own);
            assert(v.queue =~= told + pages_in(b.own));
            lemma_walk_kids(w, k, d, n - 1, from, v, file, base, told);
            let u = walked(v, file, base, b.pages.len())->Ok_0;
            lemma_stays_fresh(v, u, b.pages, from, at, told);
            lemma_walk(w, child, deeper(d), at, u, file, base, queue);
            lemma_goes_on(v, file, base, a.pages, b.pages, at, told, queue);
        } else {
            lemma_walk_kids(w, k, d, n - 1, at, v, file, base, queue);
        }
    } else {
        let none = Seq::<Pending>::empty();
        assert(pages_in(Seq::empty()) =~= none);
        assert(queue + none =~= queue);
        lemma_goes_nowhere(v, file, base, at);
    }
}

/// Whether a node is told as it was written, or as holding nothing where it is
/// only an ancestor of one that was.
pub open spec fn is_told(w: Seq<Written>, n: NodeInfo) -> bool {
    described(w, n.key) && match node_with(w, n.key) {
        Some(x) => n.point_count == x.points && n.byte_size == x.byte_size,
        None => n.point_count == 0 && n.byte_size == 0,
    }
}

/// Whether some nodes are the written ones and their ancestors: each of them
/// once, as it was written, and no other.
pub open spec fn is_account(w: Seq<Written>, nodes: Seq<NodeInfo>) -> bool {
    &&& forall|k: OctreeKey| #[trigger]
        told(nodes, k) == if described(w, k) {
            1nat
        } else {
            0
        }
    &&& forall|i: int| 0 <= i < nodes.len() ==> is_told(w, #[trigger] nodes[i])
    &&& points_told(nodes) == written_points(w)
}

proof fn lemma_told_of_page(list: Seq<Entry>, k: OctreeKey)
    ensures
        told(nodes_in(list), k) == page_entries(list, k),
        points_told(nodes_in(list)) == page_points(list),
    decreases list.len(),
{
    if list.len() > 0 {
        lemma_told_of_page(list.drop_last(), k);
        let before = nodes_in(list.drop_last());
        if list.last() is Node {
            assert(nodes_in(list).drop_last() =~= before);
        }
    }
}

proof fn lemma_told_of_pages(pages: Seq<Seq<Entry>>, k: OctreeKey)
    ensures
        told(held_by(pages), k) == pages_entries(pages, k),
        points_told(held_by(pages)) == pages_points(pages),
    decreases pages.len(),
{
    if pages.len() > 0 {
        lemma_told_of_pages(pages.drop_last(), k);
        lemma_told_of_page(pages.last(), k);
        lemma_told_add(nodes_in(pages.last()), held_by(pages.drop_last()), k);
    }
}

proof fn lemma_page_tells(w: Seq<Written>, list: Seq<Entry>)
    requires
        forall|i: int| 0 <= i < list.len() ==> is_true(w, #[trigger] list[i]),
    ensures
        forall|i: int| 0 <= i < nodes_in(list).len() ==> is_told(w, #[trigger] nodes_in(list)[i]),
    decreases list.len(),
{
    if list.len() > 0 {
        let before = list.drop_last();
        assert forall|i: int| 0 <= i < before.len() implies is_true(w, #[trigger] before[i]) by {
            assert(before[i] == list[i]);
        }
        lemma_page_tells(w, before);
        assert(is_true(w, list[list.len() - 1]));
        assert forall|i: int| 0 <= i < nodes_in(list).len() implies is_told(
            w,
            #[trigger] nodes_in(list)[i],
        ) by {
            if i < nodes_in(before).len() {
                assert(nodes_in(list)[i] == nodes_in(before)[i]);
            }
        }
    }
}

proof fn lemma_pages_tell(w: Seq<Written>, base: int, n: int)
    requires
        w.len() > 0,
        forall|i: int| 0 <= i < w.len() ==> top((#[trigger] w[i]).key) == top_key(w),
        0 <= n <= all_pages(w, base).len(),
    ensures
        forall|i: int|
            0 <= i < held_by(all_pages(w, base).take(n)).len() ==> is_told(
                w,
                #[trigger] held_by(all_pages(w, base).take(n))[i],
            ),
    decreases n,
{
    let pages = all_pages(w, base);
    if n > 0 {
        let list = pages[n - 1];
        lemma_pages_tell(w, base, n - 1);
        assert forall|i: int| 0 <= i < list.len() implies is_true(w, #[trigger] list[i]) by {
            every_entry_is_true(w, base, n - 1, i);
        }
        lemma_page_tells(w, list);
        assert(pages.take(n).drop_last() =~= pages.take(n - 1));
        assert(pages.take(n).last() == list);
        let (a, b) = (nodes_in(list), held_by(pages.take(n - 1)));
        assert forall|i: int| 0 <= i < held_by(pages.take(n)).len() implies is_told(
            w,
            #[trigger] held_by(pages.take(n))[i],
        ) by {
            if i < a.len() {
                assert((a + b)[i] == a[i]);
            } else {
                assert((a + b)[i] == b[i - a.len()]);
            }
        }
    }
}

/// What the pages of a tree hold, all together, is every written node and every
/// ancestor of one, each once and as it was written.
pub proof fn pages_hold_every_node_once(w: Seq<Written>, base: int)
    requires
        w.len() > 0,
        keys_of(w).no_duplicates(),
        forall|i: int| 0 <= i < w.len() ==> top((#[trigger] w[i]).key) == top_key(w),
    ensures
        is_account(w, held_by(all_pages(w, base))),
{
    let pages = all_pages(w, base);
    assert forall|k: OctreeKey| #[trigger] told(held_by(pages), k) == if described(w, k) {
        1nat
    } else {
        0
    } by {
        every_node_has_one_entry(w, base, k);
        lemma_told_of_pages(pages, k);
    }
    lemma_told_of_pages(pages, OctreeKey::root());
    pages_account_for_every_point(w, base);
    lemma_pages_tell(w, base, pages.len() as int);
    assert(pages.take(pages.len() as int) =~= pages);
}

/// Where every ancestor of a written node was written, as many nodes are told as
/// were written.
pub proof fn as_many_are_told(w: Seq<Written>, nodes: Seq<NodeInfo>)
    requires
        keys_of(w).no_duplicates(),
        forall|k: OctreeKey| described(w, k) ==> #[trigger] keys_of(w).contains(k),
        is_account(w, nodes),
    ensures
        nodes.len() == w.len(),
{
    let keys = nodes.map_values(|n: NodeInfo| n.key);
    let all = keys_of(w);
    assert(keys.no_duplicates()) by {
        assert forall|i: int, j: int| 0 <= i < j < keys.len() implies keys[i] != keys[j] by {
            if nodes[i].key == nodes[j].key {
                lemma_told_twice(nodes, i, j);
                assert(told(nodes, nodes[i].key) <= 1);
            }
        }
    }
    assert forall|k: OctreeKey| keys.to_set().contains(k) == all.to_set().contains(k) by {
        if keys.contains(k) {
            let i = choose|i: int| 0 <= i < keys.len() && keys[i] == k;
            assert(is_told(w, nodes[i]));
        }
        if all.contains(k) {
            let i = choose|i: int| 0 <= i < all.len() && all[i] == k;
            assert(w[i].key == k);
            assert(above(k, w[i].key));
            assert(told(nodes, k) == 1);
            let j = lemma_told_where(nodes, k);
            assert(keys[j] == k);
        }
    }
    assert(keys.to_set() =~= all.to_set());
    keys.unique_seq_to_set();
    all.unique_seq_to_set();
}

/// A hierarchy that was written, walked by its reader from the root page on: no
/// step fails, nothing is noted, and the walk ends. It asks for every page that
/// was written, from the last to the first, and for nothing else, and it counts
/// every written node and every ancestor of one, each once and as it was written.
#[verifier::spinoff_prover]
#[verifier::rlimit(40)]
pub proof fn a_written_hierarchy_is_walked(w: Seq<Written>, base: int, info: CopcInfo)
    requires
        w.len() > 0,
        keys_of(w).no_duplicates(),
        forall|i: int| 0 <= i < w.len() ==> top((#[trigger] w[i]).key) == top_key(w),
        nodes_fit(w),
        0 <= base,
        base + pages_size(all_pages(w, base)) <= u64::MAX,
        info.root_hierarchy_offset == base + pages_size(whole_listing(w, base).pages),
        info.root_hierarchy_size == 32 * whole_listing(w, base).own.len(),
    ensures
        ({
            let pages = all_pages(w, base);
            let file = pages_put(pages);
            let start = at_start(info);
            &&& forall|m: nat|
                m < pages.len() ==> #[trigger] asks_for(
                    start,
                    file,
                    base,
                    m,
                    place_of(pages, base, pages.len() - 1 - m),
                )
            &&& walked(start, file, base, pages.len()) matches Ok(end) && {
                &&& end.queue.len() == 0
                &&& end.warnings.len() == 0
                &&& end.hierarchy_requests as int == pages.len() % 0x1_0000_0000
                &&& end.hierarchy_bytes == pages_size(pages)
                &&& end.tally == Tally::none().with_all(held_by(pages))
                &&& wrap64(sum(end.tally.points)) == wrap64(written_points(w))
                &&& (forall|k: OctreeKey| described(w, k) ==> #[trigger] keys_of(w).contains(k))
                    ==> end.tally.nodes == wrap64(w.len() as int)
            }
        }),
        is_account(w, held_by(all_pages(w, base))),
{
    let pages = all_pages(w, base);
    lemma_from_the_root(w, base, info);
    lemma_pages_size(pages);
    pages_hold_every_node_once(w, base);
    lemma_tally_counts(held_by(pages));
    if forall|k: OctreeKey| described(w, k) ==> #[trigger] keys_of(w).contains(k) {
        as_many_are_told(w, held_by(pages));
    }
}

/// A reader that starts at the root page goes through all pages.
#[verifier::spinoff_prover]
#[verifier::rlimit(40)]
proof fn lemma_from_the_root(w: Seq<Written>, base: int, info: CopcInfo)
    requires
        w.len() > 0,
        forall|i: int| 0 <= i < w.len() ==> top((#[trigger] w[i]).key) == top_key(w),
        nodes_fit(w),
        0 <= base,
        base + pages_size(all_pages(w, base)) <= u64::MAX,
        info.root_hierarchy_offset == base + pages_size(whole_listing(w, base).pages),
        info.root_hierarchy_size == 32 * whole_listing(w, base).own.len(),
    ensures
        goes_through(
            at_start(info),
            pages_put(all_pages(w, base)),
            base,
            all_pages(w, base),
            base,
            Seq::empty(),
        ),
{
    reveal(whole_listing);
    let l = whole_listing(w, base);
    let t = top_key(w);
    let pages = all_pages(w, base);
    let file = pages_put(pages);
    let start = at_start(info);
    let last = seq![l.own];
    let none = Seq::<Pending>::empty();
    assert(pages =~= l.pages + last);
    assert(pages.drop_last() =~= l.pages);
    assert(last.drop_last() =~= Seq::<Seq<Entry>>::empty());
    lemma_top_above(w[0].key);
    assert(described(w, t));
    lemma_leaves_one(w, t, 0, base);
    lemma_pages_size(l.pages);
    assert forall|p: int| 0 <= p < pages.len() implies #[trigger] is_read(
        pages,
        file,
        base,
        base,
        p,
    ) by {
        lemma_is_read(w, base, p);
    }
    lemma_read_apart(l.pages, last, file, base, base);
    let from = base + pages_size(l.pages);
    assert(start.queue =~= none.push(
        Pending { label: "root"@, offset: from as u64, size: (32 * l.own.len()) as u64 },
    ));
    lemma_takes_page(start, file, base, last, from, none, "root"@);
    let told = none + pages_in(l.own);
    let u = walked(start, file, base, 1)->Ok_0;
    lemma_stays_fresh(start, u, last, from, base, told);
    lemma_walk(w, t, 0, base, u, file, base, none);
    lemma_goes_on(start, file, base, l.pages, last, base, told, none);
}

proof fn lemma_is_read(w: Seq<Written>, base: int, p: int)
    requires
        nodes_fit(w),
        0 <= p < all_pages(w, base).len(),
    ensures
        is_read(all_pages(w, base), pages_put(all_pages(w, base)), base, base, p),
{
    reveal(is_read);
    let pages = all_pages(w, base);
    let from = pages_size(pages.take(p));
    assert forall|label: Seq<char>| #[trigger]
        page_of(
            pages_put(pages).subrange(from, from + 32 * pages[p].len()),
            label,
        ) == Ok::<Seq<Entry>, Failure>(pages[p]) by {
        every_page_reads_back(w, base, p, label);
    }
}

/// In a tree every ancestor of a node is a node, and the root is above them all.
proof fn lemma_tree_is_closed(w: Seq<Written>, a: OctreeKey, k: OctreeKey)
    requires
        is_tree(w),
        keys_of(w).contains(k),
    ensures
        above(a, k) ==> keys_of(w).contains(a),
        top(k) == OctreeKey::root(),
    decreases k.level,
{
    if k.level > 0 {
        let p = k.spec_parent()->0;
        assert(keys_of(w).contains(p));
        lemma_tree_is_closed(w, a, p);
    }
}

proof fn lemma_tree_top(w: Seq<Written>, n: int)
    requires
        is_tree(w),
        0 <= n <= w.len(),
    ensures
        top_key(w.take(n)) == OctreeKey::root(),
    decreases n,
{
    if n > 0 {
        lemma_tree_top(w, n - 1);
        assert(w.take(n).drop_last() =~= w.take(n - 1));
        assert(keys_of(w)[n - 1] == w[n - 1].key);
        lemma_tree_is_closed(w, w[n - 1].key, w[n - 1].key);
        assert(w.take(n).last() == w[n - 1]);
    }
}

/// The hierarchy of a tree, walked by its reader: the walk succeeds with nothing
/// noted, and counts as many nodes as were written and the points of all of them.
pub proof fn a_written_tree_is_walked(w: Seq<Written>, base: int, info: CopcInfo)
    requires
        is_tree(w),
        nodes_fit(w),
        0 <= base,
        base + pages_size(all_pages(w, base)) <= u64::MAX,
        info.root_hierarchy_offset == base + pages_size(whole_listing(w, base).pages),
        info.root_hierarchy_size == 32 * whole_listing(w, base).own.len(),
    ensures
        walked(
            at_start(info),
            pages_put(all_pages(w, base)),
            base,
            all_pages(w, base).len(),
        ) matches Ok(end) && {
            &&& end.queue.len() == 0
            &&& end.warnings.len() == 0
            &&& end.tally == Tally::none().with_all(held_by(all_pages(w, base)))
            &&& end.tally.nodes == wrap64(w.len() as int)
            &&& wrap64(sum(end.tally.points)) == wrap64(written_points(w))
        },
        is_account(w, held_by(all_pages(w, base))),
{
    let keys = keys_of(w);
    assert(w.len() > 0) by {
        let i = choose|i: int| 0 <= i < keys.len() && keys[i] == OctreeKey::root();
        assert(i < w.len());
    }
    lemma_tree_top(w, w.len() as int);
    assert(w.take(w.len() as int) =~= w);
    assert forall|i: int| 0 <= i < w.len() implies top((#[trigger] w[i]).key) == top_key(w) by {
        assert(keys[i] == w[i].key);
        lemma_tree_is_closed(w, w[i].key, w[i].key);
    }
    assert forall|k: OctreeKey| described(w, k) implies #[trigger] keys.contains(k) by {
        let i = choose|i: int| 0 <= i < w.len() && above(k, (#[trigger] w[i]).key);
        assert(keys[i] == w[i].key);
        lemma_tree_is_closed(w, k, w[i].key);
    }
    a_written_hierarchy_is_walked(w, base, info);
}

/// Whether every written node lies on the grid of its level, and its size and its
/// count fit their fields.
pub open spec fn are_on_the_grid(w: Seq<Written>) -> bool {
    forall|i: int|
        0 <= i < w.len() ==> on_grid((#[trigger] w[i]).key) && w[i].byte_size <= i32::MAX
            && w[i].points <= i32::MAX
}

proof fn lemma_grid_fits(k: OctreeKey)
    requires
        on_grid(k),
    ensures
        key_fits(k),
{
    lemma2_to64();
    if k.level < 31 {
        lemma_pow2_strictly_increases(k.level as nat, 31);
    }
}

proof fn lemma_grid_top(w: Seq<Written>, n: int)
    requires
        are_on_the_grid(w),
        0 <= n <= w.len(),
    ensures
        top_key(w.take(n)) == OctreeKey::root(),
    decreases n,
{
    if n > 0 {
        lemma_grid_top(w, n - 1);
        assert(w.take(n).drop_last() =~= w.take(n - 1));
        assert(on_grid(w[n - 1].key));
        the_grid_hangs_from_the_root(w[n - 1].key);
        assert(w.take(n).last() == w[n - 1]);
    }
}

/// The pages of distinct nodes on the grid, read from the root page that was
/// named: no step fails, nothing is noted and the walk ends; every node is counted
/// once with its size and its points, every other node that is counted is an
/// ancestor of one and holds nothing, and the root is counted once.
pub proof fn pages_on_the_grid_are_walked(
    w: Seq<Written>,
    base: u64,
    root: (u64, u64),
    info: CopcInfo,
)
    requires
        w.len() > 0,
        keys_of(w).no_duplicates(),
        are_on_the_grid(w),
        base + pages_size(all_pages(w, base as int)) <= u64::MAX,
        root.0 == wrap64(base + pages_size(whole_listing(w, base as int).pages)),
        root.1 == wrap64((32 * whole_listing(w, base as int).own.len()) as int),
        info.root_hierarchy_offset == root.0,
        info.root_hierarchy_size == root.1,
    ensures
        ({
            let pages = all_pages(w, base as int);
            walked(at_start(info), pages_put(pages), base as int, pages.len()) matches Ok(end) && {
                &&& end.queue.len() == 0
                &&& end.warnings.len() == 0
                &&& end.tally == Tally::none().with_all(held_by(pages))
                &&& wrap64(sum(end.tally.points)) == wrap64(written_points(w))
            }
        }),
        is_account(w, held_by(all_pages(w, base as int))),
        told(held_by(all_pages(w, base as int)), OctreeKey::root()) == 1,
        forall|i: int|
            0 <= i < w.len() ==> told(
                held_by(all_pages(w, base as int)),
                (#[trigger] w[i]).key,
            ) == 1,
{
    let pages = all_pages(w, base as int);
    let l = whole_listing(w, base as int);
    lemma_grid_top(w, w.len() as int);
    assert(w.take(w.len() as int) =~= w);
    assert forall|i: int| 0 <= i < w.len() implies top((#[trigger] w[i]).key) == top_key(w) by {
        the_grid_hangs_from_the_root(w[i].key);
    }
    assert forall|i: int| 0 <= i < w.len() implies key_fits((#[trigger] w[i]).key)
        && w[i].byte_size < 0x8000_0000 && w[i].points < 0x8000_0000 by {
        lemma_grid_fits(w[i].key);
    }
    assert(pages =~= l.pages + seq![l.own]);
    assert(pages.drop_last() =~= l.pages);
    lemma_pages_size(l.pages);
    a_written_hierarchy_is_walked(w, base as int, info);
    assert forall|i: int| 0 <= i < w.len() implies described(w, (#[trigger] w[i]).key) by {
        assert(above(w[i].key, w[i].key));
    }
    the_grid_hangs_from_the_root(w[0].key);
    assert(described(w, OctreeKey::root()));
}

} // verus!
