//! The hierarchy of a COPC file: pages of entries, children before parents.
//!
//! A page covers [`PAGE_LEVELS`] levels and then defers to another, where the
//! subtree is large enough to be worth one. Every ancestor of a written node is
//! described, written or not, so that no subtree hangs loose.

use super::hierarchy::{can_split, comes_before, keys_of, node_with, Written};
use super::keys::{last_at_is_there, lemma_packed_range, pack, packed, packed_is_unique, KeyIndex};
use crate::build::whole::on_grid;
use crate::bytes::{le32, le64, put_u32, put_u64};
use crate::cloud::wrap64;
use crate::error::Failure;
use crate::las::copc::{
    entry_bytes, entry_fault, entry_fits, entry_of, entry_reads_back, page_fault, page_of,
    written_entry, Entry,
};
use crate::octree::{parent_then_child, OctreeKey};
use std::collections::HashSet;
use vstd::arithmetic::power2::{lemma2_to64, lemma_pow2_unfold};
use vstd::prelude::*;

verus! {

broadcast use vstd::std_specs::hash::group_hash_axioms;

/// Levels of the tree one page covers before it defers to another.
pub const PAGE_LEVELS: u32 = 4;

/// Nodes a subtree must hold before it is worth a page of its own.
pub const MIN_PAGE_NODES: usize = 32;

/// Whether a node is another or one of its ancestors.
pub open spec fn above(a: OctreeKey, b: OctreeKey) -> bool
    decreases b.level,
{
    a == b || (b.level > 0 && above(a, b.spec_parent()->0))
}

/// Whether the hierarchy describes a node: it was written, or it is an ancestor
/// of one that was.
pub open spec fn described(w: Seq<Written>, k: OctreeKey) -> bool {
    exists|i: int| 0 <= i < w.len() && above(k, (#[trigger] w[i]).key)
}

/// The ancestor of a node at the top level.
pub open spec fn top(k: OctreeKey) -> OctreeKey
    decreases k.level,
{
    if k.level == 0 {
        k
    } else {
        top(k.spec_parent()->0)
    }
}

/// The node that the hierarchy starts at.
pub open spec fn top_key(w: Seq<Written>) -> OctreeKey
    decreases w.len(),
{
    if w.len() == 0 {
        OctreeKey::root()
    } else if w.len() == 1 {
        top(w[0].key)
    } else {
        let before = top_key(w.drop_last());
        let last = top(w.last().key);
        if comes_before(last, before) {
            last
        } else {
            before
        }
    }
}

/// The described nodes at and below a node.
pub open spec fn subtree_size(w: Seq<Written>, k: OctreeKey) -> nat
    decreases u32::MAX - k.level, 1int, 0int,
{
    1 + subtrees_size(w, k, 8)
}

/// The described nodes below a node, through its children with an index below
/// `n`.
pub open spec fn subtrees_size(w: Seq<Written>, k: OctreeKey, n: int) -> nat
    decreases u32::MAX - k.level, 0int, n,
{
    if n <= 0 || !can_split(k) {
        0
    } else {
        let child = k.spec_child((n - 1) as u8);
        subtrees_size(w, k, n - 1) + if described(w, child) {
            subtree_size(w, child)
        } else {
            0
        }
    }
}

/// What a walk over a subtree gives: the pages it closes, and the entries it
/// leaves to the page it is in.
#[verifier::ext_equal]
pub struct Listing {
    pub pages: Seq<Seq<Entry>>,
    pub own: Seq<Entry>,
}

/// Bytes of some pages.
pub open spec fn pages_size(pages: Seq<Seq<Entry>>) -> int
    decreases pages.len(),
{
    if pages.len() == 0 {
        0
    } else {
        pages_size(pages.drop_last()) + 32 * pages.last().len()
    }
}

/// Whether a node has a described child with an index below `n`.
pub open spec fn has_kid(w: Seq<Written>, k: OctreeKey, n: int) -> bool {
    can_split(k) && exists|c: int| 0 <= c < n && described(w, #[trigger] k.spec_child(c as u8))
}

/// The entry of a node that is not paged out: where its points are, or zeros
/// where it holds none.
pub open spec fn own_entry(w: Seq<Written>, k: OctreeKey) -> Seq<Entry> {
    match node_with(w, k) {
        Some(n) => seq![
            Entry::Node {
                key: k,
                offset: n.byte_offset,
                byte_size: n.byte_size,
                point_count: n.points as u64,
            },
        ],
        None => if has_kid(w, k, 8) {
            seq![Entry::Node { key: k, offset: 0, byte_size: 0, point_count: 0 }]
        } else {
            Seq::empty()
        },
    }
}

/// The level of a page below a level of it, as far as the cut.
pub open spec fn deeper(d: int) -> int {
    if d < PAGE_LEVELS {
        d + 1
    } else {
        d
    }
}

/// Whether a subtree at level `d` of a page continues in a page of its own.
pub open spec fn paged_out(w: Seq<Written>, k: OctreeKey, d: int) -> bool {
    d >= PAGE_LEVELS && subtree_size(w, k) >= MIN_PAGE_NODES
}

/// The walk over a subtree at level `d` of a page, with the next page going to
/// byte `at`.
pub open spec fn visit(w: Seq<Written>, k: OctreeKey, d: int, at: int) -> Listing
    decreases
            u32::MAX - k.level,
            if d >= PAGE_LEVELS {
                2int
            } else {
                1int
            },
            0int,
{
    if paged_out(w, k, d) {
        let page = visit(w, k, 0, at);
        Listing {
            pages: page.pages.push(page.own),
            own: seq![
                Entry::Page {
                    key: k,
                    offset: wrap64(at + pages_size(page.pages)),
                    byte_size: wrap64((32 * page.own.len()) as int),
                },
            ],
        }
    } else {
        let rest = visit_kids(w, k, d, 8, at);
        Listing { pages: rest.pages, own: own_entry(w, k) + rest.own }
    }
}

/// The walk over a node's children with an index below `n`, the last first.
pub open spec fn visit_kids(w: Seq<Written>, k: OctreeKey, d: int, n: int, at: int) -> Listing
    decreases u32::MAX - k.level, 0int, n,
{
    if n <= 0 || !can_split(k) {
        Listing { pages: Seq::empty(), own: Seq::empty() }
    } else {
        let child = k.spec_child((n - 1) as u8);
        if described(w, child) {
            let a = visit(w, child, deeper(d), at);
            let b = visit_kids(w, k, d, n - 1, at + pages_size(a.pages));
            Listing { pages: a.pages + b.pages, own: a.own + b.own }
        } else {
            visit_kids(w, k, d, n - 1, at)
        }
    }
}

/// The bytes of one entry, each number as far as its field holds it.
#[verifier::opaque]
pub open spec fn entry_put(e: Entry) -> Seq<u8> {
    match e {
        Entry::Node { key, offset, byte_size, point_count } => entry_bytes(
            key,
            offset,
            byte_size as int % 0x1_0000_0000,
            point_count as int % 0x1_0000_0000,
        ),
        Entry::Page { key, offset, byte_size } => entry_bytes(
            key,
            offset,
            byte_size as int % 0x1_0000_0000,
            0xffff_ffff,
        ),
    }
}

/// The bytes of some entries.
pub open spec fn entries_put(list: Seq<Entry>) -> Seq<u8>
    decreases list.len(),
{
    if list.len() == 0 {
        Seq::empty()
    } else {
        entries_put(list.drop_last()) + entry_put(list.last())
    }
}

/// The bytes of some pages.
pub open spec fn pages_put(pages: Seq<Seq<Entry>>) -> Seq<u8>
    decreases pages.len(),
{
    if pages.len() == 0 {
        Seq::empty()
    } else {
        pages_put(pages.drop_last()) + entries_put(pages.last())
    }
}

/// The walk from the top of a tree, with its first page at byte `base`.
#[verifier::opaque]
pub open spec fn whole_listing(w: Seq<Written>, base: int) -> Listing {
    visit(w, top_key(w), 0, base)
}

/// The pages of a tree, the root page last.
pub open spec fn all_pages(w: Seq<Written>, base: int) -> Seq<Seq<Entry>> {
    let l = whole_listing(w, base);
    l.pages.push(l.own)
}

#[verifier::spinoff_prover]
#[verifier::rlimit(30)]
proof fn lemma_entry_put(e: Entry)
    ensures
        entry_put(e).len() == 32,
{
    reveal(entry_put);
}

proof fn lemma_entries_size(list: Seq<Entry>)
    ensures
        entries_put(list).len() == 32 * list.len(),
    decreases list.len(),
{
    if list.len() > 0 {
        lemma_entries_size(list.drop_last());
        lemma_entry_put(list.last());
    }
}

pub proof fn lemma_pages_size(pages: Seq<Seq<Entry>>)
    ensures
        pages_put(pages).len() == pages_size(pages),
    decreases pages.len(),
{
    if pages.len() > 0 {
        lemma_pages_size(pages.drop_last());
        lemma_entries_size(pages.last());
    }
}

proof fn lemma_entries_add(a: Seq<Entry>, b: Seq<Entry>)
    ensures
        entries_put(a + b) == entries_put(a) + entries_put(b),
    decreases b.len(),
{
    if b.len() == 0 {
        assert(a + b =~= a);
        assert(entries_put(a) + entries_put(b) =~= entries_put(a));
    } else {
        lemma_entries_add(a, b.drop_last());
        assert((a + b).drop_last() =~= a + b.drop_last());
        assert(entries_put(a + b) =~= entries_put(a) + entries_put(b));
    }
}

pub(crate) proof fn lemma_pages_add(a: Seq<Seq<Entry>>, b: Seq<Seq<Entry>>)
    ensures
        pages_put(a + b) == pages_put(a) + pages_put(b),
        pages_size(a + b) == pages_size(a) + pages_size(b),
    decreases b.len(),
{
    if b.len() == 0 {
        assert(a + b =~= a);
        assert(pages_put(a) + pages_put(b) =~= pages_put(a));
    } else {
        lemma_pages_add(a, b.drop_last());
        assert((a + b).drop_last() =~= a + b.drop_last());
        assert(pages_put(a + b) =~= pages_put(a) + pages_put(b));
    }
}

pub proof fn lemma_above_levels(a: OctreeKey, b: OctreeKey)
    requires
        above(a, b),
    ensures
        a.level <= b.level,
    decreases b.level,
{
    if a != b {
        lemma_above_levels(a, b.spec_parent()->0);
    }
}

/// What is above a node above another is above the other.
proof fn lemma_above_above(a: OctreeKey, b: OctreeKey, c: OctreeKey)
    requires
        above(a, b),
        above(b, c),
    ensures
        above(a, c),
    decreases c.level,
{
    if b != c {
        lemma_above_above(a, b, c.spec_parent()->0);
    }
}

/// A node's ancestors are described with it.
pub proof fn lemma_described_above(w: Seq<Written>, a: OctreeKey, k: OctreeKey)
    requires
        described(w, k),
        above(a, k),
    ensures
        described(w, a),
{
    let i = choose|i: int| 0 <= i < w.len() && above(k, (#[trigger] w[i]).key);
    lemma_above_above(a, k, w[i].key);
}

/// The nodes of a tree that is being written, for looking up.
pub(crate) struct Tree<'a> {
    pub(crate) list: &'a Vec<Written>,
    pub(crate) index: KeyIndex,
    pub(crate) held: HashSet<u128>,
}

/// A number, as far as it can be counted to.
spec fn countable(n: nat) -> int {
    if n <= usize::MAX {
        n as int
    } else {
        usize::MAX as int
    }
}

/// Whether a set of numbers holds the described nodes.
spec fn holds(held: Set<u128>, w: Seq<Written>) -> bool {
    forall|k: OctreeKey| held.contains(#[trigger] packed(k) as u128) == described(w, k)
}

/// Adds a node and its ancestors to the described nodes.
fn hold(held: &mut HashSet<u128>, w: Ghost<Seq<Written>>, n: Written)
    requires
        holds(old(held)@, w@),
    ensures
        holds(final(held)@, w@.push(n)),
{
    let mut k = n.key;
    let ghost more = w@.push(n);
    proof {
        assert forall|j: OctreeKey| described(more, j) == (described(w@, j) || above(j, n.key)) by {
            if described(w@, j) {
                let i = choose|i: int| 0 <= i < w@.len() && above(j, (#[trigger] w@[i]).key);
                assert(more[i] == w@[i]);
            }
            if above(j, n.key) {
                assert(more[w@.len() as int] == n);
            }
            if described(more, j) {
                let i = choose|i: int| 0 <= i < more.len() && above(j, (#[trigger] more[i]).key);
                if i < w@.len() {
                    assert(more[i] == w@[i]);
                }
            }
        }
    }
    loop
        invariant_except_break
            above(k, n.key),
            forall|j: OctreeKey|
                held@.contains(#[trigger] packed(j) as u128) == (described(w@, j) || (above(
                    j,
                    n.key,
                ) && !above(j, k))),
        invariant
            forall|j: OctreeKey| #[trigger]
                described(more, j) == (described(w@, j) || above(j, n.key)),
        ensures
            forall|j: OctreeKey|
                held@.contains(#[trigger] packed(j) as u128) == (described(w@, j) || above(
                    j,
                    n.key,
                )),
        decreases k.level,
    {
        let ghost before = held@;
        let fresh = held.insert(pack(k));
        proof {
            lemma_packed_range(k);
            assert(fresh == !before.contains(packed(k) as u128));
            assert(above(k, k));
            assert forall|j: OctreeKey|
                held@.contains(#[trigger] packed(j) as u128) == (before.contains(packed(j) as u128)
                    || j == k) by {
                lemma_packed_range(j);
                if packed(j) == packed(k) {
                    packed_is_unique(j, k);
                }
            }
        }
        if !fresh {
            proof {
                assert(described(w@, k));
                assert forall|j: OctreeKey|
                    held@.contains(#[trigger] packed(j) as u128) == (described(w@, j) || above(
                        j,
                        n.key,
                    )) by {
                    if above(j, k) {
                        lemma_described_above(w@, j, k);
                        lemma_above_above(j, k, n.key);
                    }
                }
            }
            break;
        }
        match k.parent() {
            Some(p) => {
                proof {
                    assert(above(p, p));
                    assert(above(p, k));
                    lemma_above_above(p, k, n.key);
                    assert forall|j: OctreeKey|
                        held@.contains(#[trigger] packed(j) as u128) == (described(w@, j) || (
                        above(j, n.key) && !above(j, p))) by {
                        assert(above(j, k) == (j == k || above(j, p)));
                        if j == k && above(k, p) {
                            lemma_above_levels(k, p);
                        }
                    }
                }
                k = p;
            },
            None => {
                proof {
                    assert forall|j: OctreeKey|
                        held@.contains(#[trigger] packed(j) as u128) == (described(w@, j) || above(
                            j,
                            n.key,
                        )) by {
                        assert(above(j, k) == (j == k));
                    }
                }
                break;
            },
        }
    }
    proof {
        assert forall|j: OctreeKey| held@.contains(#[trigger] packed(j) as u128) == described(
            more,
            j,
        ) by {}
    }
}

impl<'a> Tree<'a> {
    pub(crate) closed spec fn wf(self) -> bool {
        self.index.of(keys_of(self.list@)) && holds(self.held@, self.list@)
    }

    pub(crate) fn new(list: &'a Vec<Written>) -> (r: Self)
        ensures
            r.wf(),
            r.list@ == list@,
    {
        let mut index = KeyIndex::new();
        let mut held: HashSet<u128> = HashSet::new();
        let mut i: usize = 0;
        assert(keys_of(list@.take(0)) =~= Seq::<OctreeKey>::empty());
        assert(list@.take(0) =~= Seq::<Written>::empty());
        while i < list.len()
            invariant
                i <= list.len(),
                index.of(keys_of(list@.take(i as int))),
                holds(held@, list@.take(i as int)),
            decreases list.len() - i,
        {
            let n = list[i];
            let ghost seen = list@.take(i as int);
            assert(list@.take(i + 1) =~= seen.push(n));
            assert(keys_of(seen.push(n)) =~= keys_of(seen).push(n.key));
            index.add(Ghost(keys_of(seen)), n.key, i);
            hold(&mut held, Ghost(seen), n);
            i = i + 1;
        }
        assert(list@.take(i as int) =~= list@);
        Tree { list, index, held }
    }

    pub(crate) fn holds_key(&self, k: OctreeKey) -> (r: bool)
        requires
            self.wf(),
        ensures
            r == described(self.list@, k),
    {
        let n: u128 = pack(k);
        assert(packed(k) as u128 == n);
        self.held.contains(&n)
    }

    pub(crate) fn find(&self, k: OctreeKey) -> (r: Option<Written>)
        requires
            self.wf(),
        ensures
            r == node_with(self.list@, k),
    {
        let ghost keys = keys_of(self.list@);
        proof {
            last_at_is_there(keys, k);
        }
        match self.index.find(Ghost(keys), k) {
            Some((_, at)) => Some(self.list[at]),
            None => None,
        }
    }

    /// The described nodes at and below a node, as far as they can be counted.
    #[verifier::spinoff_prover]
    #[verifier::rlimit(60)]
    fn size(&self, k: OctreeKey) -> (n: usize)
        requires
            self.wf(),
        ensures
            n == countable(subtree_size(self.list@, k)),
        decreases u32::MAX - k.level,
    {
        let mut n: usize = 1;
        if splits(k) {
            let mut c: u8 = 0;
            while c < 8
                invariant
                    c <= 8,
                    self.wf(),
                    can_split(k),
                    n == countable(1 + subtrees_size(self.list@, k, c as int)),
                decreases 8 - c,
            {
                let child = k.child(c);
                proof {
                    lemma_next_size(self.list@, k, c as int);
                }
                if self.holds_key(child) {
                    assert(child.level == k.level + 1);
                    let more: usize = self.size(child);
                    n = n.saturating_add(more);
                }
                c = c + 1;
            }
        }
        n
    }

    /// Whether a node has a described child.
    fn has_kids(&self, k: OctreeKey) -> (r: bool)
        requires
            self.wf(),
        ensures
            r == has_kid(self.list@, k, 8),
    {
        if !splits(k) {
            return false;
        }
        let mut c: u8 = 0;
        while c < 8
            invariant
                c <= 8,
                self.wf(),
                can_split(k),
                !has_kid(self.list@, k, c as int),
            decreases 8 - c,
        {
            let child = k.child(c);
            if self.holds_key(child) {
                assert(described(self.list@, k.spec_child(c as int as u8)));
                return true;
            }
            c = c + 1;
        }
        false
    }

    fn put_own(&self, k: OctreeKey, own: &mut Vec<u8>)
        requires
            self.wf(),
        ensures
            final(own)@ == old(own)@ + entries_put(own_entry(self.list@, k)),
    {
        let ghost list = own_entry(self.list@, k);
        proof {
            lemma_one(list);
        }
        match self.find(k) {
            Some(n) => {
                put_entry(
                    Entry::Node {
                        key: k,
                        offset: n.byte_offset,
                        byte_size: n.byte_size,
                        point_count: n.points as u64,
                    },
                    own,
                );
            },
            None => {
                if self.has_kids(k) {
                    put_entry(
                        Entry::Node { key: k, offset: 0, byte_size: 0, point_count: 0 },
                        own,
                    );
                }
            },
        }
        assert(own@ =~= old(own)@ + entries_put(list));
    }

    /// Walks a subtree: its pages go behind those written, its entries behind
    /// those of the page it is in.
    #[verifier::spinoff_prover]
    #[verifier::rlimit(30)]
    fn visit(&self, k: OctreeKey, d: u32, base: u64, pages: &mut Vec<u8>, own: &mut Vec<u8>)
        requires
            self.wf(),
            d <= PAGE_LEVELS,
        ensures
            ({
                let l = visit(self.list@, k, d as int, base + old(pages)@.len());
                &&& final(pages)@ == old(pages)@ + pages_put(l.pages)
                &&& final(own)@ == old(own)@ + entries_put(l.own)
            }),
        decreases
                u32::MAX - k.level,
                if d >= PAGE_LEVELS {
                    2int
                } else {
                    1int
                },
    {
        let ghost w = self.list@;
        let ghost at = base + pages@.len();
        let ghost l = visit(w, k, d as int, at);
        if d >= PAGE_LEVELS && self.size(k) >= MIN_PAGE_NODES {
            let ghost page = visit(w, k, 0, at);
            let mut inner: Vec<u8> = Vec::new();
            self.visit(k, 0, base, pages, &mut inner);
            proof {
                lemma_pages_size(page.pages);
                lemma_entries_size(page.own);
                lemma_one(l.own);
                assert(inner@ =~= entries_put(page.own));
                assert(l.pages.drop_last() =~= page.pages);
            }
            let offset: u64 = base.wrapping_add(pages.len() as u64);
            let byte_size: u64 = inner.len() as u64;
            pages.append(&mut inner);
            put_entry(Entry::Page { key: k, offset, byte_size }, own);
            assert(pages@ =~= old(pages)@ + pages_put(l.pages));
            assert(own@ =~= old(own)@ + entries_put(l.own));
        } else {
            self.put_own(k, own);
            self.visit_kids(k, d, base, pages, own);
            proof {
                let rest = visit_kids(w, k, d as int, 8, at);
                lemma_entries_add(own_entry(w, k), rest.own);
                assert(own@ =~= old(own)@ + entries_put(l.own));
            }
        }
    }

    fn visit_kids(&self, k: OctreeKey, d: u32, base: u64, pages: &mut Vec<u8>, own: &mut Vec<u8>)
        requires
            self.wf(),
            d <= PAGE_LEVELS,
        ensures
            ({
                let l = visit_kids(self.list@, k, d as int, 8, base + old(pages)@.len());
                &&& final(pages)@ == old(pages)@ + pages_put(l.pages)
                &&& final(own)@ == old(own)@ + entries_put(l.own)
            }),
        decreases u32::MAX - k.level, 0int,
    {
        let ghost w = self.list@;
        let ghost at = base + pages@.len();
        let ghost l = visit_kids(w, k, d as int, 8, at);
        if !splits(k) {
            assert(pages@ =~= old(pages)@ + pages_put(l.pages));
            assert(own@ =~= old(own)@ + entries_put(l.own));
            return;
        }
        let next: u32 = if d < PAGE_LEVELS {
            d + 1
        } else {
            d
        };
        let ghost mut seen = Listing { pages: Seq::empty(), own: Seq::empty() };
        let mut n: u8 = 8;
        proof {
            assert(pages@ =~= old(pages)@ + pages_put(seen.pages));
            assert(own@ =~= old(own)@ + entries_put(seen.own));
            let rest = visit_kids(w, k, d as int, 8, at);
            assert(l.pages =~= seen.pages + rest.pages);
            assert(l.own =~= seen.own + rest.own);
        }
        while n > 0
            invariant
                n <= 8,
                self.wf(),
                w == self.list@,
                can_split(k),
                d <= PAGE_LEVELS,
                next == deeper(d as int),
                at == base + old(pages)@.len(),
                l == visit_kids(w, k, d as int, 8, at),
                pages@ == old(pages)@ + pages_put(seen.pages),
                own@ == old(own)@ + entries_put(seen.own),
                l.pages == seen.pages + visit_kids(
                    w,
                    k,
                    d as int,
                    n as int,
                    base + pages@.len(),
                ).pages,
                l.own == seen.own + visit_kids(
                    w,
                    k,
                    d as int,
                    n as int,
                    base + pages@.len(),
                ).own,
            decreases n,
        {
            let child = k.child(n - 1);
            let ghost here = base + pages@.len();
            let ghost rest = visit_kids(w, k, d as int, n as int, here);
            if self.holds_key(child) {
                assert(child.level == k.level + 1);
                let ghost before = *pages;
                self.visit(child, next, base, pages, own);
                proof {
                    let a = visit(w, child, next as int, here);
                    let b = visit_kids(w, k, d as int, n - 1, here + pages_size(a.pages));
                    lemma_pages_size(a.pages);
                    lemma_pages_add(seen.pages, a.pages);
                    lemma_entries_add(seen.own, a.own);
                    assert(pages@.len() == before@.len() + pages_size(a.pages));
                    let old_seen = seen;
                    seen = Listing { pages: seen.pages + a.pages, own: seen.own + a.own };
                    assert(pages@ =~= old(pages)@ + pages_put(seen.pages));
                    assert(own@ =~= old(own)@ + entries_put(seen.own));
                    assert(l.pages =~= seen.pages + b.pages);
                    assert(l.own =~= seen.own + b.own);
                }
            }
            n = n - 1;
        }
        assert(l.pages =~= seen.pages);
        assert(l.own =~= seen.own);
    }
}

proof fn lemma_next_size(w: Seq<Written>, k: OctreeKey, c: int)
    requires
        can_split(k),
        0 <= c < 8,
    ensures
        subtrees_size(w, k, c + 1) == subtrees_size(w, k, c) + if described(
            w,
            k.spec_child(c as u8),
        ) {
            subtree_size(w, k.spec_child(c as u8))
        } else {
            0
        },
{
}

proof fn lemma_one(list: Seq<Entry>)
    ensures
        list.len() == 1 ==> entries_put(list) == entry_put(list[0]),
        list.len() == 0 ==> entries_put(list) == Seq::<u8>::empty(),
{
    if list.len() == 1 {
        assert(list.drop_last() =~= Seq::<Entry>::empty());
        assert(entries_put(list.drop_last()) =~= Seq::<u8>::empty());
        assert(entries_put(list) =~= entry_put(list[0]));
    }
}

/// Whether the addresses of a node's children can be written down.
fn splits(k: OctreeKey) -> (r: bool)
    ensures
        r == can_split(k),
{
    k.level < u32::MAX && k.x < 0x8000_0000 && k.y < 0x8000_0000 && k.z < 0x8000_0000
}

/// One 32-byte hierarchy entry.
fn put_entry(e: Entry, out: &mut Vec<u8>)
    ensures
        final(out)@ == old(out)@ + entry_put(e),
{
    let (key, offset, byte_size, count): (OctreeKey, u64, u64, u32) = match e {
        Entry::Node { key, offset, byte_size, point_count } => (
            key,
            offset,
            byte_size,
            (point_count % 0x1_0000_0000) as u32,
        ),
        Entry::Page { key, offset, byte_size } => (key, offset, byte_size, 0xffff_ffff),
    };
    put_u32(out, key.level);
    put_u32(out, key.x);
    put_u32(out, key.y);
    put_u32(out, key.z);
    put_u64(out, offset);
    put_u32(out, (byte_size % 0x1_0000_0000) as u32);
    put_u32(out, count);
    proof {
        reveal(entry_put);
    }
    assert(out@ =~= old(out)@ + entry_put(e));
}

/// The ancestor of a node at the top level.
fn top_of(k: OctreeKey) -> (r: OctreeKey)
    ensures
        r == top(k),
{
    let mut at = k;
    loop
        invariant
            top(at) == top(k),
        ensures
            at == top(k),
        decreases at.level,
    {
        match at.parent() {
            Some(p) => {
                at = p;
            },
            None => {
                break;
            },
        }
    }
    at
}

/// Serialize the hierarchy into pages: the payload, with its first byte at
/// `base` of the file, and the root page's offset and size.
pub fn build_pages(nodes: &Vec<Written>, base: u64) -> (r: (Vec<u8>, (u64, u64)))
    ensures
        r.0@ == pages_put(all_pages(nodes@, base as int)),
        r.1.0 == wrap64(base + pages_size(whole_listing(nodes@, base as int).pages)),
        r.1.1 == wrap64((32 * whole_listing(nodes@, base as int).own.len()) as int),
{
    let mut root = OctreeKey::root();
    let mut i: usize = 0;
    while i < nodes.len()
        invariant
            i <= nodes.len(),
            root == top_key(nodes@.take(i as int)),
        decreases nodes.len() - i,
    {
        let t = top_of(nodes[i].key);
        assert(nodes@.take(i + 1).drop_last() =~= nodes@.take(i as int));
        if i == 0 || pack(t) < pack(root) {
            root = t;
        }
        i = i + 1;
    }
    assert(nodes@.take(i as int) =~= nodes@);
    let tree = Tree::new(nodes);
    let mut pages: Vec<u8> = Vec::new();
    let mut own: Vec<u8> = Vec::new();
    tree.visit(root, 0, base, &mut pages, &mut own);
    let ghost l = whole_listing(nodes@, base as int);
    proof {
        reveal(whole_listing);
        lemma_pages_size(l.pages);
        lemma_entries_size(l.own);
        assert(pages@ =~= pages_put(l.pages));
        assert(own@ =~= entries_put(l.own));
        assert(l.pages.push(l.own).drop_last() =~= l.pages);
    }
    let offset: u64 = base.wrapping_add(pages.len() as u64);
    let size: u64 = own.len() as u64;
    pages.append(&mut own);
    (pages, (offset, size))
}

/// Whether a walk lists an entry: in a page it closes, or in the page it is in.
pub open spec fn lists(l: Listing, e: Entry) -> bool {
    l.own.contains(e) || exists|p: int| 0 <= p < l.pages.len() && (#[trigger] l.pages[p]).contains(e)
}

/// A node below another is below one of its children.
pub proof fn lemma_way_down(a: OctreeKey, b: OctreeKey) -> (c: int)
    requires
        above(a, b),
        a != b,
    ensures
        0 <= c < 8,
        can_split(a),
        above(a.spec_child(c as u8), b),
        a.spec_child(c as u8).level == a.level + 1,
    decreases b.level,
{
    let p = b.spec_parent()->0;
    if a == p {
        let c = b.spec_child_index()->0;
        parent_then_child(b);
        assert(a.spec_child(c) == b);
        c as int
    } else {
        lemma_way_down(a, p)
    }
}

/// A described node has an entry of its own.
pub proof fn lemma_has_entry(w: Seq<Written>, k: OctreeKey)
    requires
        described(w, k),
    ensures
        own_entry(w, k).len() == 1,
{
    if node_with(w, k) is None {
        let i = choose|i: int| 0 <= i < w.len() && above(k, (#[trigger] w[i]).key);
        last_at_is_there(keys_of(w), k);
        assert(keys_of(w)[i] == w[i].key);
        let c = lemma_way_down(k, w[i].key);
        assert(described(w, k.spec_child(c as u8)));
    }
}

proof fn lemma_lists_add(a: Listing, b: Listing, e: Entry)
    requires
        lists(a, e) || lists(b, e),
    ensures
        lists(Listing { pages: a.pages + b.pages, own: a.own + b.own }, e),
{
    let l = Listing { pages: a.pages + b.pages, own: a.own + b.own };
    if a.own.contains(e) {
        let i = a.own.index_of(e);
        assert(l.own[i] == e);
    } else if b.own.contains(e) {
        let i = b.own.index_of(e);
        assert(l.own[a.own.len() + i] == e);
    } else if lists(a, e) {
        let p = choose|p: int| 0 <= p < a.pages.len() && (#[trigger] a.pages[p]).contains(e);
        assert(l.pages[p] == a.pages[p]);
    } else {
        let p = choose|p: int| 0 <= p < b.pages.len() && (#[trigger] b.pages[p]).contains(e);
        assert(l.pages[a.pages.len() + p] == b.pages[p]);
    }
}

/// A page closed by the page above it keeps its entries.
proof fn lemma_lists_paged(page: Listing, own: Seq<Entry>, e: Entry)
    requires
        lists(page, e),
    ensures
        lists(Listing { pages: page.pages.push(page.own), own }, e),
{
    let l = Listing { pages: page.pages.push(page.own), own };
    if page.own.contains(e) {
        assert(l.pages[page.pages.len() as int] == page.own);
    } else {
        let p = choose|p: int| 0 <= p < page.pages.len() && (#[trigger] page.pages[p]).contains(e);
        assert(l.pages[p] == page.pages[p]);
    }
}

proof fn lemma_listed(w: Seq<Written>, a: OctreeKey, k: OctreeKey, d: int, at: int)
    requires
        described(w, k),
        above(a, k),
    ensures
        lists(visit(w, a, d, at), own_entry(w, k)[0]),
    decreases
            u32::MAX - a.level,
            if d >= PAGE_LEVELS {
                2int
            } else {
                1int
            },
            0int,
{
    let e = own_entry(w, k)[0];
    lemma_has_entry(w, k);
    if paged_out(w, a, d) {
        lemma_listed(w, a, k, 0, at);
        lemma_lists_paged(visit(w, a, 0, at), visit(w, a, d, at).own, e);
    } else {
        let first = Listing { pages: Seq::empty(), own: own_entry(w, a) };
        let rest = visit_kids(w, a, d, 8, at);
        if a == k {
            assert(first.own[0] == e);
        } else {
            let c = lemma_way_down(a, k);
            lemma_described_above(w, a.spec_child(c as u8), k);
            lemma_listed_below(w, a, k, d, 8, at, c);
        }
        lemma_lists_add(first, rest, e);
        assert(first.pages + rest.pages =~= rest.pages);
    }
}

#[verifier::spinoff_prover]
#[verifier::rlimit(30)]
proof fn lemma_listed_below(
    w: Seq<Written>,
    a: OctreeKey,
    k: OctreeKey,
    d: int,
    n: int,
    at: int,
    c: int,
)
    requires
        described(w, k),
        can_split(a),
        0 <= c < n <= 8,
        above(a.spec_child(c as u8), k),
        described(w, a.spec_child(c as u8)),
    ensures
        lists(visit_kids(w, a, d, n, at), own_entry(w, k)[0]),
    decreases u32::MAX - a.level, 0int, n,
{
    let e = own_entry(w, k)[0];
    let child = a.spec_child((n - 1) as u8);
    if described(w, child) {
        let x = visit(w, child, deeper(d), at);
        let y = visit_kids(w, a, d, n - 1, at + pages_size(x.pages));
        if c == n - 1 {
            assert(child.level == a.level + 1);
            lemma_listed(w, child, k, deeper(d), at);
        } else {
            lemma_listed_below(w, a, k, d, n - 1, at + pages_size(x.pages), c);
        }
        lemma_lists_add(x, y, e);
    } else {
        lemma_listed_below(w, a, k, d, n - 1, at, c);
    }
}

pub proof fn lemma_top_above(k: OctreeKey)
    ensures
        above(top(k), k),
        top(k).level == 0,
    decreases k.level,
{
    if k.level > 0 {
        lemma_top_above(k.spec_parent()->0);
    }
}

/// An address on the grid of its level is below the root.
pub proof fn the_grid_hangs_from_the_root(k: OctreeKey)
    requires
        on_grid(k),
    ensures
        top(k) == OctreeKey::root(),
        above(OctreeKey::root(), k),
    decreases k.level,
{
    lemma2_to64();
    if k.level > 0 {
        lemma_pow2_unfold(k.level as nat);
        the_grid_hangs_from_the_root(k.spec_parent()->0);
    }
}

/// Every written node, and every ancestor of one, has its entry in one of the
/// pages: where its points are, or zeros where it holds none.
pub proof fn every_node_is_listed(w: Seq<Written>, k: OctreeKey, base: int)
    requires
        described(w, k),
        top(k) == top_key(w),
    ensures
        own_entry(w, k).len() == 1,
        exists|p: int|
            0 <= p < all_pages(w, base).len() && (#[trigger] all_pages(w, base)[p]).contains(
                own_entry(w, k)[0],
            ),
{
    reveal(whole_listing);
    let l = whole_listing(w, base);
    let e = own_entry(w, k)[0];
    lemma_top_above(k);
    lemma_has_entry(w, k);
    lemma_listed(w, top_key(w), k, 0, base);
    lemma_lists_paged(l, Seq::empty(), e);
    let none = Seq::<Entry>::empty();
    assert(!none.contains(e));
    let p = choose|p: int| 0 <= p < l.pages.push(l.own).len() && (#[trigger] l.pages.push(l.own)[p]).contains(e);
    assert(all_pages(w, base)[p].contains(e));
}

/// The reference to page `p` of some pages that start at byte `at`.
pub open spec fn refers(e: Entry, pages: Seq<Seq<Entry>>, p: int, at: int) -> bool {
    e matches Entry::Page { offset, byte_size, .. } && offset == wrap64(
        at + pages_size(pages.take(p)),
    ) && byte_size == wrap64((32 * pages[p].len()) as int)
}

/// Whether page `p` of a walk is referred to, from a later page or from the page
/// that the walk is in.
pub open spec fn is_referred(l: Listing, p: int, at: int) -> bool {
    exists|q: int, i: int| #[trigger] refers_from(l, p, at, q, i)
}

/// Whether entry `i` of page `q` refers to page `p`; the page that the walk is
/// in counts as the last.
pub open spec fn refers_from(l: Listing, p: int, at: int, q: int, i: int) -> bool {
    let whole = l.pages.push(l.own);
    p < q < whole.len() && 0 <= i < whole[q].len() && refers(whole[q][i], l.pages, p, at)
}

pub(crate) proof fn lemma_take_add(a: Seq<Seq<Entry>>, b: Seq<Seq<Entry>>, p: int)
    requires
        0 <= p <= b.len(),
    ensures
        pages_size((a + b).take(a.len() + p)) == pages_size(a) + pages_size(b.take(p)),
{
    lemma_pages_add(a, b.take(p));
    assert((a + b).take(a.len() + p) =~= a + b.take(p));
}

proof fn lemma_referred_add(a: Listing, b: Listing, p: int, at: int)
    requires
        0 <= p < a.pages.len() + b.pages.len(),
        p < a.pages.len() ==> is_referred(a, p, at),
        p >= a.pages.len() ==> is_referred(b, p - a.pages.len(), at + pages_size(a.pages)),
    ensures
        is_referred(Listing { pages: a.pages + b.pages, own: a.own + b.own }, p, at),
{
    let l = Listing { pages: a.pages + b.pages, own: a.own + b.own };
    let whole = l.pages.push(l.own);
    if p < a.pages.len() {
        let (q, i) = choose|q: int, i: int| #[trigger] refers_from(a, p, at, q, i);
        assert(l.pages.take(p) =~= a.pages.take(p));
        if q < a.pages.len() {
            assert(whole[q] == a.pages[q]);
            assert(refers_from(l, p, at, q, i));
        } else {
            assert(whole[l.pages.len() as int][i] == a.own[i]);
            assert(refers_from(l, p, at, l.pages.len() as int, i));
        }
    } else {
        let r = p - a.pages.len();
        let base = at + pages_size(a.pages);
        let (q, i) = choose|q: int, i: int| #[trigger] refers_from(b, r, base, q, i);
        lemma_take_add(a.pages, b.pages, r);
        assert(l.pages[p] == b.pages[r]);
        if q < b.pages.len() {
            assert(whole[a.pages.len() + q] == b.pages[q]);
            assert(refers_from(l, p, at, a.pages.len() + q, i));
        } else {
            assert(whole[l.pages.len() as int][a.own.len() + i] == b.own[i]);
            assert(refers_from(l, p, at, l.pages.len() as int, a.own.len() + i));
        }
    }
}

proof fn lemma_referred(w: Seq<Written>, k: OctreeKey, d: int, at: int, p: int)
    requires
        0 <= p < visit(w, k, d, at).pages.len(),
    ensures
        is_referred(visit(w, k, d, at), p, at),
    decreases
            u32::MAX - k.level,
            if d >= PAGE_LEVELS {
                2int
            } else {
                1int
            },
            0int,
{
    let l = visit(w, k, d, at);
    if paged_out(w, k, d) {
        let page = visit(w, k, 0, at);
        let whole = l.pages.push(l.own);
        if p == page.pages.len() {
            assert(l.pages.take(p) =~= page.pages);
            assert(refers_from(l, p, at, p + 1, 0));
        } else {
            lemma_referred(w, k, 0, at, p);
            let (q, i) = choose|q: int, i: int| #[trigger] refers_from(page, p, at, q, i);
            assert(l.pages.take(p) =~= page.pages.take(p));
            assert(whole[q] == page.pages.push(page.own)[q]);
            assert(refers_from(l, p, at, q, i));
        }
    } else {
        let first = Listing { pages: Seq::empty(), own: own_entry(w, k) };
        let rest = visit_kids(w, k, d, 8, at);
        lemma_referred_below(w, k, d, 8, at, p);
        lemma_referred_add(first, rest, p, at);
        assert(first.pages + rest.pages =~= rest.pages);
    }
}

#[verifier::spinoff_prover]
#[verifier::rlimit(40)]
proof fn lemma_referred_below(w: Seq<Written>, k: OctreeKey, d: int, n: int, at: int, p: int)
    requires
        n <= 8,
        0 <= p < visit_kids(w, k, d, n, at).pages.len(),
    ensures
        is_referred(visit_kids(w, k, d, n, at), p, at),
    decreases u32::MAX - k.level, 0int, n,
{
    if n > 0 && can_split(k) {
        let child = k.spec_child((n - 1) as u8);
        if described(w, child) {
            let a = visit(w, child, deeper(d), at);
            let b = visit_kids(w, k, d, n - 1, at + pages_size(a.pages));
            assert(child.level == k.level + 1);
            if p < a.pages.len() {
                lemma_referred(w, child, deeper(d), at, p);
            } else {
                lemma_referred_below(
                    w,
                    k,
                    d,
                    n - 1,
                    at + pages_size(a.pages),
                    p - a.pages.len(),
                );
            }
            lemma_referred_add(a, b, p, at);
        } else {
            lemma_referred_below(w, k, d, n - 1, at, p);
        }
    }
}

/// Every page but the root's is referred to from a later page, by the byte it
/// starts at and its size. The root page being last, all of them are reached
/// from it.
pub proof fn every_page_is_reached(w: Seq<Written>, base: int, p: int)
    requires
        0 <= p < all_pages(w, base).len() - 1,
    ensures
        exists|q: int, i: int|
            p < q < all_pages(w, base).len() && 0 <= i < all_pages(w, base)[q].len() && refers(
                #[trigger] all_pages(w, base)[q][i],
                all_pages(w, base),
                p,
                base,
            ),
{
    reveal(whole_listing);
    let l = whole_listing(w, base);
    let whole = all_pages(w, base);
    lemma_referred(w, top_key(w), 0, base, p);
    let (q, i) = choose|q: int, i: int| #[trigger] refers_from(l, p, base, q, i);
    assert(whole.take(p) =~= l.pages.take(p));
    assert(whole[p] == l.pages[p]);
    assert(refers(whole[q][i], whole, p, base));
}

proof fn lemma_same_entry(e: Entry)
    requires
        entry_fits(e),
    ensures
        entry_put(e) == written_entry(e),
{
    reveal(entry_put);
    match e {
        Entry::Node { byte_size, point_count, .. } => {
            assert(byte_size as int % 0x1_0000_0000 == byte_size as int);
            assert(point_count as int % 0x1_0000_0000 == point_count as int);
        },
        Entry::Page { byte_size, .. } => {
            assert(byte_size as int % 0x1_0000_0000 == byte_size as int);
        },
    }
}

proof fn lemma_entry_at(list: Seq<Entry>, i: int)
    requires
        0 <= i < list.len(),
    ensures
        entries_put(list).len() == 32 * list.len(),
        entries_put(list).subrange(32 * i, 32 * i + 32) == entry_put(list[i]),
    decreases list.len(),
{
    lemma_entries_size(list);
    let shorter = list.drop_last();
    lemma_entries_size(shorter);
    lemma_entry_put(list.last());
    let b = entries_put(list);
    if i == list.len() - 1 {
        assert(b.subrange(32 * i, 32 * i + 32) =~= entry_put(list[i]));
    } else {
        lemma_entry_at(shorter, i);
        assert(b.subrange(32 * i, 32 * i + 32) =~= entries_put(shorter).subrange(
            32 * i,
            32 * i + 32,
        ));
    }
}

proof fn lemma_entry_moved(b: Seq<u8>, i: int, at: Seq<char>)
    requires
        0 <= i,
        32 * i + 32 <= b.len(),
    ensures
        entry_of(b, i) == entry_of(b.subrange(32 * i, 32 * i + 32), 0),
        entry_fault(b, i, at) == entry_fault(b.subrange(32 * i, 32 * i + 32), 0, at),
{
    let c = b.subrange(32 * i, 32 * i + 32);
    lemma_le_moved(b, 32 * i, c);
}

proof fn lemma_le_moved(b: Seq<u8>, from: int, c: Seq<u8>)
    requires
        0 <= from,
        from + 32 <= b.len(),
        c == b.subrange(from, from + 32),
    ensures
        le32(b, from) == le32(c, 0),
        le32(b, from + 4) == le32(c, 4),
        le32(b, from + 8) == le32(c, 8),
        le32(b, from + 12) == le32(c, 12),
        le64(b, from + 16) == le64(c, 16),
        le32(b, from + 24) == le32(c, 24),
        le32(b, from + 28) == le32(c, 28),
{
}

proof fn lemma_no_fault(list: Seq<Entry>, i: int, at: Seq<char>)
    requires
        0 <= i <= list.len(),
        forall|j: int| 0 <= j < list.len() ==> entry_fits(#[trigger] list[j]),
    ensures
        page_fault(entries_put(list), i, at) is None,
    decreases list.len() - i,
{
    lemma_entries_size(list);
    if i < list.len() {
        lemma_entry_at(list, i);
        lemma_same_entry(list[i]);
        entry_reads_back(list[i], at);
        lemma_entry_moved(entries_put(list), i, at);
        lemma_no_fault(list, i + 1, at);
    }
}

/// A page that was written is read back, where its numbers fit their fields.
pub proof fn page_reads_back(list: Seq<Entry>, at: Seq<char>)
    requires
        forall|i: int| 0 <= i < list.len() ==> entry_fits(#[trigger] list[i]),
    ensures
        page_of(entries_put(list), at) == Ok::<Seq<Entry>, Failure>(list),
{
    let b = entries_put(list);
    lemma_entries_size(list);
    lemma_no_fault(list, 0, at);
    let read = Seq::new((b.len() / 32) as nat, |i: int| entry_of(b, i));
    assert forall|i: int| 0 <= i < list.len() implies #[trigger] read[i] == list[i] by {
        lemma_entry_at(list, i);
        lemma_same_entry(list[i]);
        entry_reads_back(list[i], at);
        lemma_entry_moved(b, i, at);
    }
    assert(read =~= list);
}

/// Page `p` stands in the payload behind the pages before it.
pub proof fn pages_stand_in_order(pages: Seq<Seq<Entry>>, p: int)
    requires
        0 <= p < pages.len(),
    ensures
        0 <= pages_size(pages.take(p)),
        pages_size(pages.take(p)) + 32 * pages[p].len() <= pages_put(pages).len(),
        pages_put(pages).subrange(
            pages_size(pages.take(p)),
            pages_size(pages.take(p)) + 32 * pages[p].len(),
        ) == entries_put(pages[p]),
    decreases pages.len(),
{
    let shorter = pages.drop_last();
    let from = pages_size(pages.take(p));
    let to = from + 32 * pages[p].len();
    lemma_pages_size(shorter);
    lemma_pages_size(pages.take(p));
    lemma_entries_size(pages.last());
    if p == pages.len() - 1 {
        assert(pages.take(p) =~= shorter);
        assert(pages_put(pages).subrange(from, to) =~= entries_put(pages[p]));
    } else {
        pages_stand_in_order(shorter, p);
        assert(shorter.take(p) =~= pages.take(p));
        assert(pages_put(pages).subrange(from, to) =~= pages_put(shorter).subrange(from, to));
    }
}

} // verus!
