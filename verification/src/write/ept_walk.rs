//! An EPT hierarchy that was written, walked by its reader: the reader is led from
//! the page of the root to every page, to each of them once, and counts every
//! node. The order in which a page gives its entries does not matter.

use super::account::{
    lemma_tally_counts, lemma_tally_on, lemma_told_add, lemma_told_somewhere, points_told, told,
};
use super::ept::{
    deferred, entry, lemma_deferred_levels, page, page_nodes, page_path, page_roots, roots_below,
    PAGE_NODES,
};
use super::ept_count::{
    are_alike, hung_in, lemma_hung_from_root, lemma_hung_once, lemma_hung_splits, lemma_page_is_written,
    lemma_pages_alike, lemma_same_sum, marked, ones, points_in, stated, sum_over,
};
use super::ept_pages::{
    hangs_from, lemma_closed, lemma_own_root, lemma_page, pages_stand_where_they_are_looked_for,
};
use super::ept_total::{first_points, hung};
use crate::cloud::{sum, wrap64, NodeInfo, Tally};
use crate::error::Failure;
use crate::format::ept::{
    absorbed, advance, at_start, key_of, names_read_back, with_entries, Progress,
    PAGE_REFERENCE,
};
use crate::json::{are_named_apart, every_field_is_read, exact, json_read, reads, Tree};
use crate::octree::OctreeKey;
use vstd::prelude::*;

verus! {

/// One step of a reader through some files: it is asked what it wants, and handed
/// that.
pub open spec fn read_next(
    v: Progress,
    files: spec_fn(Seq<char>) -> Seq<u8>,
) -> Result<Progress, Failure> {
    match advance(v) {
        (u, None) => Ok(u),
        (u, Some(path)) => absorbed(u, files(path)),
    }
}

/// A reader after `n` steps.
pub open spec fn walked(
    v: Progress,
    files: spec_fn(Seq<char>) -> Seq<u8>,
    n: nat,
) -> Result<Progress, Failure>
    decreases n,
{
    if n == 0 {
        Ok(v)
    } else {
        match walked(v, files, (n - 1) as nat) {
            Ok(u) => read_next(u, files),
            Err(f) => Err(f),
        }
    }
}

/// Whether a file reads as the page that starts at a node.
pub open spec fn is_file(
    m: Map<OctreeKey, u64>,
    files: spec_fn(Seq<char>) -> Seq<u8>,
    k: OctreeKey,
) -> bool {
    json_read(files(page_path(k))) matches Ok(t) && reads(page(m, k), t)
}

/// Whether files read as the pages from a node down.
pub open spec fn are_files(
    m: Map<OctreeKey, u64>,
    files: spec_fn(Seq<char>) -> Seq<u8>,
    root: OctreeKey,
) -> bool {
    forall|k: OctreeKey| page_roots(m, root).contains(k) ==> #[trigger] is_file(m, files, k)
}

/// Whether a reader asks, in step `n`, for a page that was written.
pub open spec fn asks_for_page(
    v: Progress,
    files: spec_fn(Seq<char>) -> Seq<u8>,
    m: Map<OctreeKey, u64>,
    root: OctreeKey,
    n: nat,
) -> bool {
    walked(v, files, n) matches Ok(x) && exists|k: OctreeKey|
        #[trigger] page_roots(m, root).contains(k) && advance(x).1 == Some(page_path(k))
}

/// Whether some nodes are the written ones: each of them once, with its points,
/// and no other.
pub open spec fn is_account(m: Map<OctreeKey, u64>, nodes: Seq<NodeInfo>) -> bool {
    &&& forall|k: OctreeKey| #[trigger]
        told(nodes, k) == if m.contains_key(k) {
            1nat
        } else {
            0
        }
    &&& forall|i: int| 0 <= i < nodes.len() ==> is_told(m, #[trigger] nodes[i])
}

/// Whether a node is told as it was written.
pub open spec fn is_told(m: Map<OctreeKey, u64>, n: NodeInfo) -> bool {
    m.contains_key(n.key) && n.point_count == m[n.key] && n.byte_size == 0
}

/// The paths of the pages that start at some nodes.
spec fn paths(list: Seq<OctreeKey>) -> Seq<Seq<char>> {
    list.map_values(|k: OctreeKey| page_path(k))
}

/// Whether an entry has the name of a node.
spec fn is_named(e: (Seq<char>, Tree)) -> bool {
    key_of(e.0) matches Some(k) && e.0 == k.spec_ept_name()
}

spec fn is_reference(e: (Seq<char>, Tree)) -> bool {
    e.1.signed() == Some(PAGE_REFERENCE)
}

/// The nodes that some entries defer.
spec fn later_in(g: Seq<(Seq<char>, Tree)>) -> Seq<OctreeKey>
    decreases g.len(),
{
    if g.len() == 0 {
        Seq::empty()
    } else if is_reference(g.last()) {
        later_in(g.drop_last()).push(key_of(g.last().0)->0)
    } else {
        later_in(g.drop_last())
    }
}

/// The nodes that some entries tell of.
spec fn told_in(g: Seq<(Seq<char>, Tree)>) -> Seq<NodeInfo>
    decreases g.len(),
{
    if g.len() == 0 {
        Seq::empty()
    } else if is_reference(g.last()) {
        told_in(g.drop_last())
    } else {
        let n = match g.last().1.signed() {
            Some(n) => n,
            None => 0,
        };
        told_in(g.drop_last()).push(
            NodeInfo {
                key: key_of(g.last().0)->0,
                point_count: if n > 0 {
                    n as u64
                } else {
                    0
                },
                byte_size: 0,
            },
        )
    }
}

/// What a reader is once it has taken some entries.
proof fn lemma_takes_entries(v: Progress, g: Seq<(Seq<char>, Tree)>)
    requires
        forall|i: int| 0 <= i < g.len() ==> is_named(#[trigger] g[i]),
    ensures
        with_entries(v, g) == (Progress {
            queue: v.queue + paths(later_in(g)),
            tally: v.tally.with_all(told_in(g)),
            ..v
        }),
    decreases g.len(),
{
    if g.len() == 0 {
        assert(v.queue + paths(later_in(g)) =~= v.queue);
        assert(v.tally.with_all(told_in(g)) == v.tally);
    } else {
        let before = g.drop_last();
        assert forall|i: int| 0 <= i < before.len() implies is_named(#[trigger] before[i]) by {
            assert(before[i] == g[i]);
        }
        lemma_takes_entries(v, before);
        let e = g[g.len() - 1];
        assert(is_named(e));
        if is_reference(e) {
            let k = key_of(e.0)->0;
            assert(v.queue + paths(later_in(g)) =~= (v.queue + paths(later_in(before))).push(
                page_path(k),
            ));
        } else {
            assert(told_in(g).drop_last() =~= told_in(before));
        }
    }
}

/// Which nodes some entries defer.
proof fn lemma_later(g: Seq<(Seq<char>, Tree)>)
    requires
        are_named_apart(g),
        forall|i: int| 0 <= i < g.len() ==> is_named(#[trigger] g[i]),
    ensures
        later_in(g).no_duplicates(),
        forall|k: OctreeKey| #[trigger]
            later_in(g).contains(k) ==> exists|i: int|
                0 <= i < g.len() && (#[trigger] g[i]).0 == k.spec_ept_name() && is_reference(g[i]),
        forall|i: int|
            0 <= i < g.len() && is_reference(#[trigger] g[i]) ==> later_in(g).contains(
                key_of(g[i].0)->0,
            ),
    decreases g.len(),
{
    if g.len() > 0 {
        let before = g.drop_last();
        assert forall|i: int| 0 <= i < before.len() implies is_named(#[trigger] before[i]) by {
            assert(before[i] == g[i]);
        }
        assert(are_named_apart(before)) by {
            assert forall|i: int, j: int| 0 <= i < j < before.len() implies (#[trigger] before[i]).0
                != (#[trigger] before[j]).0 by {
                assert(before[i] == g[i] && before[j] == g[j]);
            }
        }
        lemma_later(before);
        let n = g.len() - 1;
        assert(is_named(g[n]));
        let (a, b) = (later_in(before), later_in(g));
        if is_reference(g[n]) {
            let k = key_of(g[n].0)->0;
            assert(!a.contains(k)) by {
                if a.contains(k) {
                    let i = choose|i: int|
                        0 <= i < before.len() && (#[trigger] before[i]).0 == k.spec_ept_name()
                            && is_reference(before[i]);
                    assert(g[i].0 != g[n].0);
                }
            }
            assert(b[b.len() - 1] == k);
        }
        assert forall|k: OctreeKey| #[trigger] b.contains(k) implies exists|i: int|
            0 <= i < g.len() && (#[trigger] g[i]).0 == k.spec_ept_name() && is_reference(g[i]) by {
            let j = choose|j: int| 0 <= j < b.len() && b[j] == k;
            if j < a.len() {
                assert(a[j] == k);
                assert(a.contains(k));
                let i = choose|i: int|
                    0 <= i < before.len() && (#[trigger] before[i]).0 == k.spec_ept_name()
                        && is_reference(before[i]);
                assert(g[i] == before[i]);
            } else {
                assert(g[n].0 == k.spec_ept_name());
            }
        }
        assert forall|i: int| 0 <= i < g.len() && is_reference(#[trigger] g[i]) implies b.contains(
            key_of(g[i].0)->0,
        ) by {
            if i < n {
                assert(before[i] == g[i]);
                let k = key_of(g[i].0)->0;
                assert(a.contains(k));
                let j = choose|j: int| 0 <= j < a.len() && a[j] == k;
                assert(b[j] == k);
            }
        }
    }
}

/// The addresses of some nodes.
spec fn keys_in(nodes: Seq<NodeInfo>) -> Seq<OctreeKey> {
    nodes.map_values(|n: NodeInfo| n.key)
}

/// Which nodes some entries tell of.
proof fn lemma_told(g: Seq<(Seq<char>, Tree)>)
    requires
        are_named_apart(g),
        forall|i: int| 0 <= i < g.len() ==> is_named(#[trigger] g[i]),
    ensures
        keys_in(told_in(g)).no_duplicates(),
        forall|j: int|
            0 <= j < told_in(g).len() ==> exists|i: int|
                {
                    &&& 0 <= i < g.len()
                    &&& (#[trigger] g[i]).0 == (#[trigger] told_in(g)[j]).key.spec_ept_name()
                    &&& !is_reference(g[i])
                    &&& told_in(g)[j].byte_size == 0
                    &&& told_in(g)[j].point_count == match g[i].1.signed() {
                        Some(n) => if n > 0 {
                            n as u64
                        } else {
                            0
                        },
                        None => 0,
                    }
                },
        forall|i: int|
            0 <= i < g.len() && !is_reference(#[trigger] g[i]) ==> keys_in(told_in(g)).contains(
                key_of(g[i].0)->0,
            ),
    decreases g.len(),
{
    if g.len() > 0 {
        let before = g.drop_last();
        assert forall|i: int| 0 <= i < before.len() implies is_named(#[trigger] before[i]) by {
            assert(before[i] == g[i]);
        }
        assert(are_named_apart(before)) by {
            assert forall|i: int, j: int| 0 <= i < j < before.len() implies (#[trigger] before[i]).0
                != (#[trigger] before[j]).0 by {
                assert(before[i] == g[i] && before[j] == g[j]);
            }
        }
        lemma_told(before);
        let n = g.len() - 1;
        assert(is_named(g[n]));
        let (a, b) = (told_in(before), told_in(g));
        let k = key_of(g[n].0)->0;
        assert forall|j: int| 0 <= j < b.len() implies exists|i: int|
            {
                &&& 0 <= i < g.len()
                &&& (#[trigger] g[i]).0 == (#[trigger] b[j]).key.spec_ept_name()
                &&& !is_reference(g[i])
                &&& b[j].byte_size == 0
                &&& b[j].point_count == match g[i].1.signed() {
                    Some(n) => if n > 0 {
                        n as u64
                    } else {
                        0
                    },
                    None => 0,
                }
            } by {
            if j < a.len() {
                assert(b[j] == a[j]);
                let i = choose|i: int|
                    {
                        &&& 0 <= i < before.len()
                        &&& (#[trigger] before[i]).0 == a[j].key.spec_ept_name()
                        &&& !is_reference(before[i])
                        &&& a[j].byte_size == 0
                        &&& a[j].point_count == match before[i].1.signed() {
                            Some(n) => if n > 0 {
                                n as u64
                            } else {
                                0
                            },
                            None => 0,
                        }
                    };
                assert(g[i] == before[i]);
            } else {
                assert(g[n].0 == b[j].key.spec_ept_name());
            }
        }
        assert(keys_in(b).no_duplicates()) by {
            assert forall|p: int, q: int| 0 <= p < q < keys_in(b).len() implies keys_in(b)[p]
                != keys_in(b)[q] by {
                if q < a.len() {
                    assert(keys_in(a)[p] != keys_in(a)[q]);
                    assert(b[p] == a[p] && b[q] == a[q]);
                } else {
                    assert(b[p] == a[p]);
                    let i = choose|i: int|
                        0 <= i < before.len() && (#[trigger] before[i]).0
                            == a[p].key.spec_ept_name();
                    assert(before[i] == g[i]);
                    assert(g[i].0 != g[n].0);
                }
            }
        }
        assert forall|i: int| 0 <= i < g.len() && !is_reference(#[trigger] g[i]) implies keys_in(
            b,
        ).contains(key_of(g[i].0)->0) by {
            if i < n {
                assert(before[i] == g[i]);
                let x = key_of(g[i].0)->0;
                assert(keys_in(a).contains(x));
                let j = choose|j: int| 0 <= j < keys_in(a).len() && keys_in(a)[j] == x;
                assert(keys_in(b)[j] == x);
            } else {
                assert(keys_in(b)[b.len() - 1] == k);
            }
        }
    }
}

/// Whether the points of every node fit the numbers that a page gives them in.
pub open spec fn points_fit(m: Map<OctreeKey, u64>) -> bool {
    forall|k: OctreeKey| #[trigger] m.contains_key(k) ==> m[k] <= i64::MAX
}

/// Whether some addresses are those of the written nodes, each once.
pub open spec fn are_keys(m: Map<OctreeKey, u64>, keys: Seq<OctreeKey>) -> bool {
    &&& keys.no_duplicates()
    &&& forall|x: OctreeKey| #[trigger] keys.contains(x) == m.contains_key(x)
}

/// What an entry of a page is read as.
proof fn lemma_entry_read(
    m: Map<OctreeKey, u64>,
    nodes: Seq<OctreeKey>,
    j: int,
    e: (Seq<char>, Tree),
)
    requires
        points_fit(m),
        0 <= j < nodes.len(),
        m.contains_key(nodes[j]),
        e.0 == entry(m, nodes, j).0,
        reads(entry(m, nodes, j).1, e.1),
    ensures
        is_named(e),
        key_of(e.0) == Some(nodes[j]),
        is_reference(e) == (j >= PAGE_NODES),
        j < PAGE_NODES ==> e.1.signed() == Some(m[nodes[j]] as i64),
{
    names_read_back(nodes[j]);
    assert(m.contains_key(nodes[j]));
}

/// A page as it is read: it defers what it defers, and tells of the others.
proof fn lemma_page_read(
    m: Map<OctreeKey, u64>,
    keys: Seq<OctreeKey>,
    k: OctreeKey,
    g: Seq<(Seq<char>, Tree)>,
)
    requires
        are_keys(m, keys),
        points_fit(m),
        m.contains_key(k),
        reads(page(m, k), Tree::Object(g)),
    ensures
        forall|i: int| 0 <= i < g.len() ==> is_named(#[trigger] g[i]),
        later_in(g).no_duplicates(),
        deferred(m, k).no_duplicates(),
        forall|x: OctreeKey| #[trigger] later_in(g).contains(x) == deferred(m, k).contains(x),
        keys_in(told_in(g)).no_duplicates(),
        stated(m, k).no_duplicates(),
        forall|x: OctreeKey| #[trigger]
            keys_in(told_in(g)).contains(x) == stated(m, k).contains(x),
        forall|j: int| 0 <= j < told_in(g).len() ==> is_told(m, #[trigger] told_in(g)[j]),
{
    let nodes = page_nodes(m, k);
    let f = Seq::new(nodes.len(), |i: int| entry(m, nodes, i));
    assert(page(m, k) == Tree::Object(f));
    lemma_page_is_written(m, keys, k);
    assert(are_named_apart(f)) by {
        assert forall|i: int, j: int| 0 <= i < j < f.len() implies (#[trigger] f[i]).0 != (
        #[trigger] f[j]).0 by {
            names_read_back(nodes[i]);
            names_read_back(nodes[j]);
            assert(nodes[i] != nodes[j]);
        }
    }
    assert forall|i: int| 0 <= i < g.len() implies is_named(#[trigger] g[i]) by {
        let j = lemma_where(m, keys, k, g, i);
    }
    lemma_later(g);
    lemma_told(g);
    let (late, here) = (deferred(m, k), stated(m, k));
    assert forall|i: int, j: int| 0 <= i < j < late.len() implies late[i] != late[j] by {
        assert(late[i] == nodes[PAGE_NODES + i] && late[j] == nodes[PAGE_NODES + j]);
    }
    assert forall|i: int, j: int| 0 <= i < j < here.len() implies here[i] != here[j] by {
        assert(here[i] == nodes[i] && here[j] == nodes[j]);
    }
    assert forall|x: OctreeKey| #[trigger] later_in(g).contains(x) == late.contains(x) by {
        if later_in(g).contains(x) {
            let i = choose|i: int|
                0 <= i < g.len() && (#[trigger] g[i]).0 == x.spec_ept_name() && is_reference(g[i]);
            let j = lemma_where(m, keys, k, g, i);
            names_read_back(x);
            assert(late[j - PAGE_NODES] == x);
        }
        if late.contains(x) {
            let j = choose|j: int| 0 <= j < late.len() && late[j] == x;
            assert(nodes[PAGE_NODES + j] == x);
            let i = every_field_is_read(f, g, PAGE_NODES + j, exact());
            lemma_entry_read(m, nodes, PAGE_NODES + j, g[i]);
            assert(is_reference(g[i]));
        }
    }
    assert forall|x: OctreeKey| #[trigger] keys_in(told_in(g)).contains(x) == here.contains(x) by {
        let list = told_in(g);
        if keys_in(list).contains(x) {
            let p = choose|p: int| 0 <= p < keys_in(list).len() && keys_in(list)[p] == x;
            assert(list[p].key == x);
            let i = choose|i: int|
                0 <= i < g.len() && (#[trigger] g[i]).0 == list[p].key.spec_ept_name()
                    && !is_reference(g[i]);
            let j = lemma_where(m, keys, k, g, i);
            names_read_back(x);
            assert(here[j] == x);
        }
        if here.contains(x) {
            let j = choose|j: int| 0 <= j < here.len() && here[j] == x;
            assert(nodes[j] == x);
            let i = every_field_is_read(f, g, j, exact());
            lemma_entry_read(m, nodes, j, g[i]);
            assert(!is_reference(g[i]));
        }
    }
    assert forall|p: int| 0 <= p < told_in(g).len() implies is_told(
        m,
        #[trigger] told_in(g)[p],
    ) by {
        let list = told_in(g);
        let i = choose|i: int|
            {
                &&& 0 <= i < g.len()
                &&& (#[trigger] g[i]).0 == list[p].key.spec_ept_name()
                &&& !is_reference(g[i])
                &&& list[p].byte_size == 0
                &&& list[p].point_count == match g[i].1.signed() {
                    Some(n) => if n > 0 {
                        n as u64
                    } else {
                        0
                    },
                    None => 0,
                }
            };
        let j = lemma_where(m, keys, k, g, i);
        names_read_back(list[p].key);
    }
}

/// Which entry of a page one that was read is.
proof fn lemma_where(
    m: Map<OctreeKey, u64>,
    keys: Seq<OctreeKey>,
    k: OctreeKey,
    g: Seq<(Seq<char>, Tree)>,
    i: int,
) -> (j: int)
    requires
        are_keys(m, keys),
        points_fit(m),
        m.contains_key(k),
        reads(page(m, k), Tree::Object(g)),
        0 <= i < g.len(),
    ensures
        0 <= j < page_nodes(m, k).len(),
        m.contains_key(page_nodes(m, k)[j]),
        is_named(g[i]),
        key_of(g[i].0) == Some(page_nodes(m, k)[j]),
        is_reference(g[i]) == (j >= PAGE_NODES),
        j < PAGE_NODES ==> g[i].1.signed() == Some(m[page_nodes(m, k)[j]] as i64),
{
    let nodes = page_nodes(m, k);
    let f = Seq::new(nodes.len(), |i: int| entry(m, nodes, i));
    assert(page(m, k) == Tree::Object(f));
    lemma_page_is_written(m, keys, k);
    let j = choose|j: int|
        0 <= j < f.len() && (#[trigger] f[j]).0 == g[i].0 && reads(f[j].1, g[i].1);
    assert(f[j] == entry(m, nodes, j));
    lemma_entry_read(m, nodes, j, g[i]);
    j
}

/// Nodes that are told as they were written, counted one way and the other.
proof fn lemma_told_is_sum(m: Map<OctreeKey, u64>, nodes: Seq<NodeInfo>, x: OctreeKey)
    requires
        forall|i: int| 0 <= i < nodes.len() ==> is_told(m, #[trigger] nodes[i]),
    ensures
        told(nodes, x) == sum_over(points_in(marked(m, x)), keys_in(nodes)),
        points_told(nodes) == sum_over(points_in(m), keys_in(nodes)),
        nodes.len() == sum_over(points_in(ones(m)), keys_in(nodes)),
    decreases nodes.len(),
{
    if nodes.len() > 0 {
        let before = nodes.drop_last();
        assert forall|i: int| 0 <= i < before.len() implies is_told(m, #[trigger] before[i]) by {
            assert(before[i] == nodes[i]);
        }
        lemma_told_is_sum(m, before, x);
        assert(keys_in(nodes).drop_last() =~= keys_in(before));
        assert(is_told(m, nodes[nodes.len() - 1]));
    }
}

/// How often a node hangs from some nodes.
spec fn weigh(m: Map<OctreeKey, u64>, x: OctreeKey, list: Seq<OctreeKey>) -> int {
    sum_over(hung_in(marked(m, x)), list)
}

spec fn roots_in(m: Map<OctreeKey, u64>) -> spec_fn(OctreeKey) -> int {
    |k: OctreeKey| page_roots(m, k).len() as int
}

/// The pages from some nodes down.
spec fn steps(m: Map<OctreeKey, u64>, list: Seq<OctreeKey>) -> int {
    sum_over(roots_in(m), list)
}

proof fn lemma_steps(m: Map<OctreeKey, u64>, list: Seq<OctreeKey>)
    ensures
        0 <= steps(m, list),
    decreases list.len(),
{
    if list.len() > 0 {
        lemma_steps(m, list.drop_last());
    }
}

proof fn lemma_roots_len(m: Map<OctreeKey, u64>, k: OctreeKey, n: int)
    requires
        0 <= n <= deferred(m, k).len(),
    ensures
        roots_below(m, k, n).len() == steps(m, deferred(m, k).take(n)),
    decreases n,
{
    if n > 0 {
        let later = deferred(m, k);
        lemma_roots_len(m, k, n - 1);
        assert(later.take(n).drop_last() =~= later.take(n - 1));
        assert(later.take(n).last() == later[n - 1]);
    }
}

proof fn lemma_weigh(
    m: Map<OctreeKey, u64>,
    keys: Seq<OctreeKey>,
    x: OctreeKey,
    list: Seq<OctreeKey>,
)
    requires
        are_keys(m, keys),
    ensures
        0 <= weigh(m, x, list),
        list.len() > 0 ==> weigh(m, x, list) == weigh(m, x, list.drop_last()) + hung(
            marked(m, x),
            list.last(),
        ),
        list.len() > 0 ==> 0 <= hung(marked(m, x), list.last()) <= 1,
    decreases list.len(),
{
    if list.len() > 0 {
        lemma_weigh(m, keys, x, list.drop_last());
        lemma_hung_once(m, keys, x, list.last());
    }
}

proof fn lemma_weigh_one(m: Map<OctreeKey, u64>, x: OctreeKey, k: OctreeKey)
    ensures
        weigh(m, x, seq![k]) == hung(marked(m, x), k),
{
    assert(seq![k].drop_last() =~= Seq::<OctreeKey>::empty());
    assert(weigh(m, x, Seq::<OctreeKey>::empty()) == 0);
}

/// A page as it is read splits what hangs from its node: what it tells of, and
/// what hangs from the nodes it defers.
proof fn lemma_splits(
    m: Map<OctreeKey, u64>,
    keys: Seq<OctreeKey>,
    k: OctreeKey,
    g: Seq<(Seq<char>, Tree)>,
    x: OctreeKey,
)
    requires
        are_keys(m, keys),
        points_fit(m),
        m.contains_key(k),
        reads(page(m, k), Tree::Object(g)),
    ensures
        hung(marked(m, x), k) == told(told_in(g), x) + weigh(m, x, later_in(g)),
        hung(m, k) == points_told(told_in(g)) + sum_over(hung_in(m), later_in(g)),
        hung(ones(m), k) == told_in(g).len() + sum_over(hung_in(ones(m)), later_in(g)),
        0 <= weigh(m, x, later_in(g)),
        hung(marked(m, x), k) <= 1,
        page_roots(m, k).len() == 1 + steps(m, later_in(g)),
{
    let (late, here) = (later_in(g), told_in(g));
    lemma_page_read(m, keys, k, g);
    lemma_told_is_sum(m, here, x);
    lemma_splits_alike(m, m, k, late, keys_in(here));
    lemma_splits_alike(m, ones(m), k, late, keys_in(here));
    lemma_splits_alike(m, marked(m, x), k, late, keys_in(here));
    lemma_weigh(m, keys, x, late);
    lemma_hung_once(m, keys, x, k);
    let n = deferred(m, k).len() as int;
    lemma_roots_len(m, k, n);
    assert(deferred(m, k).take(n) =~= deferred(m, k));
    lemma_same_sum(roots_in(m), late, deferred(m, k));
}

proof fn lemma_splits_alike(
    m: Map<OctreeKey, u64>,
    n: Map<OctreeKey, u64>,
    k: OctreeKey,
    late: Seq<OctreeKey>,
    here: Seq<OctreeKey>,
)
    requires
        are_alike(m, n),
        late.no_duplicates(),
        here.no_duplicates(),
        deferred(m, k).no_duplicates(),
        stated(m, k).no_duplicates(),
        forall|x: OctreeKey| #[trigger] late.contains(x) == deferred(m, k).contains(x),
        forall|x: OctreeKey| #[trigger] here.contains(x) == stated(m, k).contains(x),
    ensures
        hung(n, k) == sum_over(points_in(n), here) + sum_over(hung_in(n), late),
{
    lemma_pages_alike(m, n, k);
    lemma_hung_splits(n, k);
    lemma_same_sum(points_in(n), here, stated(m, k));
    lemma_same_sum(hung_in(n), late, deferred(m, k));
}

/// Whether a reader has been at none of the pages from some nodes down.
spec fn is_fresh(m: Map<OctreeKey, u64>, v: Progress, list: Seq<OctreeKey>) -> bool {
    forall|x: OctreeKey| #[trigger]
        weigh(m, x, list) >= 1 ==> !v.visited.contains(page_path(x))
}

/// Whether a reader has been at pages from some nodes down only, beside those it
/// had been at.
spec fn has_been(
    m: Map<OctreeKey, u64>,
    v: Progress,
    u: Progress,
    list: Seq<OctreeKey>,
) -> bool {
    forall|path: Seq<char>| #[trigger]
        u.visited.contains(path) ==> v.visited.contains(path) || exists|x: OctreeKey|
            path == page_path(x) && #[trigger] weigh(m, x, list) >= 1
}

/// What a reader is once it has read the pages from some nodes down.
spec fn is_through(
    m: Map<OctreeKey, u64>,
    v: Progress,
    u: Progress,
    list: Seq<OctreeKey>,
    nodes: Seq<NodeInfo>,
    queue: Seq<Seq<char>>,
) -> bool {
    &&& u.queue == queue
    &&& u.tally == v.tally.with_all(nodes)
    &&& u.warnings == v.warnings
    &&& has_been(m, v, u, list)
}

/// Whether some nodes are what hangs from some others, each as often.
spec fn is_hung(m: Map<OctreeKey, u64>, nodes: Seq<NodeInfo>, list: Seq<OctreeKey>) -> bool {
    &&& forall|x: OctreeKey| #[trigger] told(nodes, x) == weigh(m, x, list)
    &&& points_told(nodes) == sum_over(hung_in(m), list)
    &&& nodes.len() == sum_over(hung_in(ones(m)), list)
    &&& forall|i: int| 0 <= i < nodes.len() ==> is_told(m, #[trigger] nodes[i])
}

/// Whether a reader goes through the pages from some nodes down.
spec fn goes_through(
    m: Map<OctreeKey, u64>,
    root: OctreeKey,
    v: Progress,
    files: spec_fn(Seq<char>) -> Seq<u8>,
    list: Seq<OctreeKey>,
    nodes: Seq<NodeInfo>,
    queue: Seq<Seq<char>>,
) -> bool {
    let n = steps(m, list) as nat;
    &&& walked(v, files, n) matches Ok(u) && is_through(m, v, u, list, nodes, queue)
    &&& forall|j: nat| j < n ==> #[trigger] asks_for_page(v, files, m, root, j)
    &&& is_hung(m, nodes, list)
}

proof fn lemma_walked_on(
    v: Progress,
    files: spec_fn(Seq<char>) -> Seq<u8>,
    a: nat,
    b: nat,
)
    requires
        walked(v, files, a) is Ok,
    ensures
        walked(v, files, a + b) == walked(walked(v, files, a)->Ok_0, files, b),
    decreases b,
{
    if b > 0 {
        lemma_walked_on(v, files, a, (b - 1) as nat);
        assert((a + b - 1) as nat == a + (b - 1) as nat);
    }
}

/// Pages of different nodes have different paths.
proof fn lemma_paths_differ(a: OctreeKey, b: OctreeKey)
    requires
        page_path(a) == page_path(b),
    ensures
        a == b,
{
    names_read_back(a);
    names_read_back(b);
    let (x, y) = (a.spec_ept_name(), b.spec_ept_name());
    let (h, t) = ("ept-hierarchy/"@, ".json"@);
    assert(page_path(a).len() == h.len() + x.len() + t.len());
    assert(x =~= page_path(a).subrange(h.len() as int, (h.len() + x.len()) as int));
    assert(y =~= page_path(b).subrange(h.len() as int, (h.len() + y.len()) as int));
}

/// Two lots of nodes, each what hangs from some nodes, are together what hangs
/// from all of these.
proof fn lemma_hung_together(
    m: Map<OctreeKey, u64>,
    keys: Seq<OctreeKey>,
    a: Seq<NodeInfo>,
    b: Seq<NodeInfo>,
    list: Seq<OctreeKey>,
)
    requires
        are_keys(m, keys),
        list.len() > 0,
        is_hung(m, a, seq![list.last()]),
        is_hung(m, b, list.drop_last()),
    ensures
        is_hung(m, a + b, list),
{
    let d = list.last();
    let none = Seq::<OctreeKey>::empty();
    assert(seq![d].drop_last() =~= none);
    assert forall|x: OctreeKey| #[trigger] told(a + b, x) == weigh(m, x, list) by {
        lemma_told_add(a, b, x);
        lemma_weigh(m, keys, x, list);
        lemma_weigh_one(m, x, d);
        assert(told(a, x) == weigh(m, x, seq![d]));
        assert(told(b, x) == weigh(m, x, list.drop_last()));
    }
    lemma_told_add(a, b, d);
    assert(sum_over(hung_in(m), none) == 0);
    assert(sum_over(hung_in(ones(m)), none) == 0);
    assert(sum_over(hung_in(m), seq![d]) == hung(m, d));
    assert(sum_over(hung_in(ones(m)), seq![d]) == hung(ones(m), d));
    assert forall|i: int| 0 <= i < (a + b).len() implies is_told(m, #[trigger] (a + b)[i]) by {
        if i < a.len() {
            assert((a + b)[i] == a[i]);
        } else {
            assert((a + b)[i] == b[i - a.len()]);
        }
    }
}

/// A reader that goes through the pages from one node down, and then through
/// those from some others, goes through them all.
proof fn lemma_goes_on(
    m: Map<OctreeKey, u64>,
    keys: Seq<OctreeKey>,
    root: OctreeKey,
    v: Progress,
    files: spec_fn(Seq<char>) -> Seq<u8>,
    list: Seq<OctreeKey>,
    a: Seq<NodeInfo>,
    b: Seq<NodeInfo>,
    between: Seq<Seq<char>>,
    queue: Seq<Seq<char>>,
)
    requires
        are_keys(m, keys),
        list.len() > 0,
        goes_through(m, root, v, files, seq![list.last()], a, between),
        goes_through(
            m,
            root,
            walked(v, files, steps(m, seq![list.last()]) as nat)->Ok_0,
            files,
            list.drop_last(),
            b,
            queue,
        ),
    ensures
        goes_through(m, root, v, files, list, a + b, queue),
{
    let d = list.last();
    let rest = list.drop_last();
    let n1 = steps(m, seq![d]) as nat;
    let n2 = steps(m, rest) as nat;
    let u = walked(v, files, n1)->Ok_0;
    let x = walked(u, files, n2)->Ok_0;
    lemma_steps(m, seq![d]);
    lemma_steps(m, rest);
    assert(seq![d].drop_last() =~= Seq::<OctreeKey>::empty());
    assert(sum_over(roots_in(m), Seq::<OctreeKey>::empty()) == 0);
    assert(steps(m, list) == n1 + n2);
    lemma_walked_on(v, files, n1, n2);
    lemma_hung_together(m, keys, a, b, list);
    lemma_tally_on(v.tally, a, b);
    lemma_been(m, keys, v, u, x, list);
    assert forall|j: nat| j < n1 + n2 implies #[trigger] asks_for_page(v, files, m, root, j) by {
        if j >= n1 {
            let r = (j - n1) as nat;
            lemma_walked_on(v, files, n1, r);
            assert(asks_for_page(u, files, m, root, r));
        }
    }
}

proof fn lemma_been(
    m: Map<OctreeKey, u64>,
    keys: Seq<OctreeKey>,
    v: Progress,
    u: Progress,
    x: Progress,
    list: Seq<OctreeKey>,
)
    requires
        are_keys(m, keys),
        list.len() > 0,
        has_been(m, v, u, seq![list.last()]),
        has_been(m, u, x, list.drop_last()),
    ensures
        has_been(m, v, x, list),
{
    let d = list.last();
    let rest = list.drop_last();
    assert forall|path: Seq<char>| #[trigger] x.visited.contains(path) implies v.visited.contains(
        path,
    ) || exists|y: OctreeKey| path == page_path(y) && #[trigger] weigh(m, y, list) >= 1 by {
        if u.visited.contains(path) {
            if !v.visited.contains(path) {
                let y = choose|y: OctreeKey|
                    path == page_path(y) && #[trigger] weigh(m, y, seq![d]) >= 1;
                lemma_weigh(m, keys, y, list);
                lemma_weigh(m, keys, y, rest);
                lemma_weigh_one(m, y, d);
                assert(weigh(m, y, list) >= 1);
            }
        } else {
            let y = choose|y: OctreeKey| path == page_path(y) && #[trigger] weigh(m, y, rest) >= 1;
            lemma_weigh(m, keys, y, list);
            assert(weigh(m, y, list) >= 1);
        }
    }
}

/// A reader that has read the pages from one of some nodes down has been at none
/// from the others.
proof fn lemma_stays_fresh(
    m: Map<OctreeKey, u64>,
    keys: Seq<OctreeKey>,
    v: Progress,
    u: Progress,
    list: Seq<OctreeKey>,
)
    requires
        are_keys(m, keys),
        list.len() > 0,
        is_fresh(m, v, list),
        has_been(m, v, u, seq![list.last()]),
        forall|x: OctreeKey| #[trigger] weigh(m, x, list) <= 1,
    ensures
        is_fresh(m, u, list.drop_last()),
{
    let d = list.last();
    let rest = list.drop_last();
    assert forall|x: OctreeKey| #[trigger] weigh(m, x, rest) >= 1 implies !u.visited.contains(
        page_path(x),
    ) by {
        lemma_weigh(m, keys, x, list);
        assert(weigh(m, x, list) >= 1);
        if u.visited.contains(page_path(x)) {
            assert(!v.visited.contains(page_path(x)));
            let y = choose|y: OctreeKey|
                page_path(x) == page_path(y) && #[trigger] weigh(m, y, seq![d]) >= 1;
            lemma_paths_differ(x, y);
            lemma_weigh_one(m, x, d);
        }
    }
}

/// A reader takes the page at the end of its queue, where it has not been.
proof fn lemma_takes_page(
    m: Map<OctreeKey, u64>,
    keys: Seq<OctreeKey>,
    root: OctreeKey,
    k: OctreeKey,
    v: Progress,
    files: spec_fn(Seq<char>) -> Seq<u8>,
    queue: Seq<Seq<char>>,
) -> (g: Seq<(Seq<char>, Tree)>)
    requires
        are_keys(m, keys),
        points_fit(m),
        m.contains_key(k),
        page_roots(m, root).contains(k),
        is_file(m, files, k),
        v.queue == queue.push(page_path(k)),
        !v.visited.contains(page_path(k)),
    ensures
        reads(page(m, k), Tree::Object(g)),
        walked(v, files, 1) matches Ok(u) && {
            &&& u.queue == queue + paths(later_in(g))
            &&& u.tally == v.tally.with_all(told_in(g))
            &&& u.warnings == v.warnings
            &&& u.visited == v.visited.push(page_path(k))
        },
        asks_for_page(v, files, m, root, 0),
{
    let t = json_read(files(page_path(k)))->Ok_0;
    let g = t->Object_0;
    assert(t == Tree::Object(g));
    lemma_page_read(m, keys, k, g);
    assert(v.queue.drop_last() =~= queue);
    let u = advance(v).0;
    assert(advance(v).1 == Some(page_path(k)));
    reveal_with_fuel(walked, 2);
    assert(walked(v, files, 0) == Ok::<Progress, Failure>(v));
    assert(walked(v, files, 1) == read_next(v, files));
    let bytes = files(page_path(k));
    let counted = Progress {
        hierarchy_bytes: wrap64(u.hierarchy_bytes + bytes.len()),
        hierarchy_requests: ((u.hierarchy_requests + 1) % 0x1_0000_0000) as u32,
        ..u
    };
    lemma_takes_entries(counted, g);
    g
}

/// A reader that has been told of the page of a node goes through the pages from
/// that node down.
#[verifier::spinoff_prover]
#[verifier::rlimit(40)]
proof fn lemma_walk(
    m: Map<OctreeKey, u64>,
    keys: Seq<OctreeKey>,
    root: OctreeKey,
    k: OctreeKey,
    v: Progress,
    files: spec_fn(Seq<char>) -> Seq<u8>,
    queue: Seq<Seq<char>>,
) -> (nodes: Seq<NodeInfo>)
    requires
        are_keys(m, keys),
        points_fit(m),
        are_files(m, files, root),
        m.contains_key(k),
        page_roots(m, root).contains(k),
        v.queue == queue.push(page_path(k)),
        is_fresh(m, v, seq![k]),
    ensures
        goes_through(m, root, v, files, seq![k], nodes, queue),
    decreases u32::MAX - k.level, 1int, 0int,
{
    assert(is_file(m, files, k));
    let g0 = json_read(files(page_path(k)))->Ok_0->Object_0;
    assert(reads(page(m, k), Tree::Object(g0)));
    lemma_own_page(m, keys, k, g0);
    lemma_weigh_one(m, k, k);
    let g = lemma_takes_page(m, keys, root, k, v, files, queue);
    let late = later_in(g);
    let here = told_in(g);
    let u = walked(v, files, 1)->Ok_0;
    lemma_page_read(m, keys, k, g);
    lemma_deferred_levels(m, k);
    lemma_page_is_written(m, keys, k);
    assert forall|i: int| 0 <= i < late.len() implies page_roots(m, root).contains(
        #[trigger] late[i],
    ) && m.contains_key(late[i]) && late[i].level > k.level by {
        assert(late.contains(late[i]));
        let j = choose|j: int| 0 <= j < deferred(m, k).len() && deferred(m, k)[j] == late[i];
        assert(deferred(m, k).contains(late[i]));
        lemma_closed(m, root, k, late[i]);
        assert(page_nodes(m, k)[PAGE_NODES + j] == late[i]);
    }
    lemma_fresh_below(m, keys, k, g, v, u);
    let below = lemma_walk_all(m, keys, root, k.level, late, u, files, queue);
    let nodes = here + below;
    let n = steps(m, late) as nat;
    lemma_steps(m, late);
    lemma_splits(m, keys, k, g, k);
    assert(seq![k].drop_last() =~= Seq::<OctreeKey>::empty());
    assert(sum_over(roots_in(m), Seq::<OctreeKey>::empty()) == 0);
    assert(steps(m, seq![k]) == 1 + n);
    lemma_walked_on(v, files, 1, n);
    lemma_tally_on(v.tally, here, below);
    let x = walked(u, files, n)->Ok_0;
    lemma_hung_with_page(m, keys, k, g, below);
    lemma_been_with_page(m, keys, k, g, v, u, x);
    assert forall|j: nat| j < 1 + n implies #[trigger] asks_for_page(v, files, m, root, j) by {
        if j >= 1 {
            let r = (j - 1) as nat;
            lemma_walked_on(v, files, 1, r);
            assert(asks_for_page(u, files, m, root, r));
        }
    }
    nodes
}

/// A page tells of the node it starts at.
proof fn lemma_own_page(
    m: Map<OctreeKey, u64>,
    keys: Seq<OctreeKey>,
    k: OctreeKey,
    g: Seq<(Seq<char>, Tree)>,
)
    requires
        are_keys(m, keys),
        points_fit(m),
        m.contains_key(k),
        reads(page(m, k), Tree::Object(g)),
    ensures
        told(told_in(g), k) >= 1,
        hung(marked(m, k), k) >= 1,
        weigh(m, k, later_in(g)) == 0,
{
    lemma_page_read(m, keys, k, g);
    lemma_page(m, k, 0, k);
    assert(stated(m, k)[0] == k);
    assert(keys_in(told_in(g)).contains(k));
    let j = choose|j: int|
        0 <= j < keys_in(told_in(g)).len() && keys_in(told_in(g))[j] == k;
    lemma_told_somewhere(told_in(g), j);
    lemma_splits(m, keys, k, g, k);
}

proof fn lemma_fresh_below(
    m: Map<OctreeKey, u64>,
    keys: Seq<OctreeKey>,
    k: OctreeKey,
    g: Seq<(Seq<char>, Tree)>,
    v: Progress,
    u: Progress,
)
    requires
        are_keys(m, keys),
        points_fit(m),
        m.contains_key(k),
        reads(page(m, k), Tree::Object(g)),
        is_fresh(m, v, seq![k]),
        u.visited == v.visited.push(page_path(k)),
    ensures
        is_fresh(m, u, later_in(g)),
        forall|x: OctreeKey| #[trigger] weigh(m, x, later_in(g)) <= 1,
{
    let late = later_in(g);
    assert forall|x: OctreeKey| #[trigger] weigh(m, x, late) <= 1 by {
        lemma_splits(m, keys, k, g, x);
    }
    assert forall|x: OctreeKey| #[trigger] weigh(m, x, late) >= 1 implies !u.visited.contains(
        page_path(x),
    ) by {
        lemma_splits(m, keys, k, g, x);
        lemma_weigh_one(m, x, k);
        assert(weigh(m, x, seq![k]) >= 1);
        lemma_own_page(m, keys, k, g);
        if page_path(x) == page_path(k) {
            lemma_paths_differ(x, k);
        }
        if u.visited.contains(page_path(x)) {
            let i = choose|i: int| 0 <= i < u.visited.len() && u.visited[i] == page_path(x);
            assert(v.visited[i] == page_path(x));
        }
    }
}

proof fn lemma_hung_with_page(
    m: Map<OctreeKey, u64>,
    keys: Seq<OctreeKey>,
    k: OctreeKey,
    g: Seq<(Seq<char>, Tree)>,
    below: Seq<NodeInfo>,
)
    requires
        are_keys(m, keys),
        points_fit(m),
        m.contains_key(k),
        reads(page(m, k), Tree::Object(g)),
        is_hung(m, below, later_in(g)),
    ensures
        is_hung(m, told_in(g) + below, seq![k]),
{
    let here = told_in(g);
    let none = Seq::<OctreeKey>::empty();
    assert(seq![k].drop_last() =~= none);
    lemma_page_read(m, keys, k, g);
    assert forall|x: OctreeKey| #[trigger] told(here + below, x) == weigh(m, x, seq![k]) by {
        lemma_told_add(here, below, x);
        lemma_splits(m, keys, k, g, x);
        lemma_weigh_one(m, x, k);
        assert(told(below, x) == weigh(m, x, later_in(g)));
    }
    lemma_told_add(here, below, k);
    lemma_splits(m, keys, k, g, k);
    assert(sum_over(hung_in(m), none) == 0);
    assert(sum_over(hung_in(ones(m)), none) == 0);
    assert(sum_over(hung_in(m), seq![k]) == hung(m, k));
    assert(sum_over(hung_in(ones(m)), seq![k]) == hung(ones(m), k));
    assert forall|i: int| 0 <= i < (here + below).len() implies is_told(
        m,
        #[trigger] (here + below)[i],
    ) by {
        if i < here.len() {
            assert((here + below)[i] == here[i]);
        } else {
            assert((here + below)[i] == below[i - here.len()]);
        }
    }
}

proof fn lemma_been_with_page(
    m: Map<OctreeKey, u64>,
    keys: Seq<OctreeKey>,
    k: OctreeKey,
    g: Seq<(Seq<char>, Tree)>,
    v: Progress,
    u: Progress,
    x: Progress,
)
    requires
        are_keys(m, keys),
        points_fit(m),
        m.contains_key(k),
        reads(page(m, k), Tree::Object(g)),
        u.visited == v.visited.push(page_path(k)),
        has_been(m, u, x, later_in(g)),
    ensures
        has_been(m, v, x, seq![k]),
{
    assert forall|path: Seq<char>| #[trigger] x.visited.contains(path) implies v.visited.contains(
        path,
    ) || exists|y: OctreeKey| path == page_path(y) && #[trigger] weigh(m, y, seq![k]) >= 1 by {
        if u.visited.contains(path) {
            let i = choose|i: int| 0 <= i < u.visited.len() && u.visited[i] == path;
            if i < v.visited.len() {
                assert(v.visited[i] == path);
            } else {
                lemma_own_page(m, keys, k, g);
                lemma_weigh_one(m, k, k);
                assert(weigh(m, k, seq![k]) >= 1);
            }
        } else {
            let y = choose|y: OctreeKey|
                path == page_path(y) && #[trigger] weigh(m, y, later_in(g)) >= 1;
            lemma_splits(m, keys, k, g, y);
            lemma_weigh_one(m, y, k);
            assert(weigh(m, y, seq![k]) >= 1);
        }
    }
}

proof fn lemma_walk_all(
    m: Map<OctreeKey, u64>,
    keys: Seq<OctreeKey>,
    root: OctreeKey,
    level: u32,
    list: Seq<OctreeKey>,
    v: Progress,
    files: spec_fn(Seq<char>) -> Seq<u8>,
    queue: Seq<Seq<char>>,
) -> (nodes: Seq<NodeInfo>)
    requires
        are_keys(m, keys),
        points_fit(m),
        are_files(m, files, root),
        forall|i: int|
            0 <= i < list.len() ==> page_roots(m, root).contains(#[trigger] list[i])
                && m.contains_key(list[i]) && list[i].level > level,
        v.queue == queue + paths(list),
        is_fresh(m, v, list),
        forall|x: OctreeKey| #[trigger] weigh(m, x, list) <= 1,
    ensures
        goes_through(m, root, v, files, list, nodes, queue),
    decreases u32::MAX - level, 0int, list.len(),
{
    if list.len() == 0 {
        let nodes = Seq::<NodeInfo>::empty();
        assert(v.queue =~= queue);
        assert(v.tally.with_all(nodes) == v.tally);
        assert(walked(v, files, 0) == Ok::<Progress, Failure>(v));
        assert forall|x: OctreeKey| #[trigger] told(nodes, x) == weigh(m, x, list) by {}
        nodes
    } else {
        let d = list[list.len() - 1];
        let rest = list.drop_last();
        let between = queue + paths(rest);
        assert(page_roots(m, root).contains(d) && m.contains_key(d) && d.level > level);
        assert(v.queue =~= between.push(page_path(d)));
        assert(is_fresh(m, v, seq![d])) by {
            assert forall|x: OctreeKey| #[trigger]
                weigh(m, x, seq![d]) >= 1 implies !v.visited.contains(page_path(x)) by {
                lemma_weigh_one(m, x, d);
                lemma_weigh(m, keys, x, list);
                lemma_weigh(m, keys, x, rest);
                assert(weigh(m, x, list) >= 1);
            }
        }
        let a = lemma_walk(m, keys, root, d, v, files, between);
        let u = walked(v, files, steps(m, seq![d]) as nat)->Ok_0;
        lemma_stays_fresh(m, keys, v, u, list);
        assert forall|x: OctreeKey| #[trigger] weigh(m, x, rest) <= 1 by {
            lemma_weigh(m, keys, x, list);
            assert(weigh(m, x, list) <= 1);
        }
        assert forall|i: int| 0 <= i < rest.len() implies page_roots(m, root).contains(
            #[trigger] rest[i],
        ) && m.contains_key(rest[i]) && rest[i].level > level by {
            assert(rest[i] == list[i]);
        }
        let b = lemma_walk_all(m, keys, root, level, rest, u, files, queue);
        lemma_goes_on(m, keys, root, v, files, list, a, b, between, queue);
        a + b
    }
}

/// A hierarchy that was written, walked by its reader from the page of the root
/// on: no step fails, nothing is noted, and the walk ends. It asks for as many
/// pages as were written, each of them one that was, and it counts every written
/// node once, and with its points.
pub proof fn a_written_hierarchy_is_walked(
    m: Map<OctreeKey, u64>,
    keys: Seq<OctreeKey>,
    files: spec_fn(Seq<char>) -> Seq<u8>,
)
    requires
        are_keys(m, keys),
        m.contains_key(OctreeKey::root()),
        forall|i: int|
            0 <= i < keys.len() ==> hangs_from(m, OctreeKey::root(), #[trigger] keys[i]),
        points_fit(m),
        are_files(m, files, OctreeKey::root()),
    ensures
        ({
            let root = OctreeKey::root();
            let n = page_roots(m, root).len();
            &&& forall|j: nat|
                j < n ==> #[trigger] asks_for_page(at_start(), files, m, root, j)
            &&& walked(at_start(), files, n) matches Ok(end) && {
                &&& end.queue.len() == 0
                &&& end.warnings.len() == 0
                &&& end.tally.nodes == wrap64(keys.len() as int)
                &&& wrap64(sum(end.tally.points)) == wrap64(
                    first_points(m, keys, keys.len() as int),
                )
                &&& exists|nodes: Seq<NodeInfo>| #[trigger]
                    is_account(m, nodes) && end.tally == Tally::none().with_all(nodes)
            }
        }),
{
    let root = OctreeKey::root();
    let start = at_start();
    let none = Seq::<Seq<char>>::empty();
    pages_stand_where_they_are_looked_for(root);
    lemma_own_root(m, root);
    assert(start.queue =~= none.push(page_path(root)));
    let nodes = lemma_walk(m, keys, root, root, start, files, none);
    assert(seq![root].drop_last() =~= Seq::<OctreeKey>::empty());
    assert(sum_over(roots_in(m), Seq::<OctreeKey>::empty()) == 0);
    assert(steps(m, seq![root]) == page_roots(m, root).len());
    let end = walked(start, files, page_roots(m, root).len())->Ok_0;
    assert forall|x: OctreeKey| #[trigger] told(nodes, x) == if m.contains_key(x) {
        1nat
    } else {
        0
    } by {
        assert(told(nodes, x) == weigh(m, x, seq![root]));
        lemma_weigh_one(m, x, root);
        lemma_hung_from_root(m, keys, root, x);
    }
    lemma_hung_from_root(m, keys, root, root);
    assert(sum_over(hung_in(m), Seq::<OctreeKey>::empty()) == 0);
    assert(sum_over(hung_in(ones(m)), Seq::<OctreeKey>::empty()) == 0);
    assert(sum_over(hung_in(m), seq![root]) == hung(m, root));
    assert(sum_over(hung_in(ones(m)), seq![root]) == hung(ones(m), root));
    lemma_tally_counts(nodes);
    assert(is_account(m, nodes));
}

} // verus!
