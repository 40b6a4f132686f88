//! What a reader that walks a tileset makes of the document that a writer leaves
//! behind.

use super::account::{lemma_tally_counts, lemma_tally_on};
use super::copc_pages::{above, described};
use super::copc_total::{lemma_above_child, lemma_above_is_unique};
use super::hierarchy::{can_split, Written};
use super::tileset::{
    child_index, child_tile, kid_trees, lemma_index, manifest_of, tile_tree, tiles, tiles_below,
    Geometry,
};
use super::tileset_document::{a_content_is_known, a_root_is_read, a_tile_is_read};
use crate::cloud::{wrap64, NodeInfo, Tally};
use crate::double::Real;
use crate::error::Failure;
use crate::format::tileset::{children_of, uris_of};
use crate::format::tileset_walk::{
    absorbed, at_start, below, children, documents, next32, stepped, tile_at, Ask, Job, Progress,
};
use crate::json::{json_read, reads_by, Tree};
use crate::octree::{child_then_parent, OctreeKey};
use vstd::prelude::*;

verus! {

/// One step of a walk over some files: what it asks for is read and handed over.
pub open spec fn read_next(v: Progress, files: spec_fn(Seq<char>) -> Seq<u8>) -> Result<
    Progress,
    Failure,
> {
    match stepped(v) {
        (u, Ask::Read(path)) => absorbed(u, files(path)),
        (u, _) => Ok(u),
    }
}

/// Several steps of a walk over some files.
pub open spec fn walked(v: Progress, files: spec_fn(Seq<char>) -> Seq<u8>, n: nat) -> Result<
    Progress,
    Failure,
>
    decreases n,
{
    if n == 0 {
        Ok(v)
    } else {
        match walked(v, files, (n - 1) as nat) {
            Ok(u) => read_next(u, files),
            Err(f) => Err(f),
        }
    }
}

/// Some tiles, as the statistics count them.
pub open spec fn counted(list: Seq<OctreeKey>) -> Seq<NodeInfo> {
    list.map_values(|k: OctreeKey| tile_at(k.level))
}

/// A walk that has some tiles less to do.
pub open spec fn past(v: Progress, stack: Seq<Job>, list: Seq<OctreeKey>) -> Progress {
    Progress { stack, tally: v.tally.with_all(counted(list)), ..v }
}

proof fn lemma_walked_on(
    v: Progress,
    files: spec_fn(Seq<char>) -> Seq<u8>,
    a: nat,
    u: Progress,
    b: nat,
)
    requires
        walked(v, files, a) == Ok::<Progress, Failure>(u),
    ensures
        walked(v, files, a + b) == walked(u, files, b),
    decreases b,
{
    if b > 0 {
        lemma_walked_on(v, files, a, u, (b - 1) as nat);
        assert((a + b - 1) as nat == a + (b - 1) as nat);
    }
}

proof fn lemma_past_on(v: Progress, a: Seq<OctreeKey>, b: Seq<OctreeKey>, s: Seq<Job>, t: Seq<Job>)
    ensures
        past(past(v, s, a), t, b) == past(v, t, a + b),
{
    lemma_tally_on(v.tally, counted(a), counted(b));
    assert(counted(a + b) =~= counted(a) + counted(b));
}

/// The job of visiting a tile.
spec fn visit(t: Tree, document: Seq<char>, level: u32, depth: u32) -> Job {
    Job::Tile { tile: t, document, level, depth }
}

proof fn lemma_children_push(
    list: Seq<Tree>,
    x: Tree,
    i: int,
    document: Seq<char>,
    level: u32,
    depth: u32,
)
    requires
        0 <= i <= list.len(),
    ensures
        children(list.push(x), i, document, level, depth) == seq![
            visit(x, document, next32(level), depth),
        ] + children(list, i, document, level, depth),
    decreases list.len() - i,
{
    let all = list.push(x);
    if i == list.len() {
        assert(children(all, i + 1, document, level, depth) =~= Seq::empty());
        assert(children(list, i, document, level, depth) =~= Seq::empty());
        assert(children(all, i, document, level, depth) =~= seq![
            visit(x, document, next32(level), depth),
        ]);
    } else {
        lemma_children_push(list, x, i + 1, document, level, depth);
        assert(all[i] == list[i]);
        assert(children(all, i, document, level, depth) =~= seq![
            visit(x, document, next32(level), depth),
        ] + children(list, i, document, level, depth));
    }
}

/// A tile leads to its children and to nothing else.
proof fn lemma_below(
    w: Seq<Written>,
    k: OctreeKey,
    geo: Seq<Geometry>,
    i: int,
    t: Tree,
    document: Seq<char>,
    depth: u32,
    back: spec_fn(Real) -> Real,
) -> (list: Seq<Tree>)
    requires
        reads_by(tile_tree(w, k, geo, i), t, back),
    ensures
        list.len() == kid_trees(w, k, geo, i, 8).len(),
        forall|j: int|
            0 <= j < list.len() ==> reads_by(#[trigger] kid_trees(w, k, geo, i, 8)[j], list[j], back),
        below(t, document, k.level, depth) == children(list, 0, document, k.level, depth),
{
    a_tile_is_read(w, k, geo, i, t, back);
    a_content_is_known(k);
    let uris = uris_of(t);
    assert(documents(uris, uris.len() as int, document, k.level, depth) =~= Seq::empty());
    assert(documents(uris, 0, document, k.level, depth) =~= Seq::empty());
    match children_of(t) {
        Some(list) => {
            assert(below(t, document, k.level, depth) =~= children(
                list,
                0,
                document,
                k.level,
                depth,
            ));
            list
        },
        None => {
            let list = Seq::<Tree>::empty();
            assert(children(list, 0, document, k.level, depth) =~= Seq::empty());
            assert(below(t, document, k.level, depth) =~= Seq::empty());
            list
        },
    }
}

#[verifier::spinoff_prover]
#[verifier::rlimit(40)]
proof fn lemma_walk(
    w: Seq<Written>,
    k: OctreeKey,
    geo: Seq<Geometry>,
    i: int,
    t: Tree,
    v: Progress,
    files: spec_fn(Seq<char>) -> Seq<u8>,
    rest: Seq<Job>,
    document: Seq<char>,
    depth: u32,
    back: spec_fn(Real) -> Real,
)
    requires
        reads_by(tile_tree(w, k, geo, i), t, back),
        v.stack == rest.push(visit(t, document, k.level, depth)),
    ensures
        walked(v, files, tiles(w, k).len()) == Ok::<Progress, Failure>(past(v, rest, tiles(w, k))),
    decreases u32::MAX - k.level, 1int, 0int,
{
    let list = lemma_below(w, k, geo, i, t, document, depth, back);
    let stack = rest + children(list, 0, document, k.level, depth);
    let own = seq![k];
    let u = past(v, stack, own);
    assert(v.stack.drop_last() =~= rest);
    assert(counted(own) =~= seq![tile_at(k.level)]);
    assert(counted(own).drop_last() =~= Seq::empty());
    assert(v.tally.with_all(Seq::empty()) == v.tally);
    assert(v.tally.with_all(counted(own)) == v.tally.with(tile_at(k.level)));
    assert(stepped(v) == (u, Ask::Again));
    assert(walked(v, files, 0) == Ok::<Progress, Failure>(v));
    assert(walked(v, files, 1) == Ok::<Progress, Failure>(u));
    lemma_walk_kids(w, k, geo, i, 8, list, u, files, rest, document, depth, back);
    let kids = tiles_below(w, k, 8);
    lemma_walked_on(v, files, 1, u, kids.len());
    lemma_past_on(v, own, kids, stack, rest);
    assert(tiles(w, k) == own + kids);
}

#[verifier::spinoff_prover]
#[verifier::rlimit(40)]
proof fn lemma_walk_kids(
    w: Seq<Written>,
    k: OctreeKey,
    geo: Seq<Geometry>,
    i: int,
    n: int,
    list: Seq<Tree>,
    v: Progress,
    files: spec_fn(Seq<char>) -> Seq<u8>,
    rest: Seq<Job>,
    document: Seq<char>,
    depth: u32,
    back: spec_fn(Real) -> Real,
)
    requires
        n <= 8,
        list.len() == kid_trees(w, k, geo, i, n).len(),
        forall|j: int|
            0 <= j < list.len() ==> reads_by(#[trigger] kid_trees(w, k, geo, i, n)[j], list[j], back),
        v.stack == rest + children(list, 0, document, k.level, depth),
    ensures
        walked(v, files, tiles_below(w, k, n).len()) == Ok::<Progress, Failure>(
            past(v, rest, tiles_below(w, k, n)),
        ),
    decreases u32::MAX - k.level, 0int, n,
{
    if n > 0 && can_split(k) {
        let child = child_tile(k, n - 1);
        if described(w, child) {
            let all = kid_trees(w, k, geo, i, n);
            let before = kid_trees(w, k, geo, i, n - 1);
            let first = list.drop_last();
            let x = list.last();
            assert(list =~= first.push(x));
            assert forall|j: int| 0 <= j < first.len() implies reads_by(
                #[trigger] before[j],
                first[j],
                back,
            ) by {
                assert(all[j] == before[j]);
                assert(reads_by(all[j], list[j], back));
            }
            lemma_children_push(first, x, 0, document, k.level, depth);
            assert(child.level == k.level + 1);
            let stack = rest.push(visit(x, document, child.level, depth));
            assert(v.stack =~= stack + children(first, 0, document, k.level, depth));
            lemma_walk_kids(w, k, geo, i, n - 1, first, v, files, stack, document, depth, back);
            let a = tiles_below(w, k, n - 1);
            let b = tiles(w, child);
            let u = past(v, stack, a);
            assert(reads_by(all[before.len() as int], x, back));
            lemma_walk(
                w,
                child,
                geo,
                i + 1 + a.len(),
                x,
                u,
                files,
                rest,
                document,
                depth,
                back,
            );
            lemma_walked_on(v, files, a.len(), u, b.len());
            lemma_past_on(v, a, b, stack, rest);
        } else {
            lemma_walk_kids(w, k, geo, i, n - 1, list, v, files, rest, document, depth, back);
        }
    } else {
        assert(children(list, 0, document, k.level, depth) =~= Seq::empty());
        assert(v.stack =~= rest);
        assert(counted(Seq::empty()) =~= Seq::empty());
        assert(v.tally.with_all(Seq::empty()) == v.tally);
        assert(past(v, rest, Seq::empty()) == v);
        assert(walked(v, files, 0) == Ok::<Progress, Failure>(v));
    }
}

/// Whether some tiles are those of a tree: each is at or below a node, is a
/// written node or an ancestor of one, and none is there twice.
pub open spec fn are_tiles(w: Seq<Written>, k: OctreeKey, list: Seq<OctreeKey>) -> bool {
    &&& list.no_duplicates()
    &&& forall|j: int|
        0 <= j < list.len() ==> above(k, #[trigger] list[j]) && described(w, list[j])
}

proof fn lemma_tiles(w: Seq<Written>, k: OctreeKey)
    requires
        described(w, k),
    ensures
        are_tiles(w, k, tiles(w, k)),
    decreases u32::MAX - k.level, 1int, 0int,
{
    let kids = tiles_below(w, k, 8);
    let all = tiles(w, k);
    lemma_tiles_below(w, k, 8);
    assert forall|j: int| 0 <= j < all.len() implies above(k, #[trigger] all[j]) && described(
        w,
        all[j],
    ) by {
        if j > 0 {
            assert(all[j] == kids[j - 1]);
        }
    }
    assert forall|a: int, b: int| 0 <= a < b < all.len() implies all[a] != all[b] by {
        assert(all[b] == kids[b - 1]);
        if a > 0 {
            assert(all[a] == kids[a - 1]);
        }
    }
}

/// Whether a node is at or below one of the first `n` children of another.
spec fn is_within(k: OctreeKey, n: int, x: OctreeKey) -> bool {
    exists|c: int| 0 <= c < n && above(#[trigger] child_tile(k, c), x)
}

proof fn lemma_tiles_below(w: Seq<Written>, k: OctreeKey, n: int)
    requires
        n <= 8,
    ensures
        tiles_below(w, k, n).no_duplicates(),
        forall|j: int|
            0 <= j < tiles_below(w, k, n).len() ==> {
                let x = #[trigger] tiles_below(w, k, n)[j];
                above(k, x) && x != k && described(w, x) && can_split(k) && is_within(k, n, x)
            },
    decreases u32::MAX - k.level, 0int, n,
{
    if n > 0 && can_split(k) {
        lemma_tiles_below(w, k, n - 1);
        let child = child_tile(k, n - 1);
        let before = tiles_below(w, k, n - 1);
        let all = tiles_below(w, k, n);
        if described(w, child) {
            let own = tiles(w, child);
            assert(child.level == k.level + 1);
            lemma_tiles(w, child);
            assert forall|j: int| 0 <= j < all.len() implies {
                let x = #[trigger] all[j];
                above(k, x) && x != k && described(w, x) && can_split(k) && is_within(k, n, x)
            } by {
                let x = all[j];
                if j < before.len() {
                    assert(x == before[j]);
                    let c = choose|c: int| 0 <= c < n - 1 && above(#[trigger] child_tile(k, c), x);
                    assert(above(child_tile(k, c), x));
                } else {
                    assert(x == own[j - before.len()]);
                    lemma_index((n - 1) as u8);
                    lemma_above_child(k, x, child_index(n - 1) as int);
                    assert(above(child_tile(k, n - 1), x));
                }
            }
            assert forall|a: int, b: int| 0 <= a < b < all.len() implies all[a] != all[b] by {
                if b < before.len() {
                    assert(all[a] == before[a] && all[b] == before[b]);
                } else if a >= before.len() {
                    assert(all[a] == own[a - before.len()] && all[b] == own[b - before.len()]);
                } else {
                    assert(all[a] == before[a] && all[b] == own[b - before.len()]);
                    if all[a] == all[b] {
                        let x = all[a];
                        let c = choose|c: int|
                            0 <= c < n - 1 && above(#[trigger] child_tile(k, c), x);
                        lemma_index(c as u8);
                        lemma_index((n - 1) as u8);
                        lemma_apart(k, x, child_index(c), child_index(n - 1));
                    }
                }
            }
        } else {
            assert forall|j: int| 0 <= j < all.len() implies {
                let x = #[trigger] all[j];
                above(k, x) && x != k && described(w, x) && can_split(k) && is_within(k, n, x)
            } by {
                let x = before[j];
                let c = choose|c: int| 0 <= c < n - 1 && above(#[trigger] child_tile(k, c), x);
                assert(above(child_tile(k, c), x));
            }
        }
    }
}

proof fn lemma_apart(k: OctreeKey, x: OctreeKey, a: u8, b: u8)
    requires
        can_split(k),
        a < 8,
        b < 8,
        above(k.spec_child(a), x),
        above(k.spec_child(b), x),
    ensures
        a == b,
{
    child_then_parent(k, a);
    child_then_parent(k, b);
    lemma_above_is_unique(k.spec_child(a), k.spec_child(b), x);
}

/// A reader that walks a tileset that was written reads the document and nothing
/// else, warns of nothing, and counts the tiles of the tree: each written node
/// and each of its ancestors once, and no other.
pub proof fn a_written_tree_is_walked(
    generator: Seq<char>,
    error: Real,
    w: Seq<Written>,
    geo: Seq<Geometry>,
    manifest: Seq<char>,
    files: spec_fn(Seq<char>) -> Seq<u8>,
    back: spec_fn(Real) -> Real,
)
    requires
        w.len() > 0,
        forall|i: int| 0 <= i < w.len() ==> above(OctreeKey::root(), (#[trigger] w[i]).key),
        json_read(files(manifest)) matches Ok(json) && reads_by(
            manifest_of(generator, error, w, geo),
            json,
            back,
        ),
    ensures
        ({
            let list = tiles(w, OctreeKey::root());
            &&& walked(at_start(manifest), files, 1 + list.len()) matches Ok(end) && {
                &&& end.stack.len() == 0
                &&& end.waiting is None
                &&& end.warnings.len() == 0
                &&& end.seen == seq![manifest]
                &&& end.hierarchy_requests == 1
                &&& end.hierarchy_bytes == wrap64(files(manifest).len() as int)
                &&& end.tally == Tally::none().with_all(counted(list))
                &&& end.tally.nodes == wrap64(list.len() as int)
            }
            &&& list.no_duplicates()
            &&& forall|k: OctreeKey| #[trigger] list.contains(k) == described(w, k)
        }),
{
    let root = OctreeKey::root();
    let list = tiles(w, root);
    let bytes = files(manifest);
    let json = json_read(bytes)->Ok_0;
    let start = at_start(manifest);
    assert(above(root, w[0].key));
    assert(described(w, root));
    lemma_tiles(w, root);
    assert forall|k: OctreeKey| #[trigger] list.contains(k) == described(w, k) by {
        if described(w, k) {
            let i = choose|i: int| 0 <= i < w.len() && above(k, (#[trigger] w[i]).key);
            assert(above(root, w[i].key));
            lemma_root_above(k, w[i].key);
            super::tileset::every_node_is_a_tile(w, k);
        }
        if list.contains(k) {
            let j = choose|j: int| 0 <= j < list.len() && list[j] == k;
            assert(described(w, list[j]));
        }
    }
    a_root_is_read(generator, error, w, geo, json, back);
    let t = json.at("root"@)->0;
    let v = Progress {
        stack: seq![visit(t, manifest, 0, 0)],
        seen: seq![manifest],
        waiting: None,
        tally: Tally::none(),
        hierarchy_bytes: wrap64(bytes.len() as int),
        hierarchy_requests: 1,
        warnings: Seq::empty(),
    };
    assert(start.stack.drop_last() =~= Seq::empty());
    assert(start.seen.push(manifest) =~= seq![manifest]);
    let asked = stepped(start).0;
    assert(stepped(start).1 == Ask::Read(manifest));
    let taken = absorbed(asked, bytes)->Ok_0;
    assert(taken.stack =~= v.stack);
    assert(taken =~= v);
    assert(walked(start, files, 0) == Ok::<Progress, Failure>(start));
    assert(walked(start, files, 1) == Ok::<Progress, Failure>(v));
    let none = Seq::<Job>::empty();
    assert(v.stack =~= none.push(visit(t, manifest, root.level, 0)));
    lemma_walk(w, root, geo, 0, t, v, files, none, manifest, 0, back);
    lemma_walked_on(start, files, 1, v, list.len());
    lemma_tally_counts(counted(list));
}

/// An ancestor of a node below the root is below the root.
proof fn lemma_root_above(k: OctreeKey, x: OctreeKey)
    requires
        above(OctreeKey::root(), x),
        above(k, x),
    ensures
        above(OctreeKey::root(), k),
    decreases x.level,
{
    if k != x {
        let p = x.spec_parent()->0;
        if x == OctreeKey::root() {
            assert(false);
        }
        lemma_root_above(k, p);
    }
}

} // verus!
