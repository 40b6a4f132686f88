//! 3D Tiles: `tileset.json`, and what its tiles name.
//!
//! Two things a tileset does not declare: point counts, which live in each
//! tile's payload, and attributes, which are in the first tile's feature table.
//! The boxes of bounding volumes are floating point and belong to the program;
//! which volume a tile has is decided here.

use super::ept::{count_or_zero, text_or};
use crate::bounds::Bounds;
use crate::cloud::{spelled, wrap64, CloudInfo, FormatId, Summary};
use crate::crs::{epsg_declares, Crs};
use crate::double::{Real, ONE, ZERO};
use crate::error::{Error, Failure};
use crate::json::{field, field_place, json_read, tree_fields, trees, Json, Tree};
use crate::text::{
    cat2, cat3, chars_of, contains, decimal, decimal_of, ends, ends_with, find_from, first_of,
    last_of, lowered, quoted, quoted_text, replace, replaced, rfind, same, string_of,
    texts, to_lower,
};
use crate::warning::Notice;
use vstd::prelude::*;
use vstd::string::*;

verus! {

/// A relative URI, resolved against the document that declared it.
pub open spec fn joined(document: Seq<char>, uri: Seq<char>) -> Seq<char> {
    document.take(last_of(document, '/') + 1) + uri
}

/// Resolves a relative URI against the document that declared it. A nested
/// tileset changes the base.
pub fn join(document: &str, uri: &str) -> (out: String)
    ensures
        out@ == joined(document@, uri@),
{
    let cs = chars_of(document);
    match rfind(&cs, '/') {
        Some(cut) => {
            let front = string_of(cs.as_slice(), 0, cut + 1);
            assert(cs@.subrange(0, cut + 1) =~= cs@.take(cut + 1));
            cat2(front.as_str(), uri)
        },
        None => {
            assert(document@.take(0) + uri@ =~= uri@);
            uri.to_owned()
        },
    }
}

/// The path of a subtree, from a template.
pub open spec fn filled(
    template: Seq<char>,
    level: u64,
    x: u64,
    y: u64,
    z: u64,
    three_d: bool,
) -> Seq<char> {
    let a = replaced(template, "{level}"@, decimal(level as nat));
    let b = replaced(a, "{x}"@, decimal(x as nat));
    let c = replaced(b, "{y}"@, decimal(y as nat));
    if three_d {
        replaced(c, "{z}"@, decimal(z as nat))
    } else {
        c
    }
}

/// The path of a subtree, from a template.
pub fn fill_template(template: &str, level: u64, x: u64, y: u64, z: u64, three_d: bool) -> (out:
    String)
    ensures
        out@ == filled(template@, level, x, y, z, three_d),
{
    proof {
        reveal_strlit("{level}");
        reveal_strlit("{x}");
        reveal_strlit("{y}");
        reveal_strlit("{z}");
    }
    let l = decimal_of(level);
    let xs = decimal_of(x);
    let ys = decimal_of(y);
    let a = replace(template, "{level}", l.as_str());
    let b = replace(a.as_str(), "{x}", xs.as_str());
    let c = replace(b.as_str(), "{y}", ys.as_str());
    if three_d {
        let zs = decimal_of(z);
        replace(c.as_str(), "{z}", zs.as_str())
    } else {
        c
    }
}

/// The URI of a content: its `uri`, or its `url` where it has none.
pub open spec fn uri_of(content: Tree) -> Option<Seq<char>> {
    match content.at("uri"@) {
        Some(v) => v.text(),
        None => content.text_at("url"@),
    }
}

fn read_uri(content: &Json) -> (r: Option<String>)
    ensures
        spelled(r) == uri_of(content.tree()),
{
    let found = match content.get("uri") {
        Some(v) => v.as_text(),
        None => content.text_at("url"),
    };
    match found {
        Some(s) => Some(s.clone()),
        None => None,
    }
}

/// The URIs of some contents.
pub open spec fn uris_in(list: Seq<Tree>) -> Seq<Seq<char>>
    decreases list.len(),
{
    if list.len() == 0 {
        Seq::empty()
    } else {
        match uri_of(list.last()) {
            Some(uri) => uris_in(list.drop_last()).push(uri),
            None => uris_in(list.drop_last()),
        }
    }
}

/// The URIs that a tile names: its `contents`, then its `content`.
pub open spec fn uris_of(tile: Tree) -> Seq<Seq<char>> {
    let several = match tile.items_at("contents"@) {
        Some(list) => uris_in(list),
        None => Seq::empty(),
    };
    match tile.at("content"@) {
        Some(c) => match uri_of(c) {
            Some(uri) => several.push(uri),
            None => several,
        },
        None => several,
    }
}

/// The URIs that a tile names.
pub fn content_uris(tile: &Json) -> (out: Vec<String>)
    ensures
        texts(out@) == uris_of(tile.tree()),
{
    let mut out: Vec<String> = Vec::new();
    assert(texts(out@) =~= Seq::<Seq<char>>::empty());
    if let Some(list) = tile.array_at("contents") {
        let ghost all = trees(list@);
        let mut i: usize = 0;
        assert(all.take(0) =~= Seq::<Tree>::empty());
        while i < list.len()
            invariant
                i <= list.len(),
                all == trees(list@),
                texts(out@) == uris_in(all.take(i as int)),
            decreases list.len() - i,
        {
            assert(all.take(i + 1).drop_last() =~= all.take(i as int));
            assert(all.take(i + 1).last() == list@[i as int].tree());
            let ghost before = out@;
            if let Some(uri) = read_uri(&list[i]) {
                out.push(uri);
                assert(texts(out@) =~= texts(before).push(uri@));
            }
            i = i + 1;
        }
        assert(all.take(i as int) =~= all);
    }
    let ghost before = out@;
    if let Some(c) = tile.get("content") {
        if let Some(uri) = read_uri(c) {
            out.push(uri);
            assert(texts(out@) =~= texts(before).push(uri@));
        }
    }
    out
}

/// A URI without its query and its fragment.
pub open spec fn path_part(uri: Seq<char>) -> Seq<char> {
    let a = first_of(uri, '?');
    let b = first_of(uri, '#');
    uri.take(
        if a < b {
            a
        } else {
            b
        },
    )
}

fn read_path_part(uri: &str) -> (out: String)
    ensures
        out@ == path_part(uri@),
{
    let cs = chars_of(uri);
    assert(cs@.skip(0) =~= cs@);
    let a: usize = find_from(&cs, '?', 0);
    let b: usize = find_from(&cs, '#', 0);
    let n: usize = if a < b {
        a
    } else {
        b
    };
    assert(cs@.subrange(0, n as int) =~= cs@.take(n as int));
    string_of(cs.as_slice(), 0, n)
}

/// The kind of payload that a URI names, by its extension.
pub open spec fn kind_of(uri: Seq<char>) -> Seq<char> {
    let path = path_part(uri);
    let dot = last_of(path, '.');
    let ext = lowered(path.skip(dot + 1));
    if dot < 0 {
        "unknown"@
    } else if ext == "pnts"@ {
        "pnts"@
    } else if ext == "glb"@ || ext == "gltf"@ {
        "gltf"@
    } else if ext == "json"@ {
        "tileset"@
    } else if ext == "b3dm"@ || ext == "i3dm"@ || ext == "cmpt"@ {
        "mesh"@
    } else {
        "unknown"@
    }
}

/// The kind of payload that a URI names, by its extension.
pub fn content_kind(uri: &str) -> (s: &'static str)
    ensures
        s@ == kind_of(uri@),
{
    let path = read_path_part(uri);
    let cs = chars_of(path.as_str());
    match rfind(&cs, '.') {
        None => "unknown",
        Some(dot) => {
            let tail = string_of(cs.as_slice(), dot + 1, cs.len());
            assert(cs@.subrange(dot + 1, cs@.len() as int) =~= cs@.skip(dot + 1));
            let ext = to_lower(tail.as_str());
            let e = ext.as_str();
            if same(e, "pnts") {
                "pnts"
            } else if same(e, "glb") || same(e, "gltf") {
                "gltf"
            } else if same(e, "json") {
                "tileset"
            } else if same(e, "b3dm") || same(e, "i3dm") || same(e, "cmpt") {
                "mesh"
            } else {
                "unknown"
            }
        },
    }
}

/// The children of a tile.
pub open spec fn children_of(tile: Tree) -> Option<Seq<Tree>> {
    tile.items_at("children"@)
}

/// A child is smaller than its tile.
pub proof fn child_is_smaller(tile: Tree, i: int)
    requires
        children_of(tile) is Some,
        0 <= i < children_of(tile)->0.len(),
    ensures
        decreases_to!(tile => children_of(tile)->0[i]),
{
    let fields = tile->Object_0;
    let at = field_place(fields, "children"@);
    let list = fields[at].1;
    assert(decreases_to!(tile => tile->Object_0));
    assert(decreases_to!(fields => fields[at]));
    assert(decreases_to!(fields[at] => fields[at].1));
    assert(decreases_to!(list => list->Array_0));
    assert(decreases_to!(list->Array_0 => list->Array_0[i]));
}

/// Some kinds, with the kinds of some URIs that are not among them yet.
pub open spec fn with_kinds(have: Seq<Seq<char>>, uris: Seq<Seq<char>>) -> Seq<Seq<char>>
    decreases uris.len(),
{
    if uris.len() == 0 {
        have
    } else {
        let before = with_kinds(have, uris.drop_last());
        let kind = kind_of(uris.last());
        if before.contains(kind) {
            before
        } else {
            before.push(kind)
        }
    }
}

/// Some kinds, with those at and below a tile that are not among them yet.
pub open spec fn kinds_with(tile: Tree, have: Seq<Seq<char>>) -> Seq<Seq<char>>
    decreases tile, 1int, 0int,
{
    let own = with_kinds(have, uris_of(tile));
    match children_of(tile) {
        Some(list) => kinds_below(tile, list.len() as int, own),
        None => own,
    }
}

/// Some kinds, with those at and below the first `n` children of a tile.
pub open spec fn kinds_below(tile: Tree, n: int, have: Seq<Seq<char>>) -> Seq<Seq<char>>
    decreases tile, 0int, n,
    when children_of(tile) is Some && n <= children_of(tile)->0.len()
{
    if n <= 0 {
        have
    } else {
        proof {
            child_is_smaller(tile, n - 1);
        }
        kinds_with(children_of(tile)->0[n - 1], kinds_below(tile, n - 1, have))
    }
}

/// Whether the items of a list are smaller than a document.
pub open spec fn all_smaller(j: Json, list: Seq<Json>) -> bool {
    forall|i: int| 0 <= i < list.len() ==> decreases_to!(j => #[trigger] list[i])
}

/// The children of a tile.
fn read_children(tile: &Json) -> (r: Option<&Vec<Json>>)
    ensures
        match r {
            Some(v) => children_of(tile.tree()) == Some(trees(v@)) && all_smaller(*tile, v@),
            None => children_of(tile.tree()) is None,
        },
{
    match tile {
        Json::Object(fields) => {
            let ghost all = tree_fields(fields@);
            assert(tile.tree()->Object_0 =~= all);
            assert(all.skip(0) =~= all);
            let mut i: usize = 0;
            while i < fields.len()
                invariant
                    i <= fields.len(),
                    *tile == Json::Object(*fields),
                    all == tree_fields(fields@),
                    tile.tree() == Tree::Object(all),
                    field(all, "children"@) == field(all.skip(i as int), "children"@),
                decreases fields.len() - i,
            {
                assert(all.skip(i as int)[0] == (fields@[i as int].0@, fields@[i as int].1.tree()));
                if same(fields[i].0.as_str(), "children") {
                    let found = fields[i].1.as_array();
                    proof {
                        if let Some(v) = found {
                            let ghost j = *tile;
                            assert forall|k: int| 0 <= k < v@.len() implies decreases_to!(
                                *tile => #[trigger] v@[k]) by {
                                lemma_inside(*tile, i as int, k);
                            }
                        }
                    }
                    return found;
                }
                assert(all.skip(i as int).skip(1) =~= all.skip(i + 1));
                i = i + 1;
            }
            None
        },
        _ => None,
    }
}

proof fn lemma_inside(j: Json, i: int, k: int)
    requires
        j is Object,
        0 <= i < j->Object_0@.len(),
        j->Object_0@[i].1 is Array,
        0 <= k < j->Object_0@[i].1->Array_0@.len(),
    ensures
        decreases_to!(j => j->Object_0@[i].1->Array_0@[k]),
{
    let fields = j->Object_0;
    let list = fields@[i].1;
    assert(decreases_to!(j => j->Object_0));
    assert(decreases_to!(fields => fields@));
    assert(decreases_to!(fields@ => fields@[i]));
    assert(decreases_to!(fields@[i] => fields@[i].1));
    assert(decreases_to!(list => list->Array_0));
    assert(decreases_to!(list->Array_0 => list->Array_0@));
    assert(decreases_to!(list->Array_0@ => list->Array_0@[k]));
}

fn add_kind(out: &mut Vec<String>, kind: &str)
    ensures
        texts(final(out)@) == if texts(old(out)@).contains(kind@) {
            texts(old(out)@)
        } else {
            texts(old(out)@).push(kind@)
        },
{
    let mut i: usize = 0;
    while i < out.len()
        invariant
            i <= out.len(),
            *out == *old(out),
            forall|j: int| 0 <= j < i ==> #[trigger] texts(out@)[j] != kind@,
        decreases out.len() - i,
    {
        assert(texts(out@)[i as int] == out@[i as int]@);
        if same(out[i].as_str(), kind) {
            return;
        }
        i = i + 1;
    }
    let ghost before = out@;
    out.push(kind.to_owned());
    assert(texts(out@) =~= texts(before).push(kind@));
}

/// Adds the kinds of content at and below a tile, each once, in the order met.
pub fn collect_kinds(tile: &Json, out: &mut Vec<String>)
    ensures
        texts(final(out)@) == kinds_with(tile.tree(), texts(old(out)@)),
    decreases tile,
{
    let ghost have = texts(out@);
    let uris = content_uris(tile);
    let ghost all = texts(uris@);
    let mut i: usize = 0;
    assert(all.take(0) =~= Seq::<Seq<char>>::empty());
    while i < uris.len()
        invariant
            i <= uris.len(),
            all == texts(uris@),
            texts(out@) == with_kinds(have, all.take(i as int)),
        decreases uris.len() - i,
    {
        assert(all.take(i + 1).drop_last() =~= all.take(i as int));
        assert(all.take(i + 1).last() == uris@[i as int]@);
        add_kind(out, content_kind(uris[i].as_str()));
        i = i + 1;
    }
    assert(all.take(i as int) =~= all);
    let ghost own = texts(out@);
    if let Some(list) = read_children(tile) {
        let ghost kids = trees(list@);
        let mut k: usize = 0;
        while k < list.len()
            invariant
                k <= list.len(),
                kids == trees(list@),
                children_of(tile.tree()) == Some(kids),
                all_smaller(*tile, list@),
                texts(out@) == kinds_below(tile.tree(), k as int, own),
            decreases list.len() - k,
        {
            assert(kids[k as int] == list@[k as int].tree());
            assert(decreases_to!(*tile => list@[k as int]));
            collect_kinds(&list[k], out);
            k = k + 1;
        }
    }
}

/// Whether a URI names a payload rather than a document or a template.
pub open spec fn is_payload(uri: Seq<char>) -> bool {
    !ends(path_part(uri), ".json"@) && !path_part(uri).contains('{')
}

/// The first payload among some URIs.
pub open spec fn payload_in(uris: Seq<Seq<char>>) -> Option<Seq<char>>
    decreases uris.len(),
{
    if uris.len() == 0 {
        None
    } else if payload_in(uris.drop_last()) is Some {
        payload_in(uris.drop_last())
    } else if is_payload(uris.last()) {
        Some(uris.last())
    } else {
        None
    }
}

/// The first payload at or below a tile.
pub open spec fn payload_of(tile: Tree) -> Option<Seq<char>>
    decreases tile, 1int, 0int,
{
    match payload_in(uris_of(tile)) {
        Some(uri) => Some(uri),
        None => match children_of(tile) {
            Some(list) => payload_below(tile, list.len() as int),
            None => None,
        },
    }
}

/// The first payload at or below the first `n` children of a tile.
pub open spec fn payload_below(tile: Tree, n: int) -> Option<Seq<char>>
    decreases tile, 0int, n,
    when children_of(tile) is Some && n <= children_of(tile)->0.len()
{
    if n <= 0 {
        None
    } else if payload_below(tile, n - 1) is Some {
        payload_below(tile, n - 1)
    } else {
        proof {
            child_is_smaller(tile, n - 1);
        }
        payload_of(children_of(tile)->0[n - 1])
    }
}

proof fn lemma_found_stays(uris: Seq<Seq<char>>, n: int)
    requires
        0 <= n <= uris.len(),
        payload_in(uris.take(n)) is Some,
    ensures
        payload_in(uris) == payload_in(uris.take(n)),
    decreases uris.len() - n,
{
    if n < uris.len() {
        assert(uris.take(n + 1).drop_last() =~= uris.take(n));
        lemma_found_stays(uris, n + 1);
    } else {
        assert(uris.take(n) =~= uris);
    }
}

proof fn lemma_found_below(tile: Tree, n: int, m: int)
    requires
        children_of(tile) is Some,
        0 <= n <= m <= children_of(tile)->0.len(),
        payload_below(tile, n) is Some,
    ensures
        payload_below(tile, m) == payload_below(tile, n),
    decreases m - n,
{
    if n < m {
        lemma_found_below(tile, n, m - 1);
    }
}

/// The first content at or below a tile that is a payload rather than a
/// document.
pub fn first_payload(tile: &Json) -> (r: Option<String>)
    ensures
        spelled(r) == payload_of(tile.tree()),
    decreases tile,
{
    let uris = content_uris(tile);
    let ghost all = texts(uris@);
    let mut i: usize = 0;
    assert(all.take(0) =~= Seq::<Seq<char>>::empty());
    while i < uris.len()
        invariant
            i <= uris.len(),
            all == texts(uris@),
            all == uris_of(tile.tree()),
            payload_in(all.take(i as int)) is None,
        decreases uris.len() - i,
    {
        assert(all.take(i + 1).drop_last() =~= all.take(i as int));
        assert(all.take(i + 1).last() == uris@[i as int]@);
        let path = read_path_part(uris[i].as_str());
        let cs = chars_of(path.as_str());
        let brace: usize = find_from(&cs, '{', 0);
        proof {
            assert(cs@.skip(0) =~= cs@);
            crate::text::first_of_is_first(cs@, '{');
            if brace < cs@.len() {
                assert(cs@[brace as int] == '{');
            } else if cs@.contains('{') {
                let j = cs@.index_of('{');
                assert(cs@[j] != '{');
            }
        }
        if !ends_with(path.as_str(), ".json") && brace == cs.len() {
            proof {
                lemma_found_stays(all, i + 1);
            }
            return Some(uris[i].clone());
        }
        i = i + 1;
    }
    assert(all.take(i as int) =~= all);
    if let Some(list) = read_children(tile) {
        let ghost kids = trees(list@);
        let mut k: usize = 0;
        while k < list.len()
            invariant
                k <= list.len(),
                kids == trees(list@),
                children_of(tile.tree()) == Some(kids),
                all_smaller(*tile, list@),
                payload_in(uris_of(tile.tree())) is None,
                payload_below(tile.tree(), k as int) is None,
            decreases list.len() - k,
        {
            assert(kids[k as int] == list@[k as int].tree());
            assert(decreases_to!(*tile => list@[k as int]));
            let found = first_payload(&list[k]);
            if found.is_some() {
                proof {
                    lemma_found_below(tile.tree(), k + 1, kids.len() as int);
                }
                return found;
            }
            k = k + 1;
        }
    }
    None
}

/// A bounding volume that a box can be made of.
#[derive(Debug, Clone, Copy)]
pub enum Volume {
    /// A centre and three half axes.
    Oriented([Real; 12]),
    /// A centre and a radius.
    Sphere([Real; 4]),
    /// West, south, east, north, and the least and the greatest height.
    Region([Real; 6]),
}

/// Number `i` of a list, or zero.
pub open spec fn number(list: Seq<Tree>, i: int) -> Real {
    match list[i].measure() {
        Some(r) => r,
        None => Real { bits: ZERO },
    }
}

/// The first `n` numbers of a list, where it has so many.
pub open spec fn numbers_at(volume: Tree, key: Seq<char>, n: nat) -> Option<Seq<Real>> {
    match volume.items_at(key) {
        Some(list) => if list.len() >= n {
            Some(Seq::new(n, |i: int| number(list, i)))
        } else {
            None
        },
        None => None,
    }
}

/// Whether a volume is the one that a field describes: its box, its sphere or its
/// region, the first that is there.
pub open spec fn volume_is(t: Option<Tree>, v: Option<Volume>) -> bool {
    match t {
        None => v is None,
        Some(volume) => match numbers_at(volume, "box"@, 12) {
            Some(list) => v matches Some(Volume::Oriented(a)) && a@ == list,
            None => match numbers_at(volume, "sphere"@, 4) {
                Some(list) => v matches Some(Volume::Sphere(a)) && a@ == list,
                None => match numbers_at(volume, "region"@, 6) {
                    Some(list) => v matches Some(Volume::Region(a)) && a@ == list,
                    None => v is None,
                },
            },
        },
    }
}

fn read_numbers(volume: &Json, key: &str, n: usize) -> (r: Option<Vec<Real>>)
    ensures
        match r {
            Some(v) => numbers_at(volume.tree(), key@, n as nat) == Some(v@),
            None => numbers_at(volume.tree(), key@, n as nat) is None,
        },
{
    match volume.array_at(key) {
        Some(list) => {
            if list.len() < n {
                return None;
            }
            let ghost all = trees(list@);
            let mut out: Vec<Real> = Vec::new();
            let mut i: usize = 0;
            while i < n
                invariant
                    i <= n <= list.len(),
                    all == trees(list@),
                    out@ == Seq::new(i as nat, |j: int| number(all, j)),
                decreases n - i,
            {
                assert(all[i as int] == list@[i as int].tree());
                let r = match list[i].as_real() {
                    Some(r) => r,
                    None => Real { bits: ZERO },
                };
                out.push(r);
                assert(out@ =~= Seq::new((i + 1) as nat, |j: int| number(all, j)));
                i = i + 1;
            }
            Some(out)
        },
        None => None,
    }
}

/// The bounding volume that a field describes.
pub fn read_volume(volume: Option<&Json>) -> (r: Option<Volume>)
    ensures
        volume_is(
            match volume {
                Some(v) => Some(v.tree()),
                None => None,
            },
            r,
        ),
{
    let v = match volume {
        Some(v) => v,
        None => {
            return None;
        },
    };
    if let Some(b) = read_numbers(v, "box", 12) {
        let a: [Real; 12] = [b[0], b[1], b[2], b[3], b[4], b[5], b[6], b[7], b[8], b[9], b[10], b[11]];
        assert(a@ =~= b@);
        return Some(Volume::Oriented(a));
    }
    if let Some(b) = read_numbers(v, "sphere", 4) {
        let a: [Real; 4] = [b[0], b[1], b[2], b[3]];
        assert(a@ =~= b@);
        return Some(Volume::Sphere(a));
    }
    if let Some(b) = read_numbers(v, "region", 6) {
        let a: [Real; 6] = [b[0], b[1], b[2], b[3], b[4], b[5]];
        assert(a@ =~= b@);
        return Some(Volume::Region(a));
    }
    None
}

/// A transform that changes nothing, by columns.
pub open spec fn identity() -> Seq<Real> {
    Seq::new(
        16,
        |i: int|
            if i % 5 == 0 {
                Real { bits: ONE }
            } else {
                Real { bits: ZERO }
            },
    )
}

/// The transform of a tile, by columns.
pub open spec fn transform_of(tile: Tree) -> Seq<Real> {
    match tile.items_at("transform"@) {
        Some(list) => if list.len() >= 16 {
            Seq::new(
                16,
                |i: int|
                    match list[i].measure() {
                        Some(r) => r,
                        None => identity()[i],
                    },
            )
        } else {
            identity()
        },
        None => identity(),
    }
}

/// The transform of a tile, by columns.
pub fn read_transform(tile: &Json) -> (m: Vec<Real>)
    ensures
        m@ == transform_of(tile.tree()),
{
    let mut m: Vec<Real> = Vec::new();
    let mut i: usize = 0;
    while i < 16
        invariant
            i <= 16,
            m@ == identity().take(i as int),
        decreases 16 - i,
    {
        let bits: u64 = if i % 5 == 0 {
            ONE
        } else {
            ZERO
        };
        m.push(Real { bits });
        assert(m@ =~= identity().take(i + 1));
        i = i + 1;
    }
    assert(m@ =~= identity());
    if let Some(list) = tile.array_at("transform") {
        if list.len() >= 16 {
            let ghost all = trees(list@);
            let ghost want = transform_of(tile.tree());
            let mut k: usize = 0;
            while k < 16
                invariant
                    k <= 16,
                    list.len() >= 16,
                    all == trees(list@),
                    tile.tree().items_at("transform"@) == Some(all),
                    want == transform_of(tile.tree()),
                    m@.len() == 16,
                    forall|j: int| 0 <= j < k ==> #[trigger] m@[j] == want[j],
                    forall|j: int| k <= j < 16 ==> #[trigger] m@[j] == identity()[j],
                decreases 16 - k,
            {
                assert(all[k as int] == list@[k as int].tree());
                if let Some(r) = list[k].as_real() {
                    m[k] = r;
                }
                k = k + 1;
            }
            assert(m@ =~= want);
        }
    }
    m
}

/// What a tileset says of the rule that describes its tree.
#[derive(Debug)]
pub struct ImplicitSummary {
    pub scheme: String,
    pub subtree_levels: u32,
    pub available_levels: u32,
}

/// A rule, as the values it holds.
pub struct Implicit {
    pub scheme: Seq<char>,
    pub subtree_levels: u32,
    pub available_levels: u32,
}

impl View for ImplicitSummary {
    type V = Implicit;

    open spec fn view(&self) -> Implicit {
        Implicit {
            scheme: self.scheme@,
            subtree_levels: self.subtree_levels,
            available_levels: self.available_levels,
        }
    }
}

/// The levels that a rule declares: `availableLevels`, or one more than
/// `maximumLevel`.
pub open spec fn levels_of(rule: Tree) -> u64 {
    match rule.unsigned_at("availableLevels"@) {
        Some(n) => n,
        None => match rule.unsigned_at("maximumLevel"@) {
            Some(m) => wrap64(m + 1),
            None => 0,
        },
    }
}

/// The levels that a rule declares.
pub fn read_levels(rule: &Json) -> (n: u64)
    ensures
        n == levels_of(rule.tree()),
{
    match rule.unsigned_at("availableLevels") {
        Some(n) => n,
        None => match rule.unsigned_at("maximumLevel") {
            Some(m) => m.wrapping_add(1),
            None => 0,
        },
    }
}

/// The rule of a tile, where it has one.
pub open spec fn rule_of(tile: Tree) -> Option<Tree> {
    match tile.at("implicitTiling"@) {
        Some(rule) => if rule.is_object() {
            Some(rule)
        } else {
            None
        },
        None => None,
    }
}

/// The rule of a tile, where it has one.
pub fn read_rule(tile: &Json) -> (r: Option<&Json>)
    ensures
        match r {
            Some(rule) => rule_of(tile.tree()) == Some(rule.tree()),
            None => rule_of(tile.tree()) is None,
        },
{
    match tile.get("implicitTiling") {
        Some(rule) => {
            if rule.as_object().is_some() {
                Some(rule)
            } else {
                None
            }
        },
        None => None,
    }
}

/// What the summary says of a rule.
pub open spec fn implicit_of(rule: Tree) -> Implicit {
    Implicit {
        scheme: text_or(rule, "subdivisionScheme"@, "OCTREE"@),
        subtree_levels: (count_or_zero(rule, "subtreeLevels"@) as int % 0x1_0000_0000) as u32,
        available_levels: (levels_of(rule) as int % 0x1_0000_0000) as u32,
    }
}

/// A rule that may be missing, as the values it holds.
pub open spec fn implicit_view(r: Option<ImplicitSummary>) -> Option<Implicit> {
    match r {
        Some(i) => Some(i@),
        None => None,
    }
}

fn read_implicit(root: &Json) -> (r: Option<ImplicitSummary>)
    ensures
        implicit_view(r) == match rule_of(root.tree()) {
            Some(rule) => Some(implicit_of(rule)),
            None => None,
        },
{
    match read_rule(root) {
        Some(rule) => {
            let scheme = match rule.text_at("subdivisionScheme") {
                Some(t) => t.clone(),
                None => "OCTREE".to_owned(),
            };
            let subtree: u64 = match rule.unsigned_at("subtreeLevels") {
                Some(n) => n,
                None => 0,
            };
            Some(
                ImplicitSummary {
                    scheme,
                    subtree_levels: (subtree % 0x1_0000_0000) as u32,
                    available_levels: (read_levels(rule) % 0x1_0000_0000) as u32,
                },
            )
        },
        None => None,
    }
}

/// What a manifest says, its bounding volume still to be made a box.
#[derive(Debug)]
pub struct Sketch {
    /// `asset.version`, verbatim.
    pub version: String,
    pub volume: Volume,
    /// The transform of the root tile, by columns.
    pub transform: Vec<Real>,
    pub geometric_error: Real,
    /// What kinds of content the document names.
    pub content_kinds: Vec<String>,
    pub implicit: Option<ImplicitSummary>,
}

/// Whether a sketch says what a document with a root tile does.
pub open spec fn sketches(json: Tree, root: Tree, error: Real, s: Sketch) -> bool {
    &&& s.version@ == version_of(json)
    &&& volume_is(root.at("boundingVolume"@), Some(s.volume))
    &&& s.transform@ == transform_of(root)
    &&& s.geometric_error == error
    &&& texts(s.content_kinds@) == kinds_with(root, Seq::empty())
    &&& implicit_view(s.implicit) == match rule_of(root) {
        Some(rule) => Some(implicit_of(rule)),
        None => None,
    }
}

/// The version that a document states.
pub open spec fn version_of(json: Tree) -> Seq<char> {
    match json.at("asset"@) {
        Some(asset) => text_or(asset, "version"@, ""@),
        None => ""@,
    }
}

/// A complaint that a document is not a tileset.
pub open spec fn not_tiles(manifest: Seq<char>, detail: Seq<char>) -> Failure {
    Failure::NotFormat { format: "3D Tiles"@, detail: manifest + detail }
}

/// Whether an outcome is the one that a document leads to. An `asset` object and
/// a root with a `geometricError` is the pair that no other manifest has.
pub open spec fn sketch_outcome(json: Tree, manifest: Seq<char>, r: Result<Sketch, Error>) -> bool {
    let root = json.at("root"@);
    if !json.is_object() {
        r matches Err(e) && e@ == not_tiles(manifest, " is not a JSON object"@)
    } else if !(root is Some && root->0.is_object()) {
        r matches Err(e) && e@ == not_tiles(manifest, " has no root tile"@)
    } else if !(json.at("asset"@) is Some && json.at("asset"@)->0.is_object()) {
        r matches Err(e) && e@ == not_tiles(manifest, " has no asset object"@)
    } else {
        match root->0.real_at("geometricError"@) {
            None => r matches Err(e) && e@ == not_tiles(
                manifest,
                "'s root tile declares no geometricError"@,
            ),
            Some(error) => match r {
                Err(e) => volume_is(root->0.at("boundingVolume"@), None) && e@ == Failure::Manifest {
                    path: manifest,
                    detail: "the root tile has no bounding volume this reader can use"@,
                },
                Ok(s) => sketches(json, root->0, error, s),
            },
        }
    }
}

fn refuse(manifest: &str, detail: &str) -> (e: Error)
    ensures
        e@ == not_tiles(manifest@, detail@),
{
    Error::not_format("3D Tiles", cat2(manifest, detail))
}

/// Reads a manifest that has been parsed.
pub fn parse(json: &Json, manifest: &str) -> (r: Result<Sketch, Error>)
    ensures
        sketch_outcome(json.tree(), manifest@, r),
{
    if json.as_object().is_none() {
        return Err(refuse(manifest, " is not a JSON object"));
    }
    let root = match json.get("root") {
        Some(root) => root,
        None => {
            return Err(refuse(manifest, " has no root tile"));
        },
    };
    if root.as_object().is_none() {
        return Err(refuse(manifest, " has no root tile"));
    }
    let asset = match json.get("asset") {
        Some(asset) => asset,
        None => {
            return Err(refuse(manifest, " has no asset object"));
        },
    };
    if asset.as_object().is_none() {
        return Err(refuse(manifest, " has no asset object"));
    }
    let geometric_error = match root.real_at("geometricError") {
        Some(r) => r,
        None => {
            return Err(refuse(manifest, "'s root tile declares no geometricError"));
        },
    };
    let version = match asset.text_at("version") {
        Some(v) => v.clone(),
        None => "".to_owned(),
    };
    let volume = match read_volume(root.get("boundingVolume")) {
        Some(v) => v,
        None => {
            return Err(
                Error::manifest(
                    manifest.to_owned(),
                    "the root tile has no bounding volume this reader can use".to_owned(),
                ),
            );
        },
    };
    let mut content_kinds: Vec<String> = Vec::new();
    assert(texts(content_kinds@) =~= Seq::<Seq<char>>::empty());
    collect_kinds(root, &mut content_kinds);
    Ok(
        Sketch {
            version,
            volume,
            transform: read_transform(root),
            geometric_error,
            content_kinds,
            implicit: read_implicit(root),
        },
    )
}

/// Reads the bytes of a manifest.
pub fn open_manifest(bytes: &[u8], manifest: &str) -> (r: Result<Sketch, Error>)
    ensures
        match json_read(bytes@) {
            Ok(json) => sketch_outcome(json, manifest@, r),
            Err(why) => r matches Err(e) && e@ == not_tiles(manifest@, " is not JSON: "@ + why),
        },
{
    match Json::read(bytes) {
        Ok(json) => parse(&json, manifest),
        Err(why) => {
            let detail = cat2(" is not JSON: ", why.as_str());
            Err(refuse(manifest, detail.as_str()))
        },
    }
}

/// A tileset whose manifest has been read.
#[derive(Debug)]
pub struct TilesetCloud {
    pub info: CloudInfo,
    /// `asset.version`, verbatim.
    pub version: String,
    /// Whether the root sits on the WGS 84 ellipsoid.
    pub georeferenced: bool,
    /// What kinds of content the document names, for the summary line.
    pub content_kinds: Vec<String>,
    /// The rule that describes the tree, where it is not written out.
    pub implicit: Option<ImplicitSummary>,
    pub manifest: String,
}

/// The complaint against a version that is not known.
pub open spec fn version_notice(version: Seq<char>) -> Notice {
    Notice {
        code: "tileset-version-unknown"@,
        path: "asset.version"@,
        message: "asset.version is "@ + quoted_text(version) + "; reading it as 1.1"@,
    }
}

/// What is said of the points of a tileset.
pub open spec fn count_notice() -> Notice {
    Notice {
        code: "point-count-unknown"@,
        path: "tileset.json"@,
        message:
            "a tileset declares no point counts; they live in each tile's payload, so `points` is 0 and `--deep` counts tiles instead"@,
    }
}

/// The summary of a tileset, given the box of its root and whether that sits on
/// the planet.
pub open spec fn summary_of(
    version: Seq<char>,
    error: Real,
    kinds: Seq<Seq<char>>,
    implicit: Option<Implicit>,
    bounds: Bounds,
    georeferenced: bool,
    label: Seq<char>,
) -> Summary {
    Summary {
        bounds,
        tight_bounds: bounds,
        crs: if georeferenced {
            Some(epsg_declares(4978))
        } else {
            None
        },
        spacing: Some(error),
        levels: match implicit {
            Some(i) => Some(
                if i.available_levels > 0 {
                    (i.available_levels - 1) as u32
                } else {
                    0
                },
            ),
            None => None,
        },
        encoding: if kinds.len() > 0 {
            Some(kinds[0])
        } else {
            None
        },
        version: Some(version),
        warnings: if version == "1.0"@ || version == "1.1"@ {
            seq![count_notice()]
        } else {
            seq![version_notice(version), count_notice()]
        },
        ..Summary::blank(FormatId::Tiles3D, label)
    }
}

/// Summarises a tileset, given the box of its root and whether that sits on the
/// planet.
pub fn summarise(sketch: Sketch, bounds: Bounds, georeferenced: bool, manifest: &str, label: &str)
    -> (c: TilesetCloud)
    ensures
        c.info@ == summary_of(
            sketch.version@,
            sketch.geometric_error,
            texts(sketch.content_kinds@),
            implicit_view(sketch.implicit),
            bounds,
            georeferenced,
            label@,
        ),
        c.version@ == sketch.version@,
        c.georeferenced == georeferenced,
        c.content_kinds == sketch.content_kinds,
        c.implicit == sketch.implicit,
        c.manifest@ == manifest@,
{
    let mut info = CloudInfo::new(FormatId::Tiles3D, label.to_owned());
    if !same(sketch.version.as_str(), "1.0") && !same(sketch.version.as_str(), "1.1") {
        let shown = quoted(sketch.version.as_str());
        info.warn(
            "tileset-version-unknown",
            "asset.version".to_owned(),
            cat3("asset.version is ", shown.as_str(), "; reading it as 1.1"),
        );
    }
    info.warn(
        "point-count-unknown",
        "tileset.json".to_owned(),
        "a tileset declares no point counts; they live in each tile's payload, so `points` is 0 and `--deep` counts tiles instead".to_owned(),
    );
    info.bounds = bounds;
    info.tight_bounds = bounds;
    if georeferenced {
        info.crs = Some(Crs::from_epsg(4978));
    }
    info.spacing = Some(sketch.geometric_error);
    info.levels = match &sketch.implicit {
        Some(i) => Some(i.available_levels.saturating_sub(1)),
        None => None,
    };
    if sketch.content_kinds.len() > 0 {
        info.encoding = Some(sketch.content_kinds[0].clone());
        assert(texts(sketch.content_kinds@)[0] == sketch.content_kinds@[0]@);
    }
    info.version = Some(sketch.version.clone());
    proof {
        let want = summary_of(
            sketch.version@,
            sketch.geometric_error,
            texts(sketch.content_kinds@),
            implicit_view(sketch.implicit),
            bounds,
            georeferenced,
            label@,
        );
        assert(info@.warnings =~= want.warnings);
        assert(info@ =~= want);
    }
    TilesetCloud {
        info,
        version: sketch.version,
        georeferenced,
        content_kinds: sketch.content_kinds,
        implicit: sketch.implicit,
        manifest: manifest.to_owned(),
    }
}

/// The first payload that a document names, where there is one.
pub open spec fn probe_of(json: Tree, manifest: Seq<char>) -> Seq<char> {
    match json.at("root"@) {
        Some(root) => match payload_of(root) {
            Some(uri) => joined(manifest, uri),
            None => Seq::empty(),
        },
        None => Seq::empty(),
    }
}

/// The first tile payload a viewer will ask for, given the bytes of the manifest
/// where they could be read. Empty where there is none.
pub fn probe_path(bytes: Option<&[u8]>, manifest: &str) -> (out: String)
    ensures
        out@ == match bytes {
            None => Seq::<char>::empty(),
            Some(b) => match json_read(b@) {
                Ok(json) => probe_of(json, manifest@),
                Err(_) => Seq::empty(),
            },
        },
{
    if let Some(b) = bytes {
        if let Ok(json) = Json::read(b) {
            return probe(&json, manifest);
        }
    }
    String::new()
}

/// The first tile payload a viewer will ask for, given the parsed manifest.
pub fn probe(json: &Json, manifest: &str) -> (out: String)
    ensures
        out@ == probe_of(json.tree(), manifest@),
{
    if let Some(root) = json.get("root") {
        if let Some(uri) = first_payload(root) {
            return join(manifest, uri.as_str());
        }
    }
    String::new()
}

} // verus!
