//! What the reader of a tileset finds: its documents, its rules and its subtrees.

use crate::bounds::Bounds;
use crate::bytes::le64;
use crate::cloud::{FormatId, NodeInfo};
use crate::double::Real;
use crate::format::subtree::{
    across, availability_of, cells, decoded, held_in, is_framed, named_view, view_bytes, Available,
    Held,
};
use crate::format::tileset::{
    children_of, filled, identity, implicit_of, is_payload, joined, kind_of, levels_of, path_part,
    payload_in, payload_of, rule_of, summary_of, transform_of, uri_of, uris_of, volume_is, Implicit,
    Volume,
};
use crate::format::tileset_walk::{
    absorbed, at_start, below, followed, parts_before, place_below, stepped, tile_at, tiles_before,
    tiles_of, tiles_within, with_document, with_part, without, Ask, Job, Place, Progress, RuleView,
};
use crate::json::Tree;
use crate::text::{decimal, ends, first_of_unique, last_of, lowered, replaced};
use vstd::prelude::*;

verus! {

/// A URI is taken from the place of the document that names it.
pub proof fn a_uri_is_beside_its_document(folder: Seq<char>, name: Seq<char>, uri: Seq<char>)
    requires
        forall|i: int| 0 <= i < name.len() ==> #[trigger] name[i] != '/',
    ensures
        joined(folder + seq!['/'] + name, uri) == folder + seq!['/'] + uri,
        joined(name, uri) == uri,
{
    let d = folder + seq!['/'] + name;
    let n = folder.len() as int;
    crate::text::last_of_is_last(d, '/');
    assert(d[n] == '/');
    assert forall|i: int| n < i < d.len() implies d[i] != '/' by {
        assert(d[i] == name[i - n - 1]);
    }
    assert(last_of(d, '/') == n);
    assert(d.take(n + 1) =~= folder + seq!['/']);
    crate::text::last_of_is_last(name, '/');
    assert(last_of(name, '/') == -1);
    assert(name.take(0) =~= Seq::<char>::empty());
    assert(joined(name, uri) =~= uri);
}

/// A template is filled with the level and the place, and with the third axis only
/// where there is one.
pub proof fn a_template_is_filled(t: Seq<char>, level: u64, x: u64, y: u64, z: u64)
    ensures
        ({
            let flat = replaced(
                replaced(
                    replaced(t, "{level}"@, decimal(level as nat)),
                    "{x}"@,
                    decimal(x as nat),
                ),
                "{y}"@,
                decimal(y as nat),
            );
            &&& filled(t, level, x, y, z, false) == flat
            &&& filled(t, level, x, y, z, true) == replaced(flat, "{z}"@, decimal(z as nat))
        }),
{
}

/// A content names its payload as `uri`, or as `url` where it has no `uri`; a tile
/// names those of its `contents`, then that of its `content`.
pub proof fn a_tile_names_its_contents(tile: Tree, content: Tree)
    ensures
        content.at("uri"@) matches Some(v) ==> uri_of(content) == v.text(),
        content.at("uri"@) is None ==> uri_of(content) == content.text_at("url"@),
        tile.items_at("contents"@) is None && tile.at("content"@) is None ==> uris_of(tile).len()
            == 0,
        tile.items_at("contents"@) is None && tile.at("content"@) == Some(content) && uri_of(
            content,
        ) is Some ==> uris_of(tile) == seq![uri_of(content)->0],
{
    if tile.items_at("contents"@) is None && tile.at("content"@) == Some(content) && uri_of(
        content,
    ) is Some {
        assert(uris_of(tile) =~= seq![uri_of(content)->0]);
    }
}

/// A path ends where its query or its fragment starts.
pub proof fn a_payload_has_no_query(path: Seq<char>, rest: Seq<char>)
    requires
        forall|i: int| 0 <= i < path.len() ==> #[trigger] path[i] != '?' && path[i] != '#',
    ensures
        path_part(path) == path,
        path_part(path + seq!['?'] + rest) == path,
        path_part(path + seq!['#'] + rest) == path,
{
    let n = path.len() as int;
    first_of_unique(path, '?', n);
    first_of_unique(path, '#', n);
    assert(path.take(n) =~= path);
    lemma_cut(path, '?', rest);
    lemma_cut(path, '#', rest);
}

proof fn lemma_cut(path: Seq<char>, c: char, rest: Seq<char>)
    requires
        forall|i: int| 0 <= i < path.len() ==> #[trigger] path[i] != '?' && path[i] != '#',
        c == '?' || c == '#',
    ensures
        path_part(path + seq![c] + rest) == path,
{
    let s = path + seq![c] + rest;
    let n = path.len() as int;
    let other = if c == '?' {
        '#'
    } else {
        '?'
    };
    assert forall|i: int| 0 <= i < n implies s[i] != '?' && s[i] != '#' by {
        assert(s[i] == path[i]);
    }
    assert(s[n] == c);
    first_of_unique(s, c, n);
    crate::text::first_of_is_first(s, other);
    let m = crate::text::first_of(s, other);
    if m < n {
        assert(s[m] == path[m]);
    }
    assert(s.take(n) =~= path);
}

/// The kind of a payload goes by what stands behind its last point, in any case.
pub proof fn a_payload_is_known_by_its_extension(front: Seq<char>, ext: Seq<char>)
    requires
        forall|i: int|
            0 <= i < front.len() ==> #[trigger] front[i] != '?' && front[i] != '#',
        forall|i: int|
            0 <= i < ext.len() ==> #[trigger] ext[i] != '?' && ext[i] != '#' && ext[i] != '.',
    ensures
        ({
            let k = kind_of(front + seq!['.'] + ext);
            let e = lowered(ext);
            &&& e == "pnts"@ ==> k == "pnts"@
            &&& e == "glb"@ || e == "gltf"@ ==> k == "gltf"@
            &&& e == "json"@ ==> k == "tileset"@
            &&& e == "b3dm"@ || e == "i3dm"@ || e == "cmpt"@ ==> k == "mesh"@
            &&& e == "txt"@ ==> k == "unknown"@
        }),
{
    let s = front + seq!['.'] + ext;
    let n = front.len() as int;
    assert forall|i: int| 0 <= i < s.len() implies s[i] != '?' && s[i] != '#' by {
        if i < n {
            assert(s[i] == front[i]);
        } else if i > n {
            assert(s[i] == ext[i - n - 1]);
        }
    }
    first_of_unique(s, '?', s.len() as int);
    first_of_unique(s, '#', s.len() as int);
    assert(s.take(s.len() as int) =~= s);
    crate::text::last_of_is_last(s, '.');
    assert(s[n] == '.');
    assert forall|i: int| n < i < s.len() implies s[i] != '.' by {
        assert(s[i] == ext[i - n - 1]);
    }
    assert(last_of(s, '.') == n);
    assert(s.skip(n + 1) =~= ext);
    reveal_strlit("pnts");
    reveal_strlit("glb");
    reveal_strlit("gltf");
    reveal_strlit("json");
    reveal_strlit("b3dm");
    reveal_strlit("i3dm");
    reveal_strlit("cmpt");
    reveal_strlit("txt");
    assert("pnts"@[0] == 'p' && "glb"@.len() == 3 && "gltf"@[0] == 'g' && "json"@[0] == 'j');
    assert("b3dm"@[0] == 'b' && "i3dm"@[0] == 'i' && "cmpt"@[0] == 'c' && "txt"@[0] == 't');
    assert("pnts"@.len() == 4 && "gltf"@.len() == 4 && "json"@.len() == 4 && "b3dm"@.len() == 4);
    assert("i3dm"@.len() == 4 && "cmpt"@.len() == 4 && "txt"@.len() == 3);
    assert("glb"@[0] == 'g');
}

/// The first payload at a tile comes before those below it, and a document or a
/// template is none.
pub proof fn the_first_payload_is_found(tile: Tree, uris: Seq<Seq<char>>, uri: Seq<char>)
    ensures
        payload_in(uris_of(tile)) is Some ==> payload_of(tile) == payload_in(uris_of(tile)),
        payload_in(uris) is Some ==> payload_in(uris.push(uri)) == payload_in(uris),
        payload_in(uris) is None && is_payload(uri) ==> payload_in(uris.push(uri)) == Some(uri),
        payload_in(uris) is None && !is_payload(uri) ==> payload_in(uris.push(uri)) is None,
        ends(path_part(uri), ".json"@) ==> !is_payload(uri),
        path_part(uri).contains('{') ==> !is_payload(uri),
{
    assert(uris.push(uri).drop_last() =~= uris);
}

/// A bounding volume is the box of a tile where it has one, else its sphere, else
/// its region.
pub proof fn a_box_comes_before_a_sphere(volume: Tree, v: Option<Volume>)
    requires
        volume_is(Some(volume), v),
    ensures
        volume.items_at("box"@) matches Some(b) ==> (b.len() >= 12 ==> v matches Some(
            Volume::Oriented(_),
        )),
        volume.items_at("sphere"@) matches Some(b) ==> (volume.items_at("box"@) is None && b.len()
            >= 4 ==> v matches Some(Volume::Sphere(_))),
        volume.items_at("box"@) is None && volume.items_at("sphere"@) is None && volume.items_at(
            "region"@,
        ) is None ==> v is None,
        v matches Some(Volume::Region(a)) ==> volume.items_at("region"@) is Some && forall|i: int|
            0 <= i < 6 && volume.items_at("region"@)->0[i].measure() is Some ==> #[trigger] a@[i]
                == volume.items_at("region"@)->0[i].measure()->0,
        v matches Some(Volume::Oriented(a)) ==> forall|i: int|
            0 <= i < 12 && volume.items_at("box"@)->0[i].measure() is Some ==> #[trigger] a@[i]
                == volume.items_at("box"@)->0[i].measure()->0,
{
}

/// A tile without a transform has the one that changes nothing: one on the diagonal
/// and zero elsewhere. One with sixteen numbers has those.
pub proof fn a_transform_is_sixteen_numbers(tile: Tree, i: int)
    requires
        0 <= i < 16,
    ensures
        transform_of(tile).len() == 16,
        identity()[i].bits == if i == 0 || i == 5 || i == 10 || i == 15 {
            0x3ff0_0000_0000_0000u64
        } else {
            0
        },
        tile.items_at("transform"@) is None ==> transform_of(tile) == identity(),
        tile.items_at("transform"@) matches Some(list) ==> (list.len() >= 16
            && list[i].measure() is Some ==> transform_of(tile)[i] == list[i].measure()->0),
{
}

/// The levels that a rule declares, or one more than the greatest it names.
pub proof fn a_rule_declares_its_levels(rule: Tree, tile: Tree)
    ensures
        rule.unsigned_at("availableLevels"@) matches Some(n) ==> levels_of(rule) == n,
        rule.unsigned_at("availableLevels"@) is None ==> (rule.unsigned_at("maximumLevel"@) matches
            Some(m) ==> (m < u64::MAX ==> levels_of(rule) == m + 1)),
        rule.text_at("subdivisionScheme"@) matches Some(t) ==> implicit_of(rule).scheme == t,
        rule.text_at("subdivisionScheme"@) is None ==> implicit_of(rule).scheme == "OCTREE"@,
        rule.unsigned_at("subtreeLevels"@) matches Some(n) ==> (n <= u32::MAX ==> implicit_of(
            rule,
        ).subtree_levels == n),
        levels_of(rule) <= u32::MAX ==> implicit_of(rule).available_levels == levels_of(rule),
        rule_of(tile) matches Some(r) ==> r.is_object() && tile.at("implicitTiling"@) == Some(r),
{
}

/// A rule is followed where it has a template and levels; it divides along two axes
/// where it says so, and along three else.
pub proof fn a_rule_is_followed(tile: Tree, r: RuleView)
    requires
        followed(tile) == Some(r),
    ensures
        ({
            let rule = rule_of(tile)->0;
            &&& rule_of(tile) is Some
            &&& rule.unsigned_at("subtreeLevels"@) == Some(r.subtree_levels)
            &&& r.subtree_levels > 0
            &&& r.available_levels == levels_of(rule)
            &&& rule.text_at("subdivisionScheme"@) == Some("QUADTREE"@) ==> !r.three_d
            &&& rule.text_at("subdivisionScheme"@) == Some("OCTREE"@) ==> r.three_d
            &&& rule.text_at("subdivisionScheme"@) is None ==> r.three_d
            &&& rule.at("subtrees"@) is Some && rule.at("subtrees"@)->0.text_at("uri"@) == Some(
                r.template,
            )
        }),
{
    reveal_strlit("QUADTREE");
    reveal_strlit("OCTREE");
    assert("QUADTREE"@.len() == 8 && "OCTREE"@.len() == 6);
}

/// A tileset on the planet is in the earth-centred system; its spacing is the error
/// of its root; a version that is not known is warned of, and that no points are
/// counted always.
pub proof fn a_tileset_is_summarised(
    version: Seq<char>,
    error: Real,
    kinds: Seq<Seq<char>>,
    implicit: Option<Implicit>,
    bounds: Bounds,
    georeferenced: bool,
    label: Seq<char>,
)
    ensures
        ({
            let s = summary_of(version, error, kinds, implicit, bounds, georeferenced, label);
            &&& s.format == FormatId::Tiles3D
            &&& s.bounds == bounds && s.tight_bounds == bounds
            &&& s.point_count == 0
            &&& s.spacing == Some(error)
            &&& s.version == Some(version)
            &&& georeferenced ==> s.crs is Some && s.crs->0.epsg == Some(4978u32)
            &&& !georeferenced ==> s.crs is None
            &&& implicit is None ==> s.levels is None
            &&& implicit matches Some(i) ==> (i.available_levels > 0 ==> s.levels == Some(
                (i.available_levels - 1) as u32,
            ))
            &&& kinds.len() > 0 ==> s.encoding == Some(kinds[0])
            &&& kinds.len() == 0 ==> s.encoding is None
            &&& s.warnings.last().code == "point-count-unknown"@
            &&& version == "1.0"@ || version == "1.1"@ ==> s.warnings.len() == 1
            &&& version != "1.0"@ && version != "1.1"@ ==> s.warnings.len() == 2
                && s.warnings[0].code == "tileset-version-unknown"@
        }),
{
}

/// Things are there by their bits, the lowest of each byte first, and none behind
/// the last byte.
pub proof fn things_are_there_by_their_bits(b: Seq<u8>, i: int)
    requires
        0 <= i,
    ensures
        Available::Constant(true).has(i),
        !Available::Constant(false).has(i),
        i >= 8 * b.len() ==> !Available::Bits(b).has(i),
        i < 8 * b.len() ==> (Available::Bits(b).has(i) <==> b[i / 8] as int / super::indexes::two_to(
            i % 8,
        ) % 2 == 1),
{
    if i < 8 * b.len() {
        super::indexes::a_bit_is_a_number(b[i / 8], i % 8);
    }
}

/// A tile is divided in eight or in four, and every level doubles an edge.
pub proof fn tiles_are_divided(l: nat)
    ensures
        cells(true, 0) == 1 && cells(false, 0) == 1 && across(0) == 1,
        cells(true, l + 1) == 8 * cells(true, l),
        cells(false, l + 1) == 4 * cells(false, l),
        across(l + 1) == 2 * across(l),
{
}

/// A place in Morton order: the axes take turns from the lowest bit on, x first.
pub proof fn the_axes_take_turns(n: int, a: int, b: int, c: int, levels: nat)
    requires
        0 <= n,
        0 <= a < 2,
        0 <= b < 2,
        0 <= c < 2,
    ensures
        ({
            let up = decoded(n, true, levels);
            let down = decoded(8 * n + 4 * c + 2 * b + a, true, levels + 1);
            down.0 == 2 * up.0 + a && down.1 == 2 * up.1 + b && down.2 == 2 * up.2 + c
        }),
        ({
            let up = decoded(n, false, levels);
            let down = decoded(4 * n + 2 * b + a, false, levels + 1);
            down.0 == 2 * up.0 + a && down.1 == 2 * up.1 + b && down.2 == 0
        }),
        decoded(n, true, 0) == (0int, 0int, 0int),
{
    let m = 8 * n + 4 * c + 2 * b + a;
    assert(m / 8 == n && m % 2 == a && m / 2 % 2 == b && m / 4 % 2 == c);
    let k = 4 * n + 2 * b + a;
    assert(k / 4 == n && k % 2 == a && k / 2 % 2 == b);
}

/// The tiles of a subtree stand level behind level: one, then eight or four, and so
/// on.
pub proof fn levels_stand_one_behind_the_other(s: Held, morton: int)
    ensures
        s.tile(true, 0, 0) == s.tiles.has(0),
        s.tile(true, 1, morton) == s.tiles.has(1 + morton),
        s.tile(true, 2, morton) == s.tiles.has(9 + morton),
        s.tile(true, 3, morton) == s.tiles.has(73 + morton),
        s.tile(false, 1, morton) == s.tiles.has(1 + morton),
        s.tile(false, 2, morton) == s.tiles.has(5 + morton),
        s.tile(false, 3, morton) == s.tiles.has(21 + morton),
{
    reveal_with_fuel(cells, 5);
    assert(cells(true, 1) == 8 && cells(true, 2) == 64 && cells(true, 3) == 512);
    assert(cells(false, 1) == 4 && cells(false, 2) == 16 && cells(false, 3) == 64);
}

/// A level is counted tile by tile: each that is there once, at its level.
pub proof fn a_level_is_counted_tile_by_tile(s: Held, three_d: bool, l: nat, n: int, level: u32)
    requires
        0 <= n,
    ensures
        tiles_before(s, three_d, l, 0, level).len() == 0,
        s.tile(three_d, l, n) ==> tiles_before(s, three_d, l, n + 1, level) == tiles_before(
            s,
            three_d,
            l,
            n,
            level,
        ).push(tile_at(level)),
        !s.tile(three_d, l, n) ==> tiles_before(s, three_d, l, n + 1, level) == tiles_before(
            s,
            three_d,
            l,
            n,
            level,
        ),
        tile_at(level).key.level == level,
        tile_at(level).point_count == 0 && tile_at(level).byte_size == 0,
{
}

/// The first level of a subtree is counted but for the first subtree of all, whose
/// root the document has counted.
pub proof fn a_root_is_counted_once(s: Held, rule: RuleView, base: u32, place: Place)
    requires
        base + place.level <= u32::MAX,
    ensures
        ({
            let rest = tiles_within(s, rule, base, place, rule.subtree_levels as int);
            &&& place.level == 0 ==> tiles_of(s, rule, base, place) == rest
            &&& place.level > 0 && s.tiles.has(0) ==> tiles_of(s, rule, base, place) == seq![
                tile_at((base + place.level) as u32),
            ] + rest
            &&& place.level > 0 && !s.tiles.has(0) ==> tiles_of(s, rule, base, place) == rest
        }),
{
    levels_stand_one_behind_the_other(s, 0);
    reveal_with_fuel(cells, 2);
    assert(s.tile(rule.three_d, 0, 0) == s.tiles.has(0));
    let rest = tiles_within(s, rule, base, place, rule.subtree_levels as int);
    assert(Seq::<NodeInfo>::empty() + rest =~= rest);
}

/// A subtree below another starts as many levels down as a subtree has, at its place
/// among the tiles that one has there.
pub proof fn a_subtree_starts_below_another(rule: RuleView, place: Place, morton: int)
    requires
        rule.subtree_levels <= u32::MAX,
        0 <= morton,
        place.level + rule.subtree_levels <= u64::MAX,
        ({
            let span = across(rule.subtree_levels as nat);
            let d = decoded(morton, rule.three_d, rule.subtree_levels as nat);
            &&& 0 <= place.x * span && place.x * span + d.0 <= u64::MAX && d.0 >= 0
            &&& 0 <= place.y * span && place.y * span + d.1 <= u64::MAX && d.1 >= 0
            &&& 0 <= place.z * span && place.z * span + d.2 <= u64::MAX && d.2 >= 0
        }),
    ensures
        ({
            let span = across(rule.subtree_levels as nat);
            let d = decoded(morton, rule.three_d, rule.subtree_levels as nat);
            let p = place_below(rule, place, morton);
            &&& p.level == place.level + rule.subtree_levels
            &&& p.x == place.x * span + d.0
            &&& p.y == place.y * span + d.1
            &&& p.z == place.z * span + d.2
        }),
{
}

/// The subtrees below a subtree are put in line by the bits of its children.
pub proof fn subtrees_are_put_in_line(
    s: Held,
    rule: RuleView,
    document: Seq<char>,
    base: u32,
    place: Place,
    n: int,
)
    requires
        0 <= n,
    ensures
        ({
            let before = parts_before(s, rule, document, base, place, n);
            let after = parts_before(s, rule, document, base, place, n + 1);
            &&& s.children.has(n) ==> after == before.push(
                Job::Part { rule, document, base, place: place_below(rule, place, n) },
            )
            &&& !s.children.has(n) ==> after == before
            &&& parts_before(s, rule, document, base, place, 0).len() == 0
        }),
{
}

/// A subtree is framed by its mark and the length of its document at byte 8, which
/// starts at byte 24.
pub proof fn a_subtree_is_framed(b: Seq<u8>)
    ensures
        b.len() < 24 ==> !is_framed(b),
        is_framed(b) ==> b[0] == 's' as u8 && b[1] == 'u' as u8 && b[2] == 'b' as u8 && b[3]
            == 't' as u8 && 24 + le64(b, 8) <= b.len(),
        b.len() >= 24 && b[0] == 's' as u8 && b[1] == 'u' as u8 && b[2] == 'b' as u8 && b[3]
            == 't' as u8 && 24 + le64(b, 8) <= b.len() ==> is_framed(b),
{
}

/// What is there according to a subtree: all or none by a constant, the bytes of a
/// view by its bits, and none where nothing is said.
pub proof fn availability_is_stated(json: Tree, key: Seq<char>, binary: Seq<u8>, node: Tree)
    ensures
        json.at(key) is None ==> availability_of(json, key, binary) == Available::Constant(false),
        json.at(key) == Some(node) && node.unsigned_at("constant"@) == Some(0u64)
            ==> availability_of(json, key, binary) == Available::Constant(false),
        json.at(key) == Some(node) && node.unsigned_at("constant"@) == Some(1u64)
            ==> availability_of(json, key, binary) == Available::Constant(true),
        json.at(key) == Some(node) && node.unsigned_at("constant"@) is None && named_view(
            node,
        ) is Some && json.items_at("bufferViews"@) is Some && named_view(node)->0 < json.items_at(
            "bufferViews"@,
        )->0.len() ==> availability_of(json, key, binary) == Available::Bits(
            view_bytes(json.items_at("bufferViews"@)->0[named_view(node)->0 as int], binary),
        ),
        node.at("bitstream"@) is None ==> named_view(node) == node.unsigned_at("bufferView"@),
        node.at("bitstream"@) matches Some(v) ==> named_view(node) == v.unsigned(),
        held_in(json, binary) matches Some(h) ==> h.tiles == availability_of(
            json,
            "tileAvailability"@,
            binary,
        ) && h.children == availability_of(json, "childSubtreeAvailability"@, binary),
{
}

/// A buffer view is the bytes from its offset on, as many as its length.
pub proof fn a_view_is_its_bytes(view: Tree, binary: Seq<u8>, offset: u64, length: u64)
    requires
        view.unsigned_at("byteOffset"@) == Some(offset),
        view.unsigned_at("byteLength"@) == Some(length),
    ensures
        offset + length <= binary.len() ==> view_bytes(view, binary) == binary.subrange(
            offset as int,
            offset + length,
        ),
        offset + length > binary.len() ==> view_bytes(view, binary).len() == 0,
{
}

/// A step of a walk: a document is read unless it was before or is named more than
/// eight documents deep, a tile is counted and what it leads to put in line, and a
/// subtree is read where its level is one of the rule's.
pub proof fn a_walk_takes_the_last_in_line(w: Progress)
    requires
        w.stack.len() > 0,
    ensures
        ({
            let (after, ask) = stepped(w);
            let rest = w.stack.drop_last();
            &&& w.stack.last() matches Job::Document { path, level, depth } ==> {
                &&& after.stack == rest && after.tally == w.tally
                &&& w.seen.contains(path) ==> ask == Ask::Again && after.seen == w.seen
                &&& !w.seen.contains(path) ==> after.seen == w.seen.push(path)
                &&& !w.seen.contains(path) && depth <= 8 ==> ask == Ask::Read(path)
                    && after.waiting == Some(w.stack.last()) && after.warnings == w.warnings
                &&& !w.seen.contains(path) && depth > 8 ==> ask == Ask::Again
                    && after.warnings.len() == w.warnings.len() + 1 && after.warnings.last().code
                    == "external-tileset-depth"@
            }
            &&& w.stack.last() matches Job::Tile { tile, document, level, depth } ==> {
                &&& ask == Ask::Again
                &&& after.tally == w.tally.with(tile_at(level))
                &&& after.stack == rest + below(tile, document, level, depth)
            }
            &&& w.stack.last() matches Job::Part { rule, document, base, place } ==> {
                &&& after.stack == rest && after.tally == w.tally
                &&& place.level >= rule.available_levels ==> ask == Ask::Again
                &&& place.level < rule.available_levels ==> ask == Ask::Read(
                    joined(
                        document,
                        filled(
                            rule.template,
                            place.level,
                            place.x,
                            place.y,
                            place.z,
                            rule.three_d,
                        ),
                    ),
                ) && after.waiting == Some(w.stack.last())
            }
        }),
{
}

/// A walk starts with the manifest, and is done where nothing is in line.
pub proof fn a_walk_starts_with_the_manifest(manifest: Seq<char>, w: Progress)
    ensures
        stepped(at_start(manifest)).1 == Ask::Read(manifest),
        at_start(manifest).stack == seq![Job::Document { path: manifest, level: 0, depth: 0 }],
        w.stack.len() == 0 ==> stepped(w).1 == Ask::Done,
{
}

/// What a tile leads to: the documents that it names come next, then the subtrees of
/// its rule, then its children, each one level down.
pub proof fn a_tile_leads_below(tile: Tree, document: Seq<char>, level: u32, depth: u32)
    requires
        level < u32::MAX,
    ensures
        ({
            let b = below(tile, document, level, depth);
            let docs = crate::format::tileset_walk::documents(
                uris_of(tile),
                0,
                document,
                level,
                depth,
            );
            &&& b.len() >= docs.len() && b.skip(b.len() - docs.len()) == docs
            &&& children_of(tile) matches Some(list) ==> (list.len() > 0 ==> b.len() > 0 && b[list.len()
                - 1] == (Job::Tile {
                tile: list[0],
                document,
                level: (level + 1) as u32,
                depth,
            }))
            &&& children_of(tile) is None && followed(tile) is Some ==> b.len() == 1 + docs.len()
                && b[0] == (Job::Part {
                rule: followed(tile)->0,
                document,
                base: level,
                place: Place { level: 0, x: 0, y: 0, z: 0 },
            })
        }),
{
    let b = below(tile, document, level, depth);
    let docs = crate::format::tileset_walk::documents(uris_of(tile), 0, document, level, depth);
    assert(b.skip(b.len() - docs.len()) =~= docs);
    if let Some(list) = children_of(tile) {
        lemma_children_len(list, 0, document, level, depth);
    }
}

proof fn lemma_children_len(list: Seq<Tree>, i: int, document: Seq<char>, level: u32, depth: u32)
    requires
        0 <= i <= list.len(),
    ensures
        crate::format::tileset_walk::children(list, i, document, level, depth).len() == list.len()
            - i,
    decreases list.len() - i,
{
    if i < list.len() {
        lemma_children_len(list, i + 1, document, level, depth);
    }
}

/// Of the names of a tile only documents are followed, from the place of its own
/// document, one deeper.
pub proof fn named_documents_are_followed(
    uris: Seq<Seq<char>>,
    i: int,
    document: Seq<char>,
    level: u32,
    depth: u32,
)
    requires
        0 <= i < uris.len(),
        level < u32::MAX,
        depth < u32::MAX,
    ensures
        ({
            let here = crate::format::tileset_walk::documents(uris, i, document, level, depth);
            let rest = crate::format::tileset_walk::documents(uris, i + 1, document, level, depth);
            &&& ends(uris[i], ".json"@) ==> here == rest.push(
                Job::Document {
                    path: joined(document, uris[i]),
                    level: (level + 1) as u32,
                    depth: (depth + 1) as u32,
                },
            )
            &&& !ends(uris[i], ".json"@) ==> here == rest
        }),
{
}

/// What a walk makes of an answer: what is missing is warned of, a document's root
/// is put in line at its level, and a subtree's tiles are counted.
pub proof fn answers_are_taken(w: Progress, path: Seq<char>, level: u32, depth: u32, json: Tree)
    ensures
        w.waiting == Some(Job::Document { path, level, depth }) ==> without(w).warnings.len()
            == w.warnings.len() + 1 && without(w).warnings.last().code
            == "external-tileset-missing"@ && without(w).waiting is None,
        w.waiting is None ==> without(w) == w,
        json.at("root"@) matches Some(root) ==> with_document(w, path, level, depth, json).stack
            == w.stack.push(Job::Tile { tile: root, document: path, level, depth }),
        json.at("root"@) is None ==> with_document(w, path, level, depth, json) == w,
{
}

/// A subtree that is missing or cannot be read is warned of, and counts for nothing.
pub proof fn unreadable_subtrees_are_warned_of(
    w: Progress,
    rule: RuleView,
    document: Seq<char>,
    base: u32,
    place: Place,
    s: Held,
)
    ensures
        with_part(w, rule, document, base, place, None).tally == w.tally,
        with_part(w, rule, document, base, place, None).warnings.last().code
            == "subtree-unreadable"@,
        with_part(w, rule, document, base, place, Some(s)).tally == w.tally.with_all(
            tiles_of(s, rule, base, place),
        ),
        with_part(w, rule, document, base, place, Some(s)).stack == w.stack + parts_before(
            s,
            rule,
            document,
            base,
            place,
            cells(rule.three_d, rule.subtree_levels as nat),
        ),
        w.waiting == Some(Job::Part { rule, document, base, place }) ==> without(
            w,
        ).warnings.last().code == "subtree-missing"@,
{
    reveal(crate::format::tileset_walk::tallied);
}

/// What was read is counted once, with its bytes.
pub proof fn answers_are_counted(w: Progress, bytes: Seq<u8>)
    requires
        w.waiting is Some,
        !(w.waiting->0 is Tile),
        w.hierarchy_bytes + bytes.len() <= u64::MAX,
        w.hierarchy_requests < u32::MAX,
        absorbed(w, bytes) is Ok,
    ensures
        ({
            let a = absorbed(w, bytes)->Ok_0;
            &&& a.hierarchy_bytes == w.hierarchy_bytes + bytes.len()
            &&& a.hierarchy_requests == w.hierarchy_requests + 1
            &&& a.waiting is None
            &&& a.seen == w.seen
        }),
{
}

/// A view that is not there says that nothing is.
pub proof fn a_view_that_is_not_there_says_nothing(
    json: Tree,
    key: Seq<char>,
    binary: Seq<u8>,
    node: Tree,
    list: Seq<Tree>,
)
    requires
        json.at(key) == Some(node),
        node.unsigned_at("constant"@) is None,
        json.items_at("bufferViews"@) == Some(list),
    ensures
        named_view(node) matches Some(i) ==> (i >= list.len() ==> availability_of(json, key, binary)
            == Available::Constant(false)),
        named_view(node) is None ==> availability_of(json, key, binary) == Available::Constant(
            false,
        ),
{
}

/// The first payload below a tile is that of its first child that has one.
pub proof fn the_first_child_with_a_payload_counts(tile: Tree, list: Seq<Tree>, i: int)
    requires
        children_of(tile) == Some(list),
        0 <= i < list.len(),
        payload_of(list[i]) is Some,
        forall|j: int| 0 <= j < i ==> payload_of(#[trigger] list[j]) is None,
        payload_in(uris_of(tile)) is None,
    ensures
        payload_of(tile) == payload_of(list[i]),
{
    lemma_none_before(tile, list, i);
    lemma_found_after(tile, list, i, list.len() as int);
}

proof fn lemma_none_before(tile: Tree, list: Seq<Tree>, n: int)
    requires
        children_of(tile) == Some(list),
        0 <= n <= list.len(),
        forall|j: int| 0 <= j < n ==> payload_of(#[trigger] list[j]) is None,
    ensures
        crate::format::tileset::payload_below(tile, n) is None,
    decreases n,
{
    if n > 0 {
        lemma_none_before(tile, list, n - 1);
        assert(payload_of(list[n - 1]) is None);
    }
}

proof fn lemma_found_after(tile: Tree, list: Seq<Tree>, i: int, n: int)
    requires
        children_of(tile) == Some(list),
        0 <= i < n <= list.len(),
        payload_of(list[i]) is Some,
        crate::format::tileset::payload_below(tile, i) is None,
    ensures
        crate::format::tileset::payload_below(tile, n) == payload_of(list[i]),
    decreases n - i,
{
    if n > i + 1 {
        lemma_found_after(tile, list, i, n - 1);
    }
}

/// The kinds of content are collected once each, in the order they are met: those of a
/// tile itself, then those below its children, the first child first.
pub proof fn kinds_are_collected_once(
    tile: Tree,
    list: Seq<Tree>,
    have: Seq<Seq<char>>,
    uris: Seq<Seq<char>>,
    uri: Seq<char>,
    i: int,
)
    requires
        children_of(tile) == Some(list),
        0 <= i < list.len(),
    ensures
        ({
            let before = crate::format::tileset::with_kinds(have, uris);
            let after = crate::format::tileset::with_kinds(have, uris.push(uri));
            &&& before.contains(kind_of(uri)) ==> after == before
            &&& !before.contains(kind_of(uri)) ==> after == before.push(kind_of(uri))
            &&& crate::format::tileset::with_kinds(have, Seq::empty()) == have
        }),
        crate::format::tileset::kinds_with(tile, have) == crate::format::tileset::kinds_below(
            tile,
            list.len() as int,
            crate::format::tileset::with_kinds(have, uris_of(tile)),
        ),
        crate::format::tileset::kinds_below(tile, 0, have) == have,
        crate::format::tileset::kinds_below(tile, i + 1, have)
            == crate::format::tileset::kinds_with(
            list[i],
            crate::format::tileset::kinds_below(tile, i, have),
        ),
{
    assert(uris.push(uri).drop_last() =~= uris);
}

/// A walk that has not read anything has counted nothing.
pub proof fn a_walk_starts_with_nothing(manifest: Seq<char>)
    ensures
        at_start(manifest).tally == crate::cloud::Tally::none(),
        at_start(manifest).hierarchy_bytes == 0,
        at_start(manifest).hierarchy_requests == 0,
        at_start(manifest).seen.len() == 0,
        at_start(manifest).warnings.len() == 0,
        crate::format::ept::at_start().tally == crate::cloud::Tally::none(),
        crate::format::ept::at_start().hierarchy_bytes == 0,
        crate::format::ept::at_start().hierarchy_requests == 0,
        crate::format::ept::at_start().visited.len() == 0,
{
}

/// The levels of a subtree below its first are counted one after another.
pub proof fn levels_are_counted_one_after_another(
    s: Held,
    rule: RuleView,
    base: u32,
    place: Place,
    l: int,
)
    requires
        1 <= l,
    ensures
        tiles_within(s, rule, base, place, 1).len() == 0,
        tiles_within(s, rule, base, place, l + 1) == tiles_within(s, rule, base, place, l)
            + crate::format::tileset_walk::level_tiles(s, rule, base, place, l as nat),
        place.level + l <= u64::MAX && place.level + l >= rule.available_levels
            ==> crate::format::tileset_walk::level_tiles(s, rule, base, place, l as nat).len() == 0,
        place.level + l < rule.available_levels && base + place.level + l <= u32::MAX
            ==> crate::format::tileset_walk::level_tiles(s, rule, base, place, l as nat)
            == tiles_before(
            s,
            rule.three_d,
            l as nat,
            cells(rule.three_d, l as nat),
            (base + place.level + l) as u32,
        ),
{
    reveal(crate::format::tileset_walk::level_tiles);
}

} // verus!
