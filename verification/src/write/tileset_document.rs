//! What a reader makes of the document that a 3D Tiles writer leaves behind.

use crate::double::Real;
use crate::error::Error;
use crate::format::tileset::{
    children_of, kind_of, kinds_below, kinds_with, number, numbers_at, path_part, rule_of,
    sketch_outcome, transform_of, uri_of, uris_of, version_of, volume_is, with_kinds, Sketch,
    Volume,
};
use crate::json::{
    a_field_is_read, are_named_apart, fractions_are_read, no_other_field_is_read, reads_by, Json, Tree,
};
use crate::octree::OctreeKey;
use crate::text::{decimal, decimal_reads_back, first_of, is_digit, last_of, lowered, texts};
use crate::write::copc_pages::{above, described, lemma_way_down};
use crate::write::hierarchy::{can_split, keys_of, node_with, Written};
use crate::write::keys::last_at_is_there;
use crate::write::tileset::{
    box_numbers, child_index, child_tile, content_path, kid_trees, lemma_index, manifest_of, nought,
    single, tile_fields, tile_tree, transform_numbers, Geometry,
};
use crate::write::are_finite;
use vstd::prelude::*;

verus! {

/// Whether the numbers of a tile are finite.
pub open spec fn is_finite_tile(g: Geometry) -> bool {
    are_finite(g.half) && are_finite(g.centre) && g.spacing.finite()
}

/// Whether the children that are read are those that were written.
pub open spec fn are_kids(kids: Seq<Tree>, list: Seq<Tree>, back: spec_fn(Real) -> Real) -> bool {
    kids.len() == list.len() && forall|j: int|
        0 <= j < kids.len() ==> reads_by(#[trigger] kids[j], list[j], back)
}

proof fn lemma_tile_apart(w: Seq<Written>, k: OctreeKey, g: Geometry, kids: Seq<Tree>)
    ensures
        are_named_apart(tile_fields(w, k, g, kids)),
        forall|j: int|
            0 <= j < tile_fields(w, k, g, kids).len() ==> {
                let name = (#[trigger] tile_fields(w, k, g, kids)[j]).0;
                &&& name != "contents"@
                &&& name != "implicitTiling"@
                &&& node_with(w, k) is None ==> name != "content"@
                &&& kids.len() == 0 ==> name != "children"@
            },
{
    reveal(tile_fields);
    reveal_strlit("boundingVolume");
    reveal_strlit("transform");
    reveal_strlit("geometricError");
    reveal_strlit("refine");
    reveal_strlit("content");
    reveal_strlit("contents");
    reveal_strlit("children");
    reveal_strlit("implicitTiling");
    assert("boundingVolume"@.len() == 14 && "geometricError"@.len() == 14);
    assert("implicitTiling"@.len() == 14 && "transform"@.len() == 9 && "refine"@.len() == 6);
    assert("content"@.len() == 7 && "contents"@.len() == 8 && "children"@.len() == 8);
    assert("boundingVolume"@[0] == 'b' && "geometricError"@[0] == 'g');
    assert("implicitTiling"@[0] == 'i');
    assert("contents"@[1] == 'o' && "children"@[1] == 'h');
}

/// A tile that was written is read with its content and its children, and with
/// no rule.
pub proof fn a_tile_is_read(
    w: Seq<Written>,
    k: OctreeKey,
    geo: Seq<Geometry>,
    i: int,
    t: Tree,
    back: spec_fn(Real) -> Real,
)
    requires
        reads_by(tile_tree(w, k, geo, i), t, back),
    ensures
        t.is_object(),
        uris_of(t) == if node_with(w, k) is Some {
            seq![content_path(k)]
        } else {
            Seq::empty()
        },
        match children_of(t) {
            Some(list) => are_kids(kid_trees(w, k, geo, i, 8), list, back),
            None => kid_trees(w, k, geo, i, 8).len() == 0,
        },
        rule_of(t) is None,
{
    let kids = kid_trees(w, k, geo, i, 8);
    let fields = tile_fields(w, k, geo[i], kids);
    lemma_tile_apart(w, k, geo[i], kids);
    no_other_field_is_read(fields, t, "contents"@, back);
    no_other_field_is_read(fields, t, "implicitTiling"@, back);
    if node_with(w, k) is Some {
        let inner = seq![("uri"@, Tree::Text(content_path(k)))];
        assert(fields.len() >= 5 && fields[4] == (
            "content"@,
            single("uri"@, Tree::Text(content_path(k))),
        )) by {
            reveal(tile_fields);
        }
        a_field_is_read(fields, t, 4, back);
        let c = t.at("content"@)->0;
        assert(are_named_apart(inner));
        a_field_is_read(inner, c, 0, back);
        assert(uri_of(c) == Some(content_path(k)));
        assert(uris_of(t) =~= seq![content_path(k)]);
    } else {
        no_other_field_is_read(fields, t, "content"@, back);
        assert(uris_of(t) =~= Seq::empty());
    }
    if kids.len() > 0 {
        let at: int = if node_with(w, k) is Some {
            5
        } else {
            4
        };
        assert(at < fields.len() && fields[at] == ("children"@, Tree::Array(kids))) by {
            reveal(tile_fields);
        }
        a_field_is_read(fields, t, at, back);
        let list = t.at("children"@)->0->Array_0;
        assert(are_kids(kids, list, back));
    } else {
        no_other_field_is_read(fields, t, "children"@, back);
    }
}

/// A tile that was written is read where it stands: its box, its transform and
/// its error are those it was written with.
pub proof fn a_tile_is_read_in_place(
    w: Seq<Written>,
    k: OctreeKey,
    geo: Seq<Geometry>,
    i: int,
    t: Tree,
    back: spec_fn(Real) -> Real,
)
    requires
        reads_by(tile_tree(w, k, geo, i), t, back),
        is_finite_tile(geo[i]),
    ensures
        t.at("boundingVolume"@) is Some,
        numbers_at(t.at("boundingVolume"@)->0, "box"@, 12) == Some(
            box_numbers(geo[i]).map_values(back),
        ),
        transform_of(t) == transform_numbers(geo[i]).map_values(back),
        t.real_at("geometricError"@) == Some(
            back(
                if kid_trees(w, k, geo, i, 8).len() == 0 {
                    nought()
                } else {
                    geo[i].spacing
                },
            ),
        ),
{
    let g = geo[i];
    let kids = kid_trees(w, k, geo, i, 8);
    let fields = tile_fields(w, k, g, kids);
    lemma_tile_apart(w, k, g, kids);
    let error = if kids.len() == 0 {
        nought()
    } else {
        g.spacing
    };
    assert(fields.len() >= 4 && fields[0] == (
        "boundingVolume"@,
        single("box"@, Json::fractions(box_numbers(g))),
    ) && fields[1] == ("transform"@, Json::fractions(transform_numbers(g))) && fields[2] == (
        "geometricError"@,
        Json::fraction(error),
    )) by {
        reveal(tile_fields);
    }
    a_field_is_read(fields, t, 0, back);
    a_field_is_read(fields, t, 1, back);
    a_field_is_read(fields, t, 2, back);
    let inner = seq![("box"@, Json::fractions(box_numbers(g)))];
    let volume = t.at("boundingVolume"@)->0;
    assert(are_named_apart(inner));
    a_field_is_read(inner, volume, 0, back);
    lemma_numbers(box_numbers(g), volume.at("box"@)->0, back);
    lemma_numbers(transform_numbers(g), t.at("transform"@)->0, back);
    let list = volume.items_at("box"@)->0;
    assert(Seq::new(12, |j: int| number(list, j)) =~= box_numbers(g).map_values(back)) by {
        assert forall|j: int| 0 <= j < 12 implies number(list, j) == back(
            #[trigger] box_numbers(g)[j],
        ) by {
            assert(list[j].measure() == Some(back(box_numbers(g)[j])));
        }
    }
    let columns = t.items_at("transform"@)->0;
    assert(transform_of(t) =~= transform_numbers(g).map_values(back)) by {
        assert forall|j: int| 0 <= j < 16 implies transform_of(t)[j] == back(
            #[trigger] transform_numbers(g)[j],
        ) by {
            assert(columns[j].measure() == Some(back(transform_numbers(g)[j])));
        }
    }
}

proof fn lemma_numbers(values: Seq<Real>, t: Tree, back: spec_fn(Real) -> Real)
    requires
        reads_by(Json::fractions(values), t, back),
        forall|j: int| 0 <= j < values.len() ==> (#[trigger] values[j]).finite(),
    ensures
        t is Array,
        t->Array_0.len() == values.len(),
        forall|j: int|
            0 <= j < values.len() ==> (#[trigger] t->Array_0[j]).measure() == Some(back(values[j])),
{
    fractions_are_read(values, t, back);
}

proof fn lemma_no_first(s: Seq<char>, c: char)
    requires
        forall|i: int| 0 <= i < s.len() ==> #[trigger] s[i] != c,
    ensures
        first_of(s, c) == s.len(),
    decreases s.len(),
{
    if s.len() > 0 {
        let rest = s.skip(1);
        assert forall|i: int| 0 <= i < rest.len() implies #[trigger] rest[i] != c by {
            assert(rest[i] == s[i + 1]);
        }
        lemma_no_first(rest, c);
    }
}

proof fn lemma_name_letters(k: OctreeKey)
    ensures
        forall|i: int|
            0 <= i < k.spec_ept_name().len() ==> is_digit(#[trigger] k.spec_ept_name()[i])
                || k.spec_ept_name()[i] == '-',
{
    reveal_strlit("-");
    let (a, b, c, d) = (
        decimal(k.level as nat),
        decimal(k.x as nat),
        decimal(k.y as nat),
        decimal(k.z as nat),
    );
    let dash = "-"@;
    assert(dash.len() == 1 && dash[0] == '-');
    decimal_reads_back(k.level as nat);
    decimal_reads_back(k.x as nat);
    decimal_reads_back(k.y as nat);
    decimal_reads_back(k.z as nat);
    let name = k.spec_ept_name();
    let (p, q, r) = (a.len() + 1, a.len() + b.len() + 2, a.len() + b.len() + c.len() + 3);
    assert forall|i: int| 0 <= i < name.len() implies is_digit(#[trigger] name[i]) || name[i]
        == '-' by {
        if i < a.len() {
            assert(name[i] == a[i]);
        } else if i == a.len() {
            assert(name[i] == dash[0]);
        } else if i < p + b.len() {
            assert(name[i] == b[i - p]);
        } else if i == p + b.len() {
            assert(name[i] == dash[0]);
        } else if i < q + c.len() {
            assert(name[i] == c[i - q]);
        } else if i == q + c.len() {
            assert(name[i] == dash[0]);
        } else {
            assert(name[i] == d[i - r]);
        }
    }
}

/// The content of a tile is read as glTF, and not as another document.
pub proof fn a_content_is_known(k: OctreeKey)
    ensures
        kind_of(content_path(k)) == "gltf"@,
        !crate::text::ends(content_path(k), ".json"@),
{
    reveal_strlit("content/");
    reveal_strlit(".glb");
    reveal_strlit("glb");
    reveal_strlit("gltf");
    reveal_strlit("pnts");
    reveal_strlit(".json");
    assert("content/"@.len() == 8 && ".glb"@.len() == 4 && "glb"@.len() == 3);
    assert(".json"@.len() == 5 && "pnts"@.len() == 4);
    lemma_name_letters(k);
    let name = k.spec_ept_name();
    let path = content_path(k);
    let n: int = 8 + name.len() as int;
    assert(path.len() == n + 4);
    assert forall|i: int| 0 <= i < path.len() implies #[trigger] path[i] != '?' && path[i] != '#' by {
        if i < 8 {
            assert(path[i] == "content/"@[i]);
        } else if i < n {
            assert(path[i] == name[i - 8]);
        } else {
            assert(path[i] == ".glb"@[i - n]);
        }
    }
    lemma_no_first(path, '?');
    lemma_no_first(path, '#');
    assert(path_part(path) =~= path);
    assert(path[n] == ".glb"@[0] && path[n + 1] == ".glb"@[1] && path[n + 2] == ".glb"@[2]
        && path[n + 3] == ".glb"@[3]);
    let one = path.drop_last();
    let two = one.drop_last();
    let three = two.drop_last();
    assert(path.last() == 'b' && one.last() == 'l' && two.last() == 'g' && three.last() == '.');
    assert(last_of(three, '.') == n);
    assert(last_of(two, '.') == n);
    assert(last_of(one, '.') == n);
    assert(last_of(path, '.') == n);
    let ext = lowered(path.skip(n + 1));
    assert(ext =~= "glb"@);
    assert(path.last() != ".json"@[4]);
    if crate::text::ends(path, ".json"@) {
        assert(path.skip(path.len() - 5)[4] == path[path.len() - 1]);
        assert(false);
    }
}

/// Some kinds, and glTF where it is not among them.
pub open spec fn and_gltf(have: Seq<Seq<char>>) -> Seq<Seq<char>> {
    if have.contains("gltf"@) {
        have
    } else {
        have.push("gltf"@)
    }
}

proof fn lemma_and_gltf(have: Seq<Seq<char>>)
    ensures
        and_gltf(have).contains("gltf"@),
        and_gltf(and_gltf(have)) == and_gltf(have),
{
    if !have.contains("gltf"@) {
        assert(have.push("gltf"@)[have.len() as int] == "gltf"@);
    }
}

/// A described node that was not written has a child that is described.
proof fn lemma_some_kid(w: Seq<Written>, k: OctreeKey, geo: Seq<Geometry>, i: int)
    requires
        described(w, k),
        node_with(w, k) is None,
    ensures
        kid_trees(w, k, geo, i, 8).len() > 0,
{
    let j = choose|j: int| 0 <= j < w.len() && above(k, (#[trigger] w[j]).key);
    last_at_is_there(keys_of(w), k);
    assert(keys_of(w)[j] == w[j].key);
    let b = lemma_way_down(k, w[j].key);
    assert(described(w, k.spec_child(b as u8)));
    lemma_index(b as u8);
    let c = child_index(b) as int;
    assert(child_tile(k, c) == k.spec_child(b as u8));
    lemma_kid_counts(w, k, geo, i, c, 8);
}

proof fn lemma_kid_counts(w: Seq<Written>, k: OctreeKey, geo: Seq<Geometry>, i: int, c: int, n: int)
    requires
        can_split(k),
        0 <= c < n <= 8,
        described(w, child_tile(k, c)),
    ensures
        kid_trees(w, k, geo, i, n).len() > 0,
    decreases n,
{
    if c < n - 1 {
        lemma_kid_counts(w, k, geo, i, c, n - 1);
    }
}

proof fn lemma_kinds(
    w: Seq<Written>,
    k: OctreeKey,
    geo: Seq<Geometry>,
    i: int,
    t: Tree,
    have: Seq<Seq<char>>,
    back: spec_fn(Real) -> Real,
)
    requires
        described(w, k),
        reads_by(tile_tree(w, k, geo, i), t, back),
    ensures
        kinds_with(t, have) == and_gltf(have),
    decreases u32::MAX - k.level, 1int, 0int,
{
    a_tile_is_read(w, k, geo, i, t, back);
    a_content_is_known(k);
    let uris = uris_of(t);
    let own = with_kinds(have, uris);
    if node_with(w, k) is Some {
        assert(uris.drop_last() =~= Seq::empty());
        assert(with_kinds(have, uris.drop_last()) == have);
        assert(own == and_gltf(have));
    } else {
        assert(own == have);
        lemma_some_kid(w, k, geo, i);
    }
    lemma_and_gltf(have);
    match children_of(t) {
        Some(list) => {
            lemma_kid_kinds(w, k, geo, i, 8, t, own, back);
            assert(kid_trees(w, k, geo, i, 8).len() == list.len());
        },
        None => {},
    }
}

proof fn lemma_kid_kinds(
    w: Seq<Written>,
    k: OctreeKey,
    geo: Seq<Geometry>,
    i: int,
    n: int,
    t: Tree,
    have: Seq<Seq<char>>,
    back: spec_fn(Real) -> Real,
)
    requires
        n <= 8,
        children_of(t) is Some,
        kid_trees(w, k, geo, i, n).len() <= children_of(t)->0.len(),
        forall|j: int|
            0 <= j < kid_trees(w, k, geo, i, n).len() ==> reads_by(
                #[trigger] kid_trees(w, k, geo, i, n)[j],
                children_of(t)->0[j],
                back,
            ),
    ensures
        kinds_below(t, kid_trees(w, k, geo, i, n).len() as int, have) == if kid_trees(
            w,
            k,
            geo,
            i,
            n,
        ).len() == 0 {
            have
        } else {
            and_gltf(have)
        },
    decreases u32::MAX - k.level, 0int, n,
{
    if n > 0 && can_split(k) {
        let before = kid_trees(w, k, geo, i, n - 1);
        let child = child_tile(k, n - 1);
        if described(w, child) {
            let all = kid_trees(w, k, geo, i, n);
            assert forall|j: int| 0 <= j < before.len() implies reads_by(
                #[trigger] before[j],
                children_of(t)->0[j],
                back,
            ) by {
                assert(all[j] == before[j]);
            }
            lemma_kid_kinds(w, k, geo, i, n - 1, t, have, back);
            let at = before.len() as int;
            assert(all[at] == all.last());
            assert(child.level == k.level + 1);
            lemma_kinds(
                w,
                child,
                geo,
                i + 1 + crate::write::tileset::tiles_below(w, k, n - 1).len(),
                children_of(t)->0[at],
                kinds_below(t, at, have),
                back,
            );
            lemma_and_gltf(have);
        } else {
            lemma_kid_kinds(w, k, geo, i, n - 1, t, have, back);
        }
    }
}

proof fn lemma_document_apart(
    generator: Seq<char>,
    error: Real,
    w: Seq<Written>,
    geo: Seq<Geometry>,
)
    ensures
        are_named_apart(manifest_of(generator, error, w, geo)->Object_0),
        are_named_apart(manifest_of(generator, error, w, geo)->Object_0[0].1->Object_0),
{
    reveal_strlit("asset");
    reveal_strlit("geometricError");
    reveal_strlit("root");
    reveal_strlit("version");
    reveal_strlit("tilesetVersion");
    assert("asset"@.len() == 5 && "geometricError"@.len() == 14 && "root"@.len() == 4);
    assert("version"@.len() == 7 && "tilesetVersion"@.len() == 14);
}

/// The document of a tileset has the root tile where a reader looks for it.
pub proof fn a_root_is_read(
    generator: Seq<char>,
    error: Real,
    w: Seq<Written>,
    geo: Seq<Geometry>,
    json: Tree,
    back: spec_fn(Real) -> Real,
)
    requires
        reads_by(manifest_of(generator, error, w, geo), json, back),
    ensures
        json.is_object(),
        json.at("root"@) is Some,
        reads_by(tile_tree(w, OctreeKey::root(), geo, 0), json.at("root"@)->0, back),
        json.at("asset"@) is Some,
        json.at("asset"@)->0.is_object(),
        version_of(json) == "1.1"@,
{
    let fields = manifest_of(generator, error, w, geo)->Object_0;
    lemma_document_apart(generator, error, w, geo);
    a_field_is_read(fields, json, 0, back);
    a_field_is_read(fields, json, 2, back);
    a_field_is_read(fields[0].1->Object_0, json.at("asset"@)->0, 0, back);
}

/// A document that was written is read as what was written: a tileset of the
/// version that the writer follows, with the box, the place and the error of the
/// root tile, whose contents are glTF and whose tree is written out.
pub proof fn a_written_document_is_read(
    generator: Seq<char>,
    error: Real,
    w: Seq<Written>,
    geo: Seq<Geometry>,
    json: Tree,
    manifest: Seq<char>,
    r: Result<Sketch, Error>,
    back: spec_fn(Real) -> Real,
)
    requires
        described(w, OctreeKey::root()),
        is_finite_tile(geo[0]),
        reads_by(manifest_of(generator, error, w, geo), json, back),
        sketch_outcome(json, manifest, r),
    ensures
        r matches Ok(s) && {
            &&& s.version@ == "1.1"@
            &&& s.volume matches Volume::Oriented(b) && b@ == box_numbers(geo[0]).map_values(back)
            &&& s.transform@ == transform_numbers(geo[0]).map_values(back)
            &&& s.geometric_error == back(
                if kid_trees(w, OctreeKey::root(), geo, 0, 8).len() == 0 {
                    nought()
                } else {
                    geo[0].spacing
                },
            )
            &&& texts(s.content_kinds@) == seq!["gltf"@]
            &&& s.implicit is None
        },
{
    a_root_is_read(generator, error, w, geo, json, back);
    let root = json.at("root"@)->0;
    a_tile_is_read(w, OctreeKey::root(), geo, 0, root, back);
    a_tile_is_read_in_place(w, OctreeKey::root(), geo, 0, root, back);
    let none = Seq::<Seq<char>>::empty();
    lemma_kinds(w, OctreeKey::root(), geo, 0, root, none, back);
    assert(and_gltf(none) =~= seq!["gltf"@]);
    assert(!volume_is(root.at("boundingVolume"@), None));
}

} // verus!
