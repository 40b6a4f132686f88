//! The documents that are written beside the points, field by field.

use crate::cloud::declared;
use crate::crs::{authority_at, epsg_in, keyword_before};
use crate::double::Real;
use crate::error::Error;
use crate::format::tileset::{sketch_outcome, Sketch};
use crate::json::{Json, Tree};
use crate::octree::OctreeKey;
use crate::write::hierarchy::{node_with, Written};
use crate::write::potree::{crs_text, described, domain_of, FieldView, Measured, PotreeWriter};
use crate::write::tileset::{
    accessors_of, attributes_of, gltf_of, manifest_of, tile_fields, tile_tree, views_of, Content,
    Geometry,
};
use vstd::prelude::*;

verus! {

/// The manifest of Potree, field by field.
pub proof fn a_potree_manifest_is_written(w: PotreeWriter, name: Seq<char>, first: u64)
    ensures
        ({
            let f = w.manifest(name, first)->Object_0;
            &&& w.manifest(name, first) is Object
            &&& f.len() == 14
            &&& f[0] == ("version"@, Tree::Text("2.0"@))
            &&& f[1] == ("name"@, Tree::Text(name))
            &&& f[2] == ("description"@, Tree::Text(""@))
            &&& f[3] == ("points"@, Json::whole(w.points))
            &&& f[4] == ("projection"@, Tree::Text(crs_text(w.options)))
            &&& f[5].0 == "hierarchy"@
            &&& f[5].1 == Tree::Object(
                seq![
                    ("firstChunkSize"@, Json::whole(first)),
                    ("stepSize"@, Json::whole(5)),
                    ("depth"@, Json::whole(w.depth as u64)),
                ],
            )
            &&& f[6] == ("offset"@, Json::fractions(w.options.offset@))
            &&& f[7] == ("scale"@, Json::fractions(w.options.scale@))
            &&& f[8] == ("spacing"@, Json::fraction(w.options.spacing))
            &&& f[9].0 == "boundingBox"@
            &&& f[9].1 == Tree::Object(
                seq![
                    ("min"@, Json::fractions(w.options.cube.min@)),
                    ("max"@, Json::fractions(w.options.cube.max@)),
                ],
            )
            &&& f[10] == ("encoding"@, Tree::Text(w.encoding.spelling()))
            &&& f[11].0 == "attributes"@
            &&& f[12] == ("generator"@, Tree::Text(w.options.generator@))
            &&& f[13].0 == "tightBoundingBox"@
            &&& f[13].1 == Tree::Object(
                seq![
                    ("min"@, Json::fractions(w.options.extent.min@)),
                    ("max"@, Json::fractions(w.options.extent.max@)),
                ],
            )
        }),
        declared(w.options.crs) matches Some(d) ==> crs_text(w.options) == d.raw,
        declared(w.options.crs) is None ==> crs_text(w.options) == ""@,
{
}

/// An attribute of a Potree manifest, field by field.
pub proof fn a_potree_attribute_is_written(
    f: FieldView,
    extent: crate::bounds::Bounds,
    m: Measured,
)
    requires
        f.elements > 0,
    ensures
        ({
            let d = described(f, extent, m)->Object_0;
            &&& described(f, extent, m) is Object
            &&& d.len() == 8
            &&& d[0] == ("name"@, Tree::Text(f.name))
            &&& d[1] == ("description"@, Tree::Text(""@))
            &&& d[2] == ("size"@, Json::whole(f.size as u64))
            &&& d[3] == ("numElements"@, Json::whole(f.elements as u64))
            &&& d[4] == ("elementSize"@, Json::whole((f.size / f.elements) as u64))
            &&& d[5] == ("type"@, Tree::Text(f.kind.spelling()))
            &&& d[6] == ("min"@, Json::fractions(domain_of(f, extent, m).0))
            &&& d[7] == ("max"@, Json::fractions(domain_of(f, extent, m).1))
        }),
{
}

/// The document of a tile's payload: one node with one mesh of points, its
/// attributes, its views and its one buffer.
pub proof fn a_payload_is_described(c: Content)
    ensures
        ({
            let f = gltf_of(c)->Object_0;
            let zero = Json::whole(0);
            &&& gltf_of(c) is Object
            &&& f.len() == 8
            &&& f[0].0 == "asset"@
            &&& f[0].1 == Tree::Object(
                seq![
                    ("version"@, Tree::Text("2.0"@)),
                    ("generator"@, Tree::Text("voxelkloud"@)),
                ],
            )
            &&& f[1] == ("scene"@, zero)
            &&& f[2].0 == "scenes"@
            &&& f[2].1 == Tree::Array(
                seq![Tree::Object(seq![("nodes"@, Tree::Array(seq![zero]))])],
            )
            &&& f[3].0 == "nodes"@
            &&& f[3].1 == Tree::Array(seq![Tree::Object(seq![("mesh"@, zero)])])
            &&& f[4].0 == "meshes"@
            &&& f[4].1 == Tree::Array(
                seq![
                    Tree::Object(
                        seq![
                            (
                                "primitives"@,
                                Tree::Array(
                                    seq![
                                        Tree::Object(
                                            seq![
                                                ("attributes"@, attributes_of(c)),
                                                ("mode"@, zero),
                                            ],
                                        ),
                                    ],
                                ),
                            ),
                        ],
                    ),
                ],
            )
            &&& f[5] == ("accessors"@, Tree::Array(accessors_of(c)))
            &&& f[6] == ("bufferViews"@, Tree::Array(views_of(c)))
            &&& f[7].0 == "buffers"@
            &&& f[7].1 == Tree::Array(
                seq![Tree::Object(seq![("byteLength"@, Json::whole(c.buffer_bytes))])],
            )
        }),
{
}

/// The accessors of a payload: three singles for a position, with its corners, and
/// three normalised bytes for a colour.
pub proof fn positions_are_singles_and_colors_bytes(c: Content)
    ensures
        ({
            let a = accessors_of(c);
            let p = a[0]->Object_0;
            let q = a[1]->Object_0;
            &&& c.color_bytes is None ==> a.len() == 1
            &&& c.color_bytes is Some ==> a.len() == 2
            &&& a[0] is Object
            &&& p.len() == 6
            &&& p[0] == ("bufferView"@, Json::whole(0))
            &&& p[1] == ("componentType"@, Json::whole(5126))
            &&& p[2] == ("count"@, Json::whole(c.count))
            &&& p[3] == ("type"@, Tree::Text("VEC3"@))
            &&& p[4] == ("min"@, Json::fractions(c.min@))
            &&& p[5] == ("max"@, Json::fractions(c.max@))
            &&& c.color_bytes is Some ==> a[1] is Object && q.len() == 5 && q[0] == (
                "bufferView"@,
                Json::whole(1),
            ) && q[1] == ("componentType"@, Json::whole(5121)) && q[2] == (
                "normalized"@,
                Tree::Bool(true),
            ) && q[3] == ("count"@, Json::whole(c.count)) && q[4] == ("type"@, Tree::Text("VEC3"@))
        }),
        c.color_bytes is None ==> attributes_of(c) == Tree::Object(
            seq![("POSITION"@, Json::whole(0))],
        ),
        c.color_bytes is Some ==> attributes_of(c) == Tree::Object(
            seq![("POSITION"@, Json::whole(0)), ("COLOR_0"@, Json::whole(1))],
        ),
{
}

/// The views of a payload: the positions from the start of the buffer, and the
/// colours behind them.
pub proof fn colors_stand_behind_positions(c: Content)
    ensures
        ({
            let v = views_of(c);
            let view = |from: u64, n: u64|
                Tree::Object(
                    seq![
                        ("buffer"@, Json::whole(0)),
                        ("byteOffset"@, Json::whole(from)),
                        ("byteLength"@, Json::whole(n)),
                    ],
                );
            &&& c.color_bytes is None ==> v == seq![view(0, c.position_bytes)]
            &&& c.color_bytes matches Some(n) ==> v == seq![
                view(0, c.position_bytes),
                view(c.position_bytes, n),
            ]
        }),
{
}

/// A tile in its document: its box, its transform, its error, which is zero at a leaf,
/// its payload where it has one, and its children where there are any.
pub proof fn a_tile_is_written(w: Seq<Written>, k: OctreeKey, g: Geometry, kids: Seq<Tree>)
    ensures
        ({
            let f = tile_fields(w, k, g, kids);
            let has = node_with(w, k) is Some;
            &&& f[0].0 == "boundingVolume"@
            &&& f[1].0 == "transform"@
            &&& f[2].0 == "geometricError"@
            &&& kids.len() == 0 ==> f[2].1 == Json::fraction(Real { bits: 0 })
            &&& kids.len() > 0 ==> f[2].1 == Json::fraction(g.spacing)
            &&& f[3] == ("refine"@, Tree::Text("ADD"@))
            &&& has ==> f[4] == (
                "content"@,
                Tree::Object(
                    seq![("uri"@, Tree::Text("content/"@ + k.spec_ept_name() + ".glb"@))],
                ),
            )
            &&& kids.len() > 0 ==> f.last() == ("children"@, Tree::Array(kids))
            &&& f.len() == 4 + (if has {
                1int
            } else {
                0
            }) + (if kids.len() > 0 {
                1int
            } else {
                0
            })
        }),
{
    reveal(tile_fields);
}

/// The document of a tileset: its version, the error of drawing nothing, and the root
/// tile.
pub proof fn a_tileset_is_written(
    generator: Seq<char>,
    error: Real,
    w: Seq<Written>,
    geo: Seq<Geometry>,
)
    ensures
        ({
            let f = manifest_of(generator, error, w, geo)->Object_0;
            &&& manifest_of(generator, error, w, geo) is Object
            &&& f.len() == 3
            &&& f[0].0 == "asset"@
            &&& f[0].1 == Tree::Object(
                seq![
                    ("version"@, Tree::Text("1.1"@)),
                    ("tilesetVersion"@, Tree::Text(generator)),
                ],
            )
            &&& f[1] == ("geometricError"@, Json::fraction(error))
            &&& f[2] == (
                "root"@,
                tile_tree(w, OctreeKey { level: 0, x: 0, y: 0, z: 0 }, geo, 0),
            )
        }),
{
}

/// A document is a tileset where it is an object with a root and an asset, and its
/// root states an error and a bounding volume.
pub proof fn a_tileset_must_be_one(json: Tree, manifest: Seq<char>, r: Result<Sketch, Error>)
    requires
        sketch_outcome(json, manifest, r),
    ensures
        !json.is_object() ==> r is Err,
        json.at("root"@) is None ==> r is Err,
        json.at("asset"@) is None ==> r is Err,
        r matches Ok(s) ==> json.at("root"@) is Some && json.at("asset"@) is Some && json.at(
            "root"@,
        )->0.real_at("geometricError"@) == Some(s.geometric_error) && s.version@
            == crate::format::tileset::version_of(json) && s.transform@
            == crate::format::tileset::transform_of(json.at("root"@)->0),
        json.is_object() && json.at("root"@) is Some && json.at("root"@)->0.is_object() && json.at(
            "asset"@,
        ) is Some && json.at("asset"@)->0.is_object() && json.at("root"@)->0.real_at(
            "geometricError"@,
        ) is Some && !crate::format::tileset::volume_is(
            json.at("root"@)->0.at("boundingVolume"@),
            None,
        ) ==> r is Ok,
{
}

/// A bracket opens an authority behind the words that name one, in any case, where it
/// holds a code above zero.
pub proof fn an_authority_is_named(s: Seq<char>, i: int)
    ensures
        ({
            let word = keyword_before(s, i);
            let code = epsg_in(s.skip(i + 1));
            &&& (word == "AUTHORITY"@ || word == "ID"@) && code is Some && code->0 > 0
                ==> authority_at(s, i) == code
            &&& word != "AUTHORITY"@ && word != "ID"@ ==> authority_at(s, i) is None
            &&& code is None || code->0 == 0 ==> authority_at(s, i) is None
        }),
{
}

} // verus!
