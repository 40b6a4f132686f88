//! The 3D Tiles writer: version 1.1, glTF content, the tree written out.
//!
//! A node is a file and its name is its key. glTF is Y-up and 3D Tiles is Z-up,
//! so every position is written rotated: `(x, y, z)` becomes `(x, z, -y)`.
//! Positions are relative to the tile's own centre, which the tile's transform
//! carries. Where a point is relative to a centre, and the boxes of the tiles,
//! are floating point and belong to the program.

use super::copc_pages::{above, described, lemma_described_above, lemma_way_down, Tree as Nodes};
use super::hierarchy::{can_split, node_with, Written};
use super::WriteOptions;
use crate::bytes::{bytes32, put_u32};
use crate::cloud::wrap64;
use crate::double::{Real, ONE, ZERO};
use crate::json::{trees, Fields, Json, Tree};
use crate::octree::OctreeKey;
use crate::record::{RecordLayout, RGB};
use crate::text::cat3;
use vstd::prelude::*;

verus! {

/// The mark that a GLB starts with.
pub const GLB_MAGIC: u32 = 0x4654_6c67;

/// The mark of the chunk that holds the document.
pub const CHUNK_JSON: u32 = 0x4e4f_534a;

/// The mark of the chunk that holds the buffer.
pub const CHUNK_BIN: u32 = 0x004e_4942;

/// A number of 32 bits with a fraction, by its bits.
#[derive(Debug, Clone, Copy, PartialEq, Eq, Structural)]
pub struct Single {
    pub bits: u32,
}

impl Single {
    /// Where the number stands among all numbers: not a number stands nowhere,
    /// and the two zeros stand together.
    pub open spec fn rank(self) -> Option<int> {
        if 0x7f80_0000 < self.bits < 0x8000_0000 || self.bits > 0xff80_0000 {
            None
        } else if self.bits < 0x8000_0000 {
            Some(self.bits as int)
        } else {
            Some(0x8000_0000 - self.bits)
        }
    }

    /// Whether the number is below another.
    pub open spec fn below(self, other: Single) -> bool {
        match (self.rank(), other.rank()) {
            (Some(a), Some(b)) => a < b,
            _ => false,
        }
    }

    fn place(self) -> (r: Option<i64>)
        ensures
            match r {
                Some(p) => self.rank() == Some(p as int),
                None => self.rank() is None,
            },
    {
        let b: u32 = self.bits;
        if (0x7f80_0000 < b && b < 0x8000_0000) || b > 0xff80_0000 {
            None
        } else if b < 0x8000_0000 {
            Some(b as i64)
        } else {
            Some(-((b - 0x8000_0000) as i64))
        }
    }

    /// Whether the number is below another.
    pub fn is_below(self, other: Single) -> (r: bool)
        ensures
            r == self.below(other),
    {
        match (self.place(), other.place()) {
            (Some(a), Some(b)) => a < b,
            _ => false,
        }
    }

    /// The number with its sign turned.
    pub open spec fn turned(self) -> Single {
        Single {
            bits: if self.bits >= 0x8000_0000 {
                (self.bits - 0x8000_0000) as u32
            } else {
                (self.bits + 0x8000_0000) as u32
            },
        }
    }

    /// The number with its sign turned.
    pub fn negated(self) -> (r: Single)
        ensures
            r == self.turned(),
    {
        if self.bits >= 0x8000_0000 {
            Single { bits: self.bits - 0x8000_0000 }
        } else {
            Single { bits: self.bits + 0x8000_0000 }
        }
    }
}

/// A position, or the corner of a box.
pub type Triple = (Single, Single, Single);

/// A position turned from Z-up to Y-up.
pub open spec fn upright(p: Triple) -> Triple {
    (p.0, p.2, p.1.turned())
}

/// The bytes of a position.
pub open spec fn position_bytes(p: Triple) -> Seq<u8> {
    bytes32(p.0.bits as int) + bytes32(p.1.bits as int) + bytes32(p.2.bits as int)
}

/// The bytes of the first `n` positions, turned.
pub open spec fn positions_of(points: Seq<Triple>, n: int) -> Seq<u8>
    decreases n,
{
    if n <= 0 {
        Seq::empty()
    } else {
        positions_of(points, n - 1) + position_bytes(upright(points[n - 1]))
    }
}

/// The smaller of two numbers, the first where they stand together.
pub open spec fn least(a: Single, b: Single) -> Single {
    if b.below(a) {
        b
    } else {
        a
    }
}

/// The larger of two numbers, the first where they stand together.
pub open spec fn most(a: Single, b: Single) -> Single {
    if a.below(b) {
        b
    } else {
        a
    }
}

/// The least corner of the first `n` positions, turned.
pub open spec fn low_of(points: Seq<Triple>, n: int) -> Triple
    decreases n,
{
    if n <= 0 {
        let top = Single { bits: 0x7f80_0000 };
        (top, top, top)
    } else {
        let l = low_of(points, n - 1);
        let p = upright(points[n - 1]);
        (least(l.0, p.0), least(l.1, p.1), least(l.2, p.2))
    }
}

/// The greatest corner of the first `n` positions, turned.
pub open spec fn high_of(points: Seq<Triple>, n: int) -> Triple
    decreases n,
{
    if n <= 0 {
        let bottom = Single { bits: 0xff80_0000 };
        (bottom, bottom, bottom)
    } else {
        let h = high_of(points, n - 1);
        let p = upright(points[n - 1]);
        (most(h.0, p.0), most(h.1, p.1), most(h.2, p.2))
    }
}

/// The positions of a tile as its content holds them.
#[derive(Debug)]
pub struct Arranged {
    pub positions: Vec<u8>,
    pub min: Triple,
    pub max: Triple,
}

fn smaller(a: Single, b: Single) -> (r: Single)
    ensures
        r == least(a, b),
{
    if b.is_below(a) {
        b
    } else {
        a
    }
}

fn larger(a: Single, b: Single) -> (r: Single)
    ensures
        r == most(a, b),
{
    if a.is_below(b) {
        b
    } else {
        a
    }
}

/// Turns the positions of a tile, given relative to its centre, and takes their
/// extent.
pub fn arrange(points: &Vec<Triple>) -> (a: Arranged)
    ensures
        a.positions@ == positions_of(points@, points@.len() as int),
        a.min == low_of(points@, points@.len() as int),
        a.max == high_of(points@, points@.len() as int),
{
    let top = Single { bits: 0x7f80_0000 };
    let bottom = Single { bits: 0xff80_0000 };
    let mut min: Triple = (top, top, top);
    let mut max: Triple = (bottom, bottom, bottom);
    let mut positions: Vec<u8> = Vec::new();
    let mut i: usize = 0;
    while i < points.len()
        invariant
            i <= points.len(),
            positions@ == positions_of(points@, i as int),
            min == low_of(points@, i as int),
            max == high_of(points@, i as int),
        decreases points.len() - i,
    {
        let p = points[i];
        let (x, y, z) = (p.0, p.2, p.1.negated());
        put_u32(&mut positions, x.bits);
        put_u32(&mut positions, y.bits);
        put_u32(&mut positions, z.bits);
        assert(positions@ =~= positions_of(points@, i + 1));
        min = (smaller(min.0, x), smaller(min.1, y), smaller(min.2, z));
        max = (larger(max.0, x), larger(max.1, y), larger(max.2, z));
        i = i + 1;
    }
    Arranged { positions, min, max }
}

/// The colours of the first `n` records: the high byte of each channel.
pub open spec fn colors_of(records: Seq<u8>, stride: int, n: int) -> Seq<u8>
    decreases n,
{
    if n <= 0 {
        Seq::empty()
    } else {
        let at = (n - 1) * stride + RGB;
        colors_of(records, stride, n - 1) + seq![
            records[at + 1],
            records[at + 3],
            records[at + 5],
        ]
    }
}

/// The colours of a node's records, narrowed to bytes.
pub fn narrow_colors(records: &Vec<u8>, stride: usize, count: usize) -> (out: Vec<u8>)
    requires
        stride >= 36,
        count * stride <= records@.len(),
    ensures
        out@ == colors_of(records@, stride as int, count as int),
{
    let mut out: Vec<u8> = Vec::new();
    let total: usize = records.len();
    let mut i: usize = 0;
    while i < count
        invariant
            i <= count,
            stride >= 36,
            total == records@.len(),
            count * stride <= total,
            out@ == colors_of(records@, stride as int, i as int),
        decreases count - i,
    {
        assert(i * stride + stride <= count * stride && 0 <= i * stride) by (nonlinear_arith)
            requires
                i < count,
                0 <= stride,
        ;
        let at: usize = i * stride + RGB;
        out.push(records[at + 1]);
        out.push(records[at + 3]);
        out.push(records[at + 5]);
        assert(out@ =~= colors_of(records@, stride as int, i + 1));
        i = i + 1;
    }
    out
}

/// Some bytes, and as many of a filler as bring them to a multiple of four.
pub open spec fn padded(b: Seq<u8>, fill: u8) -> Seq<u8> {
    b + Seq::new(((4 - b.len() % 4) % 4) as nat, |i: int| fill)
}

fn pad(b: Vec<u8>, fill: u8) -> (out: Vec<u8>)
    ensures
        out@ == padded(b@, fill),
{
    let mut out = b;
    let n: usize = (4 - out.len() % 4) % 4;
    let mut i: usize = 0;
    assert(out@ =~= b@ + Seq::new(0, |j: int| fill));
    while i < n
        invariant
            i <= n,
            n < 4,
            out@ == b@ + Seq::new(i as nat, |j: int| fill),
        decreases n - i,
    {
        out.push(fill);
        assert(out@ =~= b@ + Seq::new((i + 1) as nat, |j: int| fill));
        i = i + 1;
    }
    out
}

/// The buffer of a tile: its positions, then its colours, filled up to a
/// multiple of four.
pub fn buffer(positions: &Vec<u8>, colors: Option<&Vec<u8>>) -> (out: Vec<u8>)
    ensures
        out@ == padded(
            positions@ + match colors {
                Some(c) => c@,
                None => Seq::empty(),
            },
            0,
        ),
{
    let mut b = crate::bytes::slice_of(positions.as_slice(), 0, positions.len());
    assert(b@ =~= positions@);
    if let Some(c) = colors {
        crate::bytes::put_range(&mut b, c.as_slice(), 0, c.len());
        assert(c@.subrange(0, c@.len() as int) =~= c@);
    } else {
        assert(positions@ + Seq::<u8>::empty() =~= positions@);
    }
    pad(b, 0)
}

/// The colours of a node, where its records have any.
pub open spec fn tile_colors(records: Seq<u8>, layout: RecordLayout, count: int) -> Option<
    Seq<u8>,
> {
    if layout.format == 7 || layout.format == 8 {
        Some(colors_of(records, layout.base + layout.extra, count))
    } else {
        None
    }
}

/// What the content of a tile is made of, given each point of a node about the
/// tile's centre: the positions with their extent, the colours where the records
/// have any, and the buffer that holds both.
pub fn tile_parts(points: &Vec<Triple>, records: &Vec<u8>, layout: &RecordLayout) -> (p: (
    Arranged,
    Option<Vec<u8>>,
    Vec<u8>,
))
    requires
        layout.wf(),
        points@.len() * (layout.base + layout.extra) <= records@.len(),
    ensures
        p.0.positions@ == positions_of(points@, points@.len() as int),
        p.0.min == low_of(points@, points@.len() as int),
        p.0.max == high_of(points@, points@.len() as int),
        match p.1 {
            Some(c) => tile_colors(records@, *layout, points@.len() as int) == Some(c@),
            None => tile_colors(records@, *layout, points@.len() as int) is None,
        },
        p.2@ == padded(
            p.0.positions@ + match p.1 {
                Some(c) => c@,
                None => Seq::empty(),
            },
            0,
        ),
{
    let arranged = arrange(points);
    let colors = if layout.has_color() {
        Some(narrow_colors(records, layout.stride(), points.len()))
    } else {
        None
    };
    let binary = match &colors {
        Some(c) => buffer(&arranged.positions, Some(c)),
        None => buffer(&arranged.positions, None),
    };
    (arranged, colors, binary)
}

/// An object with one field.
pub open spec fn single(key: Seq<char>, value: Tree) -> Tree {
    Tree::Object(seq![(key, value)])
}

/// A list of one item.
pub open spec fn alone(value: Tree) -> Tree {
    Tree::Array(seq![value])
}

/// The sizes and the corners that a tile's document states.
#[derive(Debug, Clone, Copy)]
pub struct Content {
    pub count: u64,
    pub position_bytes: u64,
    /// Bytes of colour, where there is any.
    pub color_bytes: Option<u64>,
    pub buffer_bytes: u64,
    pub min: [Real; 3],
    pub max: [Real; 3],
}

/// The accessors of a tile.
pub open spec fn accessors_of(c: Content) -> Seq<Tree> {
    let positions = Tree::Object(
        seq![
            ("bufferView"@, Json::whole(0)),
            ("componentType"@, Json::whole(5126)),
            ("count"@, Json::whole(c.count)),
            ("type"@, Tree::Text("VEC3"@)),
            ("min"@, Json::fractions(c.min@)),
            ("max"@, Json::fractions(c.max@)),
        ],
    );
    let colors = Tree::Object(
        seq![
            ("bufferView"@, Json::whole(1)),
            ("componentType"@, Json::whole(5121)),
            ("normalized"@, Tree::Bool(true)),
            ("count"@, Json::whole(c.count)),
            ("type"@, Tree::Text("VEC3"@)),
        ],
    );
    if c.color_bytes is Some {
        seq![positions, colors]
    } else {
        seq![positions]
    }
}

/// A view of a tile's buffer.
pub open spec fn view_tree(offset: u64, length: u64) -> Tree {
    Tree::Object(
        seq![
            ("buffer"@, Json::whole(0)),
            ("byteOffset"@, Json::whole(offset)),
            ("byteLength"@, Json::whole(length)),
        ],
    )
}

/// The views of a tile's buffer.
pub open spec fn views_of(c: Content) -> Seq<Tree> {
    match c.color_bytes {
        Some(n) => seq![view_tree(0, c.position_bytes), view_tree(c.position_bytes, n)],
        None => seq![view_tree(0, c.position_bytes)],
    }
}

/// The attributes of a tile's points.
pub open spec fn attributes_of(c: Content) -> Tree {
    Tree::Object(
        if c.color_bytes is Some {
            seq![("POSITION"@, Json::whole(0)), ("COLOR_0"@, Json::whole(1))]
        } else {
            seq![("POSITION"@, Json::whole(0))]
        },
    )
}

/// The document of a tile: one primitive of points.
pub open spec fn gltf_of(c: Content) -> Tree {
    Tree::Object(
        seq![
            (
                "asset"@,
                Tree::Object(
                    seq![
                        ("version"@, Tree::Text("2.0"@)),
                        ("generator"@, Tree::Text("voxelkloud"@)),
                    ],
                ),
            ),
            ("scene"@, Json::whole(0)),
            ("scenes"@, alone(single("nodes"@, alone(Json::whole(0))))),
            ("nodes"@, alone(single("mesh"@, Json::whole(0)))),
            (
                "meshes"@,
                alone(
                    single(
                        "primitives"@,
                        alone(
                            Tree::Object(
                                seq![
                                    ("attributes"@, attributes_of(c)),
                                    ("mode"@, Json::whole(0)),
                                ],
                            ),
                        ),
                    ),
                ),
            ),
            ("accessors"@, Tree::Array(accessors_of(c))),
            ("bufferViews"@, Tree::Array(views_of(c))),
            ("buffers"@, alone(single("byteLength"@, Json::whole(c.buffer_bytes)))),
        ],
    )
}

fn list_of(items: Vec<Json>) -> (j: Json)
    ensures
        j.tree() == Tree::Array(trees(items@)),
{
    let j = Json::Array(items);
    assert(j.tree()->Array_0 =~= trees(items@));
    j
}

fn one(item: Json) -> (j: Json)
    ensures
        j.tree() == alone(item.tree()),
{
    let mut items: Vec<Json> = Vec::new();
    items.push(item);
    assert(trees(items@) =~= seq![item.tree()]);
    list_of(items)
}

fn field_of(key: &str, value: Json) -> (j: Json)
    ensures
        j.tree() == single(key@, value.tree()),
{
    let mut fields = Fields::new();
    fields.put(key, value);
    assert(fields@ =~= seq![(key@, value.tree())]);
    fields.object()
}

fn accessors_json(c: &Content) -> (j: Json)
    ensures
        j.tree() == Tree::Array(accessors_of(*c)),
{
    let mut items: Vec<Json> = Vec::new();
    let mut p = Fields::new();
    p.put("bufferView", Json::count(0));
    p.put("componentType", Json::count(5126));
    p.put("count", Json::count(c.count));
    p.put("type", Json::of_text("VEC3"));
    p.put("min", Json::of_reals(c.min.as_slice()));
    p.put("max", Json::of_reals(c.max.as_slice()));
    assert(p@ =~= accessors_of(*c)[0]->Object_0);
    items.push(p.object());
    if c.color_bytes.is_some() {
        let mut f = Fields::new();
        f.put("bufferView", Json::count(1));
        f.put("componentType", Json::count(5121));
        f.put("normalized", Json::Bool(true));
        f.put("count", Json::count(c.count));
        f.put("type", Json::of_text("VEC3"));
        assert(f@ =~= accessors_of(*c)[1]->Object_0);
        items.push(f.object());
    }
    assert(trees(items@) =~= accessors_of(*c));
    list_of(items)
}

fn view_json(offset: u64, length: u64) -> (j: Json)
    ensures
        j.tree() == view_tree(offset, length),
{
    let mut f = Fields::new();
    f.put("buffer", Json::count(0));
    f.put("byteOffset", Json::count(offset));
    f.put("byteLength", Json::count(length));
    assert(f@ =~= view_tree(offset, length)->Object_0);
    f.object()
}

fn views_json(c: &Content) -> (j: Json)
    ensures
        j.tree() == Tree::Array(views_of(*c)),
{
    let mut items: Vec<Json> = Vec::new();
    items.push(view_json(0, c.position_bytes));
    if let Some(n) = c.color_bytes {
        items.push(view_json(c.position_bytes, n));
    }
    assert(trees(items@) =~= views_of(*c));
    list_of(items)
}

fn attributes_json(c: &Content) -> (j: Json)
    ensures
        j.tree() == attributes_of(*c),
{
    let mut f = Fields::new();
    f.put("POSITION", Json::count(0));
    if c.color_bytes.is_some() {
        f.put("COLOR_0", Json::count(1));
    }
    assert(f@ =~= attributes_of(*c)->Object_0);
    f.object()
}

/// The document of a tile.
pub fn gltf_document(c: &Content) -> (j: Json)
    ensures
        j.tree() == gltf_of(*c),
{
    let mut asset = Fields::new();
    asset.put("version", Json::of_text("2.0"));
    asset.put("generator", Json::of_text("voxelkloud"));
    assert(asset@ =~= seq![
        ("version"@, Tree::Text("2.0"@)),
        ("generator"@, Tree::Text("voxelkloud"@)),
    ]);
    let mut primitive = Fields::new();
    primitive.put("attributes", attributes_json(c));
    primitive.put("mode", Json::count(0));
    assert(primitive@ =~= seq![("attributes"@, attributes_of(*c)), ("mode"@, Json::whole(0))]);
    let mut f = Fields::new();
    f.put("asset", asset.object());
    f.put("scene", Json::count(0));
    f.put("scenes", one(field_of("nodes", one(Json::count(0)))));
    f.put("nodes", one(field_of("mesh", Json::count(0))));
    f.put("meshes", one(field_of("primitives", one(primitive.object()))));
    f.put("accessors", accessors_json(c));
    f.put("bufferViews", views_json(c));
    f.put("buffers", one(field_of("byteLength", Json::count(c.buffer_bytes))));
    assert(f@ =~= gltf_of(*c)->Object_0);
    f.object()
}

/// The document of a tile of some points, from what its content is made of and
/// the corners of their extent.
pub fn tile_document(
    count: u64,
    parts: &(Arranged, Option<Vec<u8>>, Vec<u8>),
    min: [Real; 3],
    max: [Real; 3],
) -> (j: Json)
    ensures
        j.tree() == gltf_of(
            (Content {
                count,
                position_bytes: parts.0.positions@.len() as u64,
                color_bytes: match parts.1 {
                    Some(c) => Some(c@.len() as u64),
                    None => None,
                },
                buffer_bytes: parts.2@.len() as u64,
                min,
                max,
            }),
        ),
{
    let color_bytes = match &parts.1 {
        Some(c) => Some(c.len() as u64),
        None => None,
    };
    gltf_document(
        &Content {
            count,
            position_bytes: parts.0.positions.len() as u64,
            color_bytes,
            buffer_bytes: parts.2.len() as u64,
            min,
            max,
        },
    )
}

/// A GLB: a header, the chunk with the document, the chunk with the buffer.
#[verifier::opaque]
pub open spec fn glb_of(json: Seq<u8>, binary: Seq<u8>) -> Seq<u8> {
    let text = padded(json, 32);
    bytes32(GLB_MAGIC as int) + bytes32(2) + bytes32(
        (28int + text.len() + binary.len()) % 0x1_0000_0000,
    ) + bytes32(text.len() as int % 0x1_0000_0000) + bytes32(CHUNK_JSON as int) + text + bytes32(
        binary.len() as int % 0x1_0000_0000,
    ) + bytes32(CHUNK_BIN as int) + binary
}

/// Frames a document and a buffer as a GLB.
pub fn frame_glb(json: Vec<u8>, binary: &Vec<u8>) -> (out: Vec<u8>)
    ensures
        out@ == glb_of(json@, binary@),
{
    let mut text = pad(json, 32);
    let a: u64 = text.len() as u64 % 0x1_0000_0000;
    let b: u64 = binary.len() as u64 % 0x1_0000_0000;
    let total: u32 = ((28 + a + b) % 0x1_0000_0000) as u32;
    proof {
        lemma_total(text@.len() as int, binary@.len() as int);
    }
    let mut out: Vec<u8> = Vec::new();
    put_u32(&mut out, GLB_MAGIC);
    put_u32(&mut out, 2);
    put_u32(&mut out, total);
    put_u32(&mut out, a as u32);
    put_u32(&mut out, CHUNK_JSON);
    out.append(&mut text);
    put_u32(&mut out, b as u32);
    put_u32(&mut out, CHUNK_BIN);
    crate::bytes::put_range(&mut out, binary.as_slice(), 0, binary.len());
    assert(binary@.subrange(0, binary@.len() as int) =~= binary@);
    proof {
        reveal(glb_of);
    }
    assert(out@ =~= glb_of(json@, binary@));
    out
}

proof fn lemma_total(a: int, b: int)
    requires
        0 <= a,
        0 <= b,
    ensures
        (28 + a % 0x1_0000_0000 + b % 0x1_0000_0000) % 0x1_0000_0000 == (28 + a + b)
            % 0x1_0000_0000,
{
}

/// A framed tile is whole words, and so is each of its chunks.
pub proof fn glb_is_aligned(json: Seq<u8>, buffer: Seq<u8>)
    ensures
        padded(json, 32).len() % 4 == 0,
        padded(buffer, 0).len() % 4 == 0,
        glb_of(json, padded(buffer, 0)).len() % 4 == 0,
        padded(json, 32).take(json.len() as int) == json,
{
    assert(padded(json, 32).take(json.len() as int) =~= json);
    lemma_padded(json, 32);
    lemma_padded(buffer, 0);
    lemma_glb_size(json, padded(buffer, 0));
}

proof fn lemma_padded(b: Seq<u8>, fill: u8)
    ensures
        padded(b, fill).len() % 4 == 0,
{
}

proof fn lemma_glb_size(json: Seq<u8>, binary: Seq<u8>)
    ensures
        glb_of(json, binary).len() == 28 + padded(json, 32).len() + binary.len(),
{
    reveal(glb_of);
    let text = padded(json, 32);
    let (a, b, c, d, e, f, g) = (
        bytes32(GLB_MAGIC as int),
        bytes32(2),
        bytes32((28int + text.len() + binary.len()) % 0x1_0000_0000),
        bytes32(text.len() as int % 0x1_0000_0000),
        bytes32(CHUNK_JSON as int),
        bytes32(binary.len() as int % 0x1_0000_0000),
        bytes32(CHUNK_BIN as int),
    );
    assert((a + b + c + d + e + text + f + g + binary).len() == 28 + text.len() + binary.len());
}

/// What a tile's place comes to: half its edges, its centre, and the spacing of
/// its level.
#[derive(Debug, Clone, Copy)]
pub struct Geometry {
    pub half: [Real; 3],
    pub centre: [Real; 3],
    pub spacing: Real,
}

/// Writes the nodes of a cloud, one tile each, and then the tree.
#[derive(Debug)]
pub struct TilesetWriter {
    pub options: WriteOptions,
    /// The nodes that were written; a later one replaces one with its address.
    pub nodes: Vec<Written>,
    pub points: u64,
    pub depth: u32,
    pub bytes: u64,
}

/// The path of a tile's content.
pub open spec fn content_path(k: OctreeKey) -> Seq<char> {
    "content/"@ + k.spec_ept_name() + ".glb"@
}

/// The octree's index of child `c` of a tile: here the first axis changes
/// fastest.
pub open spec fn child_index(c: int) -> u8 {
    (c % 2 * 4 + c / 2 % 2 * 2 + c / 4 % 2) as u8
}

/// Child `c` of a tile.
pub open spec fn child_tile(k: OctreeKey, c: int) -> OctreeKey {
    k.spec_child(child_index(c))
}

/// A tile and every tile below it, parents first.
pub open spec fn tiles(w: Seq<Written>, k: OctreeKey) -> Seq<OctreeKey>
    decreases u32::MAX - k.level, 1int, 0int,
{
    seq![k] + tiles_below(w, k, 8)
}

/// The tiles below the first `n` children of a tile, and those children.
pub open spec fn tiles_below(w: Seq<Written>, k: OctreeKey, n: int) -> Seq<OctreeKey>
    decreases u32::MAX - k.level, 0int, n,
{
    if n <= 0 || !can_split(k) {
        Seq::empty()
    } else if described(w, child_tile(k, n - 1)) {
        tiles_below(w, k, n - 1) + tiles(w, child_tile(k, n - 1))
    } else {
        tiles_below(w, k, n - 1)
    }
}

/// Zero, as a document writes it.
pub open spec fn nought() -> Real {
    Real { bits: ZERO }
}

/// The box of a tile, local to its centre.
pub open spec fn box_numbers(g: Geometry) -> Seq<Real> {
    let o = nought();
    seq![o, o, o, g.half[0], o, o, o, g.half[1], o, o, o, g.half[2]]
}

/// The transform that places a tile.
pub open spec fn transform_numbers(g: Geometry) -> Seq<Real> {
    let o = nought();
    let i = Real { bits: ONE };
    seq![
        i,
        o,
        o,
        o,
        o,
        i,
        o,
        o,
        o,
        o,
        i,
        o,
        g.centre[0],
        g.centre[1],
        g.centre[2],
        i,
    ]
}

/// The fields of a tile, given the documents of its children. A leaf has no
/// error: there is nothing finer.
#[verifier::opaque]
pub open spec fn tile_fields(w: Seq<Written>, k: OctreeKey, g: Geometry, kids: Seq<Tree>) -> Seq<
    (Seq<char>, Tree),
> {
    let own = seq![
        ("boundingVolume"@, single("box"@, Json::fractions(box_numbers(g)))),
        ("transform"@, Json::fractions(transform_numbers(g))),
        (
            "geometricError"@,
            Json::fraction(
                if kids.len() == 0 {
                    nought()
                } else {
                    g.spacing
                },
            ),
        ),
        ("refine"@, Tree::Text("ADD"@)),
    ];
    let content = if node_with(w, k) is Some {
        seq![("content"@, single("uri"@, Tree::Text(content_path(k))))]
    } else {
        Seq::empty()
    };
    let children = if kids.len() > 0 {
        seq![("children"@, Tree::Array(kids))]
    } else {
        Seq::empty()
    };
    own + content + children
}

/// The document of a tile whose geometry, and that of the tiles below it, stands
/// from place `i` on.
pub open spec fn tile_tree(w: Seq<Written>, k: OctreeKey, geo: Seq<Geometry>, i: int) -> Tree
    decreases u32::MAX - k.level, 1int, 0int,
{
    Tree::Object(tile_fields(w, k, geo[i], kid_trees(w, k, geo, i, 8)))
}

/// The documents of the first `n` children of a tile that are there.
pub open spec fn kid_trees(w: Seq<Written>, k: OctreeKey, geo: Seq<Geometry>, i: int, n: int) -> Seq<
    Tree,
>
    decreases u32::MAX - k.level, 0int, n,
{
    if n <= 0 || !can_split(k) {
        Seq::empty()
    } else if described(w, child_tile(k, n - 1)) {
        kid_trees(w, k, geo, i, n - 1).push(
            tile_tree(w, child_tile(k, n - 1), geo, i + 1 + tiles_below(w, k, n - 1).len()),
        )
    } else {
        kid_trees(w, k, geo, i, n - 1)
    }
}

/// The manifest of a tileset: the error of drawing nothing, and the root.
pub open spec fn manifest_of(
    generator: Seq<char>,
    error: Real,
    w: Seq<Written>,
    geo: Seq<Geometry>,
) -> Tree {
    Tree::Object(
        seq![
            (
                "asset"@,
                Tree::Object(
                    seq![
                        ("version"@, Tree::Text("1.1"@)),
                        ("tilesetVersion"@, Tree::Text(generator)),
                    ],
                ),
            ),
            ("geometricError"@, Json::fraction(error)),
            ("root"@, tile_tree(w, OctreeKey::root(), geo, 0)),
        ],
    )
}

fn turn(c: u8) -> (r: u8)
    requires
        c < 8,
    ensures
        r == child_index(c as int),
        r < 8,
{
    c % 2 * 4 + c / 2 % 2 * 2 + c / 4 % 2
}

fn splits(k: OctreeKey) -> (r: bool)
    ensures
        r == can_split(k),
{
    k.level < u32::MAX && k.x < 0x8000_0000 && k.y < 0x8000_0000 && k.z < 0x8000_0000
}

#[verifier::spinoff_prover]
#[verifier::rlimit(40)]
fn list_tiles(nodes: &Nodes, k: OctreeKey, out: &mut Vec<OctreeKey>)
    requires
        nodes.wf(),
    ensures
        final(out)@ == old(out)@ + tiles(nodes.list@, k),
    decreases u32::MAX - k.level,
{
    let ghost w = nodes.list@;
    let ghost start = out@;
    out.push(k);
    assert(out@ =~= start + (seq![k] + tiles_below(w, k, 0)));
    if splits(k) {
        let mut c: u8 = 0;
        while c < 8
            invariant
                c <= 8,
                nodes.wf(),
                w == nodes.list@,
                can_split(k),
                out@ == start + (seq![k] + tiles_below(w, k, c as int)),
            decreases 8 - c,
        {
            let child = k.child(turn(c));
            if nodes.holds_key(child) {
                assert(child == child_tile(k, c as int));
                assert(child.level == k.level + 1);
                list_tiles(nodes, child, out);
                assert(out@ =~= start + (seq![k] + tiles_below(w, k, c + 1)));
            }
            c = c + 1;
        }
    } else {
        assert(out@ =~= start + tiles(w, k));
    }
}

fn put_tile_fields(nodes: &Nodes, k: OctreeKey, g: &Geometry, kids: Vec<Json>) -> (j: Json)
    requires
        nodes.wf(),
    ensures
        j.tree() == Tree::Object(tile_fields(nodes.list@, k, *g, trees(kids@))),
{
    let zero = Real { bits: ZERO };
    let one = Real { bits: ONE };
    let b: [Real; 12] = [
        zero, zero, zero, g.half[0], zero, zero, zero, g.half[1], zero, zero, zero, g.half[2],
    ];
    assert(b@ =~= box_numbers(*g));
    let t: [Real; 16] = [
        one, zero, zero, zero, zero, one, zero, zero, zero, zero, one, zero, g.centre[0],
        g.centre[1], g.centre[2], one,
    ];
    assert(t@ =~= transform_numbers(*g));
    let ghost list = trees(kids@);
    let mut f = Fields::new();
    f.put("boundingVolume", field_of("box", Json::of_reals(b.as_slice())));
    f.put("transform", Json::of_reals(t.as_slice()));
    let error = if kids.len() == 0 {
        zero
    } else {
        g.spacing
    };
    f.put("geometricError", Json::of_real(error));
    f.put("refine", Json::of_text("ADD"));
    if nodes.find(k).is_some() {
        let name = k.ept_name();
        let path = cat3("content/", name.as_str(), ".glb");
        f.put("content", field_of("uri", Json::of_text(path.as_str())));
    }
    if kids.len() > 0 {
        f.put("children", list_of(kids));
    }
    proof {
        reveal(tile_fields);
    }
    assert(f@ =~= tile_fields(nodes.list@, k, *g, list));
    f.object()
}

proof fn lemma_one_more(list: Seq<Json>, j: Json)
    ensures
        trees(list.push(j)) == trees(list).push(j.tree()),
{
    assert(trees(list.push(j)) =~= trees(list).push(j.tree()));
}

/// Adds the document of child `c` of a tile, where it is there.
#[verifier::spinoff_prover]
#[verifier::rlimit(50)]
fn next_kid(
    nodes: &Nodes,
    k: OctreeKey,
    geo: &Vec<Geometry>,
    i: usize,
    c: u8,
    at: usize,
    kids: &mut Vec<Json>,
) -> (next: usize)
    requires
        nodes.wf(),
        c < 8,
        can_split(k),
        i + tiles(nodes.list@, k).len() <= geo@.len(),
        trees(old(kids)@) == kid_trees(nodes.list@, k, geo@, i as int, c as int),
        at == i + 1 + tiles_below(nodes.list@, k, c as int).len(),
    ensures
        trees(final(kids)@) == kid_trees(nodes.list@, k, geo@, i as int, c + 1),
        next == i + 1 + tiles_below(nodes.list@, k, c + 1).len(),
    decreases u32::MAX - k.level, 0int,
{
    let child = k.child(turn(c));
    assert(child == child_tile(k, c as int));
    proof {
        lemma_next(nodes.list@, k, geo@, i as int, c as int);
    }
    if !nodes.holds_key(child) {
        return at;
    }
    assert(child.level == k.level + 1);
    let (j, next) = put_tile(nodes, child, geo, at);
    proof {
        lemma_one_more(kids@, j);
    }
    kids.push(j);
    next
}

fn put_tile(nodes: &Nodes, k: OctreeKey, geo: &Vec<Geometry>, i: usize) -> (r: (Json, usize))
    requires
        nodes.wf(),
        i + tiles(nodes.list@, k).len() <= geo@.len(),
    ensures
        r.0.tree() == tile_tree(nodes.list@, k, geo@, i as int),
        r.1 == i + tiles(nodes.list@, k).len(),
    decreases u32::MAX - k.level, 1int,
{
    let ghost w = nodes.list@;
    let mut kids: Vec<Json> = Vec::new();
    assert(geo.len() == geo@.len());
    let mut at: usize = i + 1;
    assert(trees(kids@) =~= kid_trees(w, k, geo@, i as int, 0));
    if splits(k) {
        let mut c: u8 = 0;
        while c < 8
            invariant
                c <= 8,
                nodes.wf(),
                w == nodes.list@,
                can_split(k),
                i + tiles(w, k).len() <= geo@.len(),
                geo@.len() == geo.len(),
                trees(kids@) == kid_trees(w, k, geo@, i as int, c as int),
                at == i + 1 + tiles_below(w, k, c as int).len(),
            decreases 8 - c,
        {
            at = next_kid(nodes, k, geo, i, c, at, &mut kids);
            c = c + 1;
        }
    } else {
        assert(trees(kids@) =~= kid_trees(w, k, geo@, i as int, 8));
    }
    (put_tile_fields(nodes, k, &geo[i], kids), at)
}

proof fn lemma_grow(w: Seq<Written>, k: OctreeKey, a: int, b: int)
    requires
        a <= b,
    ensures
        tiles_below(w, k, a).len() <= tiles_below(w, k, b).len(),
    decreases b,
{
    if a < b && b > 0 {
        lemma_grow(w, k, a, b - 1);
    }
}

proof fn lemma_next(w: Seq<Written>, k: OctreeKey, geo: Seq<Geometry>, i: int, c: int)
    requires
        can_split(k),
        0 <= c < 8,
    ensures
        described(w, child_tile(k, c)) ==> {
            &&& kid_trees(w, k, geo, i, c + 1) == kid_trees(w, k, geo, i, c).push(
                tile_tree(w, child_tile(k, c), geo, i + 1 + tiles_below(w, k, c).len()),
            )
            &&& tiles_below(w, k, c + 1).len() == tiles_below(w, k, c).len() + tiles(
                w,
                child_tile(k, c),
            ).len()
            &&& tiles_below(w, k, c + 1).len() + 1 <= tiles(w, k).len()
        },
        !described(w, child_tile(k, c)) ==> {
            &&& kid_trees(w, k, geo, i, c + 1) == kid_trees(w, k, geo, i, c)
            &&& tiles_below(w, k, c + 1) == tiles_below(w, k, c)
        },
{
    lemma_grow(w, k, c + 1, 8);
}

impl TilesetWriter {
    pub fn create(options: WriteOptions) -> (t: Self)
        ensures
            t.options == options,
            t.nodes@.len() == 0,
            t.points == 0,
            t.depth == 0,
            t.bytes == 0,
    {
        TilesetWriter { options, nodes: Vec::new(), points: 0, depth: 0, bytes: 0 }
    }

    /// The path of a tile's content.
    pub fn path(&self, key: OctreeKey) -> (out: String)
        ensures
            out@ == content_path(key),
    {
        let name = key.ept_name();
        cat3("content/", name.as_str(), ".glb")
    }

    /// Notes a tile whose content has been written: so many points, in so many
    /// bytes. One without points is none.
    pub fn write_node(&mut self, key: OctreeKey, count: u32, size: u64)
        ensures
            final(self).options == old(self).options,
            count == 0 ==> *final(self) == *old(self),
            count > 0 ==> {
                &&& final(self).nodes@ == old(self).nodes@.push(
                    Written { key, byte_offset: 0, byte_size: size, points: count },
                )
                &&& final(self).points == wrap64(old(self).points + count)
                &&& final(self).bytes == wrap64(old(self).bytes + size)
                &&& final(self).depth == if key.level > old(self).depth {
                    key.level
                } else {
                    old(self).depth
                }
            },
    {
        if count == 0 {
            return;
        }
        self.nodes.push(Written { key, byte_offset: 0, byte_size: size, points: count });
        self.points = self.points.wrapping_add(count as u64);
        self.bytes = self.bytes.wrapping_add(size);
        if key.level > self.depth {
            self.depth = key.level;
        }
    }

    /// Every tile of the tree, parents first. The root is always one of them,
    /// with or without content of its own, and so is every ancestor of a tile.
    pub fn tiles(&self) -> (out: Vec<OctreeKey>)
        ensures
            out@ == tiles(self.nodes@, OctreeKey::root()),
    {
        let nodes = Nodes::new(&self.nodes);
        let mut out: Vec<OctreeKey> = Vec::new();
        list_tiles(&nodes, OctreeKey::root(), &mut out);
        assert(out@ =~= tiles(self.nodes@, OctreeKey::root()));
        out
    }

    /// The manifest, given the geometry of every tile in the order they are
    /// listed, and the error of drawing nothing.
    pub fn finish(&self, geometry: &Vec<Geometry>, error: Real) -> (j: Json)
        requires
            geometry@.len() == tiles(self.nodes@, OctreeKey::root()).len(),
        ensures
            j.tree() == manifest_of(self.options.generator@, error, self.nodes@, geometry@),
    {
        let nodes = Nodes::new(&self.nodes);
        let (root, _) = put_tile(&nodes, OctreeKey::root(), geometry, 0);
        let mut asset = Fields::new();
        asset.put("version", Json::of_text("1.1"));
        asset.put("tilesetVersion", Json::of_text(self.options.generator.as_str()));
        assert(asset@ =~= seq![
            ("version"@, Tree::Text("1.1"@)),
            ("tilesetVersion"@, Tree::Text(self.options.generator@)),
        ]);
        let mut f = Fields::new();
        f.put("asset", asset.object());
        f.put("geometricError", Json::of_real(error));
        f.put("root", root);
        assert(f@ =~= manifest_of(
            self.options.generator@,
            error,
            self.nodes@,
            geometry@,
        )->Object_0);
        f.object()
    }
}

/// Every child index is some child's: turning the order of the axes loses none.
pub(crate) proof fn lemma_index(b: u8)
    requires
        b < 8,
    ensures
        child_index(child_index(b as int) as int) == b,
        child_index(b as int) < 8,
{
}

/// Every written node is a tile of the tree, and every ancestor of one, where the
/// node is below the root.
pub proof fn every_node_is_a_tile(w: Seq<Written>, k: OctreeKey)
    requires
        described(w, k),
        above(OctreeKey::root(), k),
    ensures
        tiles(w, OctreeKey::root()).contains(k),
{
    lemma_listed(w, OctreeKey::root(), k);
}

proof fn lemma_listed(w: Seq<Written>, a: OctreeKey, k: OctreeKey)
    requires
        described(w, k),
        above(a, k),
    ensures
        tiles(w, a).contains(k),
    decreases u32::MAX - a.level, 0int,
{
    if a == k {
        assert(tiles(w, a)[0] == k);
    } else {
        let i = lemma_way_down(a, k);
        lemma_described_above(w, a.spec_child(i as u8), k);
        lemma_index(i as u8);
        let c = child_index(i) as int;
        assert(child_tile(a, c) == a.spec_child(i as u8));
        lemma_listed(w, child_tile(a, c), k);
        lemma_listed_below(w, a, k, c, 8);
        let rest = tiles_below(w, a, 8);
        let at = rest.index_of(k);
        assert(tiles(w, a)[1 + at] == k);
    }
}

proof fn lemma_listed_below(w: Seq<Written>, a: OctreeKey, k: OctreeKey, c: int, n: int)
    requires
        can_split(a),
        0 <= c < n <= 8,
        described(w, child_tile(a, c)),
        tiles(w, child_tile(a, c)).contains(k),
    ensures
        tiles_below(w, a, n).contains(k),
    decreases n,
{
    let before = tiles_below(w, a, n - 1);
    if c == n - 1 {
        let own = tiles(w, child_tile(a, c));
        let at = own.index_of(k);
        assert(tiles_below(w, a, n)[before.len() + at] == k);
    } else {
        lemma_listed_below(w, a, k, c, n - 1);
        let at = before.index_of(k);
        assert(tiles_below(w, a, n)[at] == k);
    }
}

} // verus!
