//! Potree v2: `metadata.json`, `hierarchy.bin`, `octree.bin`.
//!
//! The manifest is read tolerantly. Stock converters disagree with their own
//! schema in half a dozen places, and a reader that refused any of them would
//! refuse most of the files in the world. Each becomes a warning instead.

use crate::attribute::{
    columns, columns_push, laid_out, lay_out, record_size, Attribute, AttributeType, Column,
};
use crate::bounds::Bounds;
use crate::bytes::{le32, le64, u32_at, u64_at};
use crate::cloud::{
    column_named, CloudInfo, FormatId, HierarchyStats, NodeInfo, Summary, Tally,
};
use crate::crs::{string_declares, Crs};
use crate::double::{repeat, Real, ONE, ZERO};
use crate::error::{Error, Failure};
use crate::json::{json_read, trees, Json, Tree};
use crate::octree::OctreeKey;
use crate::text::{
    begins, cat2, cat3, cat4, cat5, cat7, decimal, decimal_of, quoted, quoted_text, same,
    starts_with,
};
use crate::warning::{notices, Notice, Warning};
use vstd::prelude::*;
use vstd::string::*;

verus! {

/// Bytes of one `hierarchy.bin` record: `u8` type, `u8` child mask, `u32` point
/// count, `u64` byte offset, `u64` byte size.
pub const HIERARCHY_RECORD_SIZE: usize = 22;

/// A record whose offset and size point at a further chunk of `hierarchy.bin`
/// rather than into `octree.bin`.
pub const TYPE_PROXY: u8 = 2;

/// One node, with the range of `octree.bin` that holds its points.
///
/// `byte_size == 0` is how a node with no payload of its own is spelled, and
/// not `byte_offset == 0`, which is a real offset held by exactly one node.
#[derive(Debug, Clone, Copy, PartialEq, Eq, Structural)]
pub struct PotreeNodeRef {
    pub key: OctreeKey,
    pub point_count: u32,
    pub byte_offset: u64,
    pub byte_size: u64,
}

/// What the manifest said, kept because the writers and the hierarchy walk need
/// it and the summary is deliberately format-neutral.
#[derive(Debug)]
pub struct PotreeMetadata {
    pub version: String,
    pub name: String,
    pub description: String,
    /// Bytes of the root chunk of `hierarchy.bin`.
    pub first_chunk_size: u64,
    /// Levels between chunk boundaries.
    pub step_size: u32,
    pub depth: u32,
    /// `"DEFAULT"` or `"BROTLI"`.
    pub encoding: String,
}

/// A manifest's own fields, as the values they hold.
#[verifier::ext_equal]
pub struct Meta {
    pub version: Seq<char>,
    pub name: Seq<char>,
    pub description: Seq<char>,
    pub first_chunk_size: u64,
    pub step_size: u32,
    pub depth: u32,
    pub encoding: Seq<char>,
}

impl View for PotreeMetadata {
    type V = Meta;

    open spec fn view(&self) -> Meta {
        Meta {
            version: self.version@,
            name: self.name@,
            description: self.description@,
            first_chunk_size: self.first_chunk_size,
            step_size: self.step_size,
            depth: self.depth,
            encoding: self.encoding@,
        }
    }
}

/// The first three numbers of a list, if it has them.
pub open spec fn triple(value: Option<Tree>) -> Option<[Real; 3]> {
    match value {
        Some(Tree::Array(items)) => if items.len() < 3 || items[0].measure() is None
            || items[1].measure() is None || items[2].measure() is None {
            None
        } else {
            Some([items[0].measure()->0, items[1].measure()->0, items[2].measure()->0])
        },
        _ => None,
    }
}

/// The first three numbers of a list, if it has them.
pub fn vec3(value: Option<&Json>) -> (r: Option<[Real; 3]>)
    ensures
        r == triple(
            match value {
                Some(j) => Some(j.tree()),
                None => None,
            },
        ),
{
    let array = match value {
        Some(j) => match j.as_array() {
            Some(a) => a,
            None => {
                return None;
            },
        },
        None => {
            return None;
        },
    };
    if array.len() < 3 {
        return None;
    }
    match (array[0].as_real(), array[1].as_real(), array[2].as_real()) {
        (Some(a), Some(b), Some(c)) => Some([a, b, c]),
        _ => None,
    }
}

/// `n` numbers of a list, with a filler for those it lacks.
pub open spec fn filled(value: Option<Tree>, n: usize, fill: u64) -> Seq<Real> {
    Seq::new(
        n as nat,
        |i: int|
            match value {
                Some(Tree::Array(items)) => if i < items.len() && items[i].measure() is Some {
                    items[i].measure()->0
                } else {
                    Real { bits: fill }
                },
                _ => Real { bits: fill },
            },
    )
}

/// `n` numbers of a list, with a filler for those it lacks.
pub fn numbers(value: Option<&Json>, n: usize, fill: u64) -> (out: Vec<Real>)
    ensures
        out@ == filled(
            match value {
                Some(j) => Some(j.tree()),
                None => None,
            },
            n,
            fill,
        ),
{
    let ghost tree = match value {
        Some(j) => Some(j.tree()),
        None => None,
    };
    let mut out = repeat(Real { bits: fill }, n);
    if let Some(j) = value {
        if let Some(array) = j.as_array() {
            let mut i: usize = 0;
            while i < array.len() && i < n
                invariant
                    i <= array.len(),
                    i <= n,
                    out@.len() == n,
                    tree == Some(Tree::Array(trees(array@))),
                    forall|k: int| 0 <= k < i ==> out@[k] == filled(tree, n, fill)[k],
                    forall|k: int| i <= k < n ==> out@[k] == (Real { bits: fill }),
                decreases array.len() - i,
            {
                if let Some(x) = array[i].as_real() {
                    out.set(i, x);
                }
                i = i + 1;
            }
        }
    }
    assert(out@ =~= filled(tree, n, fill));
    out
}

/// The numbers of a histogram, zero for what is not a whole number.
pub open spec fn histogram_of(value: Option<Tree>) -> Option<Seq<u64>> {
    match value {
        Some(Tree::Array(items)) => Some(
            Seq::new(
                items.len(),
                |i: int|
                    match items[i].unsigned() {
                        Some(n) => n,
                        None => 0,
                    },
            ),
        ),
        _ => None,
    }
}

fn read_histogram(value: Option<&Json>) -> (out: Option<Vec<u64>>)
    ensures
        match out {
            Some(v) => histogram_of(
                match value {
                    Some(j) => Some(j.tree()),
                    None => None,
                },
            ) == Some(v@),
            None => histogram_of(
                match value {
                    Some(j) => Some(j.tree()),
                    None => None,
                },
            ) is None,
        },
{
    let j = match value {
        Some(j) => j,
        None => {
            return None;
        },
    };
    let array = match j.as_array() {
        Some(a) => a,
        None => {
            return None;
        },
    };
    let mut out: Vec<u64> = Vec::new();
    let ghost want = histogram_of(Some(j.tree()))->0;
    while out.len() < array.len()
        invariant
            out@.len() <= array@.len(),
            j.tree() == Tree::Array(trees(array@)),
            want == histogram_of(Some(j.tree()))->0,
            out@ == want.take(out@.len() as int),
        decreases array@.len() - out@.len(),
    {
        let i: usize = out.len();
        let n: u64 = match array[i].as_unsigned() {
            Some(n) => n,
            None => 0,
        };
        out.push(n);
        assert(want.take(i as int).push(n) =~= want.take(i + 1));
    }
    assert(want.take(out@.len() as int) =~= want);
    Some(out)
}

/// Where an attribute stands in a manifest.
pub open spec fn attribute_path(i: nat) -> Seq<char> {
    "attributes["@ + decimal(i) + "]"@
}

/// How many elements an attribute declares: at least one.
pub open spec fn elements_of(raw: Tree) -> usize {
    match raw.unsigned_at("numElements"@) {
        Some(n) => if n == 0 {
            1
        } else {
            n as usize
        },
        None => 1,
    }
}

/// The text in a field, empty where there is none.
pub open spec fn text_or_empty(raw: Tree, key: Seq<char>) -> Seq<char> {
    match raw.text_at(key) {
        Some(s) => s,
        None => Seq::empty(),
    }
}

/// The whole number in a field, zero where there is none.
pub open spec fn count_or_zero(raw: Tree, key: Seq<char>) -> u64 {
    match raw.unsigned_at(key) {
        Some(n) => n,
        None => 0,
    }
}

/// What one entry of the attribute list declares, or what is wrong with it.
pub open spec fn attribute_of(raw: Tree, i: nat) -> Result<Column, Failure> {
    match (raw.text_at("name"@), raw.text_at("type"@)) {
        (None, _) => Err(
            Failure::Manifest { path: attribute_path(i), detail: "attribute has no name"@ },
        ),
        (_, None) => Err(
            Failure::Manifest { path: attribute_path(i) + ".type"@, detail: "missing"@ },
        ),
        (Some(name), Some(type_text)) => match AttributeType::spelt(type_text) {
            None => Err(
                Failure::Manifest {
                    path: attribute_path(i) + ".type"@,
                    detail: quoted_text(type_text) + " is not one of the ten attribute types"@,
                },
            ),
            Some(kind) => Ok(
                Column {
                    name,
                    description: text_or_empty(raw, "description"@),
                    kind,
                    num_elements: elements_of(raw),
                    byte_offset: 0,
                    min: filled(raw.at("min"@), elements_of(raw), ZERO),
                    max: filled(raw.at("max"@), elements_of(raw), ZERO),
                    scale: filled(raw.at("scale"@), elements_of(raw), ONE),
                    offset: filled(raw.at("offset"@), elements_of(raw), ZERO),
                    histogram: histogram_of(raw.at("histogram"@)),
                },
            ),
        },
    }
}

/// What is odd about one entry of the attribute list: an element size that
/// contradicts the type, and a type that cannot be decoded without loss.
pub open spec fn attribute_notices(raw: Tree, i: nat) -> Seq<Notice> {
    let name = text_or_empty(raw, "name"@);
    let type_text = text_or_empty(raw, "type"@);
    match AttributeType::spelt(type_text) {
        None => Seq::empty(),
        Some(kind) => {
            let size = match raw.unsigned_at("elementSize"@) {
                Some(n) => if n != kind.width() {
                    seq![
                        Notice {
                            code: "element-size-mismatch"@,
                            path: attribute_path(i) + ".elementSize"@,
                            message: quoted_text(name) + " declares an element size of "@
                                + decimal(n as nat) + " but its type "@ + type_text + " is "@
                                + decimal(kind.width() as nat) + " bytes. The type wins."@,
                        },
                    ]
                } else {
                    Seq::empty()
                },
                None => Seq::empty(),
            };
            let lossy = if kind == AttributeType::Int64 || kind == AttributeType::Uint64 {
                seq![
                    Notice {
                        code: "undecodable-attribute"@,
                        path: attribute_path(i) + ".type"@,
                        message: quoted_text(name) + " is "@ + type_text
                            + ", which cannot be decoded without loss. Its bytes are still counted in the record stride."@,
                    },
                ]
            } else {
                Seq::empty()
            };
            size + lossy
        },
    }
}

/// What a list of attributes declares, or what is wrong with the first bad one.
pub open spec fn attributes_of(list: Seq<Tree>) -> Result<Seq<Column>, Failure>
    decreases list.len(),
{
    if list.len() == 0 {
        Ok(Seq::empty())
    } else {
        match attributes_of(list.drop_last()) {
            Err(f) => Err(f),
            Ok(before) => match attribute_of(list.last(), (list.len() - 1) as nat) {
                Err(f) => Err(f),
                Ok(c) => Ok(before.push(c)),
            },
        }
    }
}

/// What is odd about a list of attributes.
pub open spec fn attributes_notices(list: Seq<Tree>) -> Seq<Notice>
    decreases list.len(),
{
    if list.len() == 0 {
        Seq::empty()
    } else {
        attributes_notices(list.drop_last()) + attribute_notices(
            list.last(),
            (list.len() - 1) as nat,
        )
    }
}

proof fn lemma_bad_attribute(list: Seq<Tree>, n: int)
    requires
        0 <= n <= list.len(),
        attributes_of(list.take(n)) is Err,
    ensures
        attributes_of(list) == attributes_of(list.take(n)),
    decreases list.len() - n,
{
    if n < list.len() {
        assert(list.take(n + 1).drop_last() =~= list.take(n));
        lemma_bad_attribute(list, n + 1);
    } else {
        assert(list.take(n) =~= list);
    }
}

fn read_attribute(raw: &Json, i: usize, info: &mut CloudInfo) -> (r: Result<Attribute, Error>)
    ensures
        match r {
            Ok(a) => attribute_of(raw.tree(), i as nat) == Ok::<Column, Failure>(a@)
                && final(info)@ == (Summary {
                warnings: old(info)@.warnings + attribute_notices(raw.tree(), i as nat),
                ..old(info)@
            }),
            Err(e) => attribute_of(raw.tree(), i as nat) == Err::<Column, Failure>(e@),
        },
{
    let index = decimal_of(i as u64);
    let path = cat3("attributes[", index.as_str(), "]");
    let name = match raw.text_at("name") {
        Some(n) => n,
        None => {
            return Err(Error::manifest(path, "attribute has no name".to_owned()));
        },
    };
    let type_path = cat2(path.as_str(), ".type");
    let type_text = match raw.text_at("type") {
        Some(t) => t,
        None => {
            return Err(Error::manifest(type_path, "missing".to_owned()));
        },
    };
    let kind = match AttributeType::parse(type_text.as_str()) {
        Some(k) => k,
        None => {
            let shown = quoted(type_text.as_str());
            return Err(
                Error::manifest(
                    type_path,
                    cat2(shown.as_str(), " is not one of the ten attribute types"),
                ),
            );
        },
    };
    let num_elements: usize = match raw.unsigned_at("numElements") {
        Some(n) => if n == 0 {
            1
        } else {
            n as usize
        },
        None => 1,
    };
    let ghost before = info@;
    if let Some(n) = raw.unsigned_at("elementSize") {
        if n != kind.size() as u64 {
            let shown = quoted(name.as_str());
            let n_text = decimal_of(n);
            let size_text = decimal_of(kind.size() as u64);
            let front = cat7(
                shown.as_str(),
                " declares an element size of ",
                n_text.as_str(),
                " but its type ",
                type_text.as_str(),
                " is ",
                size_text.as_str(),
            );
            info.warn(
                "element-size-mismatch",
                cat2(path.as_str(), ".elementSize"),
                cat2(front.as_str(), " bytes. The type wins."),
            );
        }
    }
    let ghost middle = info@.warnings;
    if kind.is_undecodable() {
        let shown = quoted(name.as_str());
        info.warn(
            "undecodable-attribute",
            cat2(path.as_str(), ".type"),
            cat4(
                shown.as_str(),
                " is ",
                type_text.as_str(),
                ", which cannot be decoded without loss. Its bytes are still counted in the record stride.",
            ),
        );
    }
    assert(info@.warnings =~= before.warnings + attribute_notices(raw.tree(), i as nat));
    let a = Attribute {
        name: name.clone(),
        description: match raw.text_at("description") {
            Some(d) => d.clone(),
            None => String::new(),
        },
        kind,
        num_elements,
        byte_offset: 0,
        min: numbers(raw.get("min"), num_elements, ZERO),
        max: numbers(raw.get("max"), num_elements, ZERO),
        scale: numbers(raw.get("scale"), num_elements, ONE),
        offset: numbers(raw.get("offset"), num_elements, ZERO),
        histogram: read_histogram(raw.get("histogram")),
    };
    assert(a@ =~= attribute_of(raw.tree(), i as nat)->Ok_0);
    Ok(a)
}

/// The tight extent that a list of attributes states: the domain of a position
/// of three elements.
pub open spec fn stated_extent(all: Seq<Column>) -> Option<Bounds> {
    let p = match column_named(all, "position"@) {
        Some(c) => Some(c),
        None => column_named(all, "POSITION_CARTESIAN"@),
    };
    match p {
        Some(c) => if c.num_elements == 3 && c.min.len() == 3 && c.max.len() == 3 {
            Some(
                Bounds {
                    min: [c.min[0], c.min[1], c.min[2]],
                    max: [c.max[0], c.max[1], c.max[2]],
                },
            )
        } else {
            None
        },
        None => None,
    }
}

/// What a reader says where no position states the tight extent.
pub open spec fn no_position_notice() -> Notice {
    Notice {
        code: "missing-position-attribute"@,
        path: "attributes"@,
        message:
            "No 3-element position attribute; falling back to the cubic boundingBox for the tight bounds."@,
    }
}

/// What a manifest says of the hierarchy, and of itself.
pub open spec fn metadata_of(json: Tree) -> Meta {
    let h = match json.at("hierarchy"@) {
        Some(h) => h,
        None => Tree::Null,
    };
    Meta {
        version: text_or_empty(json, "version"@),
        name: text_or_empty(json, "name"@),
        description: text_or_empty(json, "description"@),
        first_chunk_size: count_or_zero(h, "firstChunkSize"@),
        step_size: count_or_zero(h, "stepSize"@) as u32,
        depth: count_or_zero(h, "depth"@) as u32,
        encoding: match json.text_at("encoding"@) {
            Some(e) => e,
            None => "DEFAULT"@,
        },
    }
}

/// Three numbers of a field, or three times a filler.
pub open spec fn triple_or(json: Tree, key: Seq<char>, fill: u64) -> Seq<Real> {
    match triple(json.at(key)) {
        Some(v) => v@,
        None => seq![Real { bits: fill }, Real { bits: fill }, Real { bits: fill }],
    }
}

/// The summary of a manifest whose box and attributes are these.
pub open spec fn summary_of(
    json: Tree,
    label: Seq<char>,
    bounds: Bounds,
    list: Seq<Tree>,
    all: Seq<Column>,
) -> Summary {
    let meta = metadata_of(json);
    let placed = laid_out(all);
    Summary {
        format: FormatId::PotreeV2,
        label,
        point_count: count_or_zero(json, "points"@),
        bounds,
        tight_bounds: match stated_extent(placed) {
            Some(b) => b,
            None => bounds,
        },
        scale: triple_or(json, "scale"@, ONE),
        offset: triple_or(json, "offset"@, ZERO),
        attributes: placed,
        crs: match json.text_at("projection"@) {
            Some(t) => string_declares(t),
            None => None,
        },
        spacing: json.real_at("spacing"@),
        levels: Some(meta.depth),
        encoding: Some(meta.encoding),
        version: Some(meta.version),
        data_bytes: None,
        record_bytes: Some(record_size(all) as usize),
        warnings: match stated_extent(placed) {
            Some(_) => attributes_notices(list),
            None => attributes_notices(list).push(no_position_notice()),
        },
    }
}

/// What a manifest holds: the neutral summary, its own fields, and the stride of
/// a record where the encoding has one. Or the first thing it lacks.
pub open spec fn manifest_of(json: Tree, label: Seq<char>) -> Result<
    (Summary, Meta, Option<usize>),
    Failure,
> {
    let bounding = json.at("boundingBox"@);
    let (low, high) = match bounding {
        Some(b) => (triple(b.at("min"@)), triple(b.at("max"@))),
        None => (None, None),
    };
    if !json.is_object() {
        Err(
            Failure::Manifest {
                path: "metadata.json"@,
                detail: "the manifest is not a JSON object"@,
            },
        )
    } else if json.text_at("version"@) is None {
        Err(Failure::Manifest { path: "metadata.json.version"@, detail: "missing"@ })
    } else if !begins(json.text_at("version"@)->0, "2."@) {
        Err(
            Failure::NotFormat {
                format: "Potree v2"@,
                detail: "the manifest declares version "@ + quoted_text(
                    json.text_at("version"@)->0,
                )
                    + ". Version 1 clouds (`cloud.js`) are a different format; convert with `voxelkloud convert`."@,
            },
        )
    } else if bounding is None {
        Err(Failure::Manifest { path: "metadata.json.boundingBox"@, detail: "missing"@ })
    } else if low is None {
        Err(Failure::Manifest { path: "boundingBox.min"@, detail: "missing"@ })
    } else if high is None {
        Err(Failure::Manifest { path: "boundingBox.max"@, detail: "missing"@ })
    } else {
        match json.items_at("attributes"@) {
            None => Err(Failure::Manifest { path: "metadata.json.attributes"@, detail: "missing"@ }),
            Some(list) => match attributes_of(list) {
                Err(f) => Err(f),
                Ok(all) => Ok(
                    (
                        summary_of(
                            json,
                            label,
                            Bounds { min: low->0, max: high->0 },
                            list,
                            all,
                        ),
                        metadata_of(json),
                        if metadata_of(json).encoding == "BROTLI"@ {
                            None
                        } else {
                            Some(record_size(all) as usize)
                        },
                    ),
                ),
            },
        }
    }
}

fn text_or(raw: &Json, key: &str, fill: &str) -> (s: String)
    ensures
        s@ == match raw.tree().text_at(key@) {
            Some(t) => t,
            None => fill@,
        },
{
    match raw.text_at(key) {
        Some(t) => t.clone(),
        None => fill.to_owned(),
    }
}

fn count_or(raw: &Json, key: &str) -> (n: u64)
    ensures
        n == count_or_zero(raw.tree(), key@),
{
    match raw.unsigned_at(key) {
        Some(n) => n,
        None => 0,
    }
}

fn read_metadata(json: &Json) -> (m: PotreeMetadata)
    ensures
        m@ == metadata_of(json.tree()),
{
    proof {
        reveal_strlit("");
        assert(""@ =~= Seq::<char>::empty());
    }
    let (first_chunk_size, step, depth): (u64, u64, u64) = match json.get("hierarchy") {
        Some(h) => (count_or(h, "firstChunkSize"), count_or(h, "stepSize"), count_or(h, "depth")),
        None => (0, 0, 0),
    };
    let m = PotreeMetadata {
        version: text_or(json, "version", ""),
        name: text_or(json, "name", ""),
        description: text_or(json, "description", ""),
        first_chunk_size,
        step_size: step as u32,
        depth: depth as u32,
        encoding: text_or(json, "encoding", "DEFAULT"),
    };
    assert(m@ =~= metadata_of(json.tree()));
    m
}

fn read_triple(json: &Json, key: &str, fill: u64) -> (v: [Real; 3])
    ensures
        v@ == triple_or(json.tree(), key@, fill),
{
    match vec3(json.get(key)) {
        Some(v) => v,
        None => {
            let f = Real { bits: fill };
            let v = [f, f, f];
            assert(v@ =~= seq![f, f, f]);
            v
        },
    }
}

/// Reads a parsed manifest.
pub fn parse(json: &Json, label: &str) -> (r: Result<
    (CloudInfo, PotreeMetadata, Option<usize>),
    Error,
>)
    ensures
        match r {
            Ok((info, metadata, stride)) => manifest_of(json.tree(), label@) == Ok::<
                (Summary, Meta, Option<usize>),
                Failure,
            >((info@, metadata@, stride)),
            Err(e) => manifest_of(json.tree(), label@) == Err::<
                (Summary, Meta, Option<usize>),
                Failure,
            >(e@),
        },
{
    if json.as_object().is_none() {
        return Err(
            Error::manifest(
                "metadata.json".to_owned(),
                "the manifest is not a JSON object".to_owned(),
            ),
        );
    }
    let version = match json.text_at("version") {
        Some(v) => v,
        None => {
            return Err(Error::manifest("metadata.json.version".to_owned(), "missing".to_owned()));
        },
    };
    if !starts_with(version.as_str(), "2.") {
        let shown = quoted(version.as_str());
        return Err(
            Error::not_format(
                "Potree v2",
                cat3(
                    "the manifest declares version ",
                    shown.as_str(),
                    ". Version 1 clouds (`cloud.js`) are a different format; convert with `voxelkloud convert`.",
                ),
            ),
        );
    }
    let mut info = CloudInfo::new(FormatId::PotreeV2, label.to_owned());
    info.version = Some(version.clone());
    info.point_count = count_or(json, "points");
    info.encoding = Some(text_or(json, "encoding", "DEFAULT"));
    info.spacing = json.real_at("spacing");
    info.scale = read_triple(json, "scale", ONE);
    info.offset = read_triple(json, "offset", ZERO);
    info.crs = match json.text_at("projection") {
        Some(t) => Crs::from_string(t.as_str()),
        None => None,
    };
    let bounding = match json.get("boundingBox") {
        Some(b) => b,
        None => {
            return Err(
                Error::manifest("metadata.json.boundingBox".to_owned(), "missing".to_owned()),
            );
        },
    };
    let low = match vec3(bounding.get("min")) {
        Some(v) => v,
        None => {
            return Err(Error::manifest("boundingBox.min".to_owned(), "missing".to_owned()));
        },
    };
    let high = match vec3(bounding.get("max")) {
        Some(v) => v,
        None => {
            return Err(Error::manifest("boundingBox.max".to_owned(), "missing".to_owned()));
        },
    };
    let bounds = Bounds::new(low, high);
    info.bounds = bounds;
    let metadata = read_metadata(json);
    info.levels = Some(metadata.depth);
    let list = match json.array_at("attributes") {
        Some(a) => a,
        None => {
            return Err(
                Error::manifest("metadata.json.attributes".to_owned(), "missing".to_owned()),
            );
        },
    };
    let ghost all = trees(list@);
    let ghost start = info@;
    let mut out: Vec<Attribute> = Vec::new();
    assert(all.take(0) =~= Seq::<Tree>::empty());
    assert(columns(out@) =~= Seq::<Column>::empty());
    assert(info@ =~= (Summary { warnings: attributes_notices(all.take(0)), ..start }));
    let mut i: usize = 0;
    while i < list.len()
        invariant
            i <= list.len(),
            all == trees(list@),
            json.tree().items_at("attributes"@) == Some(all),
            attributes_of(all.take(i as int)) == Ok::<Seq<Column>, Failure>(columns(out@)),
            info@ == (Summary { warnings: attributes_notices(all.take(i as int)), ..start }),
            manifest_of(json.tree(), label@) is Ok ==> attributes_of(all) is Ok,
            attributes_of(all) is Err ==> manifest_of(json.tree(), label@) == Err::<
                (Summary, Meta, Option<usize>),
                Failure,
            >(attributes_of(all)->Err_0),
        decreases list.len() - i,
    {
        assert(all.take(i + 1).drop_last() =~= all.take(i as int));
        assert(all.take(i + 1).last() == list@[i as int].tree());
        match read_attribute(&list[i], i, &mut info) {
            Ok(a) => {
                proof {
                    columns_push(out@, a);
                }
                out.push(a);
            },
            Err(e) => {
                proof {
                    lemma_bad_attribute(all, i + 1);
                }
                return Err(e);
            },
        }
        i = i + 1;
    }
    assert(all.take(i as int) =~= all);
    let ghost cols = columns(out@);
    let stride = lay_out(&mut out);
    info.attributes = out;
    info.record_bytes = Some(stride);
    let placed: Option<Bounds> = {
        let p = match info.attribute("position") {
            Some(a) => Some(a),
            None => info.attribute("POSITION_CARTESIAN"),
        };
        match p {
            Some(a) => if a.num_elements == 3 && a.min.len() == 3 && a.max.len() == 3 {
                Some(
                    Bounds::new([a.min[0], a.min[1], a.min[2]], [a.max[0], a.max[1], a.max[2]]),
                )
            } else {
                None
            },
            None => None,
        }
    };
    match placed {
        Some(b) => {
            info.tight_bounds = b;
        },
        None => {
            info.warn(
                "missing-position-attribute",
                "attributes".to_owned(),
                "No 3-element position attribute; falling back to the cubic boundingBox for the tight bounds.".to_owned(),
            );
            info.tight_bounds = bounds;
        },
    }
    let bytes_per_point = if same(metadata.encoding.as_str(), "BROTLI") {
        None
    } else {
        Some(stride)
    };
    assert(info@ =~= summary_of(json.tree(), label@, bounds, all, cols));
    Ok((info, metadata, bytes_per_point))
}

/// What the bytes of a manifest hold.
pub open spec fn manifest_in(bytes: Seq<u8>, manifest: Seq<char>, label: Seq<char>) -> Result<
    (Summary, Meta, Option<usize>),
    Failure,
> {
    match json_read(bytes) {
        Err(why) => Err(Failure::Manifest { path: manifest, detail: "not JSON: "@ + why }),
        Ok(json) => manifest_of(json, label),
    }
}

/// A Potree v2 cloud, its manifest read and its hierarchy at hand.
#[derive(Debug)]
pub struct PotreeCloud {
    pub info: CloudInfo,
    pub metadata: PotreeMetadata,
    /// Bytes per point, when the encoding is record-oriented. `None` for
    /// BROTLI, whose blocks have no fixed stride.
    pub bytes_per_point: Option<usize>,
    /// `hierarchy.bin`, whole; empty where there is none.
    pub hierarchy: Vec<u8>,
}

/// Opens a cloud from the bytes of its manifest and of its hierarchy.
pub fn open_manifest(bytes: &[u8], manifest: &str, hierarchy: Vec<u8>, label: &str) -> (r: Result<
    PotreeCloud,
    Error,
>)
    ensures
        match r {
            Ok(c) => manifest_in(bytes@, manifest@, label@) == Ok::<
                (Summary, Meta, Option<usize>),
                Failure,
            >((c.info@, c.metadata@, c.bytes_per_point)) && c.hierarchy == hierarchy,
            Err(e) => manifest_in(bytes@, manifest@, label@) == Err::<
                (Summary, Meta, Option<usize>),
                Failure,
            >(e@),
        },
{
    let json = match Json::read(bytes) {
        Ok(j) => j,
        Err(why) => {
            return Err(Error::manifest(manifest.to_owned(), cat2("not JSON: ", why.as_str())));
        },
    };
    match parse(&json, label) {
        Ok((info, metadata, bytes_per_point)) => Ok(
            PotreeCloud { info, metadata, bytes_per_point, hierarchy },
        ),
        Err(e) => Err(e),
    }
}

/// One record of `hierarchy.bin`.
pub struct Entry {
    pub kind: u8,
    pub mask: u8,
    pub points: u32,
    pub offset: u64,
    pub size: u64,
}

/// The record that starts at a byte.
pub open spec fn entry_at(h: Seq<u8>, at: int) -> Entry {
    Entry {
        kind: h[at],
        mask: h[at + 1],
        points: le32(h, at + 2) as u32,
        offset: le64(h, at + 6) as u64,
        size: le64(h, at + 14) as u64,
    }
}

/// Whether a mask names a child.
pub open spec fn names_child(mask: u8, c: int) -> bool {
    (mask >> (c as u8)) & 1u8 == 1u8
}

/// The children of a node that a mask names, those below `n`, in ascending
/// order.
pub open spec fn named_children(key: OctreeKey, mask: u8, n: int) -> Seq<OctreeKey>
    decreases n,
{
    if n <= 0 {
        Seq::empty()
    } else if names_child(mask, n - 1) {
        named_children(key, mask, n - 1).push(key.spec_child((n - 1) as u8))
    } else {
        named_children(key, mask, n - 1)
    }
}

/// What the first records of a chunk say.
#[verifier::ext_equal]
pub struct Chunk {
    /// The nodes that records stand for, in level order: those read so far and
    /// the children they name.
    pub keys: Seq<OctreeKey>,
    /// The nodes that were read.
    pub nodes: Seq<PotreeNodeRef>,
    /// The chunks that were named: their node, their offset and their size.
    pub further: Seq<(OctreeKey, u64, u64)>,
}

/// What the first `n` records of a chunk say, or nothing where the level-order
/// walk runs out of parents before.
pub open spec fn chunk_of(h: Seq<u8>, start: int, seed: OctreeKey, n: int) -> Option<Chunk>
    decreases n,
{
    if n <= 0 {
        Some(Chunk { keys: seq![seed], nodes: Seq::empty(), further: Seq::empty() })
    } else {
        match chunk_of(h, start, seed, n - 1) {
            None => None,
            Some(c) => if c.keys.len() < n {
                None
            } else {
                let key = c.keys[n - 1];
                let e = entry_at(h, start + (n - 1) * 22);
                if n > 1 && e.kind == TYPE_PROXY {
                    Some(Chunk { further: c.further.push((key, e.offset, e.size)), ..c })
                } else {
                    Some(
                        Chunk {
                            keys: c.keys + named_children(key, e.mask, 8),
                            nodes: c.nodes.push(
                                PotreeNodeRef {
                                    key,
                                    point_count: e.points,
                                    byte_offset: e.offset,
                                    byte_size: e.size,
                                },
                            ),
                            further: c.further,
                        },
                    )
                }
            },
        }
    }
}

/// The first record of a chunk that has no parent left to belong to.
pub open spec fn runs_out_at(h: Seq<u8>, start: int, seed: OctreeKey, n: int) -> int
    decreases n,
{
    if n <= 0 {
        0
    } else if chunk_of(h, start, seed, n - 1) is None {
        runs_out_at(h, start, seed, n - 1)
    } else {
        n - 1
    }
}

/// A number of bytes that an address can hold.
pub open spec fn clamped(n: u64) -> int {
    if n > usize::MAX {
        usize::MAX as int
    } else {
        n as int
    }
}

/// Where a chunk ends.
pub open spec fn chunk_end(offset: u64, size: u64) -> int {
    if clamped(offset) + clamped(size) > usize::MAX {
        usize::MAX as int
    } else {
        clamped(offset) + clamped(size)
    }
}

/// What the chunk at a place says, or what is wrong with it.
pub open spec fn chunk_at(h: Seq<u8>, seed: OctreeKey, offset: u64, size: u64) -> Result<
    Chunk,
    Failure,
> {
    let (start, end, n) = (clamped(offset), chunk_end(offset, size), clamped(size) / 22);
    if size == 0 || clamped(size) % 22 != 0 || offset + size > h.len() {
        Err(
            Failure::NotFormat {
                format: "a Potree v2 hierarchy"@,
                detail: "the chunk for "@ + seed.spec_potree_name() + " is ["@ + decimal(
                    start as nat,
                ) + ", "@ + decimal(end as nat) + ") of a "@ + decimal(h.len())
                    + "-byte hierarchy.bin, and "@ + decimal(clamped(size) as nat)
                    + " is not a positive multiple of 22"@,
            },
        )
    } else {
        match chunk_of(h, start, seed, n) {
            Some(c) => Ok(c),
            None => {
                let i = runs_out_at(h, start, seed, n);
                Err(
                    Failure::NotFormat {
                        format: "a Potree v2 hierarchy"@,
                        detail: seed.spec_potree_name() + "#"@ + decimal(i as nat)
                            + ": the chunk declares "@ + decimal(n as nat)
                            + " records but the level-order walk ran out of parents after "@
                            + decimal(i as nat),
                    },
                )
            },
        }
    }
}

/// What a walk found.
#[verifier::ext_equal]
pub struct Found {
    /// Every node, in the order met.
    pub nodes: Seq<PotreeNodeRef>,
    /// The chunks that were reached a second time.
    pub cycles: Seq<Notice>,
}

/// What is said of a chunk that is reached a second time.
pub open spec fn cycle_notice(seed: OctreeKey, offset: u64) -> Notice {
    Notice {
        code: "hierarchy-cycle"@,
        path: seed.spec_potree_name(),
        message: "The chunk at byte "@ + decimal(offset as nat)
            + " is reached twice; the walk stops there."@,
    }
}

/// Whether some offsets are distinct and all within the file.
pub open spec fn distinct_within(visited: Seq<u64>, len: nat) -> bool {
    &&& visited.no_duplicates()
    &&& forall|i: int| 0 <= i < visited.len() ==> #[trigger] visited[i] < len
}

/// There are no more distinct offsets within a file than it has bytes.
pub proof fn lemma_few_offsets(visited: Seq<u64>, len: nat)
    requires
        distinct_within(visited, len),
    ensures
        visited.len() <= len,
{
    let s = visited.to_set();
    visited.unique_seq_to_set();
    let all = vstd::set_lib::set_int_range(0, len as int);
    vstd::set_lib::lemma_int_range(0, len as int);
    let ints = s.map(|o: u64| o as int);
    assert(ints.subset_of(all)) by {
        assert forall|x: int| ints.contains(x) implies all.contains(x) by {
            let o = choose|o: u64| s.contains(o) && x == o as int;
            let i = choose|i: int| 0 <= i < visited.len() && visited[i] == o;
            assert(visited[i] < len);
        }
    }
    vstd::set_lib::lemma_map_size(s, ints, |o: u64| o as int);
    vstd::set_lib::lemma_len_subset(ints, all);
}

/// What a walk of the chunks still to read finds, the last one first: their
/// nodes and those of the chunks they name, each chunk read once. Or what is
/// wrong with the first bad one.
pub open spec fn walk(
    h: Seq<u8>,
    queue: Seq<(OctreeKey, u64, u64)>,
    visited: Seq<u64>,
) -> Result<Found, Failure>
    decreases h.len() - visited.len(), queue.len(),
    when distinct_within(visited, h.len())
{
    if queue.len() == 0 {
        Ok(Found { nodes: Seq::empty(), cycles: Seq::empty() })
    } else {
        let (seed, offset, size) = queue.last();
        let rest = queue.drop_last();
        if visited.contains(offset) {
            match walk(h, rest, visited) {
                Err(f) => Err(f),
                Ok(found) => Ok(
                    Found {
                        nodes: found.nodes,
                        cycles: seq![cycle_notice(seed, offset)] + found.cycles,
                    },
                ),
            }
        } else {
            match chunk_at(h, seed, offset, size) {
                Err(f) => Err(f),
                Ok(c) => {
                    proof {
                        lemma_visit(h, seed, offset, size, visited);
                    }
                    match walk(h, rest + c.further, visited.push(offset)) {
                        Err(f) => Err(f),
                        Ok(found) => Ok(
                            Found { nodes: c.nodes + found.nodes, cycles: found.cycles },
                        ),
                    }
                },
            }
        }
    }
}

/// A chunk that can be read lies within the file, so reading it leaves fewer
/// offsets to visit.
pub proof fn lemma_visit(h: Seq<u8>, seed: OctreeKey, offset: u64, size: u64, visited: Seq<u64>)
    requires
        distinct_within(visited, h.len()),
        !visited.contains(offset),
        chunk_at(h, seed, offset, size) is Ok,
    ensures
        distinct_within(visited.push(offset), h.len()),
        visited.len() < h.len(),
{
    let more = visited.push(offset);
    assert forall|i: int| 0 <= i < more.len() implies #[trigger] more[i] < h.len() by {
        if i < visited.len() {
            assert(visited[i] < h.len());
        }
    }
    assert(more.no_duplicates()) by {
        assert forall|i: int, j: int|
            0 <= i < more.len() && 0 <= j < more.len() && i != j implies more[i] != more[j] by {
            if i < visited.len() && j < visited.len() {
                assert(visited[i] != visited[j]);
            }
        }
    }
    lemma_few_offsets(more, h.len());
}

/// A node of the index, as the neutral statistics count it.
pub open spec fn counted(n: PotreeNodeRef) -> NodeInfo {
    NodeInfo { key: n.key, point_count: n.point_count as u64, byte_size: n.byte_size }
}

/// Some nodes of the index, as the neutral statistics count them.
pub open spec fn counted_all(nodes: Seq<PotreeNodeRef>) -> Seq<NodeInfo> {
    nodes.map_values(|n: PotreeNodeRef| counted(n))
}

/// What a walk of a whole hierarchy finds, given the size of its first chunk.
pub open spec fn whole_walk(h: Seq<u8>, first_chunk_size: u64) -> Result<Found, Failure> {
    walk(h, seq![(OctreeKey::root(), 0u64, first_chunk_size)], Seq::empty())
}

fn clamp_size(n: u64) -> (r: usize)
    ensures
        r == clamped(n),
{
    if n > usize::MAX as u64 {
        usize::MAX
    } else {
        n as usize
    }
}

/// What one pass over a chunk leaves behind.
struct Pass {
    nodes: Vec<PotreeNodeRef>,
    further: Vec<(OctreeKey, u64, u64)>,
}

fn walk_chunk(h: &Vec<u8>, seed: OctreeKey, offset: u64, size: u64) -> (r: Result<Pass, Error>)
    ensures
        match r {
            Ok(p) => chunk_at(h@, seed, offset, size) matches Ok(c) && c.nodes == p.nodes@
                && c.further == p.further@,
            Err(e) => chunk_at(h@, seed, offset, size) matches Err(f) && f == e@,
        },
{
    let start: usize = clamp_size(offset);
    let size_n: usize = clamp_size(size);
    let end: usize = start.saturating_add(size_n);
    assert(end == chunk_end(offset, size));
    let fits = size_n <= h.len() && start <= h.len() - size_n;
    assert(h@.len() == h.len());
    if size == 0 || size_n % 22 != 0 || !fits {
        let name = seed.potree_name();
        let s = decimal_of(start as u64);
        let e = decimal_of(end as u64);
        let l = decimal_of(h.len() as u64);
        let z = decimal_of(size_n as u64);
        let mut detail = cat5("the chunk for ", name.as_str(), " is [", s.as_str(), ", ");
        detail.append(e.as_str());
        detail.append(") of a ");
        detail.append(l.as_str());
        detail.append("-byte hierarchy.bin, and ");
        detail.append(z.as_str());
        detail.append(" is not a positive multiple of 22");
        return Err(Error::not_format("a Potree v2 hierarchy", detail));
    }
    let n: usize = size_n / 22;
    let mut keys: Vec<OctreeKey> = Vec::new();
    keys.push(seed);
    let mut nodes: Vec<PotreeNodeRef> = Vec::new();
    let mut further: Vec<(OctreeKey, u64, u64)> = Vec::new();
    let mut i: usize = 0;
    assert(keys@ =~= seq![seed]);
    assert(nodes@ =~= Seq::<PotreeNodeRef>::empty());
    assert(further@ =~= Seq::<(OctreeKey, u64, u64)>::empty());
    assert(h@.len() == h.len());
    while i < n
        invariant
            i <= n,
            start == clamped(offset),
            size_n == clamped(size),
            size > 0,
            size_n % 22 == 0,
            offset + size <= h@.len(),
            h@.len() <= usize::MAX,
            n == size_n / 22,
            start + 22 * n <= h@.len(),
            chunk_of(h@, start as int, seed, i as int) == Some(
                Chunk { keys: keys@, nodes: nodes@, further: further@ },
            ),
            keys@.len() >= i,
        decreases n - i,
    {
        if i >= keys.len() {
            proof {
                assert(chunk_of(h@, start as int, seed, i + 1) is None);
                lemma_ran_out(h@, start as int, seed, i + 1, n as int);
            }
            let name = seed.potree_name();
            let it = decimal_of(i as u64);
            let nt = decimal_of(n as u64);
            let kt = decimal_of(keys.len() as u64);
            let detail = cat7(
                name.as_str(),
                "#",
                it.as_str(),
                ": the chunk declares ",
                nt.as_str(),
                " records but the level-order walk ran out of parents after ",
                kt.as_str(),
            );
            return Err(Error::not_format("a Potree v2 hierarchy", detail));
        }
        let key = keys[i];
        assert(22 * (i + 1) <= 22 * n);
        let at: usize = start + i * 22;
        let kind = h[at];
        let mask = h[at + 1];
        let points = u32_at(h.as_slice(), at + 2);
        let byte_offset = u64_at(h.as_slice(), at + 6);
        let byte_size = u64_at(h.as_slice(), at + 14);
        if i > 0 && kind == TYPE_PROXY {
            further.push((key, byte_offset, byte_size));
            i = i + 1;
            continue ;
        }
        nodes.push(PotreeNodeRef { key, point_count: points, byte_offset, byte_size });
        let ghost before = keys@;
        let mut c: u8 = 0;
        assert(keys@ =~= before + named_children(key, mask, 0));
        while c < 8
            invariant
                c <= 8,
                keys@ == before + named_children(key, mask, c as int),
            decreases 8 - c,
        {
            if (mask >> c) & 1 == 1 {
                keys.push(key.child(c));
            }
            assert(keys@ =~= before + named_children(key, mask, c + 1));
            c = c + 1;
        }
        i = i + 1;
    }
    Ok(Pass { nodes, further })
}

proof fn lemma_ran_out(h: Seq<u8>, start: int, seed: OctreeKey, first: int, n: int)
    requires
        1 <= first <= n,
        chunk_of(h, start, seed, first - 1) is Some,
        chunk_of(h, start, seed, first) is None,
    ensures
        chunk_of(h, start, seed, n) is None,
        runs_out_at(h, start, seed, n) == first - 1,
    decreases n - first,
{
    if first < n {
        lemma_ran_out(h, start, seed, first, n - 1);
    }
}

fn seen(visited: &Vec<u64>, offset: u64) -> (r: bool)
    ensures
        r == visited@.contains(offset),
{
    let mut i: usize = 0;
    while i < visited.len()
        invariant
            i <= visited.len(),
            forall|k: int| 0 <= k < i ==> visited@[k] != offset,
        decreases visited.len() - i,
    {
        if visited[i] == offset {
            return true;
        }
        i = i + 1;
    }
    false
}

impl PotreeCloud {
    /// Visits every node, with where its payload lives, in the order met.
    ///
    /// Chunks are written in level order with children in ascending child
    /// index, so a chunk is a breadth-first queue: record `i` describes slot
    /// `i`, and the children a record's mask names are appended at the tail.
    fn visit(&self) -> (r: Result<(Vec<PotreeNodeRef>, Vec<Warning>), Error>)
        ensures
            match r {
                Ok((nodes, cycles)) => whole_walk(self.hierarchy@, self.metadata.first_chunk_size)
                    == Ok::<Found, Failure>(Found { nodes: nodes@, cycles: notices(cycles@) }),
                Err(e) => whole_walk(self.hierarchy@, self.metadata.first_chunk_size) == Err::<
                    Found,
                    Failure,
                >(e@),
            },
    {
        let ghost h = self.hierarchy@;
        let ghost want = whole_walk(h, self.metadata.first_chunk_size);
        let mut nodes: Vec<PotreeNodeRef> = Vec::new();
        let mut cycles: Vec<Warning> = Vec::new();
        let mut visited: Vec<u64> = Vec::new();
        let mut queue: Vec<(OctreeKey, u64, u64)> = Vec::new();
        queue.push((OctreeKey::root(), 0, self.metadata.first_chunk_size));
        assert(queue@ =~= seq![(OctreeKey::root(), 0u64, self.metadata.first_chunk_size)]);
        assert(visited@ =~= Seq::<u64>::empty());
        assert(notices(cycles@) =~= Seq::<Notice>::empty());
        proof {
            let all = walk(h, queue@, visited@);
            if all is Ok {
                assert(nodes@ + all->Ok_0.nodes =~= all->Ok_0.nodes);
                assert(notices(cycles@) + all->Ok_0.cycles =~= all->Ok_0.cycles);
            }
        }
        while queue.len() > 0
            invariant
                h == self.hierarchy@,
                want == whole_walk(h, self.metadata.first_chunk_size),
                distinct_within(visited@, h.len()),
                match walk(h, queue@, visited@) {
                    Err(f) => want == Err::<Found, Failure>(f),
                    Ok(found) => want == Ok::<Found, Failure>(
                        Found {
                            nodes: nodes@ + found.nodes,
                            cycles: notices(cycles@) + found.cycles,
                        },
                    ),
                },
            decreases h.len() - visited@.len(), queue@.len(),
        {
            let ghost q = queue@;
            let ghost rest = walk(h, queue@, visited@);
            let (seed, offset, size) = match queue.pop() {
                Some(c) => c,
                None => {
                    return Ok((nodes, cycles));
                },
            };
            assert(queue@ =~= q.drop_last());
            if seen(&visited, offset) {
                let o = decimal_of(offset);
                let w = Warning::new(
                    "hierarchy-cycle",
                    seed.potree_name(),
                    cat3(
                        "The chunk at byte ",
                        o.as_str(),
                        " is reached twice; the walk stops there.",
                    ),
                );
                proof {
                    crate::warning::notices_push(cycles@, w);
                    let next = walk(h, queue@, visited@);
                    if next is Ok {
                        assert(notices(cycles@).push(w@) + next->Ok_0.cycles =~= notices(cycles@)
                            + (seq![w@] + next->Ok_0.cycles));
                    }
                }
                cycles.push(w);
                continue ;
            }
            let pass = match walk_chunk(&self.hierarchy, seed, offset, size) {
                Ok(p) => p,
                Err(e) => {
                    return Err(e);
                },
            };
            proof {
                lemma_visit(h, seed, offset, size, visited@);
                lemma_few_offsets(visited@.push(offset), h.len());
                let next = walk(h, queue@ + pass.further@, visited@.push(offset));
                if next is Ok {
                    assert(nodes@ + (pass.nodes@ + next->Ok_0.nodes) =~= (nodes@ + pass.nodes@)
                        + next->Ok_0.nodes);
                }
            }
            visited.push(offset);
            let mut more = pass.nodes;
            nodes.append(&mut more);
            let mut further = pass.further;
            queue.append(&mut further);
        }
        proof {
            assert(nodes@ + Seq::<PotreeNodeRef>::empty() =~= nodes@);
            assert(notices(cycles@) + Seq::<Notice>::empty() =~= notices(cycles@));
        }
        Ok((nodes, cycles))
    }

    /// Whether a walk over `hierarchy.bin` comes out so.
    pub open spec fn walks_to(self, r: Result<HierarchyStats, Error>) -> bool {
        match r {
            Ok(s) => s.wf() && s.hierarchy_bytes == self.hierarchy@.len() && (if self.hierarchy@.len()
                == 0 {
                s.tally() == Tally::none() && s.hierarchy_requests == 0 && notices(s.warnings@)
                    == seq![
                    Notice {
                        code: "hierarchy-missing"@,
                        path: "hierarchy.bin"@,
                        message:
                            "The cloud has no hierarchy.bin, so only the manifest could be read."@,
                    },
                ]
            } else {
                whole_walk(self.hierarchy@, self.metadata.first_chunk_size) matches Ok(found)
                    && s.tally() == Tally::none().with_all(counted_all(found.nodes))
                    && s.hierarchy_requests == 1 && notices(s.warnings@) == found.cycles
            }),
            Err(e) => self.hierarchy@.len() > 0 && whole_walk(
                self.hierarchy@,
                self.metadata.first_chunk_size,
            ) == Err::<Found, Failure>(e@),
        }
    }

    /// Walks `hierarchy.bin`.
    pub fn hierarchy(&self) -> (r: Result<HierarchyStats, Error>)
        ensures
            self.walks_to(r),
    {
        let mut stats = HierarchyStats::new();
        stats.hierarchy_bytes = self.hierarchy.len() as u64;
        assert(notices(stats.warnings@) =~= Seq::<Notice>::empty());
        if self.hierarchy.len() == 0 {
            stats.warn(
                "hierarchy-missing",
                "hierarchy.bin".to_owned(),
                "The cloud has no hierarchy.bin, so only the manifest could be read.".to_owned(),
            );
            assert(notices(stats.warnings@) =~= seq![notices(stats.warnings@)[0]]);
            return Ok(stats);
        }
        stats.hierarchy_requests = 1;
        let (nodes, cycles) = match self.visit() {
            Ok(v) => v,
            Err(e) => {
                return Err(e);
            },
        };
        let ghost all = counted_all(nodes@);
        assert(all.take(0) =~= Seq::<NodeInfo>::empty());
        let mut i: usize = 0;
        while i < nodes.len()
            invariant
                i <= nodes.len(),
                all == counted_all(nodes@),
                stats.wf(),
                stats.hierarchy_bytes == self.hierarchy@.len(),
                stats.hierarchy_requests == 1,
                stats.tally() == Tally::none().with_all(all.take(i as int)),
            decreases nodes.len() - i,
        {
            assert(all.take(i + 1).drop_last() =~= all.take(i as int));
            assert(all.take(i + 1).last() == counted(nodes@[i as int]));
            stats.add(
                NodeInfo {
                    key: nodes[i].key,
                    point_count: nodes[i].point_count as u64,
                    byte_size: nodes[i].byte_size,
                },
            );
            i = i + 1;
        }
        assert(all.take(i as int) =~= all);
        stats.warnings = cycles;
        Ok(stats)
    }

    /// Every node, with where its payload lives: the same walk, with the two
    /// fields that the statistics throw away.
    pub fn for_each_node(&self) -> (r: Result<Vec<PotreeNodeRef>, Error>)
        ensures
            match r {
                Ok(nodes) => if self.hierarchy@.len() == 0 {
                    nodes@.len() == 0
                } else {
                    whole_walk(self.hierarchy@, self.metadata.first_chunk_size) matches Ok(found)
                        && nodes@ == found.nodes
                },
                Err(e) => self.hierarchy@.len() > 0 && whole_walk(
                    self.hierarchy@,
                    self.metadata.first_chunk_size,
                ) == Err::<Found, Failure>(e@),
            },
    {
        if self.hierarchy.len() == 0 {
            return Ok(Vec::new());
        }
        match self.visit() {
            Ok((nodes, _)) => Ok(nodes),
            Err(e) => Err(e),
        }
    }
}

} // verus!
