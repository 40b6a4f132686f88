//! Entwine Point Tile: `ept.json`, JSON hierarchy pages, one file per node.
//!
//! Its hierarchy pages reference each other by name: a node whose point count is
//! minus one is a reference to the page named after it. The bytes are read
//! elsewhere and handed in.

use crate::attribute::{
    columns, columns_push, laid_out, lay_out, record_size, Attribute, AttributeType, Column,
};
use crate::bounds::Bounds;
use crate::cloud::{
    declared, spelled, wrap64, CloudInfo, FormatId, HierarchyStats, NodeInfo, Summary, Tally,
};
use crate::crs::{epsg_declares, string_declares, Crs, Declared};
use crate::double::{Real, ONE, ZERO};
use crate::error::{Error, Failure};
use crate::json::{json_read, tree_fields, trees, Json, Tree};
use crate::octree::OctreeKey;
use crate::text::{
    cat2, cat3, cat4, cat5, chars_of, decimal, decimal_of, decimal_parses,
    decimal_reads_back, find_from, first_of, first_of_unique, is_digit, lowered, parse_chars,
    parse_unsigned, quoted, quoted_text, same, same_ignoring_case, texts, unsigned,
};
use crate::warning::{notices, Notice};
use vstd::prelude::*;
use vstd::string::*;

verus! {

/// A page entry whose point count is this is a pointer at another page.
pub const PAGE_REFERENCE: i64 = -1;

/// The type that a schema spells as a kind and a size.
pub open spec fn type_of(kind: Seq<char>, size: u64) -> Option<AttributeType> {
    if kind == "signed"@ {
        if size == 1 {
            Some(AttributeType::Int8)
        } else if size == 2 {
            Some(AttributeType::Int16)
        } else if size == 4 {
            Some(AttributeType::Int32)
        } else if size == 8 {
            Some(AttributeType::Int64)
        } else {
            None
        }
    } else if kind == "unsigned"@ {
        if size == 1 {
            Some(AttributeType::Uint8)
        } else if size == 2 {
            Some(AttributeType::Uint16)
        } else if size == 4 {
            Some(AttributeType::Uint32)
        } else if size == 8 {
            Some(AttributeType::Uint64)
        } else {
            None
        }
    } else if kind == "float"@ {
        if size == 4 {
            Some(AttributeType::Float)
        } else if size == 8 {
            Some(AttributeType::Double)
        } else {
            None
        }
    } else {
        None
    }
}

/// The type that a schema spells as a kind and a size.
pub fn ept_type(kind: &str, size: u64) -> (r: Option<AttributeType>)
    ensures
        r == type_of(kind@, size),
{
    if same(kind, "signed") {
        match size {
            1 => Some(AttributeType::Int8),
            2 => Some(AttributeType::Int16),
            4 => Some(AttributeType::Int32),
            8 => Some(AttributeType::Int64),
            _ => None,
        }
    } else if same(kind, "unsigned") {
        match size {
            1 => Some(AttributeType::Uint8),
            2 => Some(AttributeType::Uint16),
            4 => Some(AttributeType::Uint32),
            8 => Some(AttributeType::Uint64),
            _ => None,
        }
    } else if same(kind, "float") {
        match size {
            4 => Some(AttributeType::Float),
            8 => Some(AttributeType::Double),
            _ => None,
        }
    } else {
        None
    }
}

/// The neutral name of a dimension.
pub open spec fn attribute_name(name: Seq<char>) -> Seq<char> {
    if name == "Intensity"@ {
        "intensity"@
    } else if name == "ReturnNumber"@ {
        "return number"@
    } else if name == "NumberOfReturns"@ {
        "number of returns"@
    } else if name == "ScanDirectionFlag"@ {
        "scan direction flag"@
    } else if name == "EdgeOfFlightLine"@ {
        "edge of flight line"@
    } else if name == "Classification"@ {
        "classification"@
    } else if name == "ScanAngleRank"@ {
        "scan angle rank"@
    } else if name == "UserData"@ {
        "user data"@
    } else if name == "PointSourceId"@ {
        "point source id"@
    } else if name == "GpsTime"@ {
        "gps-time"@
    } else if name == "Red"@ {
        "red"@
    } else if name == "Green"@ {
        "green"@
    } else if name == "Blue"@ {
        "blue"@
    } else {
        name
    }
}

/// The neutral name of a dimension, which is what lets one colour mode work on a
/// cloud from either converter.
pub fn ept_attribute_name(name: &str) -> (out: String)
    ensures
        out@ == attribute_name(name@),
{
    let neutral: &str = if same(name, "Intensity") {
        "intensity"
    } else if same(name, "ReturnNumber") {
        "return number"
    } else if same(name, "NumberOfReturns") {
        "number of returns"
    } else if same(name, "ScanDirectionFlag") {
        "scan direction flag"
    } else if same(name, "EdgeOfFlightLine") {
        "edge of flight line"
    } else if same(name, "Classification") {
        "classification"
    } else if same(name, "ScanAngleRank") {
        "scan angle rank"
    } else if same(name, "UserData") {
        "user data"
    } else if same(name, "PointSourceId") {
        "point source id"
    } else if same(name, "GpsTime") {
        "gps-time"
    } else if same(name, "Red") {
        "red"
    } else if same(name, "Green") {
        "green"
    } else if same(name, "Blue") {
        "blue"
    } else {
        name
    };
    neutral.to_owned()
}

/// A field of a name, up to its first dash.
pub open spec fn front_part(s: Seq<char>) -> Seq<char> {
    s.take(first_of(s, '-'))
}

/// What is behind the first dash of a name, if it has one.
pub open spec fn back_part(s: Seq<char>) -> Option<Seq<char>> {
    if first_of(s, '-') < s.len() {
        Some(s.skip(first_of(s, '-') + 1))
    } else {
        None
    }
}

/// The node that a name of the form `level-x-y-z` stands for.
pub open spec fn key_of(name: Seq<char>) -> Option<OctreeKey> {
    match back_part(name) {
        None => None,
        Some(second) => match back_part(second) {
            None => None,
            Some(third) => match back_part(third) {
                None => None,
                Some(fourth) => {
                    let level = unsigned(front_part(name), u32::MAX as nat);
                    let x = unsigned(front_part(second), u32::MAX as nat);
                    let y = unsigned(front_part(third), u32::MAX as nat);
                    let z = unsigned(fourth, u32::MAX as nat);
                    if level is Some && x is Some && y is Some && z is Some {
                        Some(
                            OctreeKey {
                                level: level->0 as u32,
                                x: x->0 as u32,
                                y: y->0 as u32,
                                z: z->0 as u32,
                            },
                        )
                    } else {
                        None
                    }
                },
            },
        },
    }
}

/// The node that a name of the form `level-x-y-z` stands for.
#[verifier::spinoff_prover]
#[verifier::rlimit(30)]
pub fn parse_ept_key(name: &str) -> (r: Option<OctreeKey>)
    ensures
        r == key_of(name@),
{
    let cs = chars_of(name);
    let n: usize = cs.len();
    let a: usize = find_from(&cs, '-', 0);
    assert(cs@.skip(0) =~= cs@);
    if a == n {
        return None;
    }
    let ghost second = cs@.skip(a + 1);
    let b: usize = find_from(&cs, '-', a + 1);
    if b == n {
        return None;
    }
    let ghost third = cs@.skip(b + 1);
    assert(second.skip(b - a) =~= third);
    let c: usize = find_from(&cs, '-', b + 1);
    if c == n {
        return None;
    }
    let ghost fourth = cs@.skip(c + 1);
    assert(third.skip(c - b) =~= fourth);
    assert(cs@.subrange(0, a as int) =~= front_part(cs@));
    assert(cs@.subrange(a + 1, b as int) =~= front_part(second));
    assert(cs@.subrange(b + 1, c as int) =~= front_part(third));
    assert(cs@.subrange(c + 1, n as int) =~= fourth);
    let level = parse_chars(&cs, 0, a, 0xffff_ffff);
    let x = parse_chars(&cs, a + 1, b, 0xffff_ffff);
    let y = parse_chars(&cs, b + 1, c, 0xffff_ffff);
    let z = parse_chars(&cs, c + 1, n, 0xffff_ffff);
    match (level, x, y, z) {
        (Some(level), Some(x), Some(y), Some(z)) => Some(
            OctreeKey::new(level as u32, x as u32, y as u32, z as u32),
        ),
        _ => None,
    }
}

proof fn lemma_part(n: nat, rest: Seq<char>)
    ensures
        ({
            let s = decimal(n) + "-"@ + rest;
            &&& front_part(s) == decimal(n)
            &&& back_part(s) == Some(rest)
        }),
{
    reveal_strlit("-");
    decimal_reads_back(n);
    let d = decimal(n);
    let s = d + "-"@ + rest;
    assert(s[d.len() as int] == '-');
    assert forall|j: int| 0 <= j < d.len() implies #[trigger] s[j] != '-' by {
        assert(s[j] == d[j]);
        assert(is_digit(d[j]));
    }
    first_of_unique(s, '-', d.len() as int);
    assert(s.take(d.len() as int) =~= d);
    assert(s.skip(d.len() as int + 1) =~= rest);
}

/// The name of a node reads back as the node.
pub proof fn names_read_back(k: OctreeKey)
    ensures
        key_of(k.spec_ept_name()) == Some(k),
{
    let (l, x, y, z) = (
        decimal(k.level as nat),
        decimal(k.x as nat),
        decimal(k.y as nat),
        decimal(k.z as nat),
    );
    let dash = "-"@;
    let third = y + dash + z;
    let second = x + dash + third;
    let whole = l + dash + second;
    assert(k.spec_ept_name() =~= whole);
    lemma_part(k.level as nat, second);
    lemma_part(k.x as nat, third);
    lemma_part(k.y as nat, z);
    decimal_parses(k.level as nat, u32::MAX as nat);
    decimal_parses(k.x as nat, u32::MAX as nat);
    decimal_parses(k.y as nat, u32::MAX as nat);
    decimal_parses(k.z as nat, u32::MAX as nat);
}

/// A number of a list, or zero.
pub open spec fn number_at(list: Seq<Tree>, i: int) -> Real {
    match list[i].measure() {
        Some(r) => r,
        None => Real { bits: ZERO },
    }
}

/// The box that a field of six numbers holds.
pub open spec fn box_at(json: Tree, key: Seq<char>) -> Option<Bounds> {
    match json.items_at(key) {
        Some(b) => if b.len() >= 6 {
            Some(
                Bounds {
                    min: [number_at(b, 0), number_at(b, 1), number_at(b, 2)],
                    max: [number_at(b, 3), number_at(b, 4), number_at(b, 5)],
                },
            )
        } else {
            None
        },
        None => None,
    }
}

fn real_or_zero(j: &Json) -> (r: Real)
    ensures
        r == match j.tree().measure() {
            Some(r) => r,
            None => Real { bits: ZERO },
        },
{
    match j.as_real() {
        Some(r) => r,
        None => Real { bits: ZERO },
    }
}

fn read_box(json: &Json, key: &str) -> (r: Option<Bounds>)
    ensures
        r == box_at(json.tree(), key@),
{
    match json.array_at(key) {
        Some(b) => {
            if b.len() < 6 {
                return None;
            }
            let min: [Real; 3] = [real_or_zero(&b[0]), real_or_zero(&b[1]), real_or_zero(&b[2])];
            let max: [Real; 3] = [real_or_zero(&b[3]), real_or_zero(&b[4]), real_or_zero(&b[5])];
            proof {
                let list = trees(b@);
                assert(list[0] == b@[0].tree() && list[1] == b@[1].tree() && list[2]
                    == b@[2].tree() && list[3] == b@[3].tree() && list[4] == b@[4].tree()
                    && list[5] == b@[5].tree());
            }
            Some(Bounds { min, max })
        },
        None => None,
    }
}

/// The code that a field spells.
pub open spec fn code_at(srs: Tree, key: Seq<char>) -> Option<u32> {
    match srs.text_at(key) {
        Some(s) => match unsigned(s, u32::MAX as nat) {
            Some(n) => Some(n as u32),
            None => None,
        },
        None => None,
    }
}

/// What an `srs` field declares: its WKT, or an EPSG code with a vertical one
/// beside it.
pub open spec fn srs_declares(srs: Tree) -> Option<Declared> {
    let from_wkt = match srs.text_at("wkt"@) {
        Some(wkt) => string_declares(wkt),
        None => None,
    };
    let authority = srs.text_at("authority"@);
    let code = code_at(srs, "horizontal"@);
    if from_wkt is Some {
        from_wkt
    } else if authority is Some && lowered(authority->0) == lowered("EPSG"@) && code is Some {
        Some(Declared { vertical_epsg: code_at(srs, "vertical"@), ..epsg_declares(code->0) })
    } else {
        None
    }
}

fn read_code(srs: &Json, key: &str) -> (r: Option<u32>)
    ensures
        r == code_at(srs.tree(), key@),
{
    match srs.text_at(key) {
        Some(s) => match parse_unsigned(s.as_str(), 0xffff_ffff) {
            Some(n) => Some(n as u32),
            None => None,
        },
        None => None,
    }
}

fn read_srs(srs: &Json) -> (r: Option<Crs>)
    ensures
        declared(r) == srs_declares(srs.tree()),
{
    if let Some(wkt) = srs.text_at("wkt") {
        if let Some(crs) = Crs::from_string(wkt.as_str()) {
            return Some(crs);
        }
    }
    match srs.text_at("authority") {
        Some(authority) => {
            if !same_ignoring_case(authority.as_str(), "EPSG") {
                return None;
            }
            match read_code(srs, "horizontal") {
                Some(code) => {
                    let mut crs = Crs::from_epsg(code);
                    crs.vertical_epsg = read_code(srs, "vertical");
                    Some(crs)
                },
                None => None,
            }
        },
        None => None,
    }
}

/// Where a field of the schema is.
pub open spec fn field_path(i: nat) -> Seq<char> {
    "schema["@ + decimal(i) + "]"@
}

/// A number of a field, or a filler.
pub open spec fn real_or(field: Tree, key: Seq<char>, fill: u64) -> Real {
    match field.real_at(key) {
        Some(r) => r,
        None => Real { bits: fill },
    }
}

fn read_real_or(field: &Json, key: &str, fill: u64) -> (r: Real)
    ensures
        r == real_or(field.tree(), key@, fill),
{
    match field.real_at(key) {
        Some(r) => r,
        None => Real { bits: fill },
    }
}

/// The attribute that field `i` of the schema declares, or what is wrong with
/// it.
pub open spec fn attribute_of(field: Tree, i: nat) -> Result<Column, Failure> {
    match field.text_at("name"@) {
        None => Err(Failure::Manifest { path: field_path(i), detail: "field has no name"@ }),
        Some(name) => {
            let size = match field.unsigned_at("size"@) {
                Some(n) => n,
                None => 0,
            };
            let kind = match field.text_at("type"@) {
                Some(t) => t,
                None => "unsigned"@,
            };
            match type_of(kind, size) {
                None => Err(
                    Failure::Manifest {
                        path: field_path(i),
                        detail: quoted_text(name) + " is "@ + kind + " of "@ + decimal(size as nat)
                            + " bytes, which is not a type"@,
                    },
                ),
                Some(t) => Ok(
                    Column {
                        name: attribute_name(name),
                        description: Seq::empty(),
                        kind: t,
                        num_elements: 1,
                        byte_offset: 0,
                        min: seq![Real { bits: ZERO }],
                        max: seq![Real { bits: ZERO }],
                        scale: seq![real_or(field, "scale"@, ONE)],
                        offset: seq![real_or(field, "offset"@, ZERO)],
                        histogram: None,
                    },
                ),
            }
        },
    }
}

/// The attributes that a schema declares, or what is wrong with the first bad
/// field.
pub open spec fn schema_of(list: Seq<Tree>) -> Result<Seq<Column>, Failure>
    decreases list.len(),
{
    if list.len() == 0 {
        Ok(Seq::empty())
    } else {
        match schema_of(list.drop_last()) {
            Err(f) => Err(f),
            Ok(before) => match attribute_of(list.last(), (list.len() - 1) as nat) {
                Err(f) => Err(f),
                Ok(c) => Ok(before.push(c)),
            },
        }
    }
}

/// Whether a field is a coordinate.
pub open spec fn is_coordinate(field: Tree) -> bool {
    field.text_at("name"@) matches Some(name) && (name == "X"@ || name == "Y"@ || name == "Z"@)
}

/// The quantum and the origin of each coordinate of a schema.
pub open spec fn coordinates(list: Seq<Tree>) -> Seq<(Real, Real)>
    decreases list.len(),
{
    if list.len() == 0 {
        Seq::empty()
    } else if is_coordinate(list.last()) {
        coordinates(list.drop_last()).push(
            (real_or(list.last(), "scale"@, ONE), real_or(list.last(), "offset"@, ZERO)),
        )
    } else {
        coordinates(list.drop_last())
    }
}

proof fn lemma_bad_field(list: Seq<Tree>, n: int)
    requires
        0 <= n <= list.len(),
        schema_of(list.take(n)) is Err,
    ensures
        schema_of(list) == schema_of(list.take(n)),
    decreases list.len() - n,
{
    if n < list.len() {
        assert(list.take(n + 1).drop_last() =~= list.take(n));
        lemma_bad_field(list, n + 1);
    } else {
        assert(list.take(n) =~= list);
    }
}

fn read_field(field: &Json, i: usize) -> (r: Result<Attribute, Error>)
    ensures
        match r {
            Ok(a) => attribute_of(field.tree(), i as nat) == Ok::<Column, Failure>(a@),
            Err(e) => attribute_of(field.tree(), i as nat) == Err::<Column, Failure>(e@),
        },
{
    let index = decimal_of(i as u64);
    let path = cat3("schema[", index.as_str(), "]");
    let name = match field.text_at("name") {
        Some(n) => n,
        None => {
            return Err(Error::manifest(path, "field has no name".to_owned()));
        },
    };
    let size: u64 = match field.unsigned_at("size") {
        Some(n) => n,
        None => 0,
    };
    let kind_text: &str = match field.text_at("type") {
        Some(t) => t.as_str(),
        None => "unsigned",
    };
    let kind = match ept_type(kind_text, size) {
        Some(k) => k,
        None => {
            let shown = quoted(name.as_str());
            let n = decimal_of(size);
            let front = cat5(shown.as_str(), " is ", kind_text, " of ", n.as_str());
            return Err(
                Error::manifest(path, cat2(front.as_str(), " bytes, which is not a type")),
            );
        },
    };
    let mut scale: Vec<Real> = Vec::new();
    scale.push(read_real_or(field, "scale", ONE));
    let mut offset: Vec<Real> = Vec::new();
    offset.push(read_real_or(field, "offset", ZERO));
    let mut min: Vec<Real> = Vec::new();
    min.push(Real { bits: ZERO });
    let mut max: Vec<Real> = Vec::new();
    max.push(Real { bits: ZERO });
    let a = Attribute {
        name: ept_attribute_name(name.as_str()),
        description: String::new(),
        kind,
        num_elements: 1,
        byte_offset: 0,
        min,
        max,
        scale,
        offset,
        histogram: None,
    };
    assert(a@ =~= attribute_of(field.tree(), i as nat)->Ok_0);
    Ok(a)
}

fn read_schema(list: &Vec<Json>) -> (r: Result<(Vec<Attribute>, Vec<(Real, Real)>), Error>)
    ensures
        match r {
            Ok((all, xyz)) => schema_of(trees(list@)) == Ok::<Seq<Column>, Failure>(columns(all@))
                && xyz@ == coordinates(trees(list@)),
            Err(e) => schema_of(trees(list@)) == Err::<Seq<Column>, Failure>(e@),
        },
{
    let mut all: Vec<Attribute> = Vec::new();
    let mut xyz: Vec<(Real, Real)> = Vec::new();
    let ghost items = trees(list@);
    let mut i: usize = 0;
    assert(items.take(0) =~= Seq::<Tree>::empty());
    assert(columns(all@) =~= Seq::<Column>::empty());
    while i < list.len()
        invariant
            i <= list.len(),
            items == trees(list@),
            schema_of(items.take(i as int)) == Ok::<Seq<Column>, Failure>(columns(all@)),
            xyz@ == coordinates(items.take(i as int)),
        decreases list.len() - i,
    {
        let field = &list[i];
        assert(items.take(i + 1).drop_last() =~= items.take(i as int));
        assert(items.take(i + 1).last() == field.tree());
        let a = match read_field(field, i) {
            Ok(a) => a,
            Err(e) => {
                proof {
                    lemma_bad_field(items, i + 1);
                }
                return Err(e);
            },
        };
        if let Some(name) = field.text_at("name") {
            if same(name.as_str(), "X") || same(name.as_str(), "Y") || same(name.as_str(), "Z") {
                xyz.push((read_real_or(field, "scale", ONE), read_real_or(field, "offset", ZERO)));
            }
        }
        proof {
            columns_push(all@, a);
        }
        all.push(a);
        i = i + 1;
    }
    assert(items.take(i as int) =~= items);
    Ok((all, xyz))
}

/// What the manifest says beside the summary.
#[verifier::ext_equal]
pub struct Manifest {
    pub summary: Summary,
    pub data_type: Seq<char>,
    pub span: u32,
}

/// The complaint against a hierarchy that is not JSON.
pub open spec fn hierarchy_type_notice() -> Notice {
    Notice {
        code: "hierarchy-type"@,
        path: "ept.json.hierarchyType"@,
        message:
            "The manifest declares a non-JSON hierarchy, which this reader does not know how to walk."@,
    }
}

/// A field of text, or a default.
pub open spec fn text_or(json: Tree, key: Seq<char>, fill: Seq<char>) -> Seq<char> {
    match json.text_at(key) {
        Some(t) => t,
        None => fill,
    }
}

/// A field that is a whole number, or zero.
pub open spec fn count_or_zero(json: Tree, key: Seq<char>) -> u64 {
    match json.unsigned_at(key) {
        Some(n) => n,
        None => 0,
    }
}

/// What a manifest with a box and a schema holds. The spacing is left out: it is
/// the longest edge of the box over the span.
pub open spec fn manifest_with(
    json: Tree,
    label: Seq<char>,
    bounds: Bounds,
    list: Seq<Tree>,
    all: Seq<Column>,
) -> Manifest {
    let xyz = coordinates(list);
    let blank = Summary::blank(FormatId::Ept, label);
    Manifest {
        summary: Summary {
            version: json.text_at("version"@),
            point_count: count_or_zero(json, "points"@),
            bounds,
            tight_bounds: match box_at(json, "boundsConforming"@) {
                Some(b) => b,
                None => bounds,
            },
            encoding: Some(text_or(json, "dataType"@, "binary"@)),
            crs: match json.at("srs"@) {
                Some(srs) => srs_declares(srs),
                None => None,
            },
            scale: if xyz.len() == 3 {
                seq![xyz[0].0, xyz[1].0, xyz[2].0]
            } else {
                blank.scale
            },
            offset: if xyz.len() == 3 {
                seq![xyz[0].1, xyz[1].1, xyz[2].1]
            } else {
                blank.offset
            },
            attributes: laid_out(all),
            record_bytes: Some(record_size(all) as usize),
            warnings: if text_or(json, "hierarchyType"@, "json"@) == "json"@ {
                Seq::empty()
            } else {
                seq![hierarchy_type_notice()]
            },
            ..blank
        },
        data_type: text_or(json, "dataType"@, "binary"@),
        span: (count_or_zero(json, "span"@) as int % 0x1_0000_0000) as u32,
    }
}

/// What a manifest holds, or the first thing it lacks.
pub open spec fn manifest_of(json: Tree, manifest: Seq<char>, label: Seq<char>) -> Result<
    Manifest,
    Failure,
> {
    if !json.is_object() {
        Err(
            Failure::Manifest {
                path: manifest,
                detail: "the manifest is not a JSON object"@,
            },
        )
    } else {
        match box_at(json, "bounds"@) {
            None => Err(
                Failure::NotFormat {
                    format: "EPT"@,
                    detail: "the manifest declares no 6-element bounds"@,
                },
            ),
            Some(bounds) => match json.items_at("schema"@) {
                None => Err(
                    Failure::NotFormat {
                        format: "EPT"@,
                        detail: "the manifest declares no schema"@,
                    },
                ),
                Some(list) => match schema_of(list) {
                    Err(f) => Err(f),
                    Ok(all) => Ok(manifest_with(json, label, bounds, list, all)),
                },
            },
        }
    }
}

/// What the bytes of a manifest hold.
pub open spec fn manifest_in(bytes: Seq<u8>, manifest: Seq<char>, label: Seq<char>) -> Result<
    Manifest,
    Failure,
> {
    match json_read(bytes) {
        Err(why) => Err(Failure::Manifest { path: manifest, detail: "not JSON: "@ + why }),
        Ok(json) => manifest_of(json, manifest, label),
    }
}

/// An EPT cloud whose manifest has been read.
#[derive(Debug)]
pub struct EptCloud {
    pub info: CloudInfo,
    /// `binary`, `laszip` or `zstandard`.
    pub data_type: String,
    /// Points across a node's edge: EPT's statement of density.
    pub span: u32,
}

impl View for EptCloud {
    type V = Manifest;

    open spec fn view(&self) -> Manifest {
        Manifest { summary: self.info@, data_type: self.data_type@, span: self.span }
    }
}

fn read_text_or(json: &Json, key: &str, fill: &str) -> (s: String)
    ensures
        s@ == text_or(json.tree(), key@, fill@),
{
    match json.text_at(key) {
        Some(t) => t.clone(),
        None => fill.to_owned(),
    }
}

fn read_count(json: &Json, key: &str) -> (n: u64)
    ensures
        n == count_or_zero(json.tree(), key@),
{
    match json.unsigned_at(key) {
        Some(n) => n,
        None => 0,
    }
}

/// Reads a manifest that has been parsed.
pub fn parse(json: &Json, manifest: &str, label: &str) -> (r: Result<EptCloud, Error>)
    ensures
        match r {
            Ok(c) => manifest_of(json.tree(), manifest@, label@) == Ok::<Manifest, Failure>(c@),
            Err(e) => manifest_of(json.tree(), manifest@, label@) == Err::<Manifest, Failure>(e@),
        },
{
    if json.as_object().is_none() {
        return Err(
            Error::manifest(manifest.to_owned(), "the manifest is not a JSON object".to_owned()),
        );
    }
    let bounds = match read_box(json, "bounds") {
        Some(b) => b,
        None => {
            return Err(
                Error::not_format("EPT", "the manifest declares no 6-element bounds".to_owned()),
            );
        },
    };
    let list = match json.array_at("schema") {
        Some(l) => l,
        None => {
            return Err(Error::not_format("EPT", "the manifest declares no schema".to_owned()));
        },
    };
    let (mut attributes, xyz) = match read_schema(list) {
        Ok(p) => p,
        Err(e) => {
            return Err(e);
        },
    };
    let ghost all = columns(attributes@);
    let mut info = CloudInfo::new(FormatId::Ept, label.to_owned());
    info.version = match json.text_at("version") {
        Some(v) => Some(v.clone()),
        None => None,
    };
    info.point_count = read_count(json, "points");
    info.bounds = bounds;
    info.tight_bounds = match read_box(json, "boundsConforming") {
        Some(b) => b,
        None => bounds,
    };
    let data_type = read_text_or(json, "dataType", "binary");
    info.encoding = Some(data_type.clone());
    info.crs = match json.get("srs") {
        Some(srs) => read_srs(srs),
        None => None,
    };
    if xyz.len() == 3 {
        info.scale = [xyz[0].0, xyz[1].0, xyz[2].0];
        info.offset = [xyz[0].1, xyz[1].1, xyz[2].1];
        assert(info.scale@ =~= seq![xyz@[0].0, xyz@[1].0, xyz@[2].0]);
        assert(info.offset@ =~= seq![xyz@[0].1, xyz@[1].1, xyz@[2].1]);
    }
    let stride: usize = lay_out(&mut attributes);
    info.attributes = attributes;
    info.record_bytes = Some(stride);
    let hierarchy = read_text_or(json, "hierarchyType", "json");
    if !same(hierarchy.as_str(), "json") {
        info.warn(
            "hierarchy-type",
            "ept.json.hierarchyType".to_owned(),
            "The manifest declares a non-JSON hierarchy, which this reader does not know how to walk.".to_owned(),
        );
    }
    let span: u32 = (read_count(json, "span") % 0x1_0000_0000) as u32;
    let c = EptCloud { info, data_type, span };
    proof {
        let m = manifest_with(json.tree(), label@, bounds, trees(list@), all);
        assert(c@.summary.warnings =~= m.summary.warnings);
        assert(c@.summary =~= m.summary);
        assert(c@ =~= m);
    }
    Ok(c)
}

/// Opens a cloud from the bytes of its manifest.
pub fn open_manifest(bytes: &[u8], manifest: &str, label: &str) -> (r: Result<EptCloud, Error>)
    ensures
        match r {
            Ok(c) => manifest_in(bytes@, manifest@, label@) == Ok::<Manifest, Failure>(c@),
            Err(e) => manifest_in(bytes@, manifest@, label@) == Err::<Manifest, Failure>(e@),
        },
{
    match Json::read(bytes) {
        Ok(json) => parse(&json, manifest, label),
        Err(why) => Err(
            Error::manifest(manifest.to_owned(), cat2("not JSON: ", why.as_str())),
        ),
    }
}

/// The extension that an encoding gives to the file of a node.
pub open spec fn extension_of(data_type: Seq<char>) -> Seq<char> {
    if data_type == "laszip"@ {
        "laz"@
    } else if data_type == "zstandard"@ {
        "zst"@
    } else {
        "bin"@
    }
}

impl EptCloud {
    /// The path of a node's payload, in the encoding the manifest declared.
    pub fn node_path(&self, key: OctreeKey) -> (out: String)
        ensures
            out@ == "ept-data/"@ + key.spec_ept_name() + "."@ + extension_of(self.data_type@),
    {
        let name = key.ept_name();
        let extension: &str = if same(self.data_type.as_str(), "laszip") {
            "laz"
        } else if same(self.data_type.as_str(), "zstandard") {
            "zst"
        } else {
            "bin"
        };
        cat4("ept-data/", name.as_str(), ".", extension)
    }

    /// States how far apart neighbouring points are at the root, given the longest
    /// edge of the box over the span. Without a span there is nothing to state.
    pub fn set_spacing(&mut self, quotient: Real)
        ensures
            final(self)@ == (Manifest {
                summary: Summary {
                    spacing: if old(self).span > 0 {
                        Some(quotient)
                    } else {
                        old(self)@.summary.spacing
                    },
                    ..old(self)@.summary
                },
                ..old(self)@
            }),
    {
        if self.span > 0 {
            self.info.spacing = Some(quotient);
        }
    }

    /// Starts a walk of the hierarchy pages.
    pub fn hierarchy(&self) -> (w: PageWalk)
        ensures
            w.stats.wf(),
            w@ == at_start(),
    {
        let mut queue: Vec<String> = Vec::new();
        queue.push("ept-hierarchy/0-0-0-0.json".to_owned());
        let w = PageWalk {
            queue,
            visited: Vec::new(),
            reading: String::new(),
            stats: HierarchyStats::new(),
        };
        assert(w@.queue =~= at_start().queue);
        assert(w@.visited =~= at_start().visited);
        assert(w@ =~= at_start());
        w
    }
}

/// A walk over the pages of a hierarchy, between two reads.
#[verifier::ext_equal]
pub struct Progress {
    /// The pages still to read, the next one last.
    pub queue: Seq<Seq<char>>,
    /// The pages that have been asked for.
    pub visited: Seq<Seq<char>>,
    /// The page asked for last.
    pub reading: Seq<char>,
    pub tally: Tally,
    pub hierarchy_bytes: u64,
    pub hierarchy_requests: u32,
    pub warnings: Seq<Notice>,
}

/// A walk that has not read anything: the root page is to come.
pub open spec fn at_start() -> Progress {
    Progress {
        queue: seq!["ept-hierarchy/0-0-0-0.json"@],
        visited: Seq::empty(),
        reading: Seq::empty(),
        tally: Tally::none(),
        hierarchy_bytes: 0,
        hierarchy_requests: 0,
        warnings: Seq::empty(),
    }
}

/// Goes on to the next page that has not been asked for.
pub open spec fn advance(w: Progress) -> (Progress, Option<Seq<char>>)
    decreases w.queue.len(),
{
    if w.queue.len() == 0 {
        (w, None)
    } else {
        let next = w.queue.last();
        let rest = w.queue.drop_last();
        if w.visited.contains(next) {
            advance(Progress { queue: rest, ..w })
        } else {
            (
                Progress { queue: rest, visited: w.visited.push(next), reading: next, ..w },
                Some(next),
            )
        }
    }
}

/// The complaint against an entry that names no node.
pub open spec fn key_notice(path: Seq<char>, name: Seq<char>) -> Notice {
    Notice {
        code: "hierarchy-key"@,
        path: path + "#"@ + name,
        message: quoted_text(name) + " is not a level-x-y-z key; the entry is skipped."@,
    }
}

/// The page named after a node.
pub open spec fn page_path(name: Seq<char>) -> Seq<char> {
    "ept-hierarchy/"@ + name + ".json"@
}

/// Takes one entry of a page.
pub open spec fn with_entry(w: Progress, name: Seq<char>, count: Tree) -> Progress {
    match key_of(name) {
        None => Progress { warnings: w.warnings.push(key_notice(w.reading, name)), ..w },
        Some(key) => {
            let n = match count.signed() {
                Some(n) => n,
                None => 0,
            };
            if n == PAGE_REFERENCE {
                Progress { queue: w.queue.push(page_path(name)), ..w }
            } else {
                Progress {
                    tally: w.tally.with(
                        NodeInfo {
                            key,
                            point_count: if n > 0 {
                                n as u64
                            } else {
                                0
                            },
                            byte_size: 0,
                        },
                    ),
                    ..w
                }
            }
        },
    }
}

/// Takes the entries of a page.
pub open spec fn with_entries(w: Progress, fields: Seq<(Seq<char>, Tree)>) -> Progress
    decreases fields.len(),
{
    if fields.len() == 0 {
        w
    } else {
        with_entry(
            with_entries(w, fields.drop_last()),
            fields.last().0,
            fields.last().1,
        )
    }
}

/// Takes the bytes of the page asked for last.
pub open spec fn absorbed(w: Progress, bytes: Seq<u8>) -> Result<Progress, Failure> {
    match json_read(bytes) {
        Err(why) => Err(Failure::Manifest { path: w.reading, detail: "not JSON: "@ + why }),
        Ok(page) => page_absorbed(w, page, bytes.len()),
    }
}

/// Takes the page asked for last, which was so many bytes long.
pub open spec fn page_absorbed(w: Progress, page: Tree, size: nat) -> Result<Progress, Failure> {
    match page {
        Tree::Object(fields) => Ok(
            with_entries(
                Progress {
                    hierarchy_bytes: wrap64(w.hierarchy_bytes + size),
                    hierarchy_requests: ((w.hierarchy_requests + 1) % 0x1_0000_0000) as u32,
                    ..w
                },
                fields,
            ),
        ),
        _ => Err(
            Failure::Manifest {
                path: w.reading,
                detail: "a hierarchy page must be an object"@,
            },
        ),
    }
}

/// A walk over every page: it says what to read, and takes what was read.
#[derive(Debug)]
pub struct PageWalk {
    pub queue: Vec<String>,
    pub visited: Vec<String>,
    pub reading: String,
    pub stats: HierarchyStats,
}

impl View for PageWalk {
    type V = Progress;

    open spec fn view(&self) -> Progress {
        Progress {
            queue: texts(self.queue@),
            visited: texts(self.visited@),
            reading: self.reading@,
            tally: self.stats.tally(),
            hierarchy_bytes: self.stats.hierarchy_bytes,
            hierarchy_requests: self.stats.hierarchy_requests,
            warnings: notices(self.stats.warnings@),
        }
    }
}

/// Whether a list holds a string.
fn holds(list: &Vec<String>, s: &str) -> (r: bool)
    ensures
        r == texts(list@).contains(s@),
{
    let mut i: usize = 0;
    while i < list.len()
        invariant
            i <= list.len(),
            forall|j: int| 0 <= j < i ==> #[trigger] texts(list@)[j] != s@,
        decreases list.len() - i,
    {
        assert(texts(list@)[i as int] == list@[i as int]@);
        if same(list[i].as_str(), s) {
            return true;
        }
        i = i + 1;
    }
    false
}

impl PageWalk {
    /// The next page to read. One that has been read is left out.
    pub fn next(&mut self) -> (r: Option<String>)
        requires
            old(self).stats.wf(),
        ensures
            final(self).stats.wf(),
            (final(self)@, spelled(r)) == advance(old(self)@),
    {
        while self.queue.len() > 0
            invariant
                self.stats.wf(),
                advance(self@) == advance(old(self)@),
            decreases self.queue.len(),
        {
            let ghost before = self@;
            let path = match self.queue.pop() {
                Some(p) => p,
                None => {
                    return None;
                },
            };
            assert(texts(self.queue@) =~= before.queue.drop_last());
            assert(before.queue.last() == path@);
            if !holds(&self.visited, path.as_str()) {
                self.visited.push(path.clone());
                assert(texts(self.visited@) =~= before.visited.push(path@));
                self.reading = path.clone();
                assert(self@ =~= advance(before).0);
                return Some(path);
            }
            assert(self@ =~= Progress { queue: before.queue.drop_last(), ..before });
        }
        None
    }

    fn take_entry(&mut self, name: &str, count: &Json)
        requires
            old(self).stats.wf(),
        ensures
            final(self).stats.wf(),
            final(self)@ == with_entry(old(self)@, name@, count.tree()),
    {
        let ghost before = self@;
        match parse_ept_key(name) {
            None => {
                let shown = quoted(name);
                let path = cat3(self.reading.as_str(), "#", name);
                self.stats.warn(
                    "hierarchy-key",
                    path,
                    cat2(shown.as_str(), " is not a level-x-y-z key; the entry is skipped."),
                );
                assert(self@ =~= with_entry(before, name@, count.tree()));
            },
            Some(key) => {
                let n: i64 = match count.as_signed() {
                    Some(n) => n,
                    None => 0,
                };
                if n == PAGE_REFERENCE {
                    self.queue.push(cat3("ept-hierarchy/", name, ".json"));
                    assert(self@.queue =~= before.queue.push(page_path(name@)));
                } else {
                    let point_count: u64 = if n > 0 {
                        n as u64
                    } else {
                        0
                    };
                    self.stats.add(NodeInfo { key, point_count, byte_size: 0 });
                }
                assert(self@ =~= with_entry(before, name@, count.tree()));
            },
        }
    }

    /// Takes the page asked for last, which was so many bytes long.
    pub fn absorb_page(&mut self, page: &Json, size: usize) -> (r: Result<(), Error>)
        requires
            old(self).stats.wf(),
        ensures
            final(self).stats.wf(),
            match r {
                Ok(_) => page_absorbed(old(self)@, page.tree(), size as nat) == Ok::<
                    Progress,
                    Failure,
                >(final(self)@),
                Err(e) => page_absorbed(old(self)@, page.tree(), size as nat) == Err::<
                    Progress,
                    Failure,
                >(e@) && *final(self) == *old(self),
            },
    {
        let fields = match page.as_object() {
            Some(f) => f,
            None => {
                return Err(
                    Error::manifest(
                        self.reading.clone(),
                        "a hierarchy page must be an object".to_owned(),
                    ),
                );
            },
        };
        self.stats.count_read(size as u64);
        let ghost start = self@;
        let ghost all = tree_fields(fields@);
        let mut i: usize = 0;
        assert(all.take(0) =~= Seq::<(Seq<char>, Tree)>::empty());
        while i < fields.len()
            invariant
                i <= fields.len(),
                self.stats.wf(),
                all == tree_fields(fields@),
                self@ == with_entries(start, all.take(i as int)),
            decreases fields.len() - i,
        {
            assert(all.take(i + 1).drop_last() =~= all.take(i as int));
            assert(all.take(i + 1).last() == (fields@[i as int].0@, fields@[i as int].1.tree()));
            self.take_entry(fields[i].0.as_str(), &fields[i].1);
            i = i + 1;
        }
        assert(all.take(i as int) =~= all);
        Ok(())
    }

    /// Takes the bytes of the page asked for last.
    pub fn absorb(&mut self, bytes: &[u8]) -> (r: Result<(), Error>)
        requires
            old(self).stats.wf(),
        ensures
            final(self).stats.wf(),
            match r {
                Ok(_) => absorbed(old(self)@, bytes@) == Ok::<Progress, Failure>(final(self)@),
                Err(e) => absorbed(old(self)@, bytes@) == Err::<Progress, Failure>(e@)
                    && *final(self) == *old(self),
            },
    {
        match Json::read(bytes) {
            Ok(page) => self.absorb_page(&page, bytes.len()),
            Err(why) => Err(
                Error::manifest(self.reading.clone(), cat2("not JSON: ", why.as_str())),
            ),
        }
    }
}

} // verus!
