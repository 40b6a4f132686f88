//! What a reader makes of the manifest that an EPT writer leaves behind.

use crate::attribute::{laid_out, record_size, Column};
use crate::cloud::declared;
use crate::crs::{epsg_declares, string_declares, CrsFormat, Declared};
use crate::double::{Real, ONE, ZERO};
use crate::format::ept::{
    attribute_name, attribute_of, box_at, code_at, coordinates, is_coordinate, manifest_of,
    number_at, real_or, schema_of, srs_declares, type_of,
};
use crate::json::{a_field_is_read, are_named_apart, fractions_are_read, no_other_field_is_read};
use crate::json::{reads_by, Json, Tree};
use crate::text::decimal_parses;
use crate::write::ept::{
    corners, field_tree, schema_for, schema_tree, srs_tree, EptWriter, FieldSpec,
};
use crate::write::{is_finite_box, read_box, read_triple, WriteOptions};
use vstd::prelude::*;

verus! {

/// The attribute that a field of a schema is read as.
pub open spec fn column_for(f: FieldSpec, back: spec_fn(Real) -> Real) -> Column {
    Column {
        name: attribute_name(f.name),
        description: Seq::empty(),
        kind: type_of(f.kind, f.size as u64)->0,
        num_elements: 1,
        byte_offset: 0,
        min: seq![Real { bits: ZERO }],
        max: seq![Real { bits: ZERO }],
        scale: seq![
            match f.placed {
                Some((scale, _)) => back(scale),
                None => Real { bits: ONE },
            },
        ],
        offset: seq![
            match f.placed {
                Some((_, offset)) => back(offset),
                None => Real { bits: ZERO },
            },
        ],
        histogram: None,
    }
}

/// The attributes that a schema is read as.
pub open spec fn columns_for(list: Seq<FieldSpec>, back: spec_fn(Real) -> Real) -> Seq<Column> {
    list.map_values(|f: FieldSpec| column_for(f, back))
}

/// What is read of a projection that was written: the WKT as any text declares,
/// and otherwise no more than the code.
pub open spec fn crs_read(crs: Option<Declared>) -> Option<Declared> {
    match crs {
        Some(d) => if d.format == CrsFormat::Wkt {
            string_declares(d.raw)
        } else {
            match d.epsg {
                Some(code) => Some(epsg_declares(code)),
                None => None,
            }
        },
        None => None,
    }
}

/// Whether a field can be read: its type is one that a reader knows, and its
/// numbers have text.
spec fn is_sound(f: FieldSpec) -> bool {
    &&& type_of(f.kind, f.size as u64) is Some
    &&& f.placed matches Some((scale, offset)) ==> scale.finite() && offset.finite()
}

proof fn lemma_field(f: FieldSpec, t: Tree, i: nat, back: spec_fn(Real) -> Real)
    requires
        reads_by(field_tree(f), t, back),
        is_sound(f),
    ensures
        attribute_of(t, i) == Ok::<Column, crate::error::Failure>(column_for(f, back)),
        t.text_at("name"@) == Some(f.name),
        f.placed matches Some((scale, offset)) ==> real_or(t, "scale"@, ONE) == back(scale)
            && real_or(t, "offset"@, ZERO) == back(offset),
{
    reveal_strlit("name");
    reveal_strlit("size");
    reveal_strlit("type");
    reveal_strlit("scale");
    reveal_strlit("offset");
    assert("name"@.len() == 4 && "size"@.len() == 4 && "type"@.len() == 4);
    assert("scale"@.len() == 5 && "offset"@.len() == 6);
    let fields = field_tree(f)->Object_0;
    assert("name"@[0] == 'n' && "size"@[0] == 's' && "type"@[0] == 't');
    assert(are_named_apart(fields));
    a_field_is_read(fields, t, 0, back);
    a_field_is_read(fields, t, 1, back);
    a_field_is_read(fields, t, 2, back);
    assert(fields[0] == ("name"@, Tree::Text(f.name)));
    assert(fields[1] == ("size"@, Json::whole(f.size as u64)));
    assert(fields[2] == ("type"@, Tree::Text(f.kind)));
    match f.placed {
        Some((scale, offset)) => {
            assert(fields[3] == ("scale"@, Json::fraction(scale)));
            assert(fields[4] == ("offset"@, Json::fraction(offset)));
            a_field_is_read(fields, t, 3, back);
            a_field_is_read(fields, t, 4, back);
        },
        None => {
            no_other_field_is_read(fields, t, "scale"@, back);
            no_other_field_is_read(fields, t, "offset"@, back);
        },
    }
    assert(attribute_of(t, i)->Ok_0 =~= column_for(f, back));
}

proof fn lemma_schema(list: Seq<FieldSpec>, t: Seq<Tree>, back: spec_fn(Real) -> Real)
    requires
        list.len() == t.len(),
        forall|i: int| 0 <= i < list.len() ==> reads_by(field_tree(#[trigger] list[i]), t[i], back),
        forall|i: int| 0 <= i < list.len() ==> is_sound(#[trigger] list[i]),
    ensures
        schema_of(t) == Ok::<Seq<Column>, crate::error::Failure>(columns_for(list, back)),
    decreases list.len(),
{
    if list.len() == 0 {
        assert(columns_for(list, back) =~= Seq::empty());
    } else {
        let n = list.len() - 1;
        let a = list.drop_last();
        let b = t.drop_last();
        assert forall|i: int| 0 <= i < a.len() implies reads_by(
            field_tree(#[trigger] a[i]),
            b[i],
            back,
        ) by {
            assert(a[i] == list[i]);
        }
        assert forall|i: int| 0 <= i < a.len() implies is_sound(#[trigger] a[i]) by {
            assert(a[i] == list[i]);
        }
        lemma_schema(a, b, back);
        assert(reads_by(field_tree(list[n]), t[n], back));
        lemma_field(list[n], t[n], n as nat, back);
        assert(columns_for(list, back) =~= columns_for(a, back).push(column_for(list[n], back)));
    }
}

proof fn lemma_no_more_coordinates(t: Seq<Tree>, n: int)
    requires
        0 <= n <= t.len(),
        forall|i: int| n <= i < t.len() ==> !is_coordinate(#[trigger] t[i]),
    ensures
        coordinates(t) == coordinates(t.take(n)),
    decreases t.len(),
{
    if n == t.len() {
        assert(t.take(n) =~= t);
    } else {
        let b = t.drop_last();
        assert(!is_coordinate(t[t.len() - 1]));
        assert forall|i: int| n <= i < b.len() implies !is_coordinate(#[trigger] b[i]) by {
            assert(b[i] == t[i]);
        }
        lemma_no_more_coordinates(b, n);
        assert(b.take(n) =~= t.take(n));
    }
}

proof fn lemma_three_coordinates(t: Seq<Tree>)
    requires
        t.len() == 3,
        is_coordinate(t[0]),
        is_coordinate(t[1]),
        is_coordinate(t[2]),
    ensures
        coordinates(t) == seq![
            (real_or(t[0], "scale"@, ONE), real_or(t[0], "offset"@, ZERO)),
            (real_or(t[1], "scale"@, ONE), real_or(t[1], "offset"@, ZERO)),
            (real_or(t[2], "scale"@, ONE), real_or(t[2], "offset"@, ZERO)),
        ],
{
    let two = t.drop_last();
    let one = two.drop_last();
    let none = one.drop_last();
    assert(two.last() == t[1] && one.last() == t[0]);
    assert(coordinates(none) =~= Seq::empty());
    assert(coordinates(one) =~= seq![
        (real_or(t[0], "scale"@, ONE), real_or(t[0], "offset"@, ZERO)),
    ]);
    assert(coordinates(two) =~= seq![
        (real_or(t[0], "scale"@, ONE), real_or(t[0], "offset"@, ZERO)),
        (real_or(t[1], "scale"@, ONE), real_or(t[1], "offset"@, ZERO)),
    ]);
}

proof fn lemma_schema_is_sound(options: WriteOptions)
    requires
        options.is_finite(),
    ensures
        schema_for(options).len() >= 10,
        forall|i: int|
            0 <= i < schema_for(options).len() ==> is_sound(#[trigger] schema_for(options)[i]),
        forall|i: int|
            3 <= i < schema_for(options).len() ==> {
                let name = (#[trigger] schema_for(options)[i]).name;
                name != "X"@ && name != "Y"@ && name != "Z"@
            },
{
    reveal_strlit("X");
    reveal_strlit("Y");
    reveal_strlit("Z");
    reveal_strlit("Intensity");
    reveal_strlit("ReturnNumber");
    reveal_strlit("NumberOfReturns");
    reveal_strlit("Classification");
    reveal_strlit("ScanAngleRank");
    reveal_strlit("UserData");
    reveal_strlit("PointSourceId");
    reveal_strlit("GpsTime");
    reveal_strlit("Red");
    reveal_strlit("Green");
    reveal_strlit("Blue");
    reveal_strlit("signed");
    reveal_strlit("unsigned");
    reveal_strlit("float");
    assert("X"@.len() == 1 && "Y"@.len() == 1 && "Z"@.len() == 1);
    assert("Intensity"@.len() == 9 && "ReturnNumber"@.len() == 12 && "NumberOfReturns"@.len() == 15);
    assert("Classification"@.len() == 14 && "ScanAngleRank"@.len() == 13 && "UserData"@.len() == 8);
    assert("PointSourceId"@.len() == 13 && "GpsTime"@.len() == 7 && "Red"@.len() == 3);
    assert("Green"@.len() == 5 && "Blue"@.len() == 4 && "signed"@.len() == 6);
    assert("unsigned"@.len() == 8 && "float"@.len() == 5);
}

proof fn lemma_fields(options: WriteOptions, t: Tree, back: spec_fn(Real) -> Real)
    requires
        options.is_finite(),
        reads_by(schema_tree(schema_for(options)), t, back),
    ensures
        t is Array,
        schema_of(t->Array_0) == Ok::<Seq<Column>, crate::error::Failure>(
            columns_for(schema_for(options), back),
        ),
        coordinates(t->Array_0) == seq![
            (back(options.scale[0]), back(options.offset[0])),
            (back(options.scale[1]), back(options.offset[1])),
            (back(options.scale[2]), back(options.offset[2])),
        ],
{
    let list = schema_for(options);
    let a = schema_tree(list)->Array_0;
    let b = t->Array_0;
    lemma_schema_is_sound(options);
    assert forall|i: int| 0 <= i < list.len() implies reads_by(
        field_tree(#[trigger] list[i]),
        b[i],
        back,
    ) by {
        assert(a[i] == field_tree(list[i]));
        assert(reads_by(a[i], b[i], back));
    }
    lemma_schema(list, b, back);
    assert forall|i: int| 3 <= i < b.len() implies !is_coordinate(#[trigger] b[i]) by {
        assert(reads_by(field_tree(list[i]), b[i], back) && is_sound(list[i]));
        lemma_field(list[i], b[i], 0, back);
    }
    lemma_no_more_coordinates(b, 3);
    let three = b.take(3);
    assert(three[0] == b[0] && three[1] == b[1] && three[2] == b[2]);
    assert(is_sound(list[0]) && is_sound(list[1]) && is_sound(list[2]));
    lemma_field(list[0], b[0], 0, back);
    lemma_field(list[1], b[1], 0, back);
    lemma_field(list[2], b[2], 0, back);
    lemma_three_coordinates(three);
}

proof fn lemma_box(b: crate::bounds::Bounds, json: Tree, key: Seq<char>, back: spec_fn(Real) -> Real)
    requires
        is_finite_box(b),
        json.at(key) is Some,
        reads_by(corners(b), json.at(key)->0, back),
    ensures
        box_at(json, key) == Some(read_box(b, back)),
{
    let six = b.min@ + b.max@;
    fractions_are_read(six, json.at(key)->0, back);
    let t = json.at(key)->0->Array_0;
    let want = read_box(b, back);
    assert(number_at(t, 0) == back(six[0]) && number_at(t, 1) == back(six[1]) && number_at(t, 2)
        == back(six[2]));
    assert(number_at(t, 3) == back(six[3]) && number_at(t, 4) == back(six[4]) && number_at(t, 5)
        == back(six[5]));
    let r = box_at(json, key)->0;
    assert(r.min =~= want.min);
    assert(r.max =~= want.max);
}

proof fn lemma_projection(crs: Option<Declared>, t: Tree, back: spec_fn(Real) -> Real)
    requires
        reads_by(srs_tree(crs), t, back),
    ensures
        srs_declares(t) == crs_read(crs),
{
    reveal_strlit("wkt");
    reveal_strlit("authority");
    reveal_strlit("horizontal");
    reveal_strlit("vertical");
    assert("wkt"@.len() == 3 && "authority"@.len() == 9 && "horizontal"@.len() == 10);
    assert("vertical"@.len() == 8);
    let fields = srs_tree(crs)->Object_0;
    assert(are_named_apart(fields));
    if crs is Some && crs->0.format == CrsFormat::Wkt {
        a_field_is_read(fields, t, 0, back);
        no_other_field_is_read(fields, t, "authority"@, back);
    } else if crs is Some && crs->0.epsg is Some {
        let code = crs->0.epsg->0;
        no_other_field_is_read(fields, t, "wkt"@, back);
        no_other_field_is_read(fields, t, "vertical"@, back);
        a_field_is_read(fields, t, 0, back);
        a_field_is_read(fields, t, 1, back);
        decimal_parses(code as nat, u32::MAX as nat);
        assert(code_at(t, "horizontal"@) == Some(code));
    } else {
        no_other_field_is_read(fields, t, "wkt"@, back);
        no_other_field_is_read(fields, t, "authority"@, back);
    }
}

proof fn lemma_apart(w: EptWriter)
    ensures
        are_named_apart(w.manifest_tree()->Object_0),
{
    reveal_strlit("version");
    reveal_strlit("bounds");
    reveal_strlit("boundsConforming");
    reveal_strlit("dataType");
    reveal_strlit("hierarchyType");
    reveal_strlit("points");
    reveal_strlit("span");
    reveal_strlit("srs");
    reveal_strlit("schema");
    assert("version"@.len() == 7 && "bounds"@.len() == 6 && "boundsConforming"@.len() == 16);
    assert("dataType"@.len() == 8 && "hierarchyType"@.len() == 13 && "points"@.len() == 6);
    assert("span"@.len() == 4 && "srs"@.len() == 3 && "schema"@.len() == 6);
    assert("bounds"@[0] == 'b' && "points"@[0] == 'p' && "schema"@[0] == 's');
}

/// A manifest that was written is read as what was written: the counts, the
/// boxes, the grid, the way the points are stored, the projection and the schema
/// are those of the writer, and there is nothing to warn of. Where the reader reads
/// every fraction back as it was written, so are the numbers of the boxes and of
/// the grid to the last place.
pub proof fn a_written_manifest_is_read(
    w: EptWriter,
    json: Tree,
    manifest: Seq<char>,
    label: Seq<char>,
    back: spec_fn(Real) -> Real,
)
    requires
        w.options.is_finite(),
        reads_by(w.manifest_tree(), json, back),
    ensures
        manifest_of(json, manifest, label) matches Ok(m) && {
            &&& m.data_type == w.encoding.spelling()
            &&& m.span == w.options.span
            &&& m.summary.label == label
            &&& m.summary.version == Some("1.0.0"@)
            &&& m.summary.point_count == w.points
            &&& m.summary.bounds == read_box(w.options.cube, back)
            &&& m.summary.tight_bounds == read_box(w.options.extent, back)
            &&& m.summary.scale == read_triple(w.options.scale, back)@
            &&& m.summary.offset == read_triple(w.options.offset, back)@
            &&& m.summary.encoding == Some(w.encoding.spelling())
            &&& m.summary.crs == crs_read(declared(w.options.crs))
            &&& m.summary.attributes == laid_out(columns_for(schema_for(w.options), back))
            &&& m.summary.record_bytes == Some(
                record_size(columns_for(schema_for(w.options), back)) as usize,
            )
            &&& m.summary.warnings.len() == 0
        },
{
    let fields = w.manifest_tree()->Object_0;
    lemma_apart(w);
    a_field_is_read(fields, json, 0, back);
    a_field_is_read(fields, json, 1, back);
    a_field_is_read(fields, json, 2, back);
    a_field_is_read(fields, json, 3, back);
    a_field_is_read(fields, json, 4, back);
    a_field_is_read(fields, json, 5, back);
    a_field_is_read(fields, json, 6, back);
    a_field_is_read(fields, json, 7, back);
    a_field_is_read(fields, json, 8, back);
    lemma_box(w.options.cube, json, "bounds"@, back);
    lemma_box(w.options.extent, json, "boundsConforming"@, back);
    lemma_projection(declared(w.options.crs), json.at("srs"@)->0, back);
    lemma_fields(w.options, json.at("schema"@)->0, back);
    let m = manifest_of(json, manifest, label)->Ok_0;
    assert(m.summary.scale =~= read_triple(w.options.scale, back)@);
    assert(m.summary.offset =~= read_triple(w.options.offset, back)@);
}

} // verus!
