//! What a reader makes of the manifest that a Potree writer leaves behind.

use crate::attribute::{laid_out, record_size, type_names_are_inverse, AttributeType, Column};
use crate::bounds::Bounds;
use crate::cloud::column_named;
use crate::crs::string_declares;
use crate::double::{Real, ONE, ZERO};
use crate::error::Failure;
use crate::format::potree::{
    attribute_notices, attribute_of, attributes_notices, attributes_of, elements_of, filled,
    manifest_of, metadata_of, stated_extent, triple, Meta,
};
use crate::json::{
    a_field_is_read, are_named_apart, fractions_are_read, no_other_field_is_read, reads_by, Json, Tree,
};
use crate::write::hierarchy::STEP_SIZE;
use crate::write::potree::{
    box_tree, crs_text, described, domain_of, fields_for, FieldView, Measured,
    PotreeEncoding, PotreeWriter,
};
use crate::write::{are_finite, is_finite_box, read_box, read_triple};
use vstd::prelude::*;

verus! {

/// The first `n` of some numbers as they are read, zero for one that is missing or
/// has no text.
pub open spec fn settled(values: Seq<Real>, n: usize, back: spec_fn(Real) -> Real) -> Seq<Real> {
    Seq::new(
        n as nat,
        |i: int|
            if i < values.len() && values[i].finite() {
                back(values[i])
            } else {
                Real { bits: ZERO }
            },
    )
}

/// The attribute that a field of the written record is read as.
pub open spec fn column_for(
    f: FieldView,
    extent: Bounds,
    m: Measured,
    back: spec_fn(Real) -> Real,
) -> Column {
    let (min, max) = domain_of(f, extent, m);
    Column {
        name: f.name,
        description: ""@,
        kind: f.kind,
        num_elements: f.elements,
        byte_offset: 0,
        min: settled(min, f.elements, back),
        max: settled(max, f.elements, back),
        scale: Seq::new(f.elements as nat, |i: int| Real { bits: ONE }),
        offset: Seq::new(f.elements as nat, |i: int| Real { bits: ZERO }),
        histogram: None,
    }
}

/// The attributes that the fields of the written record are read as.
pub open spec fn columns_for(
    list: Seq<FieldView>,
    extent: Bounds,
    m: Measured,
    back: spec_fn(Real) -> Real,
) -> Seq<Column> {
    list.map_values(|f: FieldView| column_for(f, extent, m, back))
}

/// Whether there is nothing to say of a field: it has the size of its elements,
/// and they can be decoded without loss.
pub open spec fn is_plain(f: FieldView) -> bool {
    &&& f.size / f.elements == f.kind.width()
    &&& f.kind != AttributeType::Int64
    &&& f.kind != AttributeType::Uint64
}

proof fn lemma_filled(values: Seq<Real>, n: usize, t: Tree, back: spec_fn(Real) -> Real)
    requires
        reads_by(Json::fractions(values), t, back),
    ensures
        filled(Some(t), n, ZERO) == settled(values, n, back),
{
    fractions_are_read(values, t, back);
    assert forall|i: int| 0 <= i < n implies #[trigger] filled(Some(t), n, ZERO)[i] == settled(
        values,
        n,
        back,
    )[i] by {
        if i < values.len() {
            assert(t->Array_0[i].measure() == if values[i].finite() {
                Some(back(values[i]))
            } else {
                None
            });
        }
    }
    assert(filled(Some(t), n, ZERO) =~= settled(values, n, back));
}

proof fn lemma_attribute_apart(f: FieldView, extent: Bounds, m: Measured)
    ensures
        are_named_apart(described(f, extent, m)->Object_0),
        forall|j: int|
            0 <= j < 8 ==> (#[trigger] described(f, extent, m)->Object_0[j]).0 != "scale"@,
        forall|j: int|
            0 <= j < 8 ==> (#[trigger] described(f, extent, m)->Object_0[j]).0 != "offset"@,
        forall|j: int|
            0 <= j < 8 ==> (#[trigger] described(f, extent, m)->Object_0[j]).0 != "histogram"@,
{
    reveal_strlit("name");
    reveal_strlit("description");
    reveal_strlit("size");
    reveal_strlit("numElements");
    reveal_strlit("elementSize");
    reveal_strlit("type");
    reveal_strlit("min");
    reveal_strlit("max");
    reveal_strlit("scale");
    reveal_strlit("offset");
    reveal_strlit("histogram");
    assert("name"@.len() == 4 && "description"@.len() == 11 && "size"@.len() == 4);
    assert("numElements"@.len() == 11 && "elementSize"@.len() == 11 && "type"@.len() == 4);
    assert("min"@.len() == 3 && "max"@.len() == 3 && "scale"@.len() == 5);
    assert("offset"@.len() == 6 && "histogram"@.len() == 9);
    assert("name"@[0] == 'n' && "size"@[0] == 's' && "type"@[0] == 't');
    assert("description"@[0] == 'd' && "numElements"@[0] == 'n' && "elementSize"@[0] == 'e');
    assert("min"@[1] == 'i' && "max"@[1] == 'a');
}

proof fn lemma_attribute(
    f: FieldView,
    extent: Bounds,
    m: Measured,
    t: Tree,
    i: nat,
    back: spec_fn(Real) -> Real,
)
    requires
        f.elements > 0,
        reads_by(described(f, extent, m), t, back),
    ensures
        attribute_of(t, i) == Ok::<Column, Failure>(column_for(f, extent, m, back)),
        is_plain(f) ==> attribute_notices(t, i).len() == 0,
{
    let fields = described(f, extent, m)->Object_0;
    let (min, max) = domain_of(f, extent, m);
    lemma_attribute_apart(f, extent, m);
    a_field_is_read(fields, t, 0, back);
    a_field_is_read(fields, t, 1, back);
    a_field_is_read(fields, t, 3, back);
    a_field_is_read(fields, t, 4, back);
    a_field_is_read(fields, t, 5, back);
    a_field_is_read(fields, t, 6, back);
    a_field_is_read(fields, t, 7, back);
    no_other_field_is_read(fields, t, "scale"@, back);
    no_other_field_is_read(fields, t, "offset"@, back);
    no_other_field_is_read(fields, t, "histogram"@, back);
    type_names_are_inverse(f.kind, f.kind.spelling());
    assert(t.text_at("name"@) == Some(f.name));
    assert(t.text_at("description"@) == Some(""@));
    assert(t.unsigned_at("numElements"@) == Some(f.elements as u64));
    assert(t.unsigned_at("elementSize"@) == Some((f.size / f.elements) as u64));
    assert(t.text_at("type"@) == Some(f.kind.spelling()));
    assert(elements_of(t) == f.elements);
    lemma_filled(min, f.elements, t.at("min"@)->0, back);
    lemma_filled(max, f.elements, t.at("max"@)->0, back);
    let c = attribute_of(t, i)->Ok_0;
    let want = column_for(f, extent, m, back);
    assert(c.scale =~= want.scale);
    assert(c.offset =~= want.offset);
    assert(c =~= want);
}

proof fn lemma_attributes(
    list: Seq<FieldView>,
    extent: Bounds,
    m: Measured,
    t: Seq<Tree>,
    back: spec_fn(Real) -> Real,
)
    requires
        list.len() == t.len(),
        forall|i: int|
            0 <= i < list.len() ==> (#[trigger] list[i]).elements > 0 && reads_by(
                described(list[i], extent, m),
                t[i],
                back,
            ),
    ensures
        attributes_of(t) == Ok::<Seq<Column>, Failure>(columns_for(list, extent, m, back)),
        (forall|i: int| 0 <= i < list.len() ==> is_plain(#[trigger] list[i]))
            ==> attributes_notices(t).len() == 0,
    decreases list.len(),
{
    if list.len() == 0 {
        assert(columns_for(list, extent, m, back) =~= Seq::empty());
    } else {
        let n = list.len() - 1;
        let a = list.drop_last();
        let b = t.drop_last();
        assert forall|i: int| 0 <= i < a.len() implies (#[trigger] a[i]).elements > 0 && reads_by(
            described(a[i], extent, m),
            b[i],
            back,
        ) by {
            assert(a[i] == list[i]);
        }
        lemma_attributes(a, extent, m, b, back);
        assert(list[n].elements > 0);
        lemma_attribute(list[n], extent, m, t[n], n as nat, back);
        assert(columns_for(list, extent, m, back) =~= columns_for(a, extent, m, back).push(
            column_for(list[n], extent, m, back),
        ));
        if forall|i: int| 0 <= i < list.len() ==> is_plain(#[trigger] list[i]) {
            assert forall|i: int| 0 <= i < a.len() implies is_plain(#[trigger] a[i]) by {
                assert(a[i] == list[i]);
            }
            assert(is_plain(list[n]));
        }
    }
}

proof fn lemma_triple(v: [Real; 3], t: Tree, back: spec_fn(Real) -> Real)
    requires
        are_finite(v),
        reads_by(Json::fractions(v@), t, back),
    ensures
        triple(Some(t)) == Some(read_triple(v, back)),
{
    fractions_are_read(v@, t, back);
    let items = t->Array_0;
    assert(items[0].measure() == Some(back(v@[0])));
    assert(items[1].measure() == Some(back(v@[1])));
    assert(items[2].measure() == Some(back(v@[2])));
    assert(triple(Some(t))->0 =~= read_triple(v, back));
}

proof fn lemma_box(b: Bounds, t: Tree, back: spec_fn(Real) -> Real)
    requires
        is_finite_box(b),
        reads_by(box_tree(b), t, back),
    ensures
        triple(t.at("min"@)) == Some(read_box(b, back).min),
        triple(t.at("max"@)) == Some(read_box(b, back).max),
{
    reveal_strlit("min");
    reveal_strlit("max");
    assert("min"@.len() == 3 && "max"@.len() == 3);
    let fields = box_tree(b)->Object_0;
    assert("min"@[1] == 'i' && "max"@[1] == 'a');
    assert(are_named_apart(fields));
    a_field_is_read(fields, t, 0, back);
    a_field_is_read(fields, t, 1, back);
    lemma_triple(b.min, t.at("min"@)->0, back);
    lemma_triple(b.max, t.at("max"@)->0, back);
}

proof fn lemma_position(w: PotreeWriter, back: spec_fn(Real) -> Real)
    requires
        w.wf(),
        is_finite_box(w.options.extent),
    ensures
        stated_extent(
            laid_out(columns_for(fields_for(w.options), w.options.extent, w.measured, back)),
        ) == Some(read_box(w.options.extent, back)),
{
    let list = fields_for(w.options);
    let extent = w.options.extent;
    let columns = columns_for(list, extent, w.measured, back);
    let placed = laid_out(columns);
    assert(list[0].name == "position"@ && list[0].elements == 3);
    assert(columns[0] == column_for(list[0], extent, w.measured, back));
    assert(placed[0].name == "position"@);
    assert(column_named(placed, "position"@) == Some(placed[0]));
    let b = stated_extent(placed)->0;
    let want = read_box(extent, back);
    assert(placed[0].min =~= want.min@);
    assert(placed[0].max =~= want.max@);
    assert(b.min =~= want.min);
    assert(b.max =~= want.max);
}

proof fn lemma_apart(w: PotreeWriter, name: Seq<char>, first: u64)
    ensures
        are_named_apart(w.manifest(name, first)->Object_0),
{
    reveal_strlit("version");
    reveal_strlit("name");
    reveal_strlit("description");
    reveal_strlit("points");
    reveal_strlit("projection");
    reveal_strlit("hierarchy");
    reveal_strlit("offset");
    reveal_strlit("scale");
    reveal_strlit("spacing");
    reveal_strlit("boundingBox");
    reveal_strlit("encoding");
    reveal_strlit("attributes");
    reveal_strlit("generator");
    reveal_strlit("tightBoundingBox");
    assert("version"@.len() == 7 && "name"@.len() == 4 && "description"@.len() == 11);
    assert("points"@.len() == 6 && "projection"@.len() == 10 && "hierarchy"@.len() == 9);
    assert("offset"@.len() == 6 && "scale"@.len() == 5 && "spacing"@.len() == 7);
    assert("boundingBox"@.len() == 11 && "encoding"@.len() == 8 && "attributes"@.len() == 10);
    assert("generator"@.len() == 9 && "tightBoundingBox"@.len() == 16);
    assert("version"@[0] == 'v' && "spacing"@[0] == 's');
    assert("description"@[0] == 'd' && "boundingBox"@[0] == 'b');
    assert("points"@[0] == 'p' && "offset"@[0] == 'o');
    assert("projection"@[0] == 'p' && "attributes"@[0] == 'a');
    assert("hierarchy"@[0] == 'h' && "generator"@[0] == 'g');
}

/// What a manifest that was written says of itself.
pub open spec fn meta_for(w: PotreeWriter, name: Seq<char>, first_chunk_size: u64) -> Meta {
    Meta {
        version: "2.0"@,
        name,
        description: ""@,
        first_chunk_size,
        step_size: STEP_SIZE,
        depth: w.depth,
        encoding: w.encoding.spelling(),
    }
}

proof fn lemma_meta(
    w: PotreeWriter,
    name: Seq<char>,
    first: u64,
    json: Tree,
    back: spec_fn(Real) -> Real,
)
    requires
        reads_by(w.manifest(name, first), json, back),
    ensures
        metadata_of(json) == meta_for(w, name, first),
        json.text_at("version"@) == Some("2.0"@),
{
    reveal_strlit("firstChunkSize");
    reveal_strlit("stepSize");
    reveal_strlit("depth");
    assert("firstChunkSize"@.len() == 14 && "stepSize"@.len() == 8 && "depth"@.len() == 5);
    let fields = w.manifest(name, first)->Object_0;
    lemma_apart(w, name, first);
    a_field_is_read(fields, json, 0, back);
    a_field_is_read(fields, json, 1, back);
    a_field_is_read(fields, json, 2, back);
    a_field_is_read(fields, json, 5, back);
    a_field_is_read(fields, json, 10, back);
    let h = json.at("hierarchy"@)->0;
    let inner = fields[5].1->Object_0;
    assert(are_named_apart(inner));
    a_field_is_read(inner, h, 0, back);
    a_field_is_read(inner, h, 1, back);
    a_field_is_read(inner, h, 2, back);
    assert(metadata_of(json) =~= meta_for(w, name, first));
}

/// A manifest that was written is read as what was written: the counts, the
/// boxes, the grid, the spacing, the size of the first chunk of the hierarchy, the
/// way the points are stored, the text of the projection and the attributes are
/// those of the writer. Where its attributes are plain there is nothing to warn
/// of. Where the reader reads every fraction back as it was written, so are the
/// numbers to the last place.
#[verifier::spinoff_prover]
#[verifier::rlimit(40)]
pub proof fn a_written_manifest_is_read(
    w: PotreeWriter,
    name: Seq<char>,
    first_chunk_size: u64,
    json: Tree,
    label: Seq<char>,
    back: spec_fn(Real) -> Real,
)
    requires
        w.wf(),
        w.options.is_finite(),
        reads_by(w.manifest(name, first_chunk_size), json, back),
    ensures
        manifest_of(json, label) matches Ok((s, meta, stride)) && {
            let columns = columns_for(fields_for(w.options), w.options.extent, w.measured, back);
            &&& meta == meta_for(w, name, first_chunk_size)
            &&& stride == match w.encoding {
                PotreeEncoding::Default => Some(record_size(columns) as usize),
                PotreeEncoding::Brotli => None,
            }
            &&& s.label == label
            &&& s.version == Some("2.0"@)
            &&& s.point_count == w.points
            &&& s.bounds == read_box(w.options.cube, back)
            &&& s.tight_bounds == read_box(w.options.extent, back)
            &&& s.scale == read_triple(w.options.scale, back)@
            &&& s.offset == read_triple(w.options.offset, back)@
            &&& s.spacing == Some(back(w.options.spacing))
            &&& s.levels == Some(w.depth)
            &&& s.encoding == Some(w.encoding.spelling())
            &&& s.crs == string_declares(crs_text(w.options))
            &&& s.attributes == laid_out(columns)
            &&& s.record_bytes == Some(record_size(columns) as usize)
            &&& (forall|i: int|
                0 <= i < fields_for(w.options).len() ==> is_plain(
                    #[trigger] fields_for(w.options)[i],
                )) ==> s.warnings.len() == 0
        },
{
    reveal_strlit("2.0");
    reveal_strlit("2.");
    reveal_strlit("DEFAULT");
    reveal_strlit("BROTLI");
    assert("2.0"@.len() == 3 && "2."@.len() == 2 && "DEFAULT"@.len() == 7);
    assert("BROTLI"@.len() == 6);
    let fields = w.manifest(name, first_chunk_size)->Object_0;
    let list = fields_for(w.options);
    let extent = w.options.extent;
    lemma_apart(w, name, first_chunk_size);
    lemma_meta(w, name, first_chunk_size, json, back);
    assert("2.0"@.take(2) =~= "2."@);
    a_field_is_read(fields, json, 3, back);
    a_field_is_read(fields, json, 4, back);
    a_field_is_read(fields, json, 6, back);
    a_field_is_read(fields, json, 7, back);
    a_field_is_read(fields, json, 8, back);
    a_field_is_read(fields, json, 9, back);
    a_field_is_read(fields, json, 11, back);
    lemma_triple(w.options.offset, json.at("offset"@)->0, back);
    lemma_triple(w.options.scale, json.at("scale"@)->0, back);
    lemma_box(w.options.cube, json.at("boundingBox"@)->0, back);
    let a = fields[11].1->Array_0;
    let b = json.at("attributes"@)->0->Array_0;
    assert forall|i: int| 0 <= i < list.len() implies (#[trigger] list[i]).elements > 0 && reads_by(
        described(list[i], extent, w.measured),
        b[i],
        back,
    ) by {
        assert(a[i] == described(list[i], extent, w.measured));
        assert(reads_by(a[i], b[i], back));
    }
    lemma_attributes(list, extent, w.measured, b, back);
    lemma_position(w, back);
}

} // verus!
