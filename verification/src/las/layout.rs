//! From a LAS record layout to the neutral attribute vocabulary.
//!
//! A record that does not add up produces a warning and a layout that is still
//! self-consistent.

use super::extra_bytes::{extras, extras_of, parse_extra_bytes, reals_of, Extra, ExtraByteField};
use super::point_format::{
    base_size, dimensions, dims, las_base_size, las_dimensions, unknown_format, Dimension,
    LasAccess, LasDimension,
};
use crate::attribute::{all_of, columns, Attribute, AttributeType, Column};
use crate::bounds::Bounds;
use crate::double::{copy, repeat, Real, ONE, ZERO};
use crate::error::Error;
use crate::text::{cat3, cat5, decimal, decimal_of, quoted, quoted_text, same};
use crate::warning::{notices, notices_push, Notice, Warning};
use vstd::prelude::*;
use vstd::string::*;

verus! {

/// One attribute plus how to read it out of a record.
#[derive(Debug)]
pub struct LasAttribute {
    pub attribute: Attribute,
    pub access: LasAccess,
}

/// An attribute and its place, as the values they hold.
#[verifier::ext_equal]
pub struct Placed {
    pub column: Column,
    pub access: LasAccess,
}

impl View for LasAttribute {
    type V = Placed;

    open spec fn view(&self) -> Placed {
        Placed { column: self.attribute@, access: self.access }
    }
}

/// Several placed attributes, each as the values it holds.
pub open spec fn placed(list: Seq<LasAttribute>) -> Seq<Placed> {
    list.map_values(|a: LasAttribute| a@)
}

pub struct LasLayoutOptions<'a> {
    pub format: u8,
    /// `point_data_record_length` from the header, extra bytes included.
    pub point_size: usize,
    /// Payload of the Extra Bytes VLR (`LASF_Spec`, record 4), when present.
    pub extra_bytes: Option<&'a [u8]>,
    /// Position's true domain, in absolute CRS units.
    pub bounds: Bounds,
    /// GPS time's true domain, when the container knows it.
    pub gps_time_range: Option<[Real; 2]>,
}

#[derive(Debug)]
pub struct LasLayout {
    pub attributes: Vec<LasAttribute>,
    /// Bytes per record. Equal to the header's `point_data_record_length`.
    pub stride: usize,
    pub warnings: Vec<Warning>,
}

/// The first placed attribute with a name.
pub open spec fn placed_named(all: Seq<Placed>, name: Seq<char>) -> Option<Placed>
    decreases all.len(),
{
    if all.len() == 0 {
        None
    } else if all[0].column.name == name {
        Some(all[0])
    } else {
        placed_named(all.skip(1), name)
    }
}

impl LasLayout {
    /// The first attribute with a name.
    pub fn find(&self, name: &str) -> (r: Option<&LasAttribute>)
        ensures
            match r {
                Some(a) => placed_named(placed(self.attributes@), name@) == Some(a@),
                None => placed_named(placed(self.attributes@), name@) is None,
            },
    {
        let ghost all = placed(self.attributes@);
        assert(all.skip(0) =~= all);
        let mut i: usize = 0;
        while i < self.attributes.len()
            invariant
                i <= self.attributes.len(),
                all == placed(self.attributes@),
                placed_named(all, name@) == placed_named(all.skip(i as int), name@),
            decreases self.attributes.len() - i,
        {
            assert(all.skip(i as int)[0] == self.attributes@[i as int]@);
            if same(self.attributes[i].attribute.name.as_str(), name) {
                return Some(&self.attributes[i]);
            }
            assert(all.skip(i as int).skip(1) =~= all.skip(i + 1));
            i = i + 1;
        }
        None
    }

    /// The neutral attributes alone.
    pub fn plain(&self) -> (out: Vec<Attribute>)
        ensures
            columns(out@) == placed(self.attributes@).map_values(|p: Placed| p.column),
    {
        let mut out: Vec<Attribute> = Vec::new();
        let mut i: usize = 0;
        while i < self.attributes.len()
            invariant
                i <= self.attributes.len(),
                out@.len() == i,
                forall|j: int|
                    0 <= j < i ==> (#[trigger] out@[j])@ == self.attributes@[j].attribute@,
            decreases self.attributes.len() - i,
        {
            out.push(self.attributes[i].attribute.duplicate());
            i = i + 1;
        }
        assert(columns(out@) =~= placed(self.attributes@).map_values(|p: Placed| p.column));
        out
    }
}

/// What a file can say of a dimension's domain.
pub struct Domain {
    pub bounds: Bounds,
    pub gps_time_range: Option<[Real; 2]>,
}

/// A dimension of the point format, as an attribute.
pub open spec fn from_dimension(d: Dimension, domain: Domain) -> Placed {
    let min = if d.name == "position"@ {
        domain.bounds.min@
    } else if d.name == "gps-time"@ && domain.gps_time_range is Some {
        seq![domain.gps_time_range->0[0]]
    } else {
        d.min
    };
    let max = if d.name == "position"@ {
        domain.bounds.max@
    } else if d.name == "gps-time"@ && domain.gps_time_range is Some {
        seq![domain.gps_time_range->0[1]]
    } else {
        d.max
    };
    Placed {
        column: Column {
            name: d.name,
            description: d.description,
            kind: d.kind,
            num_elements: d.num_elements,
            byte_offset: d.access.place(),
            min,
            max,
            scale: all_of(ONE, d.num_elements as int),
            offset: all_of(ZERO, d.num_elements as int),
            histogram: None,
        },
        access: d.access,
    }
}

/// What stands in for numbers that are not stated.
pub open spec fn or_fill(v: Option<Seq<Real>>, fill: u64, n: usize) -> Seq<Real> {
    match v {
        Some(s) => s,
        None => all_of(fill, n as int),
    }
}

/// An extra dimension with a type, as an attribute.
pub open spec fn from_extra(f: Extra, kind: AttributeType) -> Placed {
    Placed {
        column: Column {
            name: f.name,
            description: f.description,
            kind,
            num_elements: f.num_elements,
            byte_offset: f.byte_offset,
            min: or_fill(f.min, ZERO, f.num_elements),
            max: or_fill(f.max, ZERO, f.num_elements),
            scale: or_fill(f.scale, ONE, f.num_elements),
            offset: or_fill(f.offset, ZERO, f.num_elements),
            histogram: None,
        },
        access: LasAccess::Scalar { at: f.byte_offset },
    }
}

/// The extra dimensions that have a type, as attributes.
pub open spec fn typed(fields: Seq<Extra>) -> Seq<Placed>
    decreases fields.len(),
{
    if fields.len() == 0 {
        Seq::empty()
    } else {
        match fields.last().kind {
            Some(kind) => typed(fields.drop_last()).push(from_extra(fields.last(), kind)),
            None => typed(fields.drop_last()),
        }
    }
}

/// The first extra dimension without a type.
pub open spec fn first_untyped(fields: Seq<Extra>) -> Option<Extra>
    decreases fields.len(),
{
    if fields.len() == 0 {
        None
    } else if first_untyped(fields.drop_last()) is Some {
        first_untyped(fields.drop_last())
    } else if fields.last().kind is None {
        Some(fields.last())
    } else {
        None
    }
}

/// Bytes that some extra dimensions describe, wrapping at the width of an
/// address.
pub open spec fn described_size(fields: Seq<Extra>) -> usize
    decreases fields.len(),
{
    if fields.len() == 0 {
        0
    } else {
        ((described_size(fields.drop_last()) + fields.last().byte_size) % (usize::MAX + 1)) as usize
    }
}

/// Whether an extra dimension ends within the record.
pub open spec fn within(f: Extra, point_size: usize) -> bool {
    (f.byte_offset + f.byte_size) % (usize::MAX + 1) <= point_size
}

/// The extra dimensions that end within the record.
pub open spec fn kept(fields: Seq<Extra>, point_size: usize) -> Seq<Extra>
    decreases fields.len(),
{
    if fields.len() == 0 {
        Seq::empty()
    } else if within(fields.last(), point_size) {
        kept(fields.drop_last(), point_size).push(fields.last())
    } else {
        kept(fields.drop_last(), point_size)
    }
}

/// The first name from place `i` on that an earlier attribute has too.
pub open spec fn repeated_from(all: Seq<Placed>, i: int) -> Option<Seq<char>>
    decreases all.len() - i,
{
    if i >= all.len() {
        None
    } else if exists|j: int| 0 <= j < i && (#[trigger] all[j]).column.name == all[i].column.name {
        Some(all[i].column.name)
    } else {
        repeated_from(all, i + 1)
    }
}

/// The layout of a record, as the values it holds.
#[verifier::ext_equal]
pub struct Layout {
    pub attributes: Seq<Placed>,
    pub stride: usize,
    pub warnings: Seq<Notice>,
}

impl View for LasLayout {
    type V = Layout;

    open spec fn view(&self) -> Layout {
        Layout {
            attributes: placed(self.attributes@),
            stride: self.stride,
            warnings: notices(self.warnings@),
        }
    }
}

/// What is said when the descriptors and the header disagree.
pub open spec fn mismatch(format: u8, base: usize, described: usize, point_size: usize) -> Notice {
    let extra = if point_size > base {
        (point_size - base) as nat
    } else {
        0
    };
    Notice {
        code: "extra-bytes-mismatch"@,
        path: "extraBytes"@,
        message: "The Extra Bytes VLR describes "@ + decimal(described as nat)
            + " bytes past the "@ + decimal(base as nat) + "-byte format "@ + decimal(format as nat)
            + " record, but the header declares a "@ + decimal(point_size as nat)
            + "-byte record ("@ + decimal(extra)
            + " extra). Fields past the declared end are dropped."@,
    }
}

/// What is said of bytes that nothing can interpret.
pub open spec fn undecodable(f: Extra) -> Notice {
    Notice {
        code: "undecodable-attribute"@,
        path: f.name,
        message: "Extra dimension "@ + quoted_text(f.name) + " is declared as "@ + decimal(
            f.byte_size as nat,
        )
            + " undocumented bytes (data_type 0), which carry no interpretation. It is skipped; the record stride still counts it."@,
    }
}

/// What is said of a name that appears twice.
pub open spec fn duplicate_name(name: Seq<char>) -> Notice {
    Notice {
        code: "duplicate-attribute-name"@,
        path: name,
        message: "Attribute name "@ + quoted_text(name)
            + " appears more than once. Lookups by name resolve to the first occurrence; both keep their own byte offsets."@,
    }
}

/// The extra dimensions that a record carries, and what is said of them.
pub open spec fn carried(format: u8, point_size: usize, record: Option<Seq<u8>>) -> (
    Seq<Extra>,
    Seq<Notice>,
) {
    let base = base_size(format)->0;
    let declared = if point_size > base {
        point_size - base
    } else {
        0
    };
    if record is Some && record->0.len() > 0 {
        let all = extras(record->0, (record->0.len() / 192) as nat, base);
        if described_size(all) != declared {
            (
                kept(all, point_size),
                seq![mismatch(format, base, described_size(all), point_size)],
            )
        } else {
            (all, seq![])
        }
    } else {
        (seq![], seq![])
    }
}

/// The layout of a LAS record: the format's own dimensions, then the extra
/// ones, with a warning for each kind of anomaly.
pub open spec fn layout_of(
    format: u8,
    point_size: usize,
    record: Option<Seq<u8>>,
    domain: Domain,
) -> Layout {
    let (fields, first) = carried(format, point_size, record);
    let attributes = dimensions(format).map_values(|d: Dimension| from_dimension(d, domain))
        + typed(fields);
    let second = match first_untyped(fields) {
        Some(f) => first.push(undecodable(f)),
        None => first,
    };
    let warnings = match repeated_from(attributes, 0) {
        Some(name) => second.push(duplicate_name(name)),
        None => second,
    };
    Layout { attributes, stride: point_size, warnings }
}

/// The bytes of a slice that may be missing.
pub open spec fn bytes_of(s: Option<&[u8]>) -> Option<Seq<u8>> {
    match s {
        Some(b) => Some(b@),
        None => None,
    }
}

fn push_warning(list: &mut Vec<Warning>, w: Warning)
    ensures
        notices(final(list)@) == notices(old(list)@).push(w@),
{
    proof {
        notices_push(list@, w);
    }
    list.push(w);
}

fn place_dimension(d: &LasDimension, bounds: &Bounds, range: &Option<[Real; 2]>) -> (a: LasAttribute)
    ensures
        a@ == from_dimension(d@, Domain { bounds: *bounds, gps_time_range: *range }),
{
    let ghost domain = Domain { bounds: *bounds, gps_time_range: *range };
    let mut min: Vec<Real> = copy(&d.min);
    let mut max: Vec<Real> = copy(&d.max);
    if same(d.name, "position") {
        min = vec![bounds.min[0], bounds.min[1], bounds.min[2]];
        max = vec![bounds.max[0], bounds.max[1], bounds.max[2]];
        assert(min@ =~= bounds.min@);
        assert(max@ =~= bounds.max@);
    } else if same(d.name, "gps-time") {
        if let Some(r) = range {
            min = vec![r[0]];
            max = vec![r[1]];
            assert(min@ =~= seq![r[0]]);
            assert(max@ =~= seq![r[1]]);
        }
    }
    let a = LasAttribute {
        attribute: Attribute {
            name: d.name.to_owned(),
            description: d.description.to_owned(),
            kind: d.kind,
            num_elements: d.num_elements,
            byte_offset: d.access.at(),
            min,
            max,
            scale: repeat(Real { bits: ONE }, d.num_elements),
            offset: repeat(Real { bits: ZERO }, d.num_elements),
            histogram: None,
        },
        access: d.access,
    };
    assert(a@ =~= from_dimension(d@, domain));
    a
}

fn stated_or(v: &Option<Vec<Real>>, fill: u64, n: usize) -> (out: Vec<Real>)
    ensures
        out@ == or_fill(reals_of(*v), fill, n),
{
    match v {
        Some(s) => copy(s),
        None => repeat(Real { bits: fill }, n),
    }
}

fn place_extra(f: &ExtraByteField, kind: AttributeType) -> (a: LasAttribute)
    ensures
        a@ == from_extra(f@, kind),
{
    let n: usize = f.num_elements;
    let a = LasAttribute {
        attribute: Attribute {
            name: f.name.clone(),
            description: f.description.clone(),
            kind,
            num_elements: n,
            byte_offset: f.byte_offset,
            min: stated_or(&f.min, ZERO, n),
            max: stated_or(&f.max, ZERO, n),
            scale: stated_or(&f.scale, ONE, n),
            offset: stated_or(&f.offset, ZERO, n),
            histogram: None,
        },
        access: LasAccess::Scalar { at: f.byte_offset },
    };
    assert(a@ =~= from_extra(f@, kind));
    a
}

fn total_described(fields: &Vec<ExtraByteField>) -> (n: usize)
    ensures
        n == described_size(extras_of(fields@)),
{
    let ghost all = extras_of(fields@);
    let mut total: usize = 0;
    let mut i: usize = 0;
    assert(all.take(0) =~= Seq::<Extra>::empty());
    while i < fields.len()
        invariant
            i <= fields.len(),
            all == extras_of(fields@),
            total == described_size(all.take(i as int)),
        decreases fields.len() - i,
    {
        assert(all.take(i + 1).drop_last() =~= all.take(i as int));
        assert(all.take(i + 1).last() == fields@[i as int]@);
        proof {
            crate::bytes::wrapped_sum(total, fields@[i as int].byte_size);
        }
        total = total.wrapping_add(fields[i].byte_size);
        i = i + 1;
    }
    assert(all.take(i as int) =~= all);
    total
}

fn keep_within(mut fields: Vec<ExtraByteField>, point_size: usize) -> (out: Vec<ExtraByteField>)
    ensures
        extras_of(out@) == kept(extras_of(fields@), point_size),
    decreases fields@.len(),
{
    let ghost all = extras_of(fields@);
    match fields.pop() {
        None => {
            assert(extras_of(fields@) =~= kept(all, point_size));
            fields
        },
        Some(last) => {
            assert(all.drop_last() =~= extras_of(fields@));
            assert(all.last() == last@);
            let keep = last.byte_offset.wrapping_add(last.byte_size) <= point_size;
            proof {
                crate::bytes::wrapped_sum(last.byte_offset, last.byte_size);
            }
            let mut out = keep_within(fields, point_size);
            if keep {
                let ghost before = out@;
                out.push(last);
                assert(extras_of(out@) =~= extras_of(before).push(last@));
            }
            out
        },
    }
}

fn mismatch_warning(format: u8, base: usize, described: usize, point_size: usize) -> (w: Warning)
    ensures
        w@ == mismatch(format, base, described, point_size),
{
    let extra: usize = if point_size > base {
        point_size - base
    } else {
        0
    };
    let described_text = decimal_of(described as u64);
    let base_text = decimal_of(base as u64);
    let mut message = cat5(
        "The Extra Bytes VLR describes ",
        described_text.as_str(),
        " bytes past the ",
        base_text.as_str(),
        "-byte format ",
    );
    let n = decimal_of(format as u64);
    message.append(n.as_str());
    message.append(" record, but the header declares a ");
    let n = decimal_of(point_size as u64);
    message.append(n.as_str());
    message.append("-byte record (");
    let n = decimal_of(extra as u64);
    message.append(n.as_str());
    message.append(" extra). Fields past the declared end are dropped.");
    Warning::new("extra-bytes-mismatch", "extraBytes".to_owned(), message)
}

fn undecodable_warning(f: &ExtraByteField) -> (w: Warning)
    ensures
        w@ == undecodable(f@),
{
    let name = quoted(f.name.as_str());
    let size = decimal_of(f.byte_size as u64);
    let message = cat5(
        "Extra dimension ",
        name.as_str(),
        " is declared as ",
        size.as_str(),
        " undocumented bytes (data_type 0), which carry no interpretation. It is skipped; the record stride still counts it.",
    );
    Warning::new("undecodable-attribute", f.name.clone(), message)
}

fn find_repeated(list: &Vec<LasAttribute>) -> (r: Option<String>)
    ensures
        match r {
            Some(name) => repeated_from(placed(list@), 0) == Some(name@),
            None => repeated_from(placed(list@), 0) is None,
        },
{
    let ghost all = placed(list@);
    let mut i: usize = 0;
    while i < list.len()
        invariant
            i <= list.len(),
            all == placed(list@),
            repeated_from(all, 0) == repeated_from(all, i as int),
        decreases list.len() - i,
    {
        let mut j: usize = 0;
        while j < i
            invariant
                j <= i < list.len(),
                all == placed(list@),
                repeated_from(all, 0) == repeated_from(all, i as int),
                forall|k: int|
                    0 <= k < j ==> (#[trigger] all[k]).column.name != all[i as int].column.name,
            decreases i - j,
        {
            assert(all[j as int] == list@[j as int]@);
            assert(all[i as int] == list@[i as int]@);
            if same(list[j].attribute.name.as_str(), list[i].attribute.name.as_str()) {
                return Some(list[i].attribute.name.clone());
            }
            j = j + 1;
        }
        i = i + 1;
    }
    None
}

/// Build the attribute list for a LAS record.
pub fn las_layout(options: &LasLayoutOptions<'_>) -> (r: Result<LasLayout, Error>)
    ensures
        match r {
            Ok(l) => options.format <= 10 && l@ == layout_of(
                options.format,
                options.point_size,
                bytes_of(options.extra_bytes),
                Domain { bounds: options.bounds, gps_time_range: options.gps_time_range },
            ),
            Err(e) => options.format > 10 && e@ == unknown_format(options.format),
        },
{
    let ghost domain = Domain { bounds: options.bounds, gps_time_range: options.gps_time_range };
    let ghost record = bytes_of(options.extra_bytes);
    let base: usize = match las_base_size(options.format) {
        Ok(n) => n,
        Err(e) => {
            return Err(e);
        },
    };
    let mut warnings: Vec<Warning> = Vec::new();
    let mut fields: Vec<ExtraByteField> = Vec::new();
    assert(notices(warnings@) =~= Seq::<Notice>::empty());
    assert(extras_of(fields@) =~= Seq::<Extra>::empty());
    let declared: usize = if options.point_size > base {
        options.point_size - base
    } else {
        0
    };
    if let Some(record) = options.extra_bytes {
        if record.len() > 0 {
            fields = parse_extra_bytes(record, base);
            let described = total_described(&fields);
            if described != declared {
                push_warning(
                    &mut warnings,
                    mismatch_warning(options.format, base, described, options.point_size),
                );
                fields = keep_within(fields, options.point_size);
            }
        }
    }
    let ghost (extra_fields, first) = carried(options.format, options.point_size, record);
    assert(notices(warnings@) =~= first);
    assert(extras_of(fields@) =~= extra_fields);
    let dimension_list = match las_dimensions(options.format) {
        Ok(list) => list,
        Err(e) => {
            return Err(e);
        },
    };
    let mut attributes: Vec<LasAttribute> = Vec::new();
    let mut i: usize = 0;
    while i < dimension_list.len()
        invariant
            i <= dimension_list.len(),
            domain == (Domain { bounds: options.bounds, gps_time_range: options.gps_time_range }),
            attributes@.len() == i,
            forall|j: int|
                0 <= j < i ==> (#[trigger] attributes@[j])@ == from_dimension(
                    dimension_list@[j]@,
                    domain,
                ),
        decreases dimension_list.len() - i,
    {
        attributes.push(
            place_dimension(&dimension_list[i], &options.bounds, &options.gps_time_range),
        );
        i = i + 1;
    }
    let ghost own = dimensions(options.format).map_values(
        |d: Dimension| from_dimension(d, domain),
    );
    assert(placed(attributes@) =~= own) by {
        assert(dims(dimension_list@) == dimensions(options.format));
        assert forall|j: int| 0 <= j < attributes@.len() implies placed(attributes@)[j]
            == own[j] by {
            assert(dims(dimension_list@)[j] == dimension_list@[j]@);
        }
    }
    let mut noted: bool = false;
    let mut k: usize = 0;
    assert(extra_fields.take(0) =~= Seq::<Extra>::empty());
    assert(own + typed(extra_fields.take(0)) =~= own);
    while k < fields.len()
        invariant
            k <= fields.len(),
            extras_of(fields@) == extra_fields,
            placed(attributes@) == own + typed(extra_fields.take(k as int)),
            noted == (first_untyped(extra_fields.take(k as int)) is Some),
            notices(warnings@) == match first_untyped(extra_fields.take(k as int)) {
                Some(f) => first.push(undecodable(f)),
                None => first,
            },
        decreases fields.len() - k,
    {
        let ghost before = attributes@;
        proof {
            assert(extra_fields.take(k + 1).drop_last() =~= extra_fields.take(k as int));
            assert(extra_fields.take(k + 1).last() == fields@[k as int]@);
        }
        match fields[k].kind {
            Some(kind) => {
                let a = place_extra(&fields[k], kind);
                attributes.push(a);
                assert(placed(attributes@) =~= placed(before).push(a@));
                assert(placed(attributes@) =~= own + typed(extra_fields.take(k + 1)));
            },
            None => {
                if !noted {
                    push_warning(&mut warnings, undecodable_warning(&fields[k]));
                    noted = true;
                }
            },
        }
        k = k + 1;
    }
    assert(extra_fields.take(k as int) =~= extra_fields);
    if let Some(name) = find_repeated(&attributes) {
        let q = quoted(name.as_str());
        let message = cat3(
            "Attribute name ",
            q.as_str(),
            " appears more than once. Lookups by name resolve to the first occurrence; both keep their own byte offsets.",
        );
        push_warning(&mut warnings, Warning::new("duplicate-attribute-name", name, message));
    }
    let layout = LasLayout { attributes, stride: options.point_size, warnings };
    assert(layout@ =~= layout_of(options.format, options.point_size, record, domain));
    Ok(layout)
}

} // verus!
