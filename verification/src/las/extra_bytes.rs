//! The Extra Bytes VLR: `LASF_Spec` record 4.
//!
//! A LAS record may carry dimensions the format never named, and this 192-byte
//! descriptor per dimension is how the file says what they are.

use super::{double_at, fixed_str, fixed_text};
use crate::attribute::AttributeType;
use crate::bytes::real_at;
use crate::double::Real;
use crate::text::{cat2, decimal, decimal_of};
use vstd::prelude::*;

verus! {

/// Bytes of one descriptor.
pub const DESCRIPTOR_SIZE: usize = 192;

/// One extra dimension, as the VLR describes it.
#[derive(Debug, Clone)]
pub struct ExtraByteField {
    pub name: String,
    pub description: String,
    /// `None` for raw bytes with no interpretation.
    pub kind: Option<AttributeType>,
    pub num_elements: usize,
    /// Bytes this field occupies in the record.
    pub byte_size: usize,
    /// Offset within one record.
    pub byte_offset: usize,
    pub min: Option<Vec<Real>>,
    pub max: Option<Vec<Real>>,
    pub scale: Option<Vec<Real>>,
    pub offset: Option<Vec<Real>>,
}

/// An extra dimension, as the values it holds.
#[verifier::ext_equal]
pub struct Extra {
    pub name: Seq<char>,
    pub description: Seq<char>,
    pub kind: Option<AttributeType>,
    pub num_elements: usize,
    pub byte_size: usize,
    pub byte_offset: usize,
    pub min: Option<Seq<Real>>,
    pub max: Option<Seq<Real>>,
    pub scale: Option<Seq<Real>>,
    pub offset: Option<Seq<Real>>,
}

/// Numbers that may be missing.
pub open spec fn reals_of(v: Option<Vec<Real>>) -> Option<Seq<Real>> {
    match v {
        Some(v) => Some(v@),
        None => None,
    }
}

impl View for ExtraByteField {
    type V = Extra;

    open spec fn view(&self) -> Extra {
        Extra {
            name: self.name@,
            description: self.description@,
            kind: self.kind,
            num_elements: self.num_elements,
            byte_size: self.byte_size,
            byte_offset: self.byte_offset,
            min: reals_of(self.min),
            max: reals_of(self.max),
            scale: reals_of(self.scale),
            offset: reals_of(self.offset),
        }
    }
}

/// Several extra dimensions, each as the values it holds.
pub open spec fn extras_of(list: Seq<ExtraByteField>) -> Seq<Extra> {
    list.map_values(|f: ExtraByteField| f@)
}

/// The type that a code from one to ten stands for.
pub open spec fn coded_type(code: u8) -> Option<AttributeType> {
    match code {
        1 => Some(AttributeType::Uint8),
        2 => Some(AttributeType::Int8),
        3 => Some(AttributeType::Uint16),
        4 => Some(AttributeType::Int16),
        5 => Some(AttributeType::Uint32),
        6 => Some(AttributeType::Int32),
        7 => Some(AttributeType::Uint64),
        8 => Some(AttributeType::Int64),
        9 => Some(AttributeType::Float),
        10 => Some(AttributeType::Double),
        _ => None,
    }
}

/// `data_type` to a type.
fn base_type(data_type: u8) -> (r: Option<AttributeType>)
    ensures
        r == coded_type(data_type),
{
    match data_type {
        1 => Some(AttributeType::Uint8),
        2 => Some(AttributeType::Int8),
        3 => Some(AttributeType::Uint16),
        4 => Some(AttributeType::Int16),
        5 => Some(AttributeType::Uint32),
        6 => Some(AttributeType::Int32),
        7 => Some(AttributeType::Uint64),
        8 => Some(AttributeType::Int64),
        9 => Some(AttributeType::Float),
        10 => Some(AttributeType::Double),
        _ => None,
    }
}

/// How many values a field holds per point: the codes above ten are the
/// two-element and three-element variants of the first ten.
pub open spec fn elements(data_type: u8) -> usize {
    if data_type > 20 {
        3
    } else if data_type > 10 {
        2
    } else {
        1
    }
}

/// The type of each value.
pub open spec fn element_type(data_type: u8) -> AttributeType {
    if data_type > 10 {
        coded_type(((data_type - 11) % 10 + 1) as u8)->0
    } else {
        coded_type(data_type)->0
    }
}

/// The values in the slots at a place, when an option says they are there.
pub open spec fn slots(d: Seq<u8>, at: int, n: usize, present: bool) -> Option<Seq<Real>> {
    if present {
        Some(Seq::new(n as nat, |k: int| double_at(d, at + 8 * k)))
    } else {
        None
    }
}

/// The field that descriptor `i` describes, at a place in the record.
#[verifier::opaque]
pub open spec fn described(d: Seq<u8>, i: int, at: usize) -> Extra {
    let data_type = d[2];
    let options = d[3];
    let raw_name = fixed_text(d.subrange(4, 36));
    let name = if raw_name.len() == 0 {
        "extra "@ + decimal(i as nat)
    } else {
        raw_name
    };
    let description = fixed_text(d.subrange(160, 192));
    if data_type == 0 {
        Extra {
            name,
            description,
            kind: None,
            num_elements: 1,
            byte_size: options as usize,
            byte_offset: at,
            min: None,
            max: None,
            scale: None,
            offset: None,
        }
    } else {
        let n = elements(data_type);
        let kind = element_type(data_type);
        Extra {
            name,
            description,
            kind: Some(kind),
            num_elements: n,
            byte_size: (kind.width() * n) as usize,
            byte_offset: at,
            min: slots(d, 64, n, options / 2 % 2 == 1),
            max: slots(d, 88, n, options / 4 % 2 == 1),
            scale: slots(d, 112, n, options / 8 % 2 == 1),
            offset: slots(d, 136, n, options / 16 % 2 == 1),
        }
    }
}

/// Where the field after some others starts. Places wrap at the width of an
/// address.
pub open spec fn next_place(before: Seq<Extra>, first: usize) -> usize {
    if before.len() == 0 {
        first
    } else {
        ((before.last().byte_offset + before.last().byte_size) % (usize::MAX + 1)) as usize
    }
}

/// The first `n` fields that a record describes, each after the one before it.
pub open spec fn extras(record: Seq<u8>, n: nat, first: usize) -> Seq<Extra>
    decreases n,
{
    if n == 0 {
        Seq::empty()
    } else {
        let before = extras(record, (n - 1) as nat, first);
        let i = n - 1;
        before.push(described(record.subrange(192 * i, 192 * i + 192), i, next_place(before, first)))
    }
}

fn triple(d: &[u8], at: usize, n: usize, present: bool) -> (r: Option<Vec<Real>>)
    requires
        n <= 3,
        at + 24 <= d.len(),
    ensures
        reals_of(r) == slots(d@, at as int, n, present),
{
    if !present {
        return None;
    }
    let mut out: Vec<Real> = Vec::new();
    let mut k: usize = 0;
    while k < n
        invariant
            k <= n <= 3,
            at + 24 <= d.len(),
            out@.len() == k,
            forall|j: int| 0 <= j < k ==> out@[j] == double_at(d@, at + 8 * j),
        decreases n - k,
    {
        out.push(real_at(d, at + k * 8));
        k = k + 1;
    }
    assert(out@ =~= Seq::new(n as nat, |k: int| double_at(d@, at + 8 * k)));
    Some(out)
}

fn describe(d: &[u8], i: usize, at: usize) -> (f: ExtraByteField)
    requires
        d.len() == 192,
    ensures
        f@ == described(d@, i as int, at),
        f.byte_offset == at,
{
    proof {
        reveal(described);
    }
    let data_type: u8 = d[2];
    let options: u8 = d[3];
    let raw_name = fixed_str(d, 4, 36);
    let name = if raw_name.as_str().is_empty() {
        let n = decimal_of(i as u64);
        cat2("extra ", n.as_str())
    } else {
        raw_name
    };
    let description = fixed_str(d, 160, 192);
    if data_type == 0 {
        let f = ExtraByteField {
            name,
            description,
            kind: None,
            num_elements: 1,
            byte_size: options as usize,
            byte_offset: at,
            min: None,
            max: None,
            scale: None,
            offset: None,
        };
        assert(f@ =~= described(d@, i as int, at));
        return f;
    }
    let n: usize = if data_type > 20 {
        3
    } else if data_type > 10 {
        2
    } else {
        1
    };
    let code: u8 = if data_type > 10 {
        (data_type - 11) % 10 + 1
    } else {
        data_type
    };
    let kind = match base_type(code) {
        Some(k) => k,
        None => AttributeType::Uint8,
    };
    let width: usize = kind.size();
    assert(width * n <= 24 && width * n == n * width) by (nonlinear_arith)
        requires
            width <= 8,
            n <= 3,
    ;
    let f = ExtraByteField {
        name,
        description,
        kind: Some(kind),
        num_elements: n,
        byte_size: width * n,
        byte_offset: at,
        min: triple(d, 64, n, options / 2 % 2 == 1),
        max: triple(d, 88, n, options / 4 % 2 == 1),
        scale: triple(d, 112, n, options / 8 % 2 == 1),
        offset: triple(d, 136, n, options / 16 % 2 == 1),
    };
    assert(f@ =~= described(d@, i as int, at));
    f
}

/// Parse an Extra Bytes VLR payload into fields, in record order.
///
/// `first_offset` is the byte offset of the first extra field within a record,
/// which is the point format's base size.
pub fn parse_extra_bytes(record: &[u8], first_offset: usize) -> (out: Vec<ExtraByteField>)
    ensures
        extras_of(out@) == extras(record@, (record@.len() / 192) as nat, first_offset),
{
    let count: usize = record.len() / DESCRIPTOR_SIZE;
    let mut out: Vec<ExtraByteField> = Vec::new();
    let mut at: usize = first_offset;
    let mut i: usize = 0;
    assert(extras_of(out@) =~= Seq::<Extra>::empty());
    while i < count
        invariant
            i <= count,
            count == record@.len() / 192,
            record@.len() == record.len(),
            extras_of(out@) == extras(record@, i as nat, first_offset),
            at == next_place(extras_of(out@), first_offset),
        decreases count - i,
    {
        let ghost before = extras_of(out@);
        let d = crate::bytes::slice_of(record, i * 192, i * 192 + 192);
        let field = describe(d.as_slice(), i, at);
        let size: usize = field.byte_size;
        proof {
            assert(extras_of(out@.push(field)) =~= before.push(field@));
            assert(extras(record@, (i + 1) as nat, first_offset) == before.push(field@));
            assert(before.push(field@).last() == field@);
        }
        out.push(field);
        proof {
            crate::bytes::wrapped_sum(at, size);
        }
        at = at.wrapping_add(size);
        i = i + 1;
    }
    out
}

} // verus!
