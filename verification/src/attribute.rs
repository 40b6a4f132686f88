//! The neutral attribute vocabulary.
//!
//! Names are whatever the source format declared, verbatim. The one derived
//! thing is [`AttributeRole`], which is how a renderer finds position and
//! colour without knowing the format.

use crate::double::{repeat, Real, ONE, ZERO};
use crate::text::same;
use vstd::prelude::*;

verus! {

/// The element types a point attribute can have.
#[derive(Debug, Clone, Copy, PartialEq, Eq, Hash, Structural)]
pub enum AttributeType {
    Int8,
    Uint8,
    Int16,
    Uint16,
    Int32,
    Uint32,
    Int64,
    Uint64,
    Float,
    Double,
}

impl AttributeType {
    /// Bytes of one element.
    pub open spec fn width(self) -> usize {
        match self {
            AttributeType::Int8 | AttributeType::Uint8 => 1,
            AttributeType::Int16 | AttributeType::Uint16 => 2,
            AttributeType::Int32 | AttributeType::Uint32 | AttributeType::Float => 4,
            AttributeType::Int64 | AttributeType::Uint64 | AttributeType::Double => 8,
        }
    }

    /// Bytes of one element.
    pub fn size(self) -> (n: usize)
        ensures
            n == self.width(),
            n == 1 || n == 2 || n == 4 || n == 8,
    {
        match self {
            AttributeType::Int8 | AttributeType::Uint8 => 1,
            AttributeType::Int16 | AttributeType::Uint16 => 2,
            AttributeType::Int32 | AttributeType::Uint32 | AttributeType::Float => 4,
            AttributeType::Int64 | AttributeType::Uint64 | AttributeType::Double => 8,
        }
    }

    /// The manifest spelling.
    pub open spec fn spelling(self) -> Seq<char> {
        match self {
            AttributeType::Int8 => "int8"@,
            AttributeType::Uint8 => "uint8"@,
            AttributeType::Int16 => "int16"@,
            AttributeType::Uint16 => "uint16"@,
            AttributeType::Int32 => "int32"@,
            AttributeType::Uint32 => "uint32"@,
            AttributeType::Int64 => "int64"@,
            AttributeType::Uint64 => "uint64"@,
            AttributeType::Float => "float"@,
            AttributeType::Double => "double"@,
        }
    }

    /// The manifest spelling.
    pub fn name(self) -> (s: &'static str)
        ensures
            s@ == self.spelling(),
    {
        match self {
            AttributeType::Int8 => "int8",
            AttributeType::Uint8 => "uint8",
            AttributeType::Int16 => "int16",
            AttributeType::Uint16 => "uint16",
            AttributeType::Int32 => "int32",
            AttributeType::Uint32 => "uint32",
            AttributeType::Int64 => "int64",
            AttributeType::Uint64 => "uint64",
            AttributeType::Float => "float",
            AttributeType::Double => "double",
        }
    }

    /// The type with this spelling, if it is one of the ten.
    pub open spec fn spelt(name: Seq<char>) -> Option<Self> {
        if name == "int8"@ {
            Some(AttributeType::Int8)
        } else if name == "uint8"@ {
            Some(AttributeType::Uint8)
        } else if name == "int16"@ {
            Some(AttributeType::Int16)
        } else if name == "uint16"@ {
            Some(AttributeType::Uint16)
        } else if name == "int32"@ {
            Some(AttributeType::Int32)
        } else if name == "uint32"@ {
            Some(AttributeType::Uint32)
        } else if name == "int64"@ {
            Some(AttributeType::Int64)
        } else if name == "uint64"@ {
            Some(AttributeType::Uint64)
        } else if name == "float"@ {
            Some(AttributeType::Float)
        } else if name == "double"@ {
            Some(AttributeType::Double)
        } else {
            None
        }
    }

    /// The type with this spelling, if it is one of the ten.
    pub fn parse(name: &str) -> (r: Option<Self>)
        ensures
            r == AttributeType::spelt(name@),
    {
        if same(name, "int8") {
            Some(AttributeType::Int8)
        } else if same(name, "uint8") {
            Some(AttributeType::Uint8)
        } else if same(name, "int16") {
            Some(AttributeType::Int16)
        } else if same(name, "uint16") {
            Some(AttributeType::Uint16)
        } else if same(name, "int32") {
            Some(AttributeType::Int32)
        } else if same(name, "uint32") {
            Some(AttributeType::Uint32)
        } else if same(name, "int64") {
            Some(AttributeType::Int64)
        } else if same(name, "uint64") {
            Some(AttributeType::Uint64)
        } else if same(name, "float") {
            Some(AttributeType::Float)
        } else if same(name, "double") {
            Some(AttributeType::Double)
        } else {
            None
        }
    }

    /// True for the two widths nothing downstream can decode without loss.
    pub fn is_undecodable(self) -> (r: bool)
        ensures
            r == (self == AttributeType::Int64 || self == AttributeType::Uint64),
    {
        matches!(self, AttributeType::Int64 | AttributeType::Uint64)
    }
}

/// Every type is found again by its own spelling, and a spelling that is found
/// is the type's own.
pub proof fn type_names_are_inverse(kind: AttributeType, name: Seq<char>)
    ensures
        AttributeType::spelt(kind.spelling()) == Some(kind),
        AttributeType::spelt(name) == Some(kind) ==> name == kind.spelling(),
{
    reveal_strlit("int8");
    reveal_strlit("uint8");
    reveal_strlit("int16");
    reveal_strlit("uint16");
    reveal_strlit("int32");
    reveal_strlit("uint32");
    reveal_strlit("int64");
    reveal_strlit("uint64");
    reveal_strlit("float");
    reveal_strlit("double");
    assert("int8"@[0] == 'i' && "uint8"@[0] == 'u' && "int16"@[0] == 'i' && "uint16"@[0] == 'u');
    assert("int32"@[0] == 'i' && "uint32"@[0] == 'u' && "int64"@[0] == 'i' && "uint64"@[0] == 'u');
    assert("float"@[0] == 'f' && "double"@[0] == 'd');
    assert("int16"@[3] == '1' && "int32"@[3] == '3' && "int64"@[3] == '6');
    assert("uint16"@[4] == '1' && "uint32"@[4] == '3' && "uint64"@[4] == '6');
    assert("int8"@.len() == 4 && "uint8"@.len() == 5);
}

/// The two attributes a renderer must find without knowing the format.
#[derive(Debug, Clone, Copy, PartialEq, Eq, Structural)]
pub enum AttributeRole {
    Position,
    Color,
}

/// The role that a name plays, by exact membership.
pub open spec fn role_of(name: Seq<char>) -> Option<AttributeRole> {
    if name == "position"@ || name == "POSITION_CARTESIAN"@ {
        Some(AttributeRole::Position)
    } else if name == "rgb"@ || name == "rgba"@ || name == "RGBA"@ {
        Some(AttributeRole::Color)
    } else {
        None
    }
}

impl AttributeRole {
    /// Assigned by exact-name membership.
    pub fn of(name: &str) -> (r: Option<Self>)
        ensures
            r == role_of(name@),
    {
        if same(name, "position") || same(name, "POSITION_CARTESIAN") {
            Some(AttributeRole::Position)
        } else if same(name, "rgb") || same(name, "rgba") || same(name, "RGBA") {
            Some(AttributeRole::Color)
        } else {
            None
        }
    }
}

/// One attribute of a point record.
#[derive(Debug)]
pub struct Attribute {
    /// Verbatim from the source. Spaces and hyphens included.
    pub name: String,
    /// `""` when the source omits it.
    pub description: String,
    pub kind: AttributeType,
    pub num_elements: usize,
    /// Byte offset within one record, for the record-oriented encodings.
    pub byte_offset: usize,
    /// Semantic bounds in the attribute's own domain, one per element.
    pub min: Vec<Real>,
    pub max: Vec<Real>,
    /// Per-element affine transform. All-ones and all-zeros when unstated.
    pub scale: Vec<Real>,
    pub offset: Vec<Real>,
    /// Value histogram, when the source carried one.
    pub histogram: Option<Vec<u64>>,
}

/// An attribute, as the values it holds.
#[verifier::ext_equal]
pub struct Column {
    pub name: Seq<char>,
    pub description: Seq<char>,
    pub kind: AttributeType,
    pub num_elements: usize,
    pub byte_offset: usize,
    pub min: Seq<Real>,
    pub max: Seq<Real>,
    pub scale: Seq<Real>,
    pub offset: Seq<Real>,
    pub histogram: Option<Seq<u64>>,
}

impl View for Attribute {
    type V = Column;

    open spec fn view(&self) -> Column {
        Column {
            name: self.name@,
            description: self.description@,
            kind: self.kind,
            num_elements: self.num_elements,
            byte_offset: self.byte_offset,
            min: self.min@,
            max: self.max@,
            scale: self.scale@,
            offset: self.offset@,
            histogram: match self.histogram {
                Some(h) => Some(h@),
                None => None,
            },
        }
    }
}

/// A record's attributes, as the values they hold.
pub open spec fn columns(attributes: Seq<Attribute>) -> Seq<Column> {
    attributes.map_values(|a: Attribute| a@)
}

/// The attributes grow by one.
pub proof fn columns_push(attributes: Seq<Attribute>, a: Attribute)
    ensures
        columns(attributes.push(a)) == columns(attributes).push(a@),
{
    assert(columns(attributes.push(a)) =~= columns(attributes).push(a@));
}

/// `n` copies of one number.
pub open spec fn all_of(bits: u64, n: int) -> Seq<Real> {
    Seq::new(n as nat, |i: int| Real { bits })
}

impl Column {
    /// This attribute's contribution to a record, wrapping at the width of an
    /// address.
    pub open spec fn bytes(self) -> int {
        (self.num_elements * self.kind.width()) % (usize::MAX + 1)
    }

    /// An attribute with identity transforms and no stated domain.
    pub open spec fn plain(name: Seq<char>, kind: AttributeType, num_elements: usize) -> Self {
        Column {
            name,
            description: Seq::empty(),
            kind,
            num_elements,
            byte_offset: 0,
            min: all_of(ZERO, num_elements as int),
            max: all_of(ZERO, num_elements as int),
            scale: all_of(ONE, num_elements as int),
            offset: all_of(ZERO, num_elements as int),
            histogram: None,
        }
    }
}

impl Attribute {
    /// This attribute's stride contribution: elements times element size.
    pub fn byte_size(&self) -> (n: usize)
        ensures
            n == self@.bytes(),
    {
        self.num_elements.wrapping_mul(self.kind.size())
    }

    pub fn role(&self) -> (r: Option<AttributeRole>)
        ensures
            r == role_of(self@.name),
    {
        AttributeRole::of(self.name.as_str())
    }

    /// An attribute with identity transforms and no stated domain.
    pub fn new(name: String, kind: AttributeType, num_elements: usize) -> (a: Self)
        ensures
            a@ == Column::plain(name@, kind, num_elements),
    {
        let zero = Real { bits: ZERO };
        let one = Real { bits: ONE };
        let a = Attribute {
            name,
            description: String::new(),
            kind,
            num_elements,
            byte_offset: 0,
            min: repeat(zero, num_elements),
            max: repeat(zero, num_elements),
            scale: repeat(one, num_elements),
            offset: repeat(zero, num_elements),
            histogram: None,
        };
        assert(a@ =~= Column::plain(name@, kind, num_elements));
        a
    }

    /// An attribute that says the same.
    pub fn duplicate(&self) -> (a: Self)
        ensures
            a@ == self@,
    {
        let a = Attribute {
            name: self.name.clone(),
            description: self.description.clone(),
            kind: self.kind,
            num_elements: self.num_elements,
            byte_offset: self.byte_offset,
            min: crate::double::copy(&self.min),
            max: crate::double::copy(&self.max),
            scale: crate::double::copy(&self.scale),
            offset: crate::double::copy(&self.offset),
            histogram: match &self.histogram {
                Some(h) => Some(copy_counts(h)),
                None => None,
            },
        };
        assert(a@ =~= self@);
        a
    }
}

fn copy_counts(values: &Vec<u64>) -> (out: Vec<u64>)
    ensures
        out@ == values@,
{
    let mut out: Vec<u64> = Vec::new();
    let mut i: usize = 0;
    while i < values.len()
        invariant
            i <= values.len(),
            out@ == values@.take(i as int),
        decreases values.len() - i,
    {
        out.push(values[i]);
        assert(values@.take(i as int).push(values@[i as int]) =~= values@.take(i + 1));
        i = i + 1;
    }
    assert(values@.take(i as int) =~= values@);
    out
}

/// Bytes of a record made of these attributes, wrapping at the width of an
/// address.
pub open spec fn record_size(columns: Seq<Column>) -> int
    decreases columns.len(),
{
    if columns.len() == 0 {
        0
    } else {
        (record_size(columns.drop_last()) + columns.last().bytes()) % (usize::MAX + 1)
    }
}

/// A record's attributes with each offset set to the size of what precedes it.
pub open spec fn laid_out(columns: Seq<Column>) -> Seq<Column> {
    Seq::new(
        columns.len(),
        |i: int|
            Column { byte_offset: record_size(columns.take(i)) as usize, ..columns[i] },
    )
}

/// The size of a record does not depend on the offsets already assigned.
pub proof fn record_size_ignores_offsets(a: Seq<Column>, b: Seq<Column>)
    requires
        a.len() == b.len(),
        forall|i: int|
            0 <= i < a.len() ==> (#[trigger] a[i]).num_elements == b[i].num_elements && a[i].kind
                == b[i].kind,
    ensures
        record_size(a) == record_size(b),
    decreases a.len(),
{
    if a.len() > 0 {
        record_size_ignores_offsets(a.drop_last(), b.drop_last());
    }
}

/// Assign `byte_offset` down a record in declaration order: no alignment, no
/// padding.
pub fn lay_out(attributes: &mut Vec<Attribute>) -> (size: usize)
    ensures
        columns(final(attributes)@) == laid_out(columns(old(attributes)@)),
        size == record_size(columns(old(attributes)@)),
{
    let ghost before = columns(attributes@);
    let n: usize = attributes.len();
    let mut at: usize = 0;
    let mut i: usize = 0;
    assert(before.take(0) =~= Seq::<Column>::empty());
    while i < n
        invariant
            i <= n,
            n == attributes.len(),
            before.len() == n,
            at == record_size(before.take(i as int)),
            forall|j: int| 0 <= j < i ==> columns(attributes@)[j] == laid_out(before)[j],
            forall|j: int| i <= j < n ==> columns(attributes@)[j] == before[j],
        decreases n - i,
    {
        assert(columns(attributes@)[i as int] == attributes@[i as int]@);
        let size: usize = attributes[i].byte_size();
        let ghost held = attributes@;
        attributes[i].byte_offset = at;
        proof {
            assert(before.take(i + 1).drop_last() =~= before.take(i as int));
            assert(before.take(i + 1).last() == before[i as int]);
            assert(columns(attributes@)[i as int] =~= laid_out(before)[i as int]);
            assert forall|j: int| 0 <= j < n && j != i implies columns(attributes@)[j] == columns(
                held,
            )[j] by {}
        }
        proof {
            crate::bytes::wrapped_sum(at, size);
        }
        at = at.wrapping_add(size);
        i = i + 1;
    }
    assert(before.take(i as int) =~= before);
    assert(columns(attributes@) =~= laid_out(before));
    at
}

/// The first attribute starts the record, and each next one starts where the
/// one before it ends, as long as the record fits in memory.
pub proof fn offsets_follow_each_other(columns: Seq<Column>, i: int)
    requires
        0 <= i < columns.len(),
        forall|k: int| 0 <= k <= columns.len() ==> total_size(#[trigger] columns.take(k)) <= usize::MAX,
    ensures
        laid_out(columns)[0].byte_offset == 0,
        i + 1 < columns.len() ==> laid_out(columns)[i + 1].byte_offset == laid_out(
            columns,
        )[i].byte_offset + columns[i].num_elements * columns[i].kind.width(),
{
    assert(columns.take(0) =~= Seq::<Column>::empty());
    if i + 1 < columns.len() {
        lemma_size_is_total(columns, i);
        lemma_size_is_total(columns, i + 1);
        assert(columns.take(i + 1).drop_last() =~= columns.take(i));
    }
}

/// Bytes of a record, with nothing wrapped.
pub open spec fn total_size(columns: Seq<Column>) -> int
    decreases columns.len(),
{
    if columns.len() == 0 {
        0
    } else {
        total_size(columns.drop_last()) + columns.last().num_elements
            * columns.last().kind.width()
    }
}

proof fn lemma_size_is_total(columns: Seq<Column>, n: int)
    requires
        0 <= n <= columns.len(),
        forall|k: int| 0 <= k <= columns.len() ==> total_size(#[trigger] columns.take(k)) <= usize::MAX,
    ensures
        record_size(columns.take(n)) == total_size(columns.take(n)),
        total_size(columns.take(n)) >= 0,
    decreases n,
{
    if n > 0 {
        lemma_size_is_total(columns, n - 1);
        assert(columns.take(n).drop_last() =~= columns.take(n - 1));
        assert(total_size(columns.take(n)) <= usize::MAX);
        let c = columns[n - 1];
        let w = c.kind.width() as int;
        assert(c.num_elements * w >= 0) by (nonlinear_arith)
            requires
                c.num_elements >= 0,
                w >= 0,
        ;
        vstd::arithmetic::div_mod::lemma_small_mod(
            (c.num_elements * w) as nat,
            (usize::MAX + 1) as nat,
        );
        vstd::arithmetic::div_mod::lemma_small_mod(
            total_size(columns.take(n)) as nat,
            (usize::MAX + 1) as nat,
        );
    }
}

} // verus!
