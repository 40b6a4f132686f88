//! The LAS point record, formats 0 through 10.
//!
//! Not a decoder: this says where each dimension sits and how wide it is.

use crate::attribute::{all_of, AttributeType};
use crate::double::{repeat, Real, ONE, ZERO};
use crate::error::{Error, Failure};
use crate::text::{cat3, decimal, decimal_of};
use vstd::prelude::*;

verus! {

/// How one dimension is read out of a record.
#[derive(Debug, Clone, Copy, PartialEq, Eq, Structural)]
pub enum LasAccess {
    /// A whole little-endian value at a byte offset.
    Scalar { at: usize },
    /// An unsigned bit run inside one byte.
    Bits { at: usize, shift: u32, width: u32 },
}

impl LasAccess {
    /// The byte that the dimension starts in.
    pub open spec fn place(self) -> usize {
        match self {
            LasAccess::Scalar { at } => at,
            LasAccess::Bits { at, .. } => at,
        }
    }

    /// The byte that the dimension starts in.
    pub fn at(self) -> (n: usize)
        ensures
            n == self.place(),
    {
        match self {
            LasAccess::Scalar { at } => at,
            LasAccess::Bits { at, .. } => at,
        }
    }
}

/// One dimension of a LAS point record.
#[derive(Debug)]
pub struct LasDimension {
    /// The name under which every driver presents the field.
    pub name: &'static str,
    pub kind: AttributeType,
    pub num_elements: usize,
    pub access: LasAccess,
    /// Declared domain. Position's comes from the header.
    pub min: Vec<Real>,
    pub max: Vec<Real>,
    pub description: &'static str,
}

/// A dimension, as the values it holds.
#[verifier::ext_equal]
pub struct Dimension {
    pub name: Seq<char>,
    pub kind: AttributeType,
    pub num_elements: usize,
    pub access: LasAccess,
    pub min: Seq<Real>,
    pub max: Seq<Real>,
    pub description: Seq<char>,
}

impl View for LasDimension {
    type V = Dimension;

    open spec fn view(&self) -> Dimension {
        Dimension {
            name: self.name@,
            kind: self.kind,
            num_elements: self.num_elements,
            access: self.access,
            min: self.min@,
            max: self.max@,
            description: self.description@,
        }
    }
}

/// Several dimensions, each as the values it holds.
pub open spec fn dims(list: Seq<LasDimension>) -> Seq<Dimension> {
    list.map_values(|d: LasDimension| d@)
}

/// Three.
pub const THREE: u64 = 0x4008_0000_0000_0000;

/// Seven.
pub const SEVEN: u64 = 0x401c_0000_0000_0000;

/// Fifteen.
pub const FIFTEEN: u64 = 0x402e_0000_0000_0000;

/// The largest byte.
pub const MAX_U8: u64 = 0x406f_e000_0000_0000;

/// The largest 16-bit number.
pub const MAX_U16: u64 = 0x40ef_ffe0_0000_0000;

/// Ninety degrees.
pub const RIGHT: u64 = 0x4056_8000_0000_0000;

/// Ninety degrees the other way.
pub const LEFT: u64 = 0xc056_8000_0000_0000;

/// The largest scan angle, in its own increments.
pub const ANGLE_MAX: u64 = 0x40dd_4c00_0000_0000;

/// The smallest scan angle.
pub const ANGLE_MIN: u64 = 0xc0dd_4c00_0000_0000;

/// Bytes of one record before any extra bytes.
pub open spec fn base_size(format: u8) -> Option<usize> {
    match format {
        0 => Some(20),
        1 => Some(28),
        2 => Some(26),
        3 => Some(34),
        4 => Some(57),
        5 => Some(63),
        6 => Some(30),
        7 => Some(36),
        8 => Some(38),
        9 => Some(59),
        10 => Some(67),
        _ => None,
    }
}

/// What is said of a point format that does not exist.
pub open spec fn unknown_format(format: u8) -> Failure {
    Failure::Unsupported(
        "LAS point data record format "@ + decimal(format as nat) + " is not one of 0-10"@,
    )
}

/// Point data record length, before extra bytes.
pub fn las_base_size(format: u8) -> (r: Result<usize, Error>)
    ensures
        match r {
            Ok(n) => base_size(format) == Some(n),
            Err(e) => base_size(format) is None && e@ == unknown_format(format),
        },
{
    match format {
        0 => Ok(20),
        1 => Ok(28),
        2 => Ok(26),
        3 => Ok(34),
        4 => Ok(57),
        5 => Ok(63),
        6 => Ok(30),
        7 => Ok(36),
        8 => Ok(38),
        9 => Ok(59),
        10 => Ok(67),
        _ => {
            let n = decimal_of(format as u64);
            Err(
                Error::Unsupported(
                    cat3("LAS point data record format ", n.as_str(), " is not one of 0-10"),
                ),
            )
        },
    }
}

/// A dimension of whole values.
pub open spec fn whole(
    name: Seq<char>,
    kind: AttributeType,
    at: usize,
    min: u64,
    max: u64,
    description: Seq<char>,
    num_elements: usize,
) -> Dimension {
    Dimension {
        name,
        kind,
        num_elements,
        access: LasAccess::Scalar { at },
        min: all_of(min, num_elements as int),
        max: all_of(max, num_elements as int),
        description,
    }
}

fn scalar(
    name: &'static str,
    kind: AttributeType,
    at: usize,
    min: u64,
    max: u64,
    description: &'static str,
    num_elements: usize,
) -> (d: LasDimension)
    ensures
        d@ == whole(name@, kind, at, min, max, description@, num_elements),
{
    let d = LasDimension {
        name,
        kind,
        num_elements,
        access: LasAccess::Scalar { at },
        min: repeat(Real { bits: min }, num_elements),
        max: repeat(Real { bits: max }, num_elements),
        description,
    };
    assert(d@ =~= whole(name@, kind, at, min, max, description@, num_elements));
    d
}

/// The largest number of up to four bits.
pub open spec fn widest(width: u32) -> u64 {
    match width {
        1 => ONE,
        2 => THREE,
        3 => SEVEN,
        _ => FIFTEEN,
    }
}

/// A dimension of a few bits.
pub open spec fn run(name: Seq<char>, at: usize, shift: u32, width: u32) -> Dimension {
    Dimension {
        name,
        kind: AttributeType::Uint8,
        num_elements: 1,
        access: LasAccess::Bits { at, shift, width },
        min: all_of(ZERO, 1),
        max: all_of(widest(width), 1),
        description: ""@,
    }
}

fn bits(name: &'static str, at: usize, shift: u32, width: u32) -> (d: LasDimension)
    ensures
        d@ == run(name@, at, shift, width),
{
    let top: u64 = match width {
        1 => ONE,
        2 => THREE,
        3 => SEVEN,
        _ => FIFTEEN,
    };
    let d = LasDimension {
        name,
        kind: AttributeType::Uint8,
        num_elements: 1,
        access: LasAccess::Bits { at, shift, width },
        min: repeat(Real { bits: ZERO }, 1),
        max: repeat(Real { bits: top }, 1),
        description: "",
    };
    assert(d@ =~= run(name@, at, shift, width));
    d
}

/// Whether a point format carries colour.
pub open spec fn colored(format: u8) -> bool {
    format == 2 || format == 3 || format == 5 || format == 7 || format == 8 || format == 10
}

/// Whether a point format carries GPS time.
pub open spec fn timed(format: u8) -> bool {
    format != 0 && format != 2
}

/// The fields that the legacy formats share.
pub open spec fn legacy_dimensions() -> Seq<Dimension> {
    seq![
        run("return number"@, 14, 0, 3),
        run("number of returns"@, 14, 3, 3),
        run("scan direction flag"@, 14, 6, 1),
        run("edge of flight line"@, 14, 7, 1),
        whole("classification"@, AttributeType::Uint8, 15, ZERO, MAX_U8, ""@, 1),
        whole("scan angle rank"@, AttributeType::Int8, 16, LEFT, RIGHT, "degrees"@, 1),
        whole("user data"@, AttributeType::Uint8, 17, ZERO, MAX_U8, ""@, 1),
        whole("point source id"@, AttributeType::Uint16, 18, ZERO, MAX_U16, ""@, 1),
    ]
}

/// The fields that the modern formats share.
pub open spec fn modern_dimensions() -> Seq<Dimension> {
    seq![
        run("return number"@, 14, 0, 4),
        run("number of returns"@, 14, 4, 4),
        run("classification flags"@, 15, 0, 4),
        run("scanner channel"@, 15, 4, 2),
        run("scan direction flag"@, 15, 6, 1),
        run("edge of flight line"@, 15, 7, 1),
        whole("classification"@, AttributeType::Uint8, 16, ZERO, MAX_U8, ""@, 1),
        whole("user data"@, AttributeType::Uint8, 17, ZERO, MAX_U8, ""@, 1),
        whole(
            "scan angle"@,
            AttributeType::Int16,
            18,
            ANGLE_MIN,
            ANGLE_MAX,
            "0.006 degree increments"@,
            1,
        ),
        whole("point source id"@, AttributeType::Uint16, 20, ZERO, MAX_U16, ""@, 1),
    ]
}

/// Where a format keeps its colour: after GPS time, where there is one.
pub open spec fn color_at(format: u8) -> usize {
    if format > 5 {
        30
    } else if format == 2 {
        20
    } else {
        28
    }
}

/// The dimensions of one point format, in record order. Wave packets are
/// counted in the stride and not described.
pub open spec fn dimensions(format: u8) -> Seq<Dimension> {
    let head = seq![
        whole("position"@, AttributeType::Int32, 0, ZERO, ZERO, ""@, 3),
        whole("intensity"@, AttributeType::Uint16, 12, ZERO, MAX_U16, ""@, 1),
    ];
    let middle = if format <= 5 {
        legacy_dimensions()
    } else {
        modern_dimensions()
    };
    let gps_at: usize = if format <= 5 {
        20
    } else {
        22
    };
    let time = if timed(format) {
        seq![whole("gps-time"@, AttributeType::Double, gps_at, ZERO, ZERO, ""@, 1)]
    } else {
        seq![]
    };
    let color = if colored(format) {
        seq![whole("rgb"@, AttributeType::Uint16, color_at(format), ZERO, MAX_U16, ""@, 3)]
    } else {
        seq![]
    };
    let nir = if format == 8 || format == 10 {
        seq![
            whole(
                "nir"@,
                AttributeType::Uint16,
                (color_at(format) + 6) as usize,
                ZERO,
                MAX_U16,
                ""@,
                1,
            ),
        ]
    } else {
        seq![]
    };
    head + middle + time + color + nir
}

fn push(out: &mut Vec<LasDimension>, d: LasDimension)
    ensures
        dims(final(out)@) == dims(old(out)@).push(d@),
{
    out.push(d);
    assert(dims(out@) =~= dims(old(out)@).push(d@));
}

fn legacy_fields(out: &mut Vec<LasDimension>)
    ensures
        dims(final(out)@) == dims(old(out)@) + legacy_dimensions(),
{
    push(out, bits("return number", 14, 0, 3));
    push(out, bits("number of returns", 14, 3, 3));
    push(out, bits("scan direction flag", 14, 6, 1));
    push(out, bits("edge of flight line", 14, 7, 1));
    push(out, scalar("classification", AttributeType::Uint8, 15, ZERO, MAX_U8, "", 1));
    push(out, scalar("scan angle rank", AttributeType::Int8, 16, LEFT, RIGHT, "degrees", 1));
    push(out, scalar("user data", AttributeType::Uint8, 17, ZERO, MAX_U8, "", 1));
    push(out, scalar("point source id", AttributeType::Uint16, 18, ZERO, MAX_U16, "", 1));
    assert(dims(out@) =~= dims(old(out)@) + legacy_dimensions());
}

fn modern_fields(out: &mut Vec<LasDimension>)
    ensures
        dims(final(out)@) == dims(old(out)@) + modern_dimensions(),
{
    push(out, bits("return number", 14, 0, 4));
    push(out, bits("number of returns", 14, 4, 4));
    push(out, bits("classification flags", 15, 0, 4));
    push(out, bits("scanner channel", 15, 4, 2));
    push(out, bits("scan direction flag", 15, 6, 1));
    push(out, bits("edge of flight line", 15, 7, 1));
    push(out, scalar("classification", AttributeType::Uint8, 16, ZERO, MAX_U8, "", 1));
    push(out, scalar("user data", AttributeType::Uint8, 17, ZERO, MAX_U8, "", 1));
    push(
        out,
        scalar(
            "scan angle",
            AttributeType::Int16,
            18,
            ANGLE_MIN,
            ANGLE_MAX,
            "0.006 degree increments",
            1,
        ),
    );
    push(out, scalar("point source id", AttributeType::Uint16, 20, ZERO, MAX_U16, "", 1));
    assert(dims(out@) =~= dims(old(out)@) + modern_dimensions());
}

/// The dimensions of one point format, in record order.
///
/// Position's `min`/`max` are placeholders: the header's bounding box is the
/// real domain and the caller substitutes it.
pub fn las_dimensions(format: u8) -> (r: Result<Vec<LasDimension>, Error>)
    ensures
        match r {
            Ok(list) => format <= 10 && dims(list@) == dimensions(format),
            Err(e) => format > 10 && e@ == unknown_format(format),
        },
{
    if let Err(e) = las_base_size(format) {
        return Err(e);
    }
    let legacy = format <= 5;
    let mut out: Vec<LasDimension> = Vec::new();
    assert(dims(out@) =~= Seq::<Dimension>::empty());
    push(&mut out, scalar("position", AttributeType::Int32, 0, ZERO, ZERO, "", 3));
    push(&mut out, scalar("intensity", AttributeType::Uint16, 12, ZERO, MAX_U16, "", 1));
    if legacy {
        legacy_fields(&mut out);
    } else {
        modern_fields(&mut out);
    }
    let gps_at: usize = if legacy {
        20
    } else {
        22
    };
    if las_format_has_gps_time(format) {
        push(&mut out, scalar("gps-time", AttributeType::Double, gps_at, ZERO, ZERO, "", 1));
    }
    let rgb_at: usize = if legacy {
        if format == 2 {
            20
        } else {
            28
        }
    } else {
        30
    };
    if las_format_has_color(format) {
        push(&mut out, scalar("rgb", AttributeType::Uint16, rgb_at, ZERO, MAX_U16, "", 3));
    }
    if format == 8 || format == 10 {
        push(&mut out, scalar("nir", AttributeType::Uint16, rgb_at + 6, ZERO, MAX_U16, "", 1));
    }
    assert(dims(out@) =~= dimensions(format));
    Ok(out)
}

/// Whether a point format carries colour, without building its dimensions.
pub fn las_format_has_color(format: u8) -> (r: bool)
    ensures
        r == colored(format),
{
    matches!(format, 2 | 3 | 5 | 7 | 8 | 10)
}

/// Whether a point format carries GPS time.
pub fn las_format_has_gps_time(format: u8) -> (r: bool)
    ensures
        r == timed(format),
{
    !matches!(format, 0 | 2)
}

/// The smallest point format that carries the requested dimensions.
pub fn las_format_for(color: bool, gps_time: bool, legacy: bool) -> (format: u8)
    ensures
        format == if legacy {
            (if color {
                2int
            } else {
                0
            }) + (if gps_time {
                1int
            } else {
                0
            })
        } else if color {
            7
        } else {
            6
        },
        colored(format) == color,
        timed(format) == (gps_time || !legacy),
{
    if legacy {
        if color {
            if gps_time {
                3
            } else {
                2
            }
        } else if gps_time {
            1
        } else {
            0
        }
    } else if color {
        7
    } else {
        6
    }
}

/// Bytes that a dimension occupies from its place on.
pub open spec fn span(d: Dimension) -> int {
    match d.access {
        LasAccess::Scalar { .. } => d.num_elements * d.kind.width(),
        LasAccess::Bits { .. } => 1,
    }
}

/// Every dimension lies within the base record of its format.
pub proof fn dimensions_fit(format: u8, i: int)
    requires
        format <= 10,
        0 <= i < dimensions(format).len(),
    ensures
        dimensions(format)[i].access.place() + span(dimensions(format)[i]) <= base_size(format)->0,
{
    assert(legacy_dimensions().len() == 8);
    assert(modern_dimensions().len() == 10);
    let m = if format <= 5 {
        legacy_dimensions()
    } else {
        modern_dimensions()
    };
    let d = dimensions(format)[i];
    if 2 <= i < 2 + m.len() {
        lemma_middle(format <= 5, i - 2);
        assert(d == m[i - 2]);
    } else {
        lemma_span(d);
    }
}

proof fn lemma_span(d: Dimension)
    requires
        d.num_elements == 1 || d.num_elements == 3,
        d.access is Scalar,
    ensures
        span(d) == if d.num_elements == 1 {
            d.kind.width() as int
        } else {
            3 * d.kind.width()
        },
{
    let (n, w) = (d.num_elements as int, d.kind.width() as int);
    assert(n == 1 ==> n * w == w) by (nonlinear_arith);
    assert(n == 3 ==> n * w == 3 * w) by (nonlinear_arith);
}

/// The fields that the formats share lie in the first twenty bytes, or the
/// first twenty-two, and none of them is called after colour or time.
proof fn lemma_middle(legacy: bool, j: int)
    requires
        0 <= j < (if legacy {
            legacy_dimensions()
        } else {
            modern_dimensions()
        }).len(),
    ensures
        ({
            let d = if legacy {
                legacy_dimensions()[j]
            } else {
                modern_dimensions()[j]
            };
            &&& d.access.place() + span(d) <= if legacy {
                20int
            } else {
                22
            }
            &&& d.name.len() > 8
        }),
{
    reveal_strlit("return number");
    reveal_strlit("number of returns");
    reveal_strlit("scan direction flag");
    reveal_strlit("edge of flight line");
    reveal_strlit("classification");
    reveal_strlit("classification flags");
    reveal_strlit("scanner channel");
    reveal_strlit("scan angle rank");
    reveal_strlit("scan angle");
    reveal_strlit("user data");
    reveal_strlit("point source id");
    let d = if legacy {
        legacy_dimensions()[j]
    } else {
        modern_dimensions()[j]
    };
    if d.access is Scalar {
        assert(d.num_elements == 1) by {
            if j == 0 {
            } else if j == 1 {
            } else if j == 2 {
            } else if j == 3 {
            } else if j == 4 {
            } else if j == 5 {
            } else if j == 6 {
            } else if j == 7 {
            } else if j == 8 {
            } else {
                assert(j == 9);
            }
        }
        lemma_span(d);
    }
    if j == 0 {
    } else if j == 1 {
    } else if j == 2 {
    } else if j == 3 {
    } else if j == 4 {
    } else if j == 5 {
    } else if j == 6 {
    } else if j == 7 {
    } else if j == 8 {
    } else {
        assert(j == 9);
    }
}

/// The colour and time tables agree with the dimensions themselves.
pub proof fn tables_agree(format: u8)
    requires
        format <= 10,
    ensures
        colored(format) == exists|i: int|
            0 <= i < dimensions(format).len() && (#[trigger] dimensions(format)[i]).name == "rgb"@,
        timed(format) == exists|i: int|
            0 <= i < dimensions(format).len() && (#[trigger] dimensions(format)[i]).name
                == "gps-time"@,
{
    let all = dimensions(format);
    let m = if format <= 5 {
        legacy_dimensions()
    } else {
        modern_dimensions()
    };
    let n = m.len() as int;
    reveal_strlit("rgb");
    reveal_strlit("gps-time");
    reveal_strlit("nir");
    reveal_strlit("position");
    reveal_strlit("intensity");
    assert("rgb"@[0] == 'r' && "nir"@[0] == 'n');
    assert("gps-time"@[0] == 'g' && "position"@[0] == 'p');
    assert forall|i: int| 0 <= i < 2 + n implies all[i].name != "rgb"@ && all[i].name
        != "gps-time"@ by {
        if i >= 2 {
            lemma_middle(format <= 5, i - 2);
            assert(all[i] == m[i - 2]);
        }
    }
    if timed(format) {
        assert(all[2 + n].name == "gps-time"@);
        if colored(format) {
            assert(all[3 + n].name == "rgb"@);
        }
    } else if colored(format) {
        assert(all[2 + n].name == "rgb"@);
    }
}

} // verus!
