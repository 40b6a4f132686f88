//! E57: what the terrestrial scanners write.
//!
//! A file of scans, described by a section at its end, and no index over them.
//! Unpacking the records is another's work; what is decided here is what a scan
//! means: which of its points are places, what they carry, which scan each came
//! from, and how much of what the file declares can be believed.

use crate::attribute::AttributeType;
use crate::bounds::Bounds;
use crate::bytes::{as_pattern, bytes16, bytes32, put_u16, put_u32, put_zeros, zeros};
use crate::cloud::{spelled, wrap64};
use crate::double::{binary_digits, bit_len, Real};
use crate::error::{Error, Failure};
use crate::record::{pattern32, RecordLayout};
use crate::text::{cat3, decimal, decimal_of};
use crate::warning::{notices, notices_push, Notice, Warning};
use vstd::prelude::*;

verus! {

/// Points per batch handed out.
pub const BATCH: usize = 0x10_0000;

/// The eight bytes every E57 file starts with.
pub open spec fn signature() -> Seq<u8> {
    seq![0x41, 0x53, 0x54, 0x4d, 0x2d, 0x45, 0x35, 0x37]
}

/// Whether a buffer starts the way every E57 file starts.
pub fn is_e57(head: &[u8]) -> (r: bool)
    ensures
        r == (head@.len() >= 8 && head@.take(8) == signature()),
{
    if head.len() < 8 {
        return false;
    }
    let r = head[0] == 0x41 && head[1] == 0x53 && head[2] == 0x54 && head[3] == 0x4d && head[4]
        == 0x2d && head[5] == 0x45 && head[6] == 0x35 && head[7] == 0x37;
    proof {
        let t = head@.take(8);
        if r {
            assert(t =~= signature());
        } else {
            assert(t == signature() ==> t[0] == 0x41 && t[1] == 0x53 && t[2] == 0x54 && t[3] == 0x4d
                && t[4] == 0x2d && t[5] == 0x45 && t[6] == 0x35 && t[7] == 0x37);
        }
    }
    r
}

/// A field of a record.
#[derive(Debug)]
pub enum RecordName {
    CartesianX,
    CartesianY,
    CartesianZ,
    CartesianInvalidState,
    SphericalRange,
    SphericalAzimuth,
    SphericalElevation,
    SphericalInvalidState,
    Intensity,
    IsIntensityInvalid,
    ColorRed,
    ColorGreen,
    ColorBlue,
    IsColorInvalid,
    RowIndex,
    ColumnIndex,
    ReturnCount,
    ReturnIndex,
    TimeStamp,
    IsTimeStampInvalid,
    /// An extension. The namespace is part of the name, or two vendors'
    /// extensions read as one field.
    Unknown { namespace: String, name: String },
}

/// The spelling of a field in a file.
pub open spec fn field_spelling(name: RecordName) -> Seq<char> {
    match name {
        RecordName::CartesianX => "cartesianX"@,
        RecordName::CartesianY => "cartesianY"@,
        RecordName::CartesianZ => "cartesianZ"@,
        RecordName::CartesianInvalidState => "cartesianInvalidState"@,
        RecordName::SphericalRange => "sphericalRange"@,
        RecordName::SphericalAzimuth => "sphericalAzimuth"@,
        RecordName::SphericalElevation => "sphericalElevation"@,
        RecordName::SphericalInvalidState => "sphericalInvalidState"@,
        RecordName::Intensity => "intensity"@,
        RecordName::IsIntensityInvalid => "isIntensityInvalid"@,
        RecordName::ColorRed => "colorRed"@,
        RecordName::ColorGreen => "colorGreen"@,
        RecordName::ColorBlue => "colorBlue"@,
        RecordName::IsColorInvalid => "isColorInvalid"@,
        RecordName::RowIndex => "rowIndex"@,
        RecordName::ColumnIndex => "columnIndex"@,
        RecordName::ReturnCount => "returnCount"@,
        RecordName::ReturnIndex => "returnIndex"@,
        RecordName::TimeStamp => "timeStamp"@,
        RecordName::IsTimeStampInvalid => "isTimeStampInvalid"@,
        RecordName::Unknown { namespace, name } => if namespace@.len() == 0 {
            name@
        } else {
            namespace@ + ":"@ + name@
        },
    }
}

/// The spelling of a field in a file.
pub fn field_name(name: &RecordName) -> (s: String)
    ensures
        s@ == field_spelling(*name),
{
    let s: &str = match name {
        RecordName::CartesianX => "cartesianX",
        RecordName::CartesianY => "cartesianY",
        RecordName::CartesianZ => "cartesianZ",
        RecordName::CartesianInvalidState => "cartesianInvalidState",
        RecordName::SphericalRange => "sphericalRange",
        RecordName::SphericalAzimuth => "sphericalAzimuth",
        RecordName::SphericalElevation => "sphericalElevation",
        RecordName::SphericalInvalidState => "sphericalInvalidState",
        RecordName::Intensity => "intensity",
        RecordName::IsIntensityInvalid => "isIntensityInvalid",
        RecordName::ColorRed => "colorRed",
        RecordName::ColorGreen => "colorGreen",
        RecordName::ColorBlue => "colorBlue",
        RecordName::IsColorInvalid => "isColorInvalid",
        RecordName::RowIndex => "rowIndex",
        RecordName::ColumnIndex => "columnIndex",
        RecordName::ReturnCount => "returnCount",
        RecordName::ReturnIndex => "returnIndex",
        RecordName::TimeStamp => "timeStamp",
        RecordName::IsTimeStampInvalid => "isTimeStampInvalid",
        RecordName::Unknown { namespace, name } => {
            if crate::text::chars_of(namespace.as_str()).len() == 0 {
                return name.clone();
            }
            return cat3(namespace.as_str(), ":", name.as_str());
        },
    };
    s.to_owned()
}

/// How the values of a field are stored.
#[derive(Debug, Clone, Copy, PartialEq, Eq, Structural)]
pub enum RecordKind {
    Single,
    Double,
    /// An integer that decodes through a scale and an offset.
    ScaledInteger { min: i64, max: i64 },
    Integer { min: i64, max: i64 },
}

/// Bits that a declared range takes: as many as its width needs, and none where
/// every value is the same.
pub open spec fn range_bits(min: i64, max: i64) -> nat {
    if max > min {
        bit_len((max - min) as nat)
    } else {
        0
    }
}

/// Bits one value of a field takes in the file.
pub open spec fn value_bits(kind: RecordKind) -> nat {
    match kind {
        RecordKind::Single => 32,
        RecordKind::Double => 64,
        RecordKind::ScaledInteger { min, max } => range_bits(min, max),
        RecordKind::Integer { min, max } => range_bits(min, max),
    }
}

fn bits_for(min: i64, max: i64) -> (n: usize)
    ensures
        n == range_bits(min, max),
        n <= 64,
{
    if max > min {
        let range: u64 = (max as i128 - min as i128) as u64;
        binary_digits(range) as usize
    } else {
        0
    }
}

/// Bits one value of a field takes in the file.
pub fn stored_bits(kind: RecordKind) -> (n: usize)
    ensures
        n == value_bits(kind),
        n <= 64,
{
    match kind {
        RecordKind::Single => 32,
        RecordKind::Double => 64,
        RecordKind::ScaledInteger { min, max } => bits_for(min, max),
        RecordKind::Integer { min, max } => bits_for(min, max),
    }
}

/// A field, as a scan declares it.
#[derive(Debug)]
pub struct RecordHeader {
    pub name: RecordName,
    pub kind: RecordKind,
    /// The domain the field decodes to. Zero to zero where it declares none.
    pub min: Real,
    pub max: Real,
}

/// A field of a record, as a reader sees it.
#[derive(Debug)]
pub struct PrototypeField {
    pub name: String,
    /// What the field decodes to, not what it costs in the file.
    pub kind: AttributeType,
    /// Bits the field takes in the file.
    pub bits: usize,
    pub min: Real,
    pub max: Real,
}

/// A field of a record, as the values it holds.
pub struct FieldView {
    pub name: Seq<char>,
    pub kind: AttributeType,
    pub bits: usize,
    pub min: Real,
    pub max: Real,
}

impl View for PrototypeField {
    type V = FieldView;

    open spec fn view(&self) -> FieldView {
        FieldView {
            name: self.name@,
            kind: self.kind,
            bits: self.bits,
            min: self.min,
            max: self.max,
        }
    }
}

/// Several fields, each as the values it holds.
pub open spec fn field_views(list: Seq<PrototypeField>) -> Seq<FieldView> {
    list.map_values(|f: PrototypeField| f@)
}

/// A declared field, as a reader sees it.
pub open spec fn field_of(r: RecordHeader) -> FieldView {
    FieldView {
        name: field_spelling(r.name),
        kind: match r.kind {
            RecordKind::Single => AttributeType::Float,
            RecordKind::Double => AttributeType::Double,
            _ => AttributeType::Int64,
        },
        bits: value_bits(r.kind) as usize,
        min: r.min,
        max: r.max,
    }
}

/// A record, field by field.
pub fn prototype(records: &Vec<RecordHeader>) -> (out: Vec<PrototypeField>)
    ensures
        field_views(out@) == records@.map_values(|r: RecordHeader| field_of(r)),
{
    let ghost whole = records@.map_values(|r: RecordHeader| field_of(r));
    let mut out: Vec<PrototypeField> = Vec::new();
    let mut i: usize = 0;
    assert(field_views(out@) =~= whole.take(0));
    while i < records.len()
        invariant
            i <= records.len(),
            whole == records@.map_values(|r: RecordHeader| field_of(r)),
            field_views(out@) == whole.take(i as int),
        decreases records.len() - i,
    {
        let ghost before = out@;
        let r = &records[i];
        let f = PrototypeField {
            name: field_name(&r.name),
            kind: match r.kind {
                RecordKind::Single => AttributeType::Float,
                RecordKind::Double => AttributeType::Double,
                _ => AttributeType::Int64,
            },
            bits: stored_bits(r.kind),
            min: r.min,
            max: r.max,
        };
        out.push(f);
        assert(field_views(out@) =~= field_views(before).push(f@));
        assert(whole.take(i + 1) =~= whole.take(i as int).push(whole[i as int]));
        i = i + 1;
    }
    assert(whole.take(i as int) =~= whole);
    out
}

/// A scan, as the file declares it.
#[derive(Debug)]
pub struct ScanHeader {
    pub name: Option<String>,
    pub guid: Option<String>,
    pub records: u64,
    pub has_color: bool,
    pub has_intensity: bool,
    pub has_cartesian: bool,
    /// The corners of the declared box, in the scan's own frame. Any of them may
    /// be missing.
    pub low: [Option<Real>; 3],
    pub high: [Option<Real>; 3],
    /// The declared box moved by the scan's pose, where one is declared.
    pub posed: Bounds,
    /// Whether the pose turns the scan.
    pub rotated: bool,
    pub vendor: Option<String>,
    pub model: Option<String>,
}

/// A file, as it declares itself.
#[derive(Debug)]
pub struct FileHeader {
    pub guid: String,
    pub library_version: Option<String>,
    pub coordinate_metadata: Option<String>,
    pub scans: Vec<ScanHeader>,
    /// The record of the first scan, or nothing where there is none.
    pub prototype: Vec<RecordHeader>,
}

/// What one scan inside the file declares about itself.
#[derive(Debug)]
pub struct ScanInfo {
    pub name: Option<String>,
    pub guid: Option<String>,
    /// As declared. Points without a position are in this count and are not
    /// written.
    pub point_count: u64,
    pub has_color: bool,
    pub has_intensity: bool,
    /// Whether the records hold x, y and z at all.
    pub has_cartesian: bool,
    /// The scan's own box, before its pose.
    pub declared_bounds: Option<Bounds>,
    pub rotated: bool,
    /// Vendor and model, when the file says.
    pub sensor: Option<String>,
}

/// A scan, as the values it holds.
pub struct ScanView {
    pub name: Option<Seq<char>>,
    pub guid: Option<Seq<char>>,
    pub point_count: u64,
    pub has_color: bool,
    pub has_intensity: bool,
    pub has_cartesian: bool,
    pub declared_bounds: Option<Bounds>,
    pub rotated: bool,
    pub sensor: Option<Seq<char>>,
}

impl View for ScanInfo {
    type V = ScanView;

    open spec fn view(&self) -> ScanView {
        ScanView {
            name: spelled(self.name),
            guid: spelled(self.guid),
            point_count: self.point_count,
            has_color: self.has_color,
            has_intensity: self.has_intensity,
            has_cartesian: self.has_cartesian,
            declared_bounds: self.declared_bounds,
            rotated: self.rotated,
            sensor: spelled(self.sensor),
        }
    }
}

/// What a file says, before a single point has been read.
#[derive(Debug)]
pub struct E57Info {
    /// Sum of every scan's declared record count.
    pub point_count: u64,
    /// Union of the scans' boxes, each moved by its pose.
    pub extent: Option<Bounds>,
    /// Whether the extent is the file's own claim rather than a derived one.
    pub extent_exact: bool,
    pub has_color: bool,
    pub has_intensity: bool,
    pub scans: Vec<ScanInfo>,
    pub guid: String,
    pub library_version: Option<String>,
    /// The file's free-text field for a reference system.
    pub coordinate_metadata: Option<String>,
    /// The first scan's record. Empty when the file holds no scans.
    pub prototype: Vec<PrototypeField>,
    pub warnings: Vec<Warning>,
}

/// What is folded over the scans.
#[verifier::ext_equal]
pub struct Folded {
    pub point_count: u64,
    pub extent: Option<Bounds>,
    pub extent_exact: bool,
    pub has_color: bool,
    pub has_intensity: bool,
    pub scans: Seq<ScanView>,
    pub warnings: Seq<Notice>,
}

impl E57Info {
    pub open spec fn folded(self) -> Folded {
        Folded {
            point_count: self.point_count,
            extent: self.extent,
            extent_exact: self.extent_exact,
            has_color: self.has_color,
            has_intensity: self.has_intensity,
            scans: self.scans@.map_values(|s: ScanInfo| s@),
            warnings: notices(self.warnings@),
        }
    }
}

/// The box a scan declares: all six numbers or none.
pub open spec fn declared_box(s: ScanHeader) -> Option<Bounds> {
    if s.low@[0] is Some && s.low@[1] is Some && s.low@[2] is Some && s.high@[0] is Some
        && s.high@[1] is Some && s.high@[2] is Some {
        Some(
            Bounds {
                min: [s.low@[0]->0, s.low@[1]->0, s.low@[2]->0],
                max: [s.high@[0]->0, s.high@[1]->0, s.high@[2]->0],
            },
        )
    } else {
        None
    }
}

/// What a scan was measured with.
pub open spec fn sensor_of(s: ScanHeader) -> Option<Seq<char>> {
    match (s.vendor, s.model) {
        (Some(v), Some(m)) => Some(v@ + " "@ + m@),
        (Some(v), None) => Some(v@),
        (None, Some(m)) => Some(m@),
        (None, None) => None,
    }
}

/// A scan, as it is reported.
pub open spec fn scan_of(s: ScanHeader) -> ScanView {
    ScanView {
        name: spelled(s.name),
        guid: spelled(s.guid),
        point_count: s.records,
        has_color: s.has_color,
        has_intensity: s.has_intensity,
        has_cartesian: s.has_cartesian,
        declared_bounds: declared_box(s),
        rotated: s.rotated,
        sensor: sensor_of(s),
    }
}

/// Where the scan with an index stands in the file.
pub open spec fn scan_path(index: int) -> Seq<char> {
    "data3D["@ + decimal(index as nat) + "]"@
}

/// What is said of a scan that declares no box.
pub open spec fn undeclared(index: int) -> Notice {
    Notice {
        code: "e57-bounds-undeclared"@,
        path: scan_path(index),
        message: "This scan declares no cartesianBounds, so where its points are can only be learnt by reading them."@,
    }
}

/// What is said of a scan in spherical coordinates.
pub open spec fn spherical(index: int) -> Notice {
    Notice {
        code: "e57-spherical"@,
        path: scan_path(index),
        message: "This scan stores range, azimuth and elevation rather than x/y/z. The points are converted to Cartesian on the way out."@,
    }
}

/// What is folded, with one more scan.
pub open spec fn with_scan(f: Folded, s: ScanHeader) -> Folded {
    let index = f.scans.len() as int;
    let warned = if declared_box(s) is None {
        f.warnings.push(undeclared(index))
    } else {
        f.warnings
    };
    Folded {
        point_count: wrap64(f.point_count + s.records),
        extent: if declared_box(s) is Some {
            match f.extent {
                Some(e) => Some(e.joined(s.posed)),
                None => Some(s.posed),
            }
        } else {
            f.extent
        },
        extent_exact: f.extent_exact && declared_box(s) is Some && !s.rotated,
        has_color: f.has_color || s.has_color,
        has_intensity: f.has_intensity || s.has_intensity,
        scans: f.scans.push(scan_of(s)),
        warnings: if s.has_cartesian {
            warned
        } else {
            warned.push(spherical(index))
        },
    }
}

/// What is folded over no scans.
pub open spec fn no_scans() -> Folded {
    Folded {
        point_count: 0,
        extent: None,
        extent_exact: true,
        has_color: false,
        has_intensity: false,
        scans: Seq::empty(),
        warnings: Seq::empty(),
    }
}

/// What is folded over some scans, in order.
pub open spec fn over_scans(scans: Seq<ScanHeader>) -> Folded
    decreases scans.len(),
{
    if scans.len() == 0 {
        no_scans()
    } else {
        with_scan(over_scans(scans.drop_last()), scans.last())
    }
}

/// What is said of more scans than there are source ids.
pub open spec fn overflows(n: nat) -> Notice {
    Notice {
        code: "e57-scans-overflow"@,
        path: "data3D"@,
        message: "This file holds "@ + decimal(n)
            + " scans and a LAS point source id is 16 bits, so every scan past the 65,535th is written with the same id."@,
    }
}

/// What is said of an extent that was derived.
pub open spec fn posed_notice() -> Notice {
    Notice {
        code: "e57-bounds-posed"@,
        path: "data3D"@,
        message: "At least one scan is stored rotated relative to the file's frame, so the bounds it declares are not the box its points occupy. What is reported here is the hull of the rotated box, which is larger."@,
    }
}

/// What a file's scans say together.
pub open spec fn said(scans: Seq<ScanHeader>) -> Folded {
    let f = over_scans(scans);
    let counted = if scans.len() > 0xffff {
        f.warnings.push(overflows(scans.len()))
    } else {
        f.warnings
    };
    Folded {
        warnings: if !f.extent_exact && f.extent is Some {
            counted.push(posed_notice())
        } else {
            counted
        },
        ..f
    }
}

/// The extent is the file's own claim exactly where every scan declares its box
/// and none is turned. One that is merely derived is good enough to look at, not
/// to write into a header.
pub proof fn extent_is_exact_iff_declared_and_unturned(scans: Seq<ScanHeader>)
    ensures
        said(scans).extent_exact <==> (forall|i: int|
            0 <= i < scans.len() ==> declared_box(#[trigger] scans[i]) is Some
                && !scans[i].rotated),
        over_scans(scans).scans.len() == scans.len(),
    decreases scans.len(),
{
    if scans.len() > 0 {
        let front = scans.drop_last();
        extent_is_exact_iff_declared_and_unturned(front);
        assert(forall|i: int| 0 <= i < front.len() ==> front[i] == scans[i]);
        if said(scans).extent_exact {
            assert forall|i: int| 0 <= i < scans.len() implies declared_box(#[trigger] scans[i])
                is Some && !scans[i].rotated by {
                if i < front.len() {
                    assert(declared_box(front[i]) is Some);
                }
            }
        }
        if forall|i: int|
            0 <= i < scans.len() ==> declared_box(#[trigger] scans[i]) is Some
                && !scans[i].rotated {
            assert forall|i: int| 0 <= i < front.len() implies declared_box(#[trigger] front[i])
                is Some && !front[i].rotated by {
                assert(declared_box(scans[i]) is Some);
            }
            assert(declared_box(scans[scans.len() - 1]) is Some);
        }
    }
}

fn copied(s: &Option<String>) -> (r: Option<String>)
    ensures
        spelled(r) == spelled(*s),
{
    match s {
        Some(t) => Some(t.clone()),
        None => None,
    }
}

fn take_box(s: &ScanHeader) -> (r: Option<Bounds>)
    ensures
        r == declared_box(*s),
{
    match (s.low[0], s.low[1], s.low[2], s.high[0], s.high[1], s.high[2]) {
        (Some(x0), Some(y0), Some(z0), Some(x1), Some(y1), Some(z1)) => {
            let b = Bounds::new([x0, y0, z0], [x1, y1, z1]);
            proof {
                let want = declared_box(*s)->0;
                assert(b.min@[0] == want.min@[0] && b.min@[1] == want.min@[1] && b.min@[2]
                    == want.min@[2]);
                assert(b.max@[0] == want.max@[0] && b.max@[1] == want.max@[1] && b.max@[2]
                    == want.max@[2]);
                assert(b.min =~= want.min);
                assert(b.max =~= want.max);
            }
            Some(b)
        },
        _ => None,
    }
}

fn take_scan(s: &ScanHeader) -> (r: ScanInfo)
    ensures
        r@ == scan_of(*s),
{
    let sensor = match (&s.vendor, &s.model) {
        (Some(v), Some(m)) => Some(cat3(v.as_str(), " ", m.as_str())),
        (Some(v), None) => Some(v.clone()),
        (None, Some(m)) => Some(m.clone()),
        (None, None) => None,
    };
    ScanInfo {
        name: copied(&s.name),
        guid: copied(&s.guid),
        point_count: s.records,
        has_color: s.has_color,
        has_intensity: s.has_intensity,
        has_cartesian: s.has_cartesian,
        declared_bounds: take_box(s),
        rotated: s.rotated,
        sensor,
    }
}

fn path_of(index: usize) -> (s: String)
    ensures
        s@ == scan_path(index as int),
{
    let n = decimal_of(index as u64);
    cat3("data3D[", n.as_str(), "]")
}

impl E57Info {
    fn say(&mut self, code: &'static str, path: String, message: String)
        ensures
            notices(final(self).warnings@) == notices(old(self).warnings@).push(
                Notice { code: code@, path: path@, message: message@ },
            ),
            *final(self) == (E57Info { warnings: final(self).warnings, ..*old(self) }),
    {
        let w = Warning::new(code, path, message);
        proof {
            notices_push(self.warnings@, w);
        }
        self.warnings.push(w);
    }

    /// Takes in one more scan.
    fn fold(&mut self, s: &ScanHeader)
        ensures
            final(self).folded() == with_scan(old(self).folded(), *s),
            final(self).guid == old(self).guid,
            final(self).library_version == old(self).library_version,
            final(self).coordinate_metadata == old(self).coordinate_metadata,
            final(self).prototype == old(self).prototype,
    {
        let index: usize = self.scans.len();
        let scan = take_scan(s);
        self.point_count = self.point_count.wrapping_add(s.records);
        self.has_color = self.has_color || s.has_color;
        self.has_intensity = self.has_intensity || s.has_intensity;
        match scan.declared_bounds {
            Some(_) => {
                self.extent = match self.extent {
                    Some(e) => Some(e.union(&s.posed)),
                    None => Some(s.posed),
                };
                if s.rotated {
                    self.extent_exact = false;
                }
            },
            None => {
                self.extent_exact = false;
                self.say(
                    "e57-bounds-undeclared",
                    path_of(index),
                    "This scan declares no cartesianBounds, so where its points are can only be learnt by reading them.".to_owned(),
                );
            },
        }
        if !s.has_cartesian {
            self.say(
                "e57-spherical",
                path_of(index),
                "This scan stores range, azimuth and elevation rather than x/y/z. The points are converted to Cartesian on the way out.".to_owned(),
            );
        }
        let ghost before = self.scans@;
        self.scans.push(scan);
        assert(self.folded().scans =~= before.map_values(|s: ScanInfo| s@).push(scan@));
        assert(self.folded() =~= with_scan(old(self).folded(), *s));
    }
}

/// Everything a file says of itself, folded into one description.
pub fn describe(file: FileHeader) -> (info: E57Info)
    ensures
        info.folded() == said(file.scans@),
        info.guid == file.guid,
        info.library_version == file.library_version,
        info.coordinate_metadata == file.coordinate_metadata,
        field_views(info.prototype@) == file.prototype@.map_values(
            |r: RecordHeader| field_of(r),
        ),
{
    let fields = prototype(&file.prototype);
    let mut info = E57Info {
        point_count: 0,
        extent: None,
        extent_exact: true,
        has_color: false,
        has_intensity: false,
        scans: Vec::new(),
        guid: file.guid,
        library_version: file.library_version,
        coordinate_metadata: file.coordinate_metadata,
        prototype: fields,
        warnings: Vec::new(),
    };
    let ghost all = file.scans@;
    let mut i: usize = 0;
    assert(info.folded() =~= over_scans(all.take(0)));
    while i < file.scans.len()
        invariant
            i <= file.scans.len(),
            all == file.scans@,
            info.folded() == over_scans(all.take(i as int)),
            info.guid == file.guid,
            info.library_version == file.library_version,
            info.coordinate_metadata == file.coordinate_metadata,
            info.prototype == fields,
        decreases file.scans.len() - i,
    {
        assert(all.take(i + 1).drop_last() =~= all.take(i as int));
        info.fold(&file.scans[i]);
        i = i + 1;
    }
    assert(all.take(i as int) =~= all);
    if file.scans.len() > 0xffff {
        let n = decimal_of(file.scans.len() as u64);
        info.say(
            "e57-scans-overflow",
            "data3D".to_owned(),
            cat3(
                "This file holds ",
                n.as_str(),
                " scans and a LAS point source id is 16 bits, so every scan past the 65,535th is written with the same id.",
            ),
        );
    }
    if !info.extent_exact && info.extent.is_some() {
        info.say(
            "e57-bounds-posed",
            "data3D".to_owned(),
            "At least one scan is stored rotated relative to the file's frame, so the bounds it declares are not the box its points occupy. What is reported here is the hull of the rotated box, which is larger.".to_owned(),
        );
    }
    assert(info.folded() =~= said(all));
    info
}

/// One batch of points, in the file's own units and frame: a column for each
/// thing that a point carries.
#[derive(Debug)]
pub struct PointBatch {
    pub x: Vec<Real>,
    pub y: Vec<Real>,
    pub z: Vec<Real>,
    /// Empty when the file carries no colour.
    pub rgb: Vec<[u16; 3]>,
    /// Empty when the file carries no intensity.
    pub intensity: Vec<u16>,
    /// Which scan each point came from, the first being 1.
    pub source_id: Vec<u16>,
}

impl PointBatch {
    /// Whether the columns are of one length, but for those the file lacks.
    pub open spec fn wf(self) -> bool {
        &&& self.y@.len() == self.x@.len()
        &&& self.z@.len() == self.x@.len()
        &&& self.source_id@.len() == self.x@.len()
        &&& self.rgb@.len() == 0 || self.rgb@.len() == self.x@.len()
        &&& self.intensity@.len() == 0 || self.intensity@.len() == self.x@.len()
    }

    /// A batch of no points.
    pub fn new() -> (b: Self)
        ensures
            b.wf(),
            b.x@.len() == 0,
            b.rgb@.len() == 0,
            b.intensity@.len() == 0,
    {
        PointBatch {
            x: Vec::new(),
            y: Vec::new(),
            z: Vec::new(),
            rgb: Vec::new(),
            intensity: Vec::new(),
            source_id: Vec::new(),
        }
    }

    pub fn len(&self) -> (n: usize)
        ensures
            n == self.x@.len(),
    {
        self.x.len()
    }

    pub fn is_empty(&self) -> (r: bool)
        ensures
            r == (self.x@.len() == 0),
    {
        self.x.len() == 0
    }
}

/// What a full pass produced.
#[derive(Debug, Clone, Copy, PartialEq, Eq, Structural)]
pub struct ReadReport {
    /// Points handed out.
    pub points: u64,
    /// Points the file declared and that carried no position.
    pub dropped: u64,
    /// Points without a colour in a file that has colour.
    pub colourless: u64,
}

/// A point as it was decoded.
#[derive(Debug, Clone, Copy)]
pub struct Decoded {
    /// Where it is. Missing where the scan grid had no return, or only a
    /// direction.
    pub position: Option<[Real; 3]>,
    pub color: Option<[u16; 3]>,
    pub intensity: Option<u16>,
}

/// The scan a point came from, as its record says it. A scan that exists is not
/// unknown, so the first is 1; past the last id, all share it.
pub fn source_id(index: usize) -> (id: u16)
    ensures
        id == if index + 1 <= 0xffff {
            index + 1
        } else {
            0xffff
        },
{
    if index < 0xffff {
        (index + 1) as u16
    } else {
        0xffff
    }
}

/// A pass over the points of a file, gathered into batches.
#[derive(Debug)]
pub struct Reading {
    pub batch: usize,
    pub want_color: bool,
    pub want_intensity: bool,
    pub out: PointBatch,
    pub report: ReadReport,
}

/// Points accounted for so far: handed out, dropped, or waiting.
pub open spec fn accounted(r: Reading) -> int {
    r.report.points + r.report.dropped + r.out.x@.len()
}

impl Reading {
    pub open spec fn wf(self) -> bool {
        &&& self.batch >= 1
        &&& self.out.wf()
        &&& self.out.x@.len() < self.batch
        &&& self.want_color ==> self.out.rgb@.len() == self.out.x@.len()
        &&& !self.want_color ==> self.out.rgb@.len() == 0
        &&& self.want_intensity ==> self.out.intensity@.len() == self.out.x@.len()
        &&& !self.want_intensity ==> self.out.intensity@.len() == 0
    }

    /// A pass that hands out batches of a size, which is never zero.
    pub fn new(batch: usize, want_color: bool, want_intensity: bool) -> (r: Self)
        ensures
            r.wf(),
            r.batch == if batch == 0 {
                1
            } else {
                batch
            },
            r.want_color == want_color,
            r.want_intensity == want_intensity,
            r.report == (ReadReport { points: 0, dropped: 0, colourless: 0 }),
            r.out.x@.len() == 0,
    {
        Reading {
            batch: if batch == 0 {
                1
            } else {
                batch
            },
            want_color,
            want_intensity,
            out: PointBatch::new(),
            report: ReadReport { points: 0, dropped: 0, colourless: 0 },
        }
    }

    /// The columns with one more point.
    pub open spec fn holds_more(self, before: PointBatch, point: Decoded, id: u16, after: PointBatch)
        -> bool {
        let p = point.position->0;
        &&& after.x@ == before.x@.push(p@[0])
        &&& after.y@ == before.y@.push(p@[1])
        &&& after.z@ == before.z@.push(p@[2])
        &&& after.source_id@ == before.source_id@.push(id)
        &&& after.rgb@ == if self.want_color {
            before.rgb@.push(
                match point.color {
                    Some(c) => c,
                    None => [0xffff, 0xffff, 0xffff],
                },
            )
        } else {
            before.rgb@
        }
        &&& after.intensity@ == if self.want_intensity {
            before.intensity@.push(
                match point.intensity {
                    Some(i) => i,
                    None => 0,
                },
            )
        } else {
            before.intensity@
        }
    }

    fn put(&mut self, p: [Real; 3], color: Option<[u16; 3]>, intensity: Option<u16>, id: u16)
        requires
            old(self).wf(),
        ensures
            old(self).holds_more(
                old(self).out,
                Decoded { position: Some(p), color, intensity },
                id,
                final(self).out,
            ),
            final(self).out.wf(),
            *final(self) == (Reading { out: final(self).out, ..*old(self) }),
    {
        self.out.x.push(p[0]);
        self.out.y.push(p[1]);
        self.out.z.push(p[2]);
        self.out.source_id.push(id);
        if self.want_color {
            self.out.rgb.push(
                match color {
                    Some(c) => c,
                    None => [0xffff, 0xffff, 0xffff],
                },
            );
        }
        if self.want_intensity {
            self.out.intensity.push(
                match intensity {
                    Some(i) => i,
                    None => 0,
                },
            );
        }
    }

    /// Takes in a decoded point, and hands out the batch that it fills.
    ///
    /// A point with no position is dropped and counted, not put at the origin.
    /// One with no colour, in a file that has colour, is white: a black point
    /// reads as a shadow.
    pub fn take(&mut self, point: Decoded, id: u16) -> (r: Option<PointBatch>)
        requires
            old(self).wf(),
        ensures
            final(self).wf(),
            final(self).batch == old(self).batch,
            final(self).want_color == old(self).want_color,
            final(self).want_intensity == old(self).want_intensity,
            point.position is None ==> {
                &&& r is None
                &&& final(self).out == old(self).out
                &&& final(self).report == (ReadReport {
                    dropped: wrap64(old(self).report.dropped + 1),
                    ..old(self).report
                })
            },
            point.position is Some ==> {
                &&& r is Some <==> old(self).out.x@.len() + 1 >= old(self).batch
                &&& match r {
                    Some(b) => {
                        &&& old(self).holds_more(old(self).out, point, id, b)
                        &&& b.wf()
                        &&& final(self).out.x@.len() == 0
                    },
                    None => old(self).holds_more(old(self).out, point, id, final(self).out),
                }
                &&& final(self).report.dropped == old(self).report.dropped
                &&& final(self).report.points == if r is Some {
                    wrap64(old(self).report.points + old(self).out.x@.len() + 1)
                } else {
                    old(self).report.points
                }
                &&& final(self).report.colourless == if old(self).want_color && point.color is None {
                    wrap64(old(self).report.colourless + 1)
                } else {
                    old(self).report.colourless
                }
            },
            accounted(*old(self)) < u64::MAX ==> accounted(*final(self)) == accounted(*old(self))
                + 1,
    {
        match point.position {
            None => {
                self.report.dropped = self.report.dropped.wrapping_add(1);
                None
            },
            Some(p) => {
                if self.want_color && point.color.is_none() {
                    self.report.colourless = self.report.colourless.wrapping_add(1);
                }
                self.put(p, point.color, point.intensity, id);
                if self.out.len() >= self.batch {
                    self.report.points = self.report.points.wrapping_add(self.out.len() as u64);
                    let mut full = PointBatch::new();
                    std::mem::swap(&mut full, &mut self.out);
                    Some(full)
                } else {
                    None
                }
            },
        }
    }

    /// What is left at the end, where anything is.
    pub fn finish(self) -> (r: (Option<PointBatch>, ReadReport))
        requires
            self.wf(),
        ensures
            match r.0 {
                Some(b) => b == self.out && self.out.x@.len() > 0,
                None => self.out.x@.len() == 0,
            },
            r.1 == (ReadReport {
                points: wrap64(self.report.points + self.out.x@.len()),
                ..self.report
            }),
    {
        let mut report = self.report;
        report.points = report.points.wrapping_add(self.out.len() as u64);
        if self.out.is_empty() {
            (None, report)
        } else {
            (Some(self.out), report)
        }
    }
}

/// A measured extent, and the count that goes with it.
#[derive(Debug, Clone, Copy)]
pub struct Measured {
    pub extent: Bounds,
    pub report: ReadReport,
}

/// A box grown by the first `n` points of a batch.
pub open spec fn grown_by(b: Bounds, batch: PointBatch, n: int) -> Bounds
    decreases n,
{
    if n <= 0 {
        b
    } else {
        grown_by(b, batch, n - 1).grown(
            seq![batch.x@[n - 1], batch.y@[n - 1], batch.z@[n - 1]],
        )
    }
}

/// Grows an extent by every point of a batch.
pub fn measure_batch(extent: &mut Bounds, batch: &PointBatch)
    requires
        batch.wf(),
    ensures
        *final(extent) == grown_by(*old(extent), *batch, batch.x@.len() as int),
{
    let mut i: usize = 0;
    while i < batch.x.len()
        invariant
            i <= batch.x.len(),
            batch.wf(),
            *extent == grown_by(*old(extent), *batch, i as int),
        decreases batch.x.len() - i,
    {
        let p = [batch.x[i], batch.y[i], batch.z[i]];
        assert(p@ =~= seq![batch.x@[i as int], batch.y@[i as int], batch.z@[i as int]]);
        extent.grow(p);
        i = i + 1;
    }
}

/// What a pass measured. A file whose points carry no position has no extent.
pub fn measure(extent: Bounds, report: ReadReport) -> (r: Result<Measured, Error>)
    ensures
        match r {
            Ok(m) => report.points > 0 && m == (Measured { extent, report }),
            Err(e) => report.points == 0 && e@ == Failure::Unsupported(
                "this E57 declares points and none of them carried a position"@,
            ),
        },
{
    if report.points == 0 {
        Err(
            Error::Unsupported(
                "this E57 declares points and none of them carried a position".to_owned(),
            ),
        )
    } else {
        Ok(Measured { extent, report })
    }
}

/// Where a scanned point is, in its record.
pub open spec fn place_part(position: Seq<i32>) -> Seq<u8> {
    bytes32(pattern32(position[0] as int)) + bytes32(pattern32(position[1] as int)) + bytes32(
        pattern32(position[2] as int),
    )
}

/// The fields of a scanned point that every format has: one return of one, never
/// classified, no time.
pub open spec fn scan_part(intensity: u16, source_id: u16) -> Seq<u8> {
    bytes16(intensity as int) + seq![0x11u8] + zeros(5) + bytes16(source_id as int) + zeros(8)
}

/// The fields of a scanned point that only some formats have.
pub open spec fn tail_part(layout: RecordLayout, rgb: Seq<u16>) -> Seq<u8> {
    (if layout.format == 7 || layout.format == 8 {
        bytes16(rgb[0] as int) + bytes16(rgb[1] as int) + bytes16(rgb[2] as int)
    } else {
        Seq::empty()
    }) + (if layout.format == 8 {
        zeros(2)
    } else {
        Seq::empty()
    }) + zeros(layout.extra as nat)
}

/// The colour of a point, white where its file has none.
pub open spec fn color_of(batch: PointBatch, i: int) -> Seq<u16> {
    if i < batch.rgb@.len() {
        batch.rgb@[i]@
    } else {
        seq![0xffff, 0xffff, 0xffff]
    }
}

/// The intensity of a point, zero where its file has none.
pub open spec fn intensity_of(batch: PointBatch, i: int) -> u16 {
    if batch.intensity@.len() > 0 {
        batch.intensity@[i]
    } else {
        0
    }
}

/// The record of a scanned point.
pub open spec fn scan_record(
    layout: RecordLayout,
    batch: PointBatch,
    i: int,
    position: Seq<i32>,
) -> Seq<u8> {
    place_part(position) + scan_part(intensity_of(batch, i), batch.source_id@[i]) + tail_part(
        layout,
        color_of(batch, i),
    )
}

fn put_place(position: [i32; 3], out: &mut Vec<u8>)
    ensures
        final(out)@ == old(out)@ + place_part(position@),
        place_part(position@).len() == 12,
{
    put_u32(out, as_pattern(position[0]));
    put_u32(out, as_pattern(position[1]));
    put_u32(out, as_pattern(position[2]));
    assert(out@ =~= old(out)@ + place_part(position@));
}

fn put_scan(intensity: u16, source_id: u16, out: &mut Vec<u8>)
    ensures
        final(out)@ == old(out)@ + scan_part(intensity, source_id),
        scan_part(intensity, source_id).len() == 18,
{
    put_u16(out, intensity);
    let ghost a = out@;
    assert(a == old(out)@ + bytes16(intensity as int));
    out.push(0x11);
    assert(out@ =~= a + seq![0x11u8]);
    put_zeros(out, 5);
    put_u16(out, source_id);
    put_zeros(out, 8);
    assert(out@ =~= old(out)@ + scan_part(intensity, source_id));
}

fn put_tail(layout: &RecordLayout, rgb: [u16; 3], out: &mut Vec<u8>)
    requires
        layout.wf(),
    ensures
        final(out)@ == old(out)@ + tail_part(*layout, rgb@),
        tail_part(*layout, rgb@).len() == layout.base + layout.extra - 30,
{
    if layout.has_color() {
        put_u16(out, rgb[0]);
        put_u16(out, rgb[1]);
        put_u16(out, rgb[2]);
    }
    if layout.has_nir() {
        put_zeros(out, 2);
    }
    put_zeros(out, layout.extra);
    assert(out@ =~= old(out)@ + tail_part(*layout, rgb@));
}

/// Appends the record of one point of a batch, at a quantised position.
pub fn write_record(
    layout: &RecordLayout,
    batch: &PointBatch,
    index: usize,
    position: [i32; 3],
    out: &mut Vec<u8>,
)
    requires
        layout.wf(),
        batch.wf(),
        index < batch.x@.len(),
    ensures
        final(out)@ == old(out)@ + scan_record(*layout, *batch, index as int, position@),
        scan_record(*layout, *batch, index as int, position@).len() == layout.base + layout.extra,
{
    let intensity: u16 = if batch.intensity.len() > 0 {
        batch.intensity[index]
    } else {
        0
    };
    let rgb: [u16; 3] = if index < batch.rgb.len() {
        batch.rgb[index]
    } else {
        [0xffff, 0xffff, 0xffff]
    };
    assert(rgb@ =~= color_of(*batch, index as int));
    put_place(position, out);
    put_scan(intensity, batch.source_id[index], out);
    put_tail(layout, rgb, out);
    assert(out@ =~= old(out)@ + scan_record(*layout, *batch, index as int, position@));
}

} // verus!
