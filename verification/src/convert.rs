//! Converting: read every input, build one octree, write one cloud.
//!
//! The decisions between the stages: what the inputs turned out to be together,
//! what to do where they disagree, what record to write, and whether the points
//! fit in memory. Nothing is lost in silence: every narrowing comes back as a
//! warning that names what was lost.

use crate::bounds::{lesser, Bounds};
use crate::cloud::{declared, wrap64, FormatId};
use crate::crs::{label_of, Crs, Declared};
use crate::double::{Real, INFINITY, ZERO};
use crate::e57::Measured;
use crate::error::{Error, Failure};
use crate::las::crs::{
    projection, GEOKEY_ASCII_RECORD_ID, GEOKEY_DIRECTORY_RECORD_ID,
    GEOKEY_DOUBLE_RECORD_ID, WKT_RECORD_ID,
};
use crate::las::extra_bytes::{extras, extras_of, parse_extra_bytes, Extra, ExtraByteField};
use crate::las::point_format::{
    base_size, colored, las_base_size, las_format_has_color, las_format_has_gps_time, timed,
    unknown_format,
};
use crate::las::{find_record, record_named, records, Header, LasHeader, Record, Vlr};
use crate::record::{output_format, RecordLayout};
use crate::text::{cat2, cat4, cat5, decimal, decimal_of, quoted, quoted_text, same};
use crate::warning::{append, notices, notices_push, Notice, Warning};
use crate::write::ept::EptEncoding;
use crate::write::potree::PotreeEncoding;
use vstd::prelude::*;
use vstd::string::*;

verus! {

/// What to write.
#[derive(Debug, Clone, Copy, PartialEq, Eq, Structural)]
pub enum OutputFormat {
    Copc,
    PotreeV2(PotreeEncoding),
    Ept(EptEncoding),
    /// 3D Tiles 1.1, explicit tree, glTF content.
    Tiles3D,
}

/// The format that a name asks for.
pub open spec fn format_named(name: Seq<char>) -> Option<OutputFormat> {
    if name == "copc"@ {
        Some(OutputFormat::Copc)
    } else if name == "potree"@ || name == "potree-v2"@ {
        Some(OutputFormat::PotreeV2(PotreeEncoding::Default))
    } else if name == "potree-brotli"@ {
        Some(OutputFormat::PotreeV2(PotreeEncoding::Brotli))
    } else if name == "ept"@ || name == "ept-laszip"@ {
        Some(OutputFormat::Ept(EptEncoding::Laszip))
    } else if name == "ept-binary"@ {
        Some(OutputFormat::Ept(EptEncoding::Binary))
    } else if name == "3dtiles"@ || name == "3d-tiles"@ || name == "tileset"@ {
        Some(OutputFormat::Tiles3D)
    } else {
        None
    }
}

impl OutputFormat {
    /// The format that a name asks for.
    pub fn parse(name: &str) -> (r: Option<Self>)
        ensures
            r == format_named(name@),
    {
        if same(name, "copc") {
            Some(OutputFormat::Copc)
        } else if same(name, "potree") || same(name, "potree-v2") {
            Some(OutputFormat::PotreeV2(PotreeEncoding::Default))
        } else if same(name, "potree-brotli") {
            Some(OutputFormat::PotreeV2(PotreeEncoding::Brotli))
        } else if same(name, "ept") || same(name, "ept-laszip") {
            Some(OutputFormat::Ept(EptEncoding::Laszip))
        } else if same(name, "ept-binary") {
            Some(OutputFormat::Ept(EptEncoding::Binary))
        } else if same(name, "3dtiles") || same(name, "3d-tiles") || same(name, "tileset") {
            Some(OutputFormat::Tiles3D)
        } else {
            None
        }
    }

    pub open spec fn spelling(self) -> Seq<char> {
        match self {
            OutputFormat::Copc => "copc"@,
            OutputFormat::PotreeV2(PotreeEncoding::Default) => "potree-v2"@,
            OutputFormat::PotreeV2(PotreeEncoding::Brotli) => "potree-v2-brotli"@,
            OutputFormat::Ept(EptEncoding::Laszip) => "ept-laszip"@,
            OutputFormat::Ept(EptEncoding::Binary) => "ept-binary"@,
            OutputFormat::Tiles3D => "3d-tiles"@,
        }
    }

    pub fn name(self) -> (s: &'static str)
        ensures
            s@ == self.spelling(),
    {
        match self {
            OutputFormat::Copc => "copc",
            OutputFormat::PotreeV2(PotreeEncoding::Default) => "potree-v2",
            OutputFormat::PotreeV2(PotreeEncoding::Brotli) => "potree-v2-brotli",
            OutputFormat::Ept(EptEncoding::Laszip) => "ept-laszip",
            OutputFormat::Ept(EptEncoding::Binary) => "ept-binary",
            OutputFormat::Tiles3D => "3d-tiles",
        }
    }

    /// Whether the output is one file or a directory of them.
    pub fn is_file(self) -> (r: bool)
        ensures
            r == (self is Copc),
    {
        matches!(self, OutputFormat::Copc)
    }
}

/// Every format but one is reached by its own name: what a report calls
/// `potree-v2-brotli` is asked for as `potree-brotli`.
pub proof fn names_ask_for_their_format(f: OutputFormat)
    ensures
        f != OutputFormat::PotreeV2(PotreeEncoding::Brotli) ==> format_named(f.spelling()) == Some(
            f,
        ),
        format_named("potree-brotli"@) == Some(OutputFormat::PotreeV2(PotreeEncoding::Brotli)),
{
    reveal_strlit("copc");
    reveal_strlit("potree");
    reveal_strlit("potree-v2");
    reveal_strlit("potree-brotli");
    reveal_strlit("ept");
    reveal_strlit("ept-laszip");
    reveal_strlit("ept-binary");
    reveal_strlit("3dtiles");
    reveal_strlit("3d-tiles");
    reveal_strlit("tileset");
    assert("potree-v2"@.len() == 9);
    assert("3d-tiles"@.len() == 8);
    assert("ept-laszip"@.len() == 10 && "ept-binary"@.len() == 10);
    assert("ept-laszip"@[4] == 'l' && "ept-binary"@[4] == 'b');
    assert("potree-brotli"@.len() == 13);
}

/// The format that a command was asked for, or what to try instead.
pub fn wanted_format(name: &str) -> (r: Result<OutputFormat, Error>)
    ensures
        match r {
            Ok(f) => format_named(name@) == Some(f),
            Err(e) => format_named(name@) is None && e@ == Failure::Unsupported(
                quoted_text(name@)
                    + " is not an output format. Try copc, potree, potree-brotli, ept or ept-binary."@,
            ),
        },
{
    match OutputFormat::parse(name) {
        Some(f) => Ok(f),
        None => {
            let q = quoted(name);
            Err(
                Error::Unsupported(
                    cat2(
                        q.as_str(),
                        " is not an output format. Try copc, potree, potree-brotli, ept or ept-binary.",
                    ),
                ),
            )
        },
    }
}

/// What an output that is already there means.
#[derive(Debug, Clone, Copy, PartialEq, Eq, Structural)]
pub enum Standing {
    /// Nothing is there.
    Free,
    /// A file is there, and is to be removed.
    RemoveFile,
    /// A directory is there, and is to be removed.
    RemoveDirectory,
}

/// Whether an output may be written: never over something that is there, unless
/// that was asked for.
pub fn output_standing(path: &str, occupied: bool, is_directory: bool, force: bool) -> (r: Result<
    Standing,
    Error,
>)
    ensures
        match r {
            Ok(s) => (!occupied || force) && s == if !occupied {
                Standing::Free
            } else if is_directory {
                Standing::RemoveDirectory
            } else {
                Standing::RemoveFile
            },
            Err(e) => occupied && !force && e@ == Failure::Source(
                path@ + " already exists. Pass --force to overwrite it."@,
            ),
        },
{
    if !occupied {
        Ok(Standing::Free)
    } else if !force {
        Err(Error::Source(cat2(path, " already exists. Pass --force to overwrite it.")))
    } else if is_directory {
        Ok(Standing::RemoveDirectory)
    } else {
        Ok(Standing::RemoveFile)
    }
}

/// The finest quantum written where none is stated: a millimetre.
pub const MILLIMETRE: u64 = 0x3f50_624d_d2f1_a9fc;

/// What the inputs turned out to be, before a point is read.
#[derive(Debug)]
pub struct Scan {
    pub point_count: u64,
    pub extent: Bounds,
    pub scale: [Real; 3],
    pub offset: [Real; 3],
    pub crs: Option<Crs>,
    pub any_color: bool,
    pub any_nir: bool,
    /// Whether every input used a legacy point format, which decides how the
    /// output names two fields.
    pub all_legacy: bool,
    /// Whether any input carried GPS time.
    pub any_gps_time: bool,
    pub extra: usize,
    pub extra_vlr: Vec<u8>,
    /// The projection records of the first input that carried any, verbatim.
    pub projection_vlrs: Vec<(u16, Vec<u8>)>,
    pub warnings: Vec<Warning>,
}

/// A scan, as the values it holds.
#[verifier::ext_equal]
pub struct Facts {
    pub point_count: u64,
    pub extent: Bounds,
    pub scale: Seq<Real>,
    pub offset: Seq<Real>,
    pub crs: Option<Declared>,
    pub any_color: bool,
    pub any_nir: bool,
    pub all_legacy: bool,
    pub any_gps_time: bool,
    pub extra: usize,
    pub extra_vlr: Seq<u8>,
    pub projection_vlrs: Seq<(u16, Seq<u8>)>,
    pub warnings: Seq<Notice>,
}

/// Several records, each as its id and its bytes.
pub open spec fn carried(list: Seq<(u16, Vec<u8>)>) -> Seq<(u16, Seq<u8>)> {
    list.map_values(|r: (u16, Vec<u8>)| (r.0, r.1@))
}

impl View for Scan {
    type V = Facts;

    open spec fn view(&self) -> Facts {
        Facts {
            point_count: self.point_count,
            extent: self.extent,
            scale: self.scale@,
            offset: self.offset@,
            crs: declared(self.crs),
            any_color: self.any_color,
            any_nir: self.any_nir,
            all_legacy: self.all_legacy,
            any_gps_time: self.any_gps_time,
            extra: self.extra,
            extra_vlr: self.extra_vlr@,
            projection_vlrs: carried(self.projection_vlrs@),
            warnings: notices(self.warnings@),
        }
    }
}

/// What is known before the first input: nothing, and a quantum above every
/// other.
pub open spec fn nothing_known() -> Facts {
    let top = Real { bits: INFINITY };
    let zero = Real { bits: ZERO };
    Facts {
        point_count: 0,
        extent: Bounds::nothing(),
        scale: seq![top, top, top],
        offset: seq![zero, zero, zero],
        crs: None,
        any_color: false,
        any_nir: false,
        all_legacy: true,
        any_gps_time: false,
        extra: 0,
        extra_vlr: Seq::empty(),
        projection_vlrs: Seq::empty(),
        warnings: Seq::empty(),
    }
}

/// Extra dimensions: how many bytes they take, and the record that describes
/// them.
pub type Dimensions = (usize, Seq<u8>);

/// Reading the headers of the inputs, one after another.
#[derive(Debug)]
pub struct Scanner {
    pub scan: Scan,
    /// What the first LAS input says of its extra dimensions.
    pub first_extra: Option<(usize, Vec<u8>)>,
    pub extras_agree: bool,
    /// Whether any LAS input carries extra bytes.
    pub any_extra: bool,
}

/// A scanner, as the values it holds.
#[verifier::ext_equal]
pub struct Known {
    pub facts: Facts,
    pub first_extra: Option<Dimensions>,
    pub extras_agree: bool,
    pub any_extra: bool,
}

impl View for Scanner {
    type V = Known;

    open spec fn view(&self) -> Known {
        Known {
            facts: self.scan@,
            first_extra: match self.first_extra {
                Some(e) => Some((e.0, e.1@)),
                None => None,
            },
            extras_agree: self.extras_agree,
            any_extra: self.any_extra,
        }
    }
}

/// The finer of a quantum and one that an input uses. A quantum that is not
/// above zero says nothing.
pub open spec fn finer(held: Real, used: Real) -> Real {
    if (Real { bits: ZERO }).below(used) {
        lesser(held, used)
    } else {
        held
    }
}

/// The projection records among some records, in the order they are looked for.
pub open spec fn projections(all: Seq<Record>) -> Seq<(u16, Seq<u8>)> {
    one_projection(all, WKT_RECORD_ID) + one_projection(all, GEOKEY_DIRECTORY_RECORD_ID)
        + one_projection(all, GEOKEY_DOUBLE_RECORD_ID) + one_projection(all, GEOKEY_ASCII_RECORD_ID)
}

/// The projection record with an id, where there is one.
pub open spec fn one_projection(all: Seq<Record>, id: u16) -> Seq<(u16, Seq<u8>)> {
    match projection(all, id) {
        Some(data) => seq![(id, data)],
        None => Seq::empty(),
    }
}

/// The extra dimensions of a LAS file whose format has a base size.
pub open spec fn dimensions_of(h: Header) -> Dimensions {
    let base = base_size(h.point_format)->0;
    (
        if h.point_size > base {
            (h.point_size - base) as usize
        } else {
            0
        },
        match record_named(h.vlrs, "LASF_Spec"@, 4) {
            Some(r) => r.data,
            None => Seq::empty(),
        },
    )
}

/// What is said of an input that declares another reference system.
pub open spec fn mixed(path: Seq<char>, here: Declared, first: Declared) -> Notice {
    Notice {
        code: "mixed-crs"@,
        path,
        message: "This file declares "@ + label_of(here) + " and an earlier input declared "@
            + label_of(first)
            + ". The output keeps the first, and the points are merged without reprojection."@,
    }
}

/// What is known, with one more LAS file.
pub open spec fn with_las(k: Known, path: Seq<char>, h: Header, extent: Bounds, crs: Option<
    Declared,
>) -> Known {
    let f = k.facts;
    let here = dimensions_of(h);
    Known {
        facts: Facts {
            point_count: wrap64(f.point_count + h.point_count),
            extent: f.extent.joined(extent),
            scale: seq![
                finer(f.scale[0], h.scale[0]),
                finer(f.scale[1], h.scale[1]),
                finer(f.scale[2], h.scale[2]),
            ],
            crs: if f.crs is None {
                crs
            } else {
                f.crs
            },
            any_color: f.any_color || colored(h.point_format),
            any_nir: f.any_nir || h.point_format == 8 || h.point_format == 10,
            all_legacy: f.all_legacy && h.point_format <= 5,
            any_gps_time: f.any_gps_time || timed(h.point_format),
            projection_vlrs: if f.projection_vlrs.len() == 0 {
                projections(h.vlrs)
            } else {
                f.projection_vlrs
            },
            warnings: match (f.crs, crs) {
                (Some(first), Some(c)) => if first.raw != c.raw {
                    f.warnings.push(mixed(path, c, first))
                } else {
                    f.warnings
                },
                _ => f.warnings,
            },
            ..f
        },
        first_extra: match k.first_extra {
            None => Some(here),
            Some(e) => Some(e),
        },
        extras_agree: match k.first_extra {
            None => k.extras_agree,
            Some(e) => k.extras_agree && e == here,
        },
        any_extra: k.any_extra || here.0 > 0,
    }
}

/// What is said of the points of an E57 file that are no places.
pub open spec fn without_place(path: Seq<char>, m: Measured) -> Notice {
    Notice {
        code: "e57-invalid-points"@,
        path,
        message: decimal(m.report.dropped as nat) + " of this file's "@ + decimal(
            wrap64(m.report.dropped + m.report.points) as nat,
        )
            + " points carry no position \u{2014} a no-return in the scan grid \u{2014} and are not converted."@,
    }
}

/// What is known, with one more E57 file.
pub open spec fn with_e57(
    k: Known,
    path: Seq<char>,
    warnings: Seq<Notice>,
    has_color: bool,
    m: Measured,
    crs: Option<Declared>,
) -> Known {
    let f = k.facts;
    let said = f.warnings + warnings;
    Known {
        facts: Facts {
            point_count: wrap64(f.point_count + m.report.points),
            extent: f.extent.joined(m.extent),
            crs: if f.crs is None {
                crs
            } else {
                f.crs
            },
            any_color: f.any_color || has_color,
            all_legacy: false,
            warnings: if m.report.dropped > 0 {
                said.push(without_place(path, m))
            } else {
                said
            },
            ..f
        },
        ..k
    }
}

/// What is said where the extra dimensions differ.
pub open spec fn dropped_notice() -> Notice {
    Notice {
        code: "extra-bytes-dropped"@,
        path: "inputs"@,
        message: "The inputs describe different extra dimensions, which cannot be merged into one record. They are dropped; every standard LAS field is kept."@,
    }
}

/// A quantum that can be written at.
pub open spec fn usable(r: Real) -> Real {
    if r.positive() {
        r
    } else {
        Real { bits: MILLIMETRE }
    }
}

/// What the inputs are together, once the last has been seen.
pub open spec fn concluded(k: Known) -> Facts {
    let f = k.facts;
    let scale = seq![usable(f.scale[0]), usable(f.scale[1]), usable(f.scale[2])];
    match k.first_extra {
        Some(e) => if k.extras_agree {
            Facts { extra: e.0, extra_vlr: e.1, scale, ..f }
        } else if k.any_extra {
            Facts { warnings: f.warnings.push(dropped_notice()), scale, ..f }
        } else {
            Facts { scale, ..f }
        },
        None => Facts { scale, ..f },
    }
}

fn copy_bytes(b: &Vec<u8>) -> (out: Vec<u8>)
    ensures
        out@ == b@,
{
    let out = crate::bytes::slice_of(b.as_slice(), 0, b.len());
    assert(out@ =~= b@);
    out
}

fn same_bytes(a: &Vec<u8>, b: &Vec<u8>) -> (r: bool)
    ensures
        r == (a@ == b@),
{
    if a.len() != b.len() {
        return false;
    }
    let mut i: usize = 0;
    while i < a.len()
        invariant
            i <= a.len(),
            a.len() == b.len(),
            forall|k: int| 0 <= k < i ==> a@[k] == b@[k],
        decreases a.len() - i,
    {
        if a[i] != b[i] {
            assert(a@[i as int] != b@[i as int]);
            return false;
        }
        i = i + 1;
    }
    assert(a@ =~= b@);
    true
}

fn put_projection(vlrs: &Vec<Vlr>, id: u16, out: &mut Vec<(u16, Vec<u8>)>)
    ensures
        carried(final(out)@) == carried(old(out)@) + one_projection(records(vlrs@), id),
{
    if let Some(v) = find_record(vlrs, "LASF_Projection", id) {
        let data = copy_bytes(&v.data);
        out.push((id, data));
    }
    assert(carried(out@) =~= carried(old(out)@) + one_projection(records(vlrs@), id));
}

fn find_dimensions(h: &LasHeader, base: usize) -> (r: (usize, Vec<u8>))
    requires
        base_size(h.point_format) == Some(base),
    ensures
        (r.0, r.1@) == dimensions_of(h@),
{
    let size: usize = h.point_size as usize;
    let extra: usize = if size > base {
        size - base
    } else {
        0
    };
    let data = match find_record(&h.vlrs, "LASF_Spec", 4) {
        Some(v) => copy_bytes(&v.data),
        None => {
            let none: Vec<u8> = Vec::new();
            assert(none@ =~= Seq::<u8>::empty());
            none
        },
    };
    (extra, data)
}

fn finer_of(held: Real, used: Real) -> (r: Real)
    ensures
        r == finer(held, used),
{
    let zero = Real { bits: ZERO };
    if zero.is_below(used) && used.is_below(held) {
        used
    } else {
        held
    }
}

fn usable_of(r: Real) -> (u: Real)
    ensures
        u == usable(r),
{
    if r.is_positive() {
        r
    } else {
        Real { bits: MILLIMETRE }
    }
}

/// Whether a format can be converted.
pub fn readable(format: FormatId) -> (r: bool)
    ensures
        r == (format is Las || format is Copc || format is E57),
{
    matches!(format, FormatId::Las | FormatId::Copc | FormatId::E57)
}

/// What is said of an input that cannot be converted.
pub fn not_readable(path: &str, format: FormatId) -> (e: Error)
    ensures
        e@ == Failure::Unsupported(
            path@ + " is "@ + format.caption()
                + ". The converter reads LAS, LAZ, COPC and E57; a Potree or EPT cloud is already indexed, and re-indexing one is not implemented"@,
        ),
{
    Error::Unsupported(
        cat4(
            path,
            " is ",
            format.title(),
            ". The converter reads LAS, LAZ, COPC and E57; a Potree or EPT cloud is already indexed, and re-indexing one is not implemented",
        ),
    )
}

impl Scan {
    fn blank() -> (s: Self)
        ensures
            s@ == nothing_known(),
    {
        let top = Real { bits: INFINITY };
        let zero = Real { bits: ZERO };
        let s = Scan {
            point_count: 0,
            extent: Bounds::empty(),
            scale: [top, top, top],
            offset: [zero, zero, zero],
            crs: None,
            any_color: false,
            any_nir: false,
            all_legacy: true,
            any_gps_time: false,
            extra: 0,
            extra_vlr: Vec::new(),
            projection_vlrs: Vec::new(),
            warnings: Vec::new(),
        };
        assert(s@ =~= nothing_known());
        s
    }

    fn say(&mut self, code: &'static str, path: String, message: String)
        ensures
            final(self)@ == (Facts {
                warnings: old(self)@.warnings.push(
                    Notice { code: code@, path: path@, message: message@ },
                ),
                ..old(self)@
            }),
    {
        let w = Warning::new(code, path, message);
        proof {
            notices_push(self.warnings@, w);
        }
        self.warnings.push(w);
        assert(self@ =~= Facts { warnings: old(self)@.warnings.push(w@), ..old(self)@ });
    }

    /// Keeps the first reference system, and says where a later one differs.
    fn take_crs(&mut self, path: &str, crs: &Option<Crs>)
        ensures
            final(self)@ == (Facts {
                crs: if old(self)@.crs is None {
                    declared(*crs)
                } else {
                    old(self)@.crs
                },
                warnings: match (old(self)@.crs, declared(*crs)) {
                    (Some(first), Some(c)) => if first.raw != c.raw {
                        old(self)@.warnings.push(mixed(path@, c, first))
                    } else {
                        old(self)@.warnings
                    },
                    _ => old(self)@.warnings,
                },
                ..old(self)@
            }),
    {
        let ghost before = self@;
        let (differs, first) = match (&self.crs, crs) {
            (Some(first), Some(c)) => {
                if same(first.raw.as_str(), c.raw.as_str()) {
                    (false, String::new())
                } else {
                    (true, first.label())
                }
            },
            _ => (false, String::new()),
        };
        if differs {
            if let Some(c) = crs {
                let here = c.label();
                self.say(
                    "mixed-crs",
                    path.to_owned(),
                    cat5(
                        "This file declares ",
                        here.as_str(),
                        " and an earlier input declared ",
                        first.as_str(),
                        ". The output keeps the first, and the points are merged without reprojection.",
                    ),
                );
            }
        }
        if self.crs.is_none() {
            self.crs = match crs {
                Some(c) => Some(c.duplicate()),
                None => None,
            };
        }
        proof {
            let after = Facts {
                crs: if before.crs is None {
                    declared(*crs)
                } else {
                    before.crs
                },
                warnings: match (before.crs, declared(*crs)) {
                    (Some(first), Some(c)) => if first.raw != c.raw {
                        before.warnings.push(mixed(path@, c, first))
                    } else {
                        before.warnings
                    },
                    _ => before.warnings,
                },
                ..before
            };
            assert(self@ =~= after);
        }
    }

    fn take_projections(&mut self, vlrs: &Vec<Vlr>)
        ensures
            final(self)@ == (Facts {
                projection_vlrs: if old(self)@.projection_vlrs.len() == 0 {
                    projections(records(vlrs@))
                } else {
                    old(self)@.projection_vlrs
                },
                ..old(self)@
            }),
    {
        let ghost before = self@;
        if self.projection_vlrs.len() == 0 {
            let mut list: Vec<(u16, Vec<u8>)> = Vec::new();
            put_projection(vlrs, WKT_RECORD_ID, &mut list);
            put_projection(vlrs, GEOKEY_DIRECTORY_RECORD_ID, &mut list);
            put_projection(vlrs, GEOKEY_DOUBLE_RECORD_ID, &mut list);
            put_projection(vlrs, GEOKEY_ASCII_RECORD_ID, &mut list);
            self.projection_vlrs = list;
            assert(carried(list@) =~= projections(records(vlrs@)));
        }
        assert(self@ =~= Facts {
            projection_vlrs: if before.projection_vlrs.len() == 0 {
                projections(records(vlrs@))
            } else {
                before.projection_vlrs
            },
            ..before
        });
    }

    fn take_numbers(&mut self, header: &LasHeader)
        ensures
            final(self)@ == (Facts {
                point_count: wrap64(old(self)@.point_count + header.point_count),
                extent: old(self)@.extent.joined(Bounds { min: header.min, max: header.max }),
                scale: seq![
                    finer(old(self)@.scale[0], header.scale@[0]),
                    finer(old(self)@.scale[1], header.scale@[1]),
                    finer(old(self)@.scale[2], header.scale@[2]),
                ],
                any_color: old(self)@.any_color || colored(header.point_format),
                any_nir: old(self)@.any_nir || header.point_format == 8 || header.point_format
                    == 10,
                all_legacy: old(self)@.all_legacy && header.point_format <= 5,
                any_gps_time: old(self)@.any_gps_time || timed(header.point_format),
                ..old(self)@
            }),
    {
        let ghost before = self@;
        self.point_count = self.point_count.wrapping_add(header.point_count);
        let b = Bounds::new(header.min, header.max);
        self.extent = self.extent.union(&b);
        self.scale = [
            finer_of(self.scale[0], header.scale[0]),
            finer_of(self.scale[1], header.scale[1]),
            finer_of(self.scale[2], header.scale[2]),
        ];
        let format: u8 = header.point_format;
        self.any_color = self.any_color || las_format_has_color(format);
        self.any_nir = self.any_nir || format == 8 || format == 10;
        self.any_gps_time = self.any_gps_time || las_format_has_gps_time(format);
        self.all_legacy = self.all_legacy && format <= 5;
        assert(self@ =~= Facts {
            point_count: wrap64(before.point_count + header.point_count),
            extent: before.extent.joined(b),
            scale: seq![
                finer(before.scale[0], header.scale@[0]),
                finer(before.scale[1], header.scale@[1]),
                finer(before.scale[2], header.scale@[2]),
            ],
            any_color: before.any_color || colored(format),
            any_nir: before.any_nir || format == 8 || format == 10,
            all_legacy: before.all_legacy && format <= 5,
            any_gps_time: before.any_gps_time || timed(format),
            ..before
        });
    }
}

impl Scanner {
    /// Begins with a number of inputs, of which there must be one.
    pub fn begin(inputs: usize) -> (r: Result<Self, Error>)
        ensures
            match r {
                Ok(s) => inputs > 0 && s@ == (Known {
                    facts: nothing_known(),
                    first_extra: None,
                    extras_agree: true,
                    any_extra: false,
                }),
                Err(e) => inputs == 0 && e@ == Failure::Unsupported("no input files"@),
            },
    {
        if inputs == 0 {
            return Err(Error::Unsupported("no input files".to_owned()));
        }
        let s = Scanner {
            scan: Scan::blank(),
            first_extra: None,
            extras_agree: true,
            any_extra: false,
        };
        Ok(s)
    }

    /// Takes in the header of a LAS, LAZ or COPC file.
    #[verifier::spinoff_prover]
    #[verifier::rlimit(30)]
    pub fn add_las(&mut self, path: &str, header: &LasHeader, crs: &Option<Crs>) -> (r: Result<
        (),
        Error,
    >)
        ensures
            match r {
                Ok(_) => base_size(header.point_format) is Some && final(self)@ == with_las(
                    old(self)@,
                    path@,
                    header@,
                    Bounds { min: header.min, max: header.max },
                    declared(*crs),
                ),
                Err(e) => base_size(header.point_format) is None && e@ == unknown_format(
                    header.point_format,
                ) && *final(self) == *old(self),
            },
    {
        let base: usize = match las_base_size(header.point_format) {
            Ok(n) => n,
            Err(e) => {
                return Err(e);
            },
        };
        let ghost before = self@;
        self.scan.take_numbers(header);
        self.scan.take_crs(path, crs);
        self.scan.take_projections(&header.vlrs);
        let here = find_dimensions(header, base);
        self.any_extra = self.any_extra || here.0 > 0;
        match &self.first_extra {
            None => {
                self.first_extra = Some(here);
            },
            Some(e) => {
                let equal = e.0 == here.0 && same_bytes(&e.1, &here.1);
                if !equal {
                    self.extras_agree = false;
                }
            },
        }
        assert(self@ =~= with_las(
            before,
            path@,
            header@,
            Bounds { min: header.min, max: header.max },
            declared(*crs),
        ));
        Ok(())
    }

    /// Takes in an E57 file, with what a pass over its points measured: neither
    /// its bounds nor its count can be taken from what it declares.
    pub fn add_e57(
        &mut self,
        path: &str,
        warnings: &Vec<Warning>,
        has_color: bool,
        measured: &Measured,
        crs: &Option<Crs>,
    )
        ensures
            final(self)@ == with_e57(
                old(self)@,
                path@,
                notices(warnings@),
                has_color,
                *measured,
                declared(*crs),
            ),
    {
        let ghost before = self@;
        append(&mut self.scan.warnings, warnings);
        if measured.report.dropped > 0 {
            let n = decimal_of(measured.report.dropped);
            let all = decimal_of(measured.report.dropped.wrapping_add(measured.report.points));
            self.scan.say(
                "e57-invalid-points",
                path.to_owned(),
                cat4(
                    n.as_str(),
                    " of this file's ",
                    all.as_str(),
                    " points carry no position \u{2014} a no-return in the scan grid \u{2014} and are not converted.",
                ),
            );
        }
        self.scan.point_count = self.scan.point_count.wrapping_add(measured.report.points);
        self.scan.extent = self.scan.extent.union(&measured.extent);
        self.scan.any_color = self.scan.any_color || has_color;
        self.scan.all_legacy = false;
        if self.scan.crs.is_none() {
            self.scan.crs = match crs {
                Some(c) => Some(c.duplicate()),
                None => None,
            };
        }
        assert(self@.facts =~= with_e57(
            before,
            path@,
            notices(warnings@),
            has_color,
            *measured,
            declared(*crs),
        ).facts);
    }

    /// What the inputs are together. Inputs that declare no extent leave nothing
    /// to index.
    pub fn finish(self) -> (r: Result<Scan, Error>)
        ensures
            match r {
                Ok(s) => !self@.facts.extent.inverted() && s@ == concluded(self@),
                Err(e) => self@.facts.extent.inverted() && e@ == Failure::Unsupported(
                    "the inputs declare no extent, so there is nothing to index"@,
                ),
            },
    {
        let ghost k = self@;
        let Scanner { scan: mut out, first_extra, extras_agree, any_extra } = self;
        if let Some(e) = first_extra {
            if extras_agree {
                out.extra = e.0;
                out.extra_vlr = e.1;
            } else if any_extra {
                out.say(
                    "extra-bytes-dropped",
                    "inputs".to_owned(),
                    "The inputs describe different extra dimensions, which cannot be merged into one record. They are dropped; every standard LAS field is kept.".to_owned(),
                );
            }
        }
        if out.extent.is_empty() {
            return Err(
                Error::Unsupported(
                    "the inputs declare no extent, so there is nothing to index".to_owned(),
                ),
            );
        }
        out.scale = [usable_of(out.scale[0]), usable_of(out.scale[1]), usable_of(out.scale[2])];
        assert(out@ =~= concluded(k));
        Ok(out)
    }
}

/// The quantum kept is the finest that any input used: writing coarser would
/// throw away precision that is in a file, and finer would invent it.
pub proof fn the_finest_quantum_is_kept(
    k: Known,
    path: Seq<char>,
    h: Header,
    extent: Bounds,
    crs: Option<Declared>,
    axis: int,
)
    requires
        0 <= axis < 3,
        k.facts.scale.len() == 3,
        k.facts.scale[axis].rank() is Some,
    ensures
        ({
            let after = with_las(k, path, h, extent, crs).facts.scale[axis];
            &&& after.at_most(k.facts.scale[axis])
            &&& (Real { bits: ZERO }).below(h.scale[axis]) ==> after.at_most(h.scale[axis])
            &&& after == k.facts.scale[axis] || after == h.scale[axis]
        }),
{
}

/// The extent of the inputs holds every point that the box of any one of them
/// holds.
pub proof fn the_extent_holds_every_input(
    k: Known,
    path: Seq<char>,
    h: Header,
    extent: Bounds,
    crs: Option<Declared>,
    q: Seq<Real>,
)
    requires
        crate::bounds::measured_box(k.facts.extent),
        crate::bounds::measured_box(extent),
        k.facts.extent.holds(q) || extent.holds(q),
    ensures
        with_las(k, path, h, extent, crs).facts.extent.holds(q),
{
    crate::bounds::union_holds_both(k.facts.extent, extent, q);
}

/// Whether what is known of the extra dimensions is the outcome of a scan: where
/// an input carries some and none disagrees, the first carries them too.
pub open spec fn dimensions_follow(k: Known) -> bool {
    k.any_extra ==> match k.first_extra {
        Some(e) => k.extras_agree ==> e.0 > 0,
        None => false,
    }
}

/// Every input leaves what is known of the extra dimensions the outcome of a
/// scan, and once one input carried some, that is not forgotten.
pub proof fn scanning_remembers_dimensions(
    k: Known,
    path: Seq<char>,
    h: Header,
    extent: Bounds,
    crs: Option<Declared>,
    warnings: Seq<Notice>,
    has_color: bool,
    m: Measured,
)
    requires
        dimensions_follow(k),
    ensures
        dimensions_follow(with_las(k, path, h, extent, crs)),
        with_las(k, path, h, extent, crs).any_extra == (k.any_extra || dimensions_of(h).0 > 0),
        dimensions_follow(with_e57(k, path, warnings, has_color, m, crs)),
        with_e57(k, path, warnings, has_color, m, crs).any_extra == k.any_extra,
{
}

/// Extra dimensions are never lost in silence: where any input carries some,
/// either they are carried on or a warning says that they are dropped.
pub proof fn dropped_dimensions_are_named(k: Known)
    requires
        dimensions_follow(k),
        k.any_extra,
    ensures
        concluded(k).extra > 0 || concluded(k).warnings.contains(dropped_notice()),
{
    if !k.extras_agree {
        let said = concluded(k).warnings;
        assert(said[k.facts.warnings.len() as int] == dropped_notice());
    }
}

/// What a conversion does, once the inputs are known.
#[derive(Debug)]
pub struct Plan {
    pub layout: RecordLayout,
    /// Points across a node's edge: two at least.
    pub span: u32,
    /// Points a node may hold without being subdivided: one at least.
    pub leaf_points: usize,
    /// Bytes of all the records together.
    pub expected_bytes: u64,
    /// Whether the points go through disk.
    pub spilled: bool,
}

/// The format of the records written.
pub open spec fn written_format(s: Scan) -> u8 {
    if s.any_nir {
        8
    } else if s.any_color {
        7
    } else {
        6
    }
}

/// The fields of the extra dimensions, placed in the record that is written.
pub open spec fn written_extras(s: Scan) -> Seq<Extra> {
    if s.extra_vlr@.len() == 0 {
        Seq::empty()
    } else {
        extras(
            s.extra_vlr@,
            (s.extra_vlr@.len() / 192) as nat,
            base_size(written_format(s))->0,
        )
    }
}

/// Bytes of all the records together, or the most that can be counted.
pub open spec fn all_bytes(points: u64, stride: int) -> u64 {
    if points * stride <= u64::MAX {
        (points * stride) as u64
    } else {
        u64::MAX
    }
}

/// Settles what a conversion does. The widest record that any input needs is
/// written, and the points go through disk where they are more than the memory
/// they may take.
pub fn plan(scan: &Scan, span: u32, leaf_points: usize, memory_budget: u64) -> (p: Plan)
    requires
        scan.extra <= 0xffff,
    ensures
        p.layout.wf(),
        p.layout.format == written_format(*scan),
        p.layout.extra == scan.extra,
        p.layout.extra_vlr@ == scan.extra_vlr@,
        extras_of(p.layout.extra_fields@) == written_extras(*scan),
        p.span == if span < 2 {
            2
        } else {
            span
        },
        p.leaf_points == if leaf_points < 1 {
            1
        } else {
            leaf_points
        },
        p.expected_bytes == all_bytes(scan.point_count, p.layout.base + p.layout.extra),
        p.spilled == (p.expected_bytes > memory_budget),
{
    let format: u8 = output_format(scan.any_color, scan.any_nir);
    let base: usize = if format == 8 {
        38
    } else if format == 7 {
        36
    } else {
        30
    };
    let fields: Vec<ExtraByteField> = if scan.extra_vlr.len() == 0 {
        Vec::new()
    } else {
        parse_extra_bytes(scan.extra_vlr.as_slice(), base)
    };
    assert(scan.extra_vlr@.len() == 0 ==> extras_of(fields@) =~= Seq::<Extra>::empty());
    let layout = RecordLayout {
        format,
        base,
        extra: scan.extra,
        extra_vlr: copy_bytes(&scan.extra_vlr),
        extra_fields: fields,
    };
    let stride: u64 = layout.stride() as u64;
    assert(scan.point_count * stride <= 0xffff_ffff_ffff_ffff * 0x1_0100) by (nonlinear_arith)
        requires
            stride <= 0x1_0100,
            scan.point_count <= 0xffff_ffff_ffff_ffff,
            scan.point_count >= 0,
            stride >= 0,
    ;
    let product: u128 = (scan.point_count as u128) * (stride as u128);
    let expected_bytes: u64 = if product <= u64::MAX as u128 {
        product as u64
    } else {
        u64::MAX
    };
    Plan {
        layout,
        span: if span < 2 {
            2
        } else {
            span
        },
        leaf_points: if leaf_points < 1 {
            1
        } else {
            leaf_points
        },
        expected_bytes,
        spilled: expected_bytes > memory_budget,
    }
}

/// The bytes that a number of megabytes asks for, or all that can be addressed.
pub fn budget(megabytes: u64) -> (bytes: u64)
    ensures
        bytes == if megabytes * 0x10_0000 <= u64::MAX {
            megabytes * 0x10_0000
        } else {
            u64::MAX as int
        },
{
    if megabytes <= u64::MAX / 0x10_0000 {
        megabytes * 0x10_0000
    } else {
        u64::MAX
    }
}

} // verus!
