//! A bare LAS or LAZ file: points, and no index.
//!
//! There is nothing to stream, so a viewer either reads the whole file or
//! converts it first. The bytes are read elsewhere and handed in.

use crate::bounds::Bounds;
use crate::cloud::{declared, one_node, CloudInfo, FormatId, HierarchyStats, NodeInfo, Summary};
use crate::crs::{Crs, Declared};
use crate::double::Real;
use crate::error::Error;
use crate::las::crs::{las_crs, records_declare};
use crate::las::layout::{
    bytes_of, las_layout, layout_of, Domain, LasLayout, LasLayoutOptions, Layout, Placed,
};
use crate::las::point_format::unknown_format;
use crate::las::{find_record, record_named, records, LasHeader, Record, Vlr};
use crate::octree::OctreeKey;
use crate::text::{cat3, decimal, decimal_of};
use crate::warning::{append, notices, Notice, Warning};
use vstd::prelude::*;

verus! {

/// How much of the front to read before anything is known.
pub const OPEN_PROBE: usize = 8192;

/// The Extra Bytes record among some records.
pub open spec fn extra_record(all: Seq<Record>) -> Option<Seq<u8>> {
    match record_named(all, "LASF_Spec"@, 4) {
        Some(v) => Some(v.data),
        None => None,
    }
}

/// The Extra Bytes record among some records.
pub(crate) fn find_extra<'a>(vlrs: &'a Vec<Vlr>) -> (r: Option<&'a [u8]>)
    ensures
        bytes_of(r) == extra_record(records(vlrs@)),
{
    match find_record(vlrs, "LASF_Spec", 4) {
        Some(v) => Some(v.data.as_slice()),
        None => None,
    }
}

/// The bytes behind the place where the points start.
pub open spec fn bytes_behind(size: Option<u64>, from: u32) -> Option<u64> {
    match size {
        Some(n) => Some(
            if n > from {
                (n - from) as u64
            } else {
                0
            },
        ),
        None => None,
    }
}

/// The layout of a file's records.
pub open spec fn layout_for(
    header: LasHeader,
    extra: Option<Seq<u8>>,
    gps: Option<[Real; 2]>,
) -> Layout {
    layout_of(
        header.point_format,
        header.point_size as usize,
        extra,
        Domain {
            bounds: Bounds { min: header.min, max: header.max },
            gps_time_range: gps,
        },
    )
}

/// The summary of a LAS file of some format, with `first` the anomalies already
/// noted.
pub open spec fn las_summary(
    header: LasHeader,
    format: FormatId,
    label: Seq<char>,
    cube: Bounds,
    size: Option<u64>,
    crs: Option<Declared>,
    extra: Option<Seq<u8>>,
    gps: Option<[Real; 2]>,
    first: Seq<Notice>,
) -> Summary {
    let layout = layout_for(header, extra, gps);
    Summary {
        format,
        label,
        point_count: header.point_count,
        bounds: cube,
        tight_bounds: Bounds { min: header.min, max: header.max },
        scale: header.scale@,
        offset: header.offset@,
        attributes: layout.attributes.map_values(|p: Placed| p.column),
        crs,
        spacing: None,
        levels: None,
        encoding: Some(
            if header.compressed {
                "laszip"@
            } else {
                "uncompressed"@
            },
        ),
        version: Some(
            decimal(header.version_major as nat) + "."@ + decimal(header.version_minor as nat),
        ),
        data_bytes: bytes_behind(size, header.offset_to_point_data),
        record_bytes: Some(layout.stride),
        warnings: first + layout.warnings,
    }
}

/// Fills in the summary of a LAS file of some format.
pub(crate) fn fill(
    header: &LasHeader,
    format: FormatId,
    label: &str,
    cube: Bounds,
    size: Option<u64>,
    crs: Option<Crs>,
    extra: Option<&[u8]>,
    gps: Option<[Real; 2]>,
    first: Vec<Warning>,
) -> (r: Result<(CloudInfo, LasLayout), Error>)
    ensures
        match r {
            Ok((info, layout)) => {
                &&& header.point_format <= 10
                &&& layout@ == layout_for(*header, bytes_of(extra), gps)
                &&& info@ == las_summary(
                    *header,
                    format,
                    label@,
                    cube,
                    size,
                    declared(crs),
                    bytes_of(extra),
                    gps,
                    notices(first@),
                )
            },
            Err(e) => header.point_format > 10 && e@ == unknown_format(header.point_format),
        },
{
    let tight = Bounds::new(header.min, header.max);
    let layout = match las_layout(
        &LasLayoutOptions {
            format: header.point_format,
            point_size: header.point_size as usize,
            extra_bytes: extra,
            bounds: tight,
            gps_time_range: gps,
        },
    ) {
        Ok(l) => l,
        Err(e) => {
            return Err(e);
        },
    };
    let mut info = CloudInfo::new(format, label.to_owned());
    let major = decimal_of(header.version_major as u64);
    let minor = decimal_of(header.version_minor as u64);
    info.version = Some(cat3(major.as_str(), ".", minor.as_str()));
    info.point_count = header.point_count;
    info.bounds = cube;
    info.tight_bounds = tight;
    info.scale = header.scale;
    info.offset = header.offset;
    info.encoding = Some(
        if header.compressed {
            "laszip".to_owned()
        } else {
            "uncompressed".to_owned()
        },
    );
    info.crs = crs;
    info.data_bytes = match size {
        Some(n) => Some(n.saturating_sub(header.offset_to_point_data as u64)),
        None => None,
    };
    info.attributes = layout.plain();
    info.record_bytes = Some(layout.stride);
    info.warnings = first;
    append(&mut info.warnings, &layout.warnings);
    assert(info@ =~= las_summary(
        *header,
        format,
        label@,
        cube,
        size,
        declared(crs),
        bytes_of(extra),
        gps,
        notices(first@),
    ));
    Ok((info, layout))
}

/// How much of the front of a file has to be read for its records to be
/// complete, where more than `read` bytes are needed.
pub fn wanted(header: &LasHeader, read: usize) -> (r: Option<usize>)
    ensures
        match r {
            Some(n) => !header.vlrs_complete && header.offset_to_point_data > read && n
                == header.offset_to_point_data,
            None => header.vlrs_complete || header.offset_to_point_data <= read,
        },
{
    if !header.vlrs_complete && header.offset_to_point_data as usize > read {
        Some(header.offset_to_point_data as usize)
    } else {
        None
    }
}

/// Where the extended records of a file of some size are, and how many bytes
/// there are of them.
pub fn evlr_range(header: &LasHeader, size: u64) -> (r: Option<(u64, u64)>)
    ensures
        match r {
            Some((offset, len)) => header.evlr_count > 0 && 0 < header.evlr_offset < size && offset
                == header.evlr_offset && len == size - offset,
            None => header.evlr_count == 0 || header.evlr_offset == 0 || header.evlr_offset >= size,
        },
{
    if header.evlr_count > 0 && header.evlr_offset > 0 && header.evlr_offset < size {
        Some((header.evlr_offset, size - header.evlr_offset))
    } else {
        None
    }
}

/// Whether the extended records of a file have to be looked at: the others do
/// not describe the extra bytes.
pub fn needs_evlrs(header: &LasHeader) -> (r: bool)
    ensures
        r == (extra_record(header@.vlrs) is None),
{
    find_extra(&header.vlrs).is_none()
}

/// The complaint against records that do not fit in front of the points.
pub open spec fn truncated_notice(claimed: u32) -> Notice {
    Notice {
        code: "vlr-truncated"@,
        path: "vlrs"@,
        message: "The header claims "@ + decimal(claimed as nat)
            + " variable length records but the directory does not fit before the point data. Anything past the cut \u{2014} including the projection \u{2014} is unread."@,
    }
}

/// A bare LAS or LAZ file whose front has been read.
#[derive(Debug)]
pub struct LasCloud {
    pub info: CloudInfo,
    pub header: LasHeader,
    pub layout: LasLayout,
}

/// What describes the extra bytes of a file: a record at the front, or one of the
/// extended records where those were looked at.
pub open spec fn extra_for(front: Seq<Record>, extended: Option<Seq<Record>>) -> Option<Seq<u8>> {
    match (extra_record(front), extended) {
        (None, Some(all)) => extra_record(all),
        (own, _) => own,
    }
}

/// What declares the projection of a file, the front before the extended records
/// where those were looked at.
pub open spec fn crs_for(front: Seq<Record>, extended: Option<Seq<Record>>) -> Option<Declared> {
    match (records_declare(front), extended) {
        (None, Some(all)) => records_declare(all),
        (own, _) => own,
    }
}

/// The extended records where they were looked at.
pub open spec fn looked_at(evlrs: Option<Vec<Vlr>>) -> Option<Seq<Record>> {
    match evlrs {
        Some(v) => Some(records(v@)),
        None => None,
    }
}

/// The summary of a bare file.
pub open spec fn summary_of(
    header: LasHeader,
    cube: Bounds,
    size: Option<u64>,
    extended: Option<Seq<Record>>,
    label: Seq<char>,
) -> Summary {
    las_summary(
        header,
        FormatId::Las,
        label,
        cube,
        size,
        crs_for(header@.vlrs, extended),
        extra_for(header@.vlrs, extended),
        None,
        if header.vlrs_complete {
            Seq::empty()
        } else {
            seq![truncated_notice(header.vlr_count)]
        },
    )
}

/// Opens a bare file from its header. The cube it would be indexed in is given,
/// its size where it is known, and its extended records where they were looked
/// at.
pub fn open(
    header: LasHeader,
    cube: Bounds,
    size: Option<u64>,
    evlrs: Option<Vec<Vlr>>,
    label: &str,
) -> (r: Result<LasCloud, Error>)
    requires
        evlrs is Some ==> extra_record(header@.vlrs) is None,
    ensures
        match r {
            Ok(c) => {
                &&& header.point_format <= 10
                &&& c.header == header
                &&& c.info@ == summary_of(header, cube, size, looked_at(evlrs), label@)
                &&& c.layout@ == layout_for(
                    header,
                    extra_for(header@.vlrs, looked_at(evlrs)),
                    None,
                )
            },
            Err(e) => header.point_format > 10 && e@ == unknown_format(header.point_format),
        },
{
    let mut first: Vec<Warning> = Vec::new();
    assert(notices(first@) =~= Seq::<Notice>::empty());
    if !header.vlrs_complete {
        let n = decimal_of(header.vlr_count as u64);
        let w = Warning::new(
            "vlr-truncated",
            "vlrs".to_owned(),
            cat3(
                "The header claims ",
                n.as_str(),
                " variable length records but the directory does not fit before the point data. Anything past the cut \u{2014} including the projection \u{2014} is unread.",
            ),
        );
        first.push(w);
        assert(notices(first@) =~= seq![truncated_notice(header.vlr_count)]);
    }
    let mut crs = las_crs(&header.vlrs);
    let ghost front = records(header.vlrs@);
    let filled = match &evlrs {
        None => {
            let extra = find_extra(&header.vlrs);
            fill(&header, FormatId::Las, label, cube, size, crs, extra, None, first)
        },
        Some(all) => {
            if crs.is_none() {
                crs = las_crs(all);
            }
            let extra = find_extra(all);
            fill(&header, FormatId::Las, label, cube, size, crs, extra, None, first)
        },
    };
    match filled {
        Ok((info, layout)) => Ok(LasCloud { info, header, layout }),
        Err(e) => Err(e),
    }
}

impl LasCloud {
    /// The whole file as one node at level zero: one node, depth zero, every
    /// point in it.
    pub fn hierarchy(&self) -> (s: HierarchyStats)
        ensures
            one_node(self.info, s),
    {
        let mut stats = HierarchyStats::new();
        let byte_size: u64 = match self.info.data_bytes {
            Some(n) => n,
            None => 0,
        };
        stats.add(
            NodeInfo {
                key: OctreeKey::root(),
                point_count: self.info.point_count,
                byte_size,
            },
        );
        stats
    }
}

} // verus!
