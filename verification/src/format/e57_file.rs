//! An E57 file: scans, and no index.
//!
//! The same tier as a bare LAS file, reached through a different container. The
//! extent is per scan and in the scan's own frame, the attributes are whatever
//! the first scan declares, and the projection, when there is one, is free text.

use crate::attribute::{columns, columns_push, Attribute, Column};
use crate::bounds::Bounds;
use crate::cloud::{one_node, CloudInfo, FormatId, HierarchyStats, NodeInfo, Summary};
use crate::crs::{string_declares, Crs};
use crate::e57::{field_views, E57Info, FieldView, PrototypeField};
use crate::error::{Error, Failure};
use crate::octree::OctreeKey;
use crate::text::{cat2, cat3, decimal, decimal_of};
use crate::warning::{append, notices, Notice};
use vstd::prelude::*;
use vstd::string::*;

verus! {

/// An E57 file, opened.
#[derive(Debug)]
pub struct E57Cloud {
    pub info: CloudInfo,
    /// What the file says, kept whole: a summary has no place for the scans.
    pub e57: E57Info,
}

/// What is said of a file that starts otherwise.
pub fn not_e57(label: &str) -> (e: Error)
    ensures
        e@ == (Failure::NotFormat {
            format: "E57"@,
            detail: label@ + " does not start with the ASTM-E57 signature"@,
        }),
{
    Error::not_format("E57", cat2(label, " does not start with the ASTM-E57 signature"))
}

/// What is said of a file that starts as E57 and cannot be read.
pub fn not_readable(detail: String) -> (e: Error)
    ensures
        e@ == (Failure::NotFormat { format: "E57"@, detail: detail@ }),
{
    Error::not_format("E57", detail)
}

/// A field, as a column of one element with the domain it decodes to.
pub open spec fn column_of(f: FieldView) -> Column {
    Column { min: seq![f.min], max: seq![f.max], ..Column::plain(f.name, f.kind, 1) }
}

/// Bits of one stored record.
pub open spec fn record_bits(fields: Seq<FieldView>) -> int
    decreases fields.len(),
{
    if fields.len() == 0 {
        0
    } else {
        (record_bits(fields.drop_last()) + fields.last().bits) % (usize::MAX + 1)
    }
}

/// Bits as whole bytes, the last one perhaps not full.
pub open spec fn whole_bytes(bits: int) -> int {
    if bits % 8 == 0 {
        bits / 8
    } else {
        bits / 8 + 1
    }
}

/// What is said of a file that holds several scans.
pub open spec fn several(n: nat) -> Notice {
    Notice {
        code: "e57-multi-scan"@,
        path: "data3D"@,
        message: "This file holds "@ + decimal(n)
            + " scans. They are read in order and merged into one cloud, each keeping its position in the file as a point source id."@,
    }
}

/// What is said of a file that does not say where its points are.
pub open spec fn nowhere() -> Notice {
    Notice {
        code: "e57-extent-unknown"@,
        path: "data3D"@,
        message: "No scan declares where its points are, so the extent shown is empty. Converting the file measures it."@,
    }
}

/// The extent of a file, empty where no scan declares one.
pub open spec fn extent_of(e57: E57Info) -> Bounds {
    match e57.extent {
        Some(b) => b,
        None => Bounds::nothing(),
    }
}

/// The anomalies of a file.
pub open spec fn anomalies(e57: E57Info) -> Seq<Notice> {
    let own = notices(e57.warnings@);
    let counted = if e57.scans@.len() > 1 {
        own.push(several(e57.scans@.len()))
    } else {
        own
    };
    if e57.extent is None {
        counted.push(nowhere())
    } else {
        counted
    }
}

/// The summary of a file. `cube` is the cube that its extent is indexed in.
pub open spec fn summary(e57: E57Info, cube: Bounds, label: Seq<char>) -> Summary {
    let bits = record_bits(field_views(e57.prototype@));
    Summary {
        point_count: e57.point_count,
        bounds: cube,
        tight_bounds: extent_of(e57),
        attributes: field_views(e57.prototype@).map_values(|f: FieldView| column_of(f)),
        crs: match e57.coordinate_metadata {
            Some(text) => string_declares(text@),
            None => None,
        },
        encoding: Some("bitpack"@),
        version: Some("1.0"@),
        record_bytes: if bits > 0 {
            Some(whole_bytes(bits) as usize)
        } else {
            None
        },
        warnings: anomalies(e57),
        ..Summary::blank(FormatId::E57, label)
    }
}

fn columns_for(fields: &Vec<PrototypeField>) -> (out: Vec<Attribute>)
    ensures
        columns(out@) == field_views(fields@).map_values(|f: FieldView| column_of(f)),
{
    let ghost whole = field_views(fields@).map_values(|f: FieldView| column_of(f));
    let mut out: Vec<Attribute> = Vec::new();
    let mut i: usize = 0;
    assert(columns(out@) =~= whole.take(0));
    while i < fields.len()
        invariant
            i <= fields.len(),
            whole == field_views(fields@).map_values(|f: FieldView| column_of(f)),
            columns(out@) == whole.take(i as int),
        decreases fields.len() - i,
    {
        let f = &fields[i];
        let mut a = Attribute::new(f.name.clone(), f.kind, 1);
        let mut low = Vec::new();
        low.push(f.min);
        let mut high = Vec::new();
        high.push(f.max);
        a.min = low;
        a.max = high;
        assert(a@ =~= column_of(f@));
        proof {
            columns_push(out@, a);
        }
        out.push(a);
        assert(whole.take(i + 1) =~= whole.take(i as int).push(whole[i as int]));
        i = i + 1;
    }
    assert(whole.take(i as int) =~= whole);
    out
}

fn bits_of(fields: &Vec<PrototypeField>) -> (n: usize)
    ensures
        n == record_bits(field_views(fields@)),
{
    let ghost all = field_views(fields@);
    let mut n: usize = 0;
    let mut i: usize = 0;
    assert(all.take(0) =~= Seq::<FieldView>::empty());
    while i < fields.len()
        invariant
            i <= fields.len(),
            all == field_views(fields@),
            n == record_bits(all.take(i as int)),
        decreases fields.len() - i,
    {
        assert(all.take(i + 1).drop_last() =~= all.take(i as int));
        let bits: usize = fields[i].bits;
        proof {
            crate::bytes::wrapped_sum(n, bits);
        }
        n = n.wrapping_add(bits);
        i = i + 1;
    }
    assert(all.take(i as int) =~= all);
    n
}

/// Puts together what a file says. `cube` is the cube that its extent is
/// indexed in.
pub fn summarise(e57: E57Info, cube: Bounds, label: &str) -> (c: E57Cloud)
    ensures
        c.e57 == e57,
        c.info@ == summary(e57, cube, label@),
{
    let mut info = CloudInfo::new(FormatId::E57, label.to_owned());
    info.point_count = e57.point_count;
    info.tight_bounds = match e57.extent {
        Some(b) => b,
        None => Bounds::empty(),
    };
    info.bounds = cube;
    info.encoding = Some("bitpack".to_owned());
    info.version = Some("1.0".to_owned());
    info.crs = match &e57.coordinate_metadata {
        Some(text) => Crs::from_string(text.as_str()),
        None => None,
    };
    info.attributes = columns_for(&e57.prototype);
    let bits: usize = bits_of(&e57.prototype);
    if bits > 0 {
        info.record_bytes = Some(
            if bits % 8 == 0 {
                bits / 8
            } else {
                bits / 8 + 1
            },
        );
    }
    append(&mut info.warnings, &e57.warnings);
    assert(notices(info.warnings@) =~= notices(e57.warnings@));
    if e57.scans.len() > 1 {
        let n = decimal_of(e57.scans.len() as u64);
        info.warn(
            "e57-multi-scan",
            "data3D".to_owned(),
            cat3(
                "This file holds ",
                n.as_str(),
                " scans. They are read in order and merged into one cloud, each keeping its position in the file as a point source id.",
            ),
        );
    }
    if e57.extent.is_none() {
        info.warn(
            "e57-extent-unknown",
            "data3D".to_owned(),
            "No scan declares where its points are, so the extent shown is empty. Converting the file measures it.".to_owned(),
        );
    }
    assert(info@ =~= summary(e57, cube, label@));
    E57Cloud { info, e57 }
}

impl E57Cloud {
    /// A file with no index is one node.
    pub fn hierarchy(&self) -> (s: HierarchyStats)
        ensures
            one_node(self.info, s),
    {
        let mut s = HierarchyStats::new();
        let byte_size: u64 = match self.info.data_bytes {
            Some(n) => n,
            None => 0,
        };
        s.add(
            NodeInfo {
                key: OctreeKey { level: 0, x: 0, y: 0, z: 0 },
                point_count: self.info.point_count,
                byte_size,
            },
        );
        s
    }
}

} // verus!
