//! COPC: one LAS 1.4 file whose laszip chunks are an octree.
//!
//! A 160-byte VLR says where the root cube is and where the hierarchy starts; an
//! EVLR at the end holds pages of 32-byte entries, some of which point at further
//! pages. Everything else is LAS. The bytes are read elsewhere and handed in.

use super::las_file::{extra_record, fill, find_extra, las_summary};
use crate::bounds::Bounds;
use crate::cloud::{wrap64, CloudInfo, FormatId, HierarchyStats, NodeInfo, Summary, Tally};
use crate::error::{Error, Failure};
use crate::las::copc::{
    info_fault, info_of, page_of, parse_page, CopcInfo, Entry, Info, InfoFault,
    COPC_INFO_RECORD_ID,
};
use crate::las::crs::{las_crs, records_declare};
use crate::las::point_format::unknown_format;
use crate::las::{
    find_record, header_error, header_of, read_evlrs, record_named, records, records_from, Header,
    LasError, LasHeader, Record, Vlr,
};
use crate::text::{cat3, cat5, decimal, decimal_of};
use crate::warning::{notices, Notice};
use vstd::prelude::*;

verus! {

/// How much of the front of the file to read before anything is known.
pub const OPEN_PROBE: usize = 8192;

/// Why the front of a file is not that of a COPC file.
#[derive(Debug, Clone, Copy, PartialEq, Eq, Structural)]
pub enum FrontFault {
    /// It is not a LAS header.
    Header(LasError),
    /// The records hold no `copc` VLR; `complete` is whether the bytes reach
    /// the end of the records.
    NoRecord { complete: bool, read: usize },
    /// Its `copc` VLR is wrong.
    Info(InfoFault),
}

impl FrontFault {
    /// The fault as a failure, with a half-size shown as `shown`.
    pub open spec fn failure(self, shown: Seq<char>) -> Failure {
        match self {
            FrontFault::Header(e) => e.failure(),
            FrontFault::NoRecord { complete, read } => Failure::NotFormat {
                format: "COPC"@,
                detail: if complete {
                    "the file carries no copc VLR"@
                } else {
                    "the first "@ + decimal(read as nat)
                        + " bytes do not reach the end of the VLR directory"@
                },
            },
            FrontFault::Info(f) => f.failure(shown),
        }
    }

    /// The fault as an error, with a half-size shown as `shown`.
    pub fn into_error(self, shown: &str) -> (e: Error)
        ensures
            e@ == self.failure(shown@),
    {
        match self {
            FrontFault::Header(e) => e.into_error(),
            FrontFault::NoRecord { complete, read } => {
                if complete {
                    Error::not_format("COPC", "the file carries no copc VLR".to_owned())
                } else {
                    let n = decimal_of(read as u64);
                    Error::not_format(
                        "COPC",
                        cat3(
                            "the first ",
                            n.as_str(),
                            " bytes do not reach the end of the VLR directory",
                        ),
                    )
                }
            },
            FrontFault::Info(f) => f.into_error(shown),
        }
    }
}

/// The `copc` VLR among some records.
pub open spec fn copc_record(all: Seq<Record>) -> Option<Record> {
    record_named(all, "copc"@, COPC_INFO_RECORD_ID)
}

/// What the front of a file holds.
pub open spec fn front_of(head: Seq<u8>) -> Result<(Header, Info), FrontFault> {
    match header_error(head) {
        Some(e) => Err(FrontFault::Header(e)),
        None => {
            let h = header_of(head);
            match copc_record(h.vlrs) {
                None => Err(
                    FrontFault::NoRecord { complete: h.vlrs_complete, read: head.len() as usize },
                ),
                Some(v) => match info_fault(v.data) {
                    Some(f) => Err(FrontFault::Info(f)),
                    None => Ok((h, info_of(v.data))),
                },
            }
        },
    }
}

/// Reads the front of a file: its header and its `copc` VLR.
pub fn read_front(head: &[u8]) -> (r: Result<(LasHeader, CopcInfo), FrontFault>)
    ensures
        match r {
            Ok((h, c)) => front_of(head@) == Ok::<(Header, Info), FrontFault>((h@, c@)),
            Err(f) => front_of(head@) == Err::<(Header, Info), FrontFault>(f),
        },
{
    let header = match LasHeader::read(head) {
        Ok(h) => h,
        Err(e) => {
            return Err(FrontFault::Header(e));
        },
    };
    match find_record(&header.vlrs, "copc", COPC_INFO_RECORD_ID) {
        None => Err(FrontFault::NoRecord { complete: header.vlrs_complete, read: head.len() }),
        Some(v) => match CopcInfo::parse(v.data.as_slice()) {
            Ok(info) => Ok((header, info)),
            Err(f) => Err(FrontFault::Info(f)),
        },
    }
}

/// The complaint against points that are not compressed.
pub open spec fn uncompressed_notice() -> Notice {
    Notice {
        code: "copc-uncompressed"@,
        path: "header.point_data_record_format"@,
        message:
            "The file declares COPC but its points are not laszip-compressed. Every reader in this space assumes compression; the nodes may not be readable."@,
    }
}

/// The summary of a file, given its root cube and its size.
pub open spec fn summary_of(
    header: LasHeader,
    copc: CopcInfo,
    cube: Bounds,
    size: Option<u64>,
    label: Seq<char>,
) -> Summary {
    let base = las_summary(
        header,
        FormatId::Copc,
        label,
        cube,
        size,
        records_declare(header@.vlrs),
        extra_record(header@.vlrs),
        Some(copc.gps_time_range),
        Seq::empty(),
    );
    Summary {
        spacing: Some(copc.spacing),
        warnings: if header.compressed {
            base.warnings
        } else {
            base.warnings.push(uncompressed_notice())
        },
        ..base
    }
}

/// Summarises a file. The root cube is given, and the size of the file where it
/// is known.
pub fn summarise(
    header: &LasHeader,
    copc: &CopcInfo,
    cube: Bounds,
    size: Option<u64>,
    label: &str,
) -> (r: Result<CloudInfo, Error>)
    ensures
        match r {
            Ok(info) => header.point_format <= 10 && info@ == summary_of(
                *header,
                *copc,
                cube,
                size,
                label@,
            ),
            Err(e) => header.point_format > 10 && e@ == unknown_format(header.point_format),
        },
{
    let crs = las_crs(&header.vlrs);
    let extra = find_extra(&header.vlrs);
    let (mut info, _) = match fill(
        header,
        FormatId::Copc,
        label,
        cube,
        size,
        crs,
        extra,
        Some(copc.gps_time_range),
        Vec::new(),
    ) {
        Ok(p) => p,
        Err(e) => {
            return Err(e);
        },
    };
    info.spacing = Some(copc.spacing);
    if !header.compressed {
        info.warn(
            "copc-uncompressed",
            "header.point_data_record_format".to_owned(),
            "The file declares COPC but its points are not laszip-compressed. Every reader in this space assumes compression; the nodes may not be readable.".to_owned(),
        );
    }
    assert(info@ =~= summary_of(*header, *copc, cube, size, label@));
    Ok(info)
}

/// The complaint against extended records that do not fit.
pub open spec fn truncated_notice(claimed: u32, found: nat) -> Notice {
    Notice {
        code: "evlr-truncated"@,
        path: "evlrs"@,
        message: "The header claims "@ + decimal(claimed as nat) + " extended records but only "@
            + decimal(found) + " fit before the end of the file."@,
    }
}

/// Reads the extended records from their bytes, and notes where they do not all
/// fit.
pub fn take_evlrs(info: &mut CloudInfo, header: &LasHeader, bytes: &[u8]) -> (out: Vec<Vlr>)
    ensures
        ({
            let (found, complete) = records_from(bytes@, 0, header.evlr_count as nat, true);
            &&& records(out@) == found
            &&& final(info)@ == if complete {
                old(info)@
            } else {
                Summary {
                    warnings: old(info)@.warnings.push(
                        truncated_notice(header.evlr_count, found.len()),
                    ),
                    ..old(info)@
                }
            }
        }),
{
    let (found, complete) = read_evlrs(bytes, header.evlr_count);
    if !complete {
        let claimed = decimal_of(header.evlr_count as u64);
        let fit = decimal_of(found.len() as u64);
        info.warn(
            "evlr-truncated",
            "evlrs".to_owned(),
            cat5(
                "The header claims ",
                claimed.as_str(),
                " extended records but only ",
                fit.as_str(),
                " fit before the end of the file.",
            ),
        );
    }
    assert(records(found@).len() == found@.len());
    found
}

/// A COPC file whose front and extended records have been read.
#[derive(Debug)]
pub struct CopcCloud {
    pub info: CloudInfo,
    pub copc: CopcInfo,
    pub header: LasHeader,
    /// The extended records. Pages live in them, though they are addressed by
    /// file offset rather than by record.
    pub evlrs: Vec<Vlr>,
}

/// A page to read: who names it, where it is, and how long it is.
#[verifier::ext_equal]
pub struct Pending {
    pub label: Seq<char>,
    pub offset: u64,
    pub size: u64,
}

/// A walk over the pages of a hierarchy, between two reads.
#[verifier::ext_equal]
pub struct Progress {
    /// The pages still to read, the next one last.
    pub queue: Seq<Pending>,
    /// Where the pages are that have been asked for.
    pub visited: Seq<u64>,
    /// The name of the page asked for last.
    pub reading: Seq<char>,
    pub tally: Tally,
    pub hierarchy_bytes: u64,
    pub hierarchy_requests: u32,
    pub warnings: Seq<Notice>,
}

/// The complaint against a page that is reached a second time.
pub open spec fn cycle_notice(p: Pending) -> Notice {
    Notice {
        code: "hierarchy-cycle"@,
        path: p.label,
        message: "The page at byte "@ + decimal(p.offset as nat)
            + " is reached twice; the walk stops there."@,
    }
}

/// Goes on to the next page that has not been asked for.
pub open spec fn advance(w: Progress) -> (Progress, Option<(u64, u64)>)
    decreases w.queue.len(),
{
    if w.queue.len() == 0 {
        (w, None)
    } else {
        let next = w.queue.last();
        let rest = w.queue.drop_last();
        if w.visited.contains(next.offset) {
            advance(Progress { queue: rest, warnings: w.warnings.push(cycle_notice(next)), ..w })
        } else {
            (
                Progress {
                    queue: rest,
                    visited: w.visited.push(next.offset),
                    reading: next.label,
                    ..w
                },
                Some((next.offset, next.size)),
            )
        }
    }
}

/// The nodes among some entries.
pub open spec fn nodes_in(list: Seq<Entry>) -> Seq<NodeInfo>
    decreases list.len(),
{
    if list.len() == 0 {
        Seq::empty()
    } else {
        match list.last() {
            Entry::Node { key, byte_size, point_count, .. } => nodes_in(list.drop_last()).push(
                NodeInfo { key, point_count, byte_size },
            ),
            Entry::Page { .. } => nodes_in(list.drop_last()),
        }
    }
}

/// The further pages among some entries.
pub open spec fn pages_in(list: Seq<Entry>) -> Seq<Pending>
    decreases list.len(),
{
    if list.len() == 0 {
        Seq::empty()
    } else {
        match list.last() {
            Entry::Node { .. } => pages_in(list.drop_last()),
            Entry::Page { key, offset, byte_size } => pages_in(list.drop_last()).push(
                Pending { label: key.spec_ept_name(), offset, size: byte_size },
            ),
        }
    }
}

/// Takes the bytes of the page asked for last.
pub open spec fn absorbed(w: Progress, bytes: Seq<u8>) -> Result<Progress, Failure> {
    match page_of(bytes, w.reading) {
        Err(f) => Err(f),
        Ok(list) => Ok(
            Progress {
                queue: w.queue + pages_in(list),
                tally: w.tally.with_all(nodes_in(list)),
                hierarchy_bytes: wrap64(w.hierarchy_bytes + bytes.len()),
                hierarchy_requests: ((w.hierarchy_requests + 1) % 0x1_0000_0000) as u32,
                ..w
            },
        ),
    }
}

/// A walk over every page: it says what to read, and takes what was read.
#[derive(Debug)]
pub struct PageWalk {
    pub queue: Vec<(String, u64, u64)>,
    pub visited: Vec<u64>,
    pub reading: String,
    pub stats: HierarchyStats,
}

/// Pages to read, each as the values it holds.
pub open spec fn pending(queue: Seq<(String, u64, u64)>) -> Seq<Pending> {
    queue.map_values(|p: (String, u64, u64)| Pending { label: p.0@, offset: p.1, size: p.2 })
}

impl View for PageWalk {
    type V = Progress;

    open spec fn view(&self) -> Progress {
        Progress {
            queue: pending(self.queue@),
            visited: self.visited@,
            reading: self.reading@,
            tally: self.stats.tally(),
            hierarchy_bytes: self.stats.hierarchy_bytes,
            hierarchy_requests: self.stats.hierarchy_requests,
            warnings: notices(self.stats.warnings@),
        }
    }
}

/// A walk that has not read anything: the root page is to come.
pub open spec fn at_start(copc: CopcInfo) -> Progress {
    Progress {
        queue: seq![
            Pending {
                label: "root"@,
                offset: copc.root_hierarchy_offset,
                size: copc.root_hierarchy_size,
            },
        ],
        visited: Seq::empty(),
        reading: Seq::empty(),
        tally: Tally::none(),
        hierarchy_bytes: 0,
        hierarchy_requests: 0,
        warnings: Seq::empty(),
    }
}

impl CopcCloud {
    /// Starts a walk of the hierarchy: every page, resolved. The root page names
    /// the subtrees; each of those names its own.
    pub fn hierarchy(&self) -> (w: PageWalk)
        ensures
            w.stats.wf(),
            w@ == at_start(self.copc),
    {
        let mut queue: Vec<(String, u64, u64)> = Vec::new();
        queue.push(
            ("root".to_owned(), self.copc.root_hierarchy_offset, self.copc.root_hierarchy_size),
        );
        let w = PageWalk {
            queue,
            visited: Vec::new(),
            reading: String::new(),
            stats: HierarchyStats::new(),
        };
        assert(w@.queue =~= at_start(self.copc).queue);
        assert(w@.reading =~= Seq::<char>::empty());
        assert(w@ =~= at_start(self.copc));
        w
    }
}

impl PageWalk {
    /// The next page to read: its offset and its size. A page that is reached a
    /// second time is noted and left out.
    pub fn next(&mut self) -> (r: Option<(u64, u64)>)
        requires
            old(self).stats.wf(),
        ensures
            final(self).stats.wf(),
            (final(self)@, r) == advance(old(self)@),
    {
        while self.queue.len() > 0
            invariant
                self.stats.wf(),
                advance(self@) == advance(old(self)@),
            decreases self.queue.len(),
        {
            let ghost before = self@;
            let (label, offset, size) = match self.queue.pop() {
                Some(p) => p,
                None => {
                    return None;
                },
            };
            assert(pending(self.queue@) =~= before.queue.drop_last());
            assert(before.queue.last() == (Pending { label: label@, offset, size }));
            let mut seen: bool = false;
            let mut i: usize = 0;
            while i < self.visited.len()
                invariant
                    i <= self.visited.len(),
                    seen == exists|j: int| 0 <= j < i && self.visited@[j] == offset,
                decreases self.visited.len() - i,
            {
                if self.visited[i] == offset {
                    seen = true;
                }
                i = i + 1;
            }
            assert(seen == self.visited@.contains(offset));
            if !seen {
                self.visited.push(offset);
                self.reading = label;
                assert(self@ =~= advance(before).0);
                return Some((offset, size));
            }
            let n = decimal_of(offset);
            let message = cat3(
                "The page at byte ",
                n.as_str(),
                " is reached twice; the walk stops there.",
            );
            self.stats.warn("hierarchy-cycle", label, message);
            assert(self@ =~= Progress {
                queue: before.queue.drop_last(),
                warnings: before.warnings.push(cycle_notice(before.queue.last())),
                ..before
            });
        }
        None
    }

    /// Takes the bytes of the page asked for last.
    pub fn absorb(&mut self, bytes: &[u8]) -> (r: Result<(), Error>)
        requires
            old(self).stats.wf(),
        ensures
            final(self).stats.wf(),
            match r {
                Ok(_) => absorbed(old(self)@, bytes@) == Ok::<Progress, Failure>(final(self)@),
                Err(e) => absorbed(old(self)@, bytes@) == Err::<Progress, Failure>(e@)
                    && *final(self) == *old(self),
            },
    {
        let list = match parse_page(bytes, self.reading.as_str()) {
            Ok(l) => l,
            Err(e) => {
                return Err(e);
            },
        };
        let ghost start = self@;
        self.stats.count_read(bytes.len() as u64);
        let ghost counted = self@;
        let mut i: usize = 0;
        assert(list@.take(0) =~= Seq::<Entry>::empty());
        assert(self@.queue =~= start.queue + pages_in(list@.take(0)));
        while i < list.len()
            invariant
                i <= list.len(),
                self.stats.wf(),
                self@.queue == start.queue + pages_in(list@.take(i as int)),
                self@.tally == start.tally.with_all(nodes_in(list@.take(i as int))),
                self@ == (Progress { queue: self@.queue, tally: self@.tally, ..counted }),
            decreases list.len() - i,
        {
            let ghost before = self@;
            assert(list@.take(i + 1).drop_last() =~= list@.take(i as int));
            match list[i] {
                Entry::Node { key, byte_size, point_count, .. } => {
                    proof {
                        let seen = nodes_in(list@.take(i as int));
                        let node = NodeInfo { key, point_count, byte_size };
                        assert(seen.push(node).drop_last() =~= seen);
                    }
                    self.stats.add(NodeInfo { key, point_count, byte_size });
                },
                Entry::Page { key, offset, byte_size } => {
                    let ghost queue = self.queue@;
                    self.queue.push((key.ept_name(), offset, byte_size));
                    assert(self@.queue =~= before.queue.push(
                        Pending { label: key.spec_ept_name(), offset, size: byte_size },
                    ));
                },
            }
            i = i + 1;
        }
        assert(list@.take(i as int) =~= list@);
        Ok(())
    }
}

} // verus!
