//! COPC: the parts of the format that are neither reading nor writing.
//!
//! The 160-byte `copc` VLR, the 32-byte hierarchy entry, and the identifiers
//! that name them.

use super::double_at;
use crate::bytes::{
    bytes32, bytes64, i32_at, le32, le32_reads_bytes32, le64, le64_reads_bytes64, real_at, signed32,
    u64_at,
};
use crate::double::Real;
use crate::error::{Error, Failure};
use crate::octree::OctreeKey;
use crate::text::{cat3, cat5, cat7, decimal, decimal_of, signed_decimal, signed_decimal_of};
use vstd::prelude::*;
use vstd::string::*;

verus! {

/// Record id of the info VLR.
pub const COPC_INFO_RECORD_ID: u16 = 1;

/// Record id of a hierarchy page, in the EVLR directory.
pub const COPC_HIERARCHY_RECORD_ID: u16 = 1000;

/// Bytes of the info VLR payload.
pub const COPC_INFO_SIZE: usize = 160;

/// Bytes of one hierarchy entry.
pub const COPC_ENTRY_SIZE: usize = 32;

/// The `copc` VLR, record 1.
#[derive(Debug, Clone, Copy)]
pub struct CopcInfo {
    /// Centre of the root cube, absolute CRS.
    pub center: [Real; 3],
    /// Half the root cube's edge.
    pub half_size: Real,
    /// Point spacing at the root level. Halves at each level below.
    pub spacing: Real,
    pub root_hierarchy_offset: u64,
    pub root_hierarchy_size: u64,
    pub gps_time_range: [Real; 2],
}

/// The info record, as the values it holds.
#[verifier::ext_equal]
pub struct Info {
    pub center: Seq<Real>,
    pub half_size: Real,
    pub spacing: Real,
    pub root_hierarchy_offset: u64,
    pub root_hierarchy_size: u64,
    pub gps_time_range: Seq<Real>,
}

impl View for CopcInfo {
    type V = Info;

    open spec fn view(&self) -> Info {
        Info {
            center: self.center@,
            half_size: self.half_size,
            spacing: self.spacing,
            root_hierarchy_offset: self.root_hierarchy_offset,
            root_hierarchy_size: self.root_hierarchy_size,
            gps_time_range: self.gps_time_range@,
        }
    }
}

/// What is wrong with an info record.
#[derive(Debug, Clone, Copy, PartialEq, Eq, Structural)]
pub enum InfoFault {
    /// It is shorter than the format fixes it to be.
    Short { got: usize },
    /// Its half-size is not a finite number above zero.
    HalfSize(Real),
    /// Its root page is not a whole number of entries.
    RootPage(u64),
}

impl InfoFault {
    /// The fault as a failure, with its half-size shown as `shown`.
    pub open spec fn failure(self, shown: Seq<char>) -> Failure {
        Failure::NotFormat {
            format: "COPC"@,
            detail: match self {
                InfoFault::Short { got } => "the copc VLR is "@ + decimal(got as nat)
                    + " bytes; the spec fixes it at 160"@,
                InfoFault::HalfSize(_) => "the copc VLR declares a half-size of "@ + shown
                    + "; every node box derives from it, so nothing can be addressed"@,
                InfoFault::RootPage(size) => "the copc VLR declares a root hierarchy page of "@
                    + decimal(size as nat)
                    + " bytes, which is not a whole number of 32-byte entries"@,
            },
        }
    }

    /// The fault as an error, with its half-size shown as `shown`.
    pub fn into_error(self, shown: &str) -> (e: Error)
        ensures
            e@ == self.failure(shown@),
    {
        let detail = match self {
            InfoFault::Short { got } => {
                let n = decimal_of(got as u64);
                cat3("the copc VLR is ", n.as_str(), " bytes; the spec fixes it at 160")
            },
            InfoFault::HalfSize(_) => cat3(
                "the copc VLR declares a half-size of ",
                shown,
                "; every node box derives from it, so nothing can be addressed",
            ),
            InfoFault::RootPage(size) => {
                let n = decimal_of(size);
                cat3(
                    "the copc VLR declares a root hierarchy page of ",
                    n.as_str(),
                    " bytes, which is not a whole number of 32-byte entries",
                )
            },
        };
        Error::not_format("COPC", detail)
    }
}

/// The info record that a payload holds.
pub open spec fn info_of(record: Seq<u8>) -> Info {
    Info {
        center: seq![double_at(record, 0), double_at(record, 8), double_at(record, 16)],
        half_size: double_at(record, 24),
        spacing: double_at(record, 32),
        root_hierarchy_offset: le64(record, 40) as u64,
        root_hierarchy_size: le64(record, 48) as u64,
        gps_time_range: seq![double_at(record, 56), double_at(record, 64)],
    }
}

/// What is wrong with a payload, if anything is.
pub open spec fn info_fault(record: Seq<u8>) -> Option<InfoFault> {
    if record.len() < COPC_INFO_SIZE {
        Some(InfoFault::Short { got: record.len() as usize })
    } else if !info_of(record).half_size.positive() {
        Some(InfoFault::HalfSize(info_of(record).half_size))
    } else if info_of(record).root_hierarchy_size == 0 || info_of(record).root_hierarchy_size % 32
        != 0 {
        Some(InfoFault::RootPage(info_of(record).root_hierarchy_size))
    } else {
        None
    }
}

impl CopcInfo {
    /// Read the info VLR's payload.
    pub fn parse(record: &[u8]) -> (r: Result<Self, InfoFault>)
        ensures
            match r {
                Ok(info) => info_fault(record@) is None && info@ == info_of(record@),
                Err(f) => info_fault(record@) == Some(f),
            },
    {
        if record.len() < COPC_INFO_SIZE {
            return Err(InfoFault::Short { got: record.len() });
        }
        let info = CopcInfo {
            center: [real_at(record, 0), real_at(record, 8), real_at(record, 16)],
            half_size: real_at(record, 24),
            spacing: real_at(record, 32),
            root_hierarchy_offset: u64_at(record, 40),
            root_hierarchy_size: u64_at(record, 48),
            gps_time_range: [real_at(record, 56), real_at(record, 64)],
        };
        assert(info@.center =~= info_of(record@).center);
        assert(info@.gps_time_range =~= info_of(record@).gps_time_range);
        assert(info@ =~= info_of(record@));
        if !info.half_size.is_positive() {
            return Err(InfoFault::HalfSize(info.half_size));
        }
        if info.root_hierarchy_size == 0 || info.root_hierarchy_size % 32 != 0 {
            return Err(InfoFault::RootPage(info.root_hierarchy_size));
        }
        Ok(info)
    }
}

/// One hierarchy entry: either a node or a pointer at another page.
#[derive(Debug, Clone, Copy, PartialEq, Eq, Structural)]
pub enum Entry {
    Node { key: OctreeKey, offset: u64, byte_size: u64, point_count: u64 },
    /// `offset`/`byte_size` name a further page.
    Page { key: OctreeKey, offset: u64, byte_size: u64 },
}

/// The signed number at a place of entry `i`.
pub open spec fn entry_field(b: Seq<u8>, i: int, at: int) -> int {
    signed32(le32(b, 32 * i + at))
}

/// How an entry is named in a complaint.
pub open spec fn entry_name(b: Seq<u8>, i: int) -> Seq<char> {
    signed_decimal(entry_field(b, i, 0)) + "-"@ + signed_decimal(entry_field(b, i, 4)) + "-"@
        + signed_decimal(entry_field(b, i, 8)) + "-"@ + signed_decimal(entry_field(b, i, 12))
}

/// What is wrong with entry `i` of the page at `at`, if anything is.
pub open spec fn entry_fault(b: Seq<u8>, i: int, at: Seq<char>) -> Option<Seq<char>> {
    if entry_field(b, i, 0) < 0 || entry_field(b, i, 4) < 0 || entry_field(b, i, 8) < 0
        || entry_field(b, i, 12) < 0 || entry_field(b, i, 24) < 0 {
        Some("the entry "@ + entry_name(b, i) + " at "@ + at + " has a negative field"@)
    } else if entry_field(b, i, 28) < -1 {
        Some(
            "the entry "@ + entry_name(b, i) + " at "@ + at + " declares "@ + signed_decimal(
                entry_field(b, i, 28),
            ) + " points; only -1 has a meaning below zero"@,
        )
    } else {
        None
    }
}

/// What entry `i` of a page says.
pub open spec fn entry_of(b: Seq<u8>, i: int) -> Entry {
    let key = OctreeKey {
        level: entry_field(b, i, 0) as u32,
        x: entry_field(b, i, 4) as u32,
        y: entry_field(b, i, 8) as u32,
        z: entry_field(b, i, 12) as u32,
    };
    let offset = le64(b, 32 * i + 16) as u64;
    let byte_size = entry_field(b, i, 24) as u64;
    if entry_field(b, i, 28) == -1 {
        Entry::Page { key, offset, byte_size }
    } else {
        Entry::Node { key, offset, byte_size, point_count: entry_field(b, i, 28) as u64 }
    }
}

/// The first complaint against entries `i` and on.
pub open spec fn page_fault(b: Seq<u8>, i: int, at: Seq<char>) -> Option<Seq<char>>
    decreases b.len() / 32 - i,
{
    if i >= b.len() / 32 {
        None
    } else if entry_fault(b, i, at) is Some {
        entry_fault(b, i, at)
    } else {
        page_fault(b, i + 1, at)
    }
}

/// The entries of a page, or what is wrong with it.
pub open spec fn page_of(b: Seq<u8>, at: Seq<char>) -> Result<Seq<Entry>, Failure> {
    if b.len() % 32 != 0 {
        Err(
            Failure::NotFormat {
                format: "a COPC hierarchy page"@,
                detail: "the page at "@ + at + " is "@ + decimal(b.len())
                    + " bytes, not a whole number of 32-byte entries"@,
            },
        )
    } else if page_fault(b, 0, at) is Some {
        Err(
            Failure::NotFormat {
                format: "a COPC hierarchy page"@,
                detail: page_fault(b, 0, at)->0,
            },
        )
    } else {
        Ok(Seq::new((b.len() / 32) as nat, |i: int| entry_of(b, i)))
    }
}

fn read_entry(b: &[u8], i: usize, at: &str) -> (r: Result<Entry, String>)
    requires
        32 * i + 32 <= b.len(),
    ensures
        match r {
            Ok(e) => entry_fault(b@, i as int, at@) is None && e == entry_of(b@, i as int),
            Err(m) => entry_fault(b@, i as int, at@) == Some(m@),
        },
{
    let base: usize = 32 * i;
    let level: i32 = i32_at(b, base);
    let x: i32 = i32_at(b, base + 4);
    let y: i32 = i32_at(b, base + 8);
    let z: i32 = i32_at(b, base + 12);
    let offset: u64 = u64_at(b, base + 16);
    let byte_size: i32 = i32_at(b, base + 24);
    let point_count: i32 = i32_at(b, base + 28);
    let negative = level < 0 || x < 0 || y < 0 || z < 0 || byte_size < 0;
    if negative || point_count < -1 {
        let (l, xs, ys, zs) = (
            signed_decimal_of(level),
            signed_decimal_of(x),
            signed_decimal_of(y),
            signed_decimal_of(z),
        );
        let name = cat7(l.as_str(), "-", xs.as_str(), "-", ys.as_str(), "-", zs.as_str());
        if negative {
            return Err(cat5("the entry ", name.as_str(), " at ", at, " has a negative field"));
        }
        let n = signed_decimal_of(point_count);
        return Err(
            cat7(
                "the entry ",
                name.as_str(),
                " at ",
                at,
                " declares ",
                n.as_str(),
                " points; only -1 has a meaning below zero",
            ),
        );
    }
    let key = OctreeKey::new(level as u32, x as u32, y as u32, z as u32);
    if point_count == -1 {
        Ok(Entry::Page { key, offset, byte_size: byte_size as u64 })
    } else {
        Ok(
            Entry::Node {
                key,
                offset,
                byte_size: byte_size as u64,
                point_count: point_count as u64,
            },
        )
    }
}

/// Parse one hierarchy page.
pub fn parse_page(bytes: &[u8], at: &str) -> (r: Result<Vec<Entry>, Error>)
    ensures
        match r {
            Ok(list) => page_of(bytes@, at@) == Ok::<Seq<Entry>, Failure>(list@),
            Err(e) => page_of(bytes@, at@) == Err::<Seq<Entry>, Failure>(e@),
        },
{
    let n: usize = bytes.len();
    if n % COPC_ENTRY_SIZE != 0 {
        let size = decimal_of(n as u64);
        return Err(
            Error::not_format(
                "a COPC hierarchy page",
                cat5(
                    "the page at ",
                    at,
                    " is ",
                    size.as_str(),
                    " bytes, not a whole number of 32-byte entries",
                ),
            ),
        );
    }
    let count: usize = n / 32;
    let mut out: Vec<Entry> = Vec::new();
    let mut i: usize = 0;
    while i < count
        invariant
            i <= count,
            count == bytes@.len() / 32,
            n == bytes@.len(),
            n % 32 == 0,
            bytes@.len() == bytes.len(),
            out@.len() == i,
            forall|j: int| 0 <= j < i ==> out@[j] == entry_of(bytes@, j),
            page_fault(bytes@, 0, at@) == page_fault(bytes@, i as int, at@),
        decreases count - i,
    {
        match read_entry(bytes, i, at) {
            Ok(e) => {
                out.push(e);
            },
            Err(m) => {
                return Err(Error::not_format("a COPC hierarchy page", m));
            },
        }
        i = i + 1;
    }
    assert(out@ =~= Seq::new((bytes@.len() / 32) as nat, |i: int| entry_of(bytes@, i)));
    Ok(out)
}

/// The bytes of one entry.
pub open spec fn entry_bytes(
    key: OctreeKey,
    offset: u64,
    byte_size: int,
    point_count: int,
) -> Seq<u8> {
    bytes32(key.level as int) + bytes32(key.x as int) + bytes32(key.y as int) + bytes32(
        key.z as int,
    ) + bytes64(offset as int) + bytes32(byte_size) + bytes32(point_count)
}

/// The bytes that say an entry: a page is a point count of minus one.
pub open spec fn written_entry(e: Entry) -> Seq<u8> {
    match e {
        Entry::Node { key, offset, byte_size, point_count } => entry_bytes(
            key,
            offset,
            byte_size as int,
            point_count as int,
        ),
        Entry::Page { key, offset, byte_size } => entry_bytes(
            key,
            offset,
            byte_size as int,
            0xffff_ffff,
        ),
    }
}

/// Whether the numbers of an entry fit the fields it is written in.
pub open spec fn entry_fits(e: Entry) -> bool {
    let key = match e {
        Entry::Node { key, .. } => key,
        Entry::Page { key, .. } => key,
    };
    let byte_size = match e {
        Entry::Node { byte_size, .. } => byte_size,
        Entry::Page { byte_size, .. } => byte_size,
    };
    &&& key.level < 0x8000_0000 && key.x < 0x8000_0000 && key.y < 0x8000_0000 && key.z < 0x8000_0000
    &&& byte_size < 0x8000_0000
    &&& e matches Entry::Node { point_count, .. } ==> point_count < 0x8000_0000
}

/// An entry that was written is read back.
pub proof fn entry_reads_back(e: Entry, at: Seq<char>)
    requires
        entry_fits(e),
    ensures
        written_entry(e).len() == 32,
        entry_fault(written_entry(e), 0, at) is None,
        entry_of(written_entry(e), 0) == e,
{
    let (key, offset, byte_size, point_count) = match e {
        Entry::Node { key, offset, byte_size, point_count } => (
            key,
            offset,
            byte_size as int,
            point_count as int,
        ),
        Entry::Page { key, offset, byte_size } => (key, offset, byte_size as int, 0xffff_ffffint),
    };
    lemma_entry_fields(key, offset, byte_size, point_count);
}

proof fn lemma_entry_fields(key: OctreeKey, offset: u64, byte_size: int, point_count: int)
    requires
        0 <= byte_size < 0x1_0000_0000,
        0 <= point_count < 0x1_0000_0000,
    ensures
        ({
            let b = entry_bytes(key, offset, byte_size, point_count);
            &&& b.len() == 32
            &&& le32(b, 0) == key.level
            &&& le32(b, 4) == key.x
            &&& le32(b, 8) == key.y
            &&& le32(b, 12) == key.z
            &&& le64(b, 16) == offset
            &&& le32(b, 24) == byte_size
            &&& le32(b, 28) == point_count
        }),
{
    let (l, x, y, z) = (
        bytes32(key.level as int),
        bytes32(key.x as int),
        bytes32(key.y as int),
        bytes32(key.z as int),
    );
    let (o, n, c) = (bytes64(offset as int), bytes32(byte_size), bytes32(point_count));
    le32_reads_bytes32(key.level as int);
    le32_reads_bytes32(key.x as int);
    le32_reads_bytes32(key.y as int);
    le32_reads_bytes32(key.z as int);
    le64_reads_bytes64(offset as int);
    le32_reads_bytes32(byte_size);
    le32_reads_bytes32(point_count);
    lemma_pieces(l, x, y, z, o, n, c);
}

/// Seven numbers one after another stand where their widths put them.
proof fn lemma_pieces(
    l: Seq<u8>,
    x: Seq<u8>,
    y: Seq<u8>,
    z: Seq<u8>,
    o: Seq<u8>,
    n: Seq<u8>,
    c: Seq<u8>,
)
    requires
        l.len() == 4,
        x.len() == 4,
        y.len() == 4,
        z.len() == 4,
        o.len() == 8,
        n.len() == 4,
        c.len() == 4,
    ensures
        ({
            let b = l + x + y + z + o + n + c;
            &&& b.len() == 32
            &&& le32(b, 0) == le32(l, 0)
            &&& le32(b, 4) == le32(x, 0)
            &&& le32(b, 8) == le32(y, 0)
            &&& le32(b, 12) == le32(z, 0)
            &&& le64(b, 16) == le64(o, 0)
            &&& le32(b, 24) == le32(n, 0)
            &&& le32(b, 28) == le32(c, 0)
        }),
{
    let b = l + x + y + z + o + n + c;
    assert(b.subrange(0, 4) =~= l);
    assert(b.subrange(4, 8) =~= x);
    assert(b.subrange(8, 12) =~= y);
    assert(b.subrange(12, 16) =~= z);
    assert(b.subrange(16, 24) =~= o);
    assert(b.subrange(24, 28) =~= n);
    assert(b.subrange(28, 32) =~= c);
}

} // verus!
