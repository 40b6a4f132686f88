//! Reading points out of a file, in the canonical record.
//!
//! Pull-based and batched: a conversion never holds a cloud in memory, and a
//! reader that returned everything at once would decide that for it. Where the
//! bytes come from is outside; how much to ask for, and what a short answer
//! means, is decided here.

use crate::bytes::{bytes16, bytes32, bytes64, le16, le16_reads_bytes16, le_before};
use crate::e57::PointBatch;
use crate::error::{Error, Failure};
use crate::las::{laszip_user_id, record_named, LasHeader, LASZIP_RECORD_ID};
use crate::text::{cat2, cat3};
use crate::write::laszip::{item_number, item_size, items_put, laszip_payload, Item};
use vstd::prelude::*;
use vstd::string::*;

verus! {

/// How many points to decompress at a time.
pub const BATCH: usize = 0x10_0000;

/// Bytes that the first read of a LAS file takes: the header and, mostly, the
/// directory of records.
pub const HEAD: usize = 8192;

/// Whether the head of a file must be read again, up to its points: the laszip
/// record is in the directory, and nothing can start without it.
pub fn needs_more(header: &LasHeader, read: usize) -> (r: Option<usize>)
    ensures
        match r {
            Some(n) => !header.vlrs_complete && header.offset_to_point_data > read && n
                == header.offset_to_point_data,
            None => header.vlrs_complete || header.offset_to_point_data <= read,
        },
{
    let n: usize = header.offset_to_point_data as usize;
    if !header.vlrs_complete && n > read {
        Some(n)
    } else {
        None
    }
}

/// What is said of a compressed file without the record that says how.
pub fn no_laszip_record() -> (e: Error)
    ensures
        e@ == (Failure::NotFormat {
            format: "a LAZ file"@,
            detail: "the file is flagged compressed and carries no laszip VLR (user id 'laszip encoded')"@,
        }),
{
    Error::not_format(
        "a LAZ file",
        "the file is flagged compressed and carries no laszip VLR (user id 'laszip encoded')".to_owned(),
    )
}

/// What is said of a laszip record that cannot be read.
pub fn bad_laszip_record(path: &str, detail: &str) -> (e: Error)
    ensures
        e@ == Failure::Codec(path@ + ": unreadable laszip VLR: "@ + detail@),
{
    Error::Codec(cat3(path, ": unreadable laszip VLR: ", detail))
}

/// What the codec knows of how a file's points are compressed.
#[verifier::external_type_specification]
#[verifier::external_body]
pub struct ExLazVlr(laz::LazVlr);

/// Whether a number is that of a field that the codec knows.
pub open spec fn is_field_number(n: int) -> bool {
    n == 0 || 6 <= n <= 14
}

/// Whether a record reads as a laszip record: a compressor that the codec knows,
/// the fixed part, and as many fields as it says, each with a number that the
/// codec knows.
pub open spec fn is_laszip_record(record: Seq<u8>) -> bool {
    &&& record.len() >= 34
    &&& le16(record, 0) <= 3
    &&& record.len() >= 34 + 6 * le16(record, 32)
    &&& forall|j: int|
        0 <= j < le16(record, 32) ==> #[trigger] is_field_number(le16(record, 34 + 6 * j))
}

/// What `laz::LazVlr::from_buffer` says of a record that it cannot read. Of one
/// that it can read it says nothing.
pub uninterp spec fn laszip_fault(record: Seq<u8>) -> Option<Seq<char>>;

/// What `laz::LazVlr::from_buffer` makes of a record that it can read.
pub uninterp spec fn laszip_value(record: Seq<u8>) -> laz::LazVlr;

/// `laz::LazVlr::from_buffer`: it reads a laszip record and nothing else. What it
/// makes of one, and what it says of anything else, depends on the bytes alone.
#[verifier::external_body]
pub(crate) fn read_vlr(record: &[u8]) -> (r: Result<laz::LazVlr, String>)
    ensures
        match r {
            Ok(v) => {
                &&& v == laszip_value(record@)
                &&& is_laszip_record(record@)
                &&& laszip_fault(record@) is None
            },
            Err(e) => !is_laszip_record(record@) && laszip_fault(record@) == Some(e@),
        },
{
    laz::LazVlr::from_buffer(record).map_err(|e| e.to_string())
}

/// How the points of a compressed file are compressed: the laszip record of its
/// directory, read by the codec.
pub fn laszip_vlr(header: &LasHeader, label: &str) -> (r: Result<laz::LazVlr, Error>)
    ensures
        match r {
            Ok(value) => {
                &&& record_named(header@.vlrs, laszip_user_id(), LASZIP_RECORD_ID) matches Some(v)
                &&& value == laszip_value(v.data)
                &&& is_laszip_record(v.data)
                &&& laszip_fault(v.data) is None
            },
            Err(e) => match record_named(header@.vlrs, laszip_user_id(), LASZIP_RECORD_ID) {
                None => e@ == (Failure::NotFormat {
                    format: "a LAZ file"@,
                    detail: "the file is flagged compressed and carries no laszip VLR (user id 'laszip encoded')"@,
                }),
                Some(v) => {
                    &&& !is_laszip_record(v.data)
                    &&& laszip_fault(v.data) matches Some(why)
                    &&& e@ == Failure::Codec(label@ + ": unreadable laszip VLR: "@ + why)
                },
            },
        },
{
    match header.laszip_record() {
        None => Err(no_laszip_record()),
        Some(record) => match read_vlr(record.as_slice()) {
            Ok(vlr) => Ok(vlr),
            Err(why) => Err(bad_laszip_record(label, why.as_str())),
        },
    }
}

/// The laszip record of a file that was written is one that can be read.
pub proof fn a_written_laszip_record_is_read(items: Seq<Item>, chunk: u64)
    requires
        chunk <= u32::MAX,
    ensures
        is_laszip_record(laszip_payload(items, chunk)),
{
    let n = items.len() as int % 0x1_0000;
    let head = bytes16(3) + bytes16(0) + seq![2u8, 2u8] + bytes16(0) + bytes32(0) + bytes32(
        chunk as int,
    ) + bytes64(0xffff_ffff_ffff_ffff) + bytes64(0xffff_ffff_ffff_ffff);
    let front = head + bytes16(n);
    let all = front + items_put(items);
    assert(laszip_payload(items, chunk) == all);
    lemma_items_put(items, 0);
    le16_reads_bytes16(3);
    le16_reads_bytes16(n);
    assert(head[0] == bytes16(3)[0] && head[1] == bytes16(3)[1]);
    assert(head.len() == 32);
    assert(all[0] == head[0] && all[1] == head[1]);
    assert(all[32] == bytes16(n)[0] && all[33] == bytes16(n)[1]);
    assert(le16(all, 32) == n);
    assert forall|j: int| 0 <= j < le16(all, 32) implies #[trigger] is_field_number(
        le16(all, 34 + 6 * j),
    ) by {
        lemma_items_put(items, j);
        let t = items_put(items);
        assert(all[34 + 6 * j] == t[6 * j] && all[34 + 6 * j + 1] == t[6 * j + 1]);
    }
}

/// Some fields as they are listed: six bytes each, with their numbers first.
proof fn lemma_items_put(items: Seq<Item>, j: int)
    ensures
        items_put(items).len() == 6 * items.len(),
        0 <= j < items.len() ==> le16(items_put(items), 6 * j) == item_number(items[j]),
    decreases items.len(),
{
    if items.len() > 0 {
        let shorter = items.drop_last();
        let before = items_put(shorter);
        let number = bytes16(item_number(items.last()));
        let rest = bytes16(item_size(items.last())) + bytes16(3);
        assert(items_put(items) =~= before + number + rest);
        lemma_items_put(shorter, j);
        if 0 <= j < shorter.len() {
            le_before(before, number + rest, 6 * j);
            assert(items_put(items) =~= before + (number + rest));
        } else if j == shorter.len() {
            le16_reads_bytes16(item_number(items.last()));
            assert(items_put(items)[6 * j] == number[0]);
            assert(items_put(items)[6 * j + 1] == number[1]);
        }
    }
}

/// What is said of records that do not decompress.
pub fn bad_points(detail: &str) -> (e: Error)
    ensures
        e@ == Failure::Codec("laszip: "@ + detail@),
{
    Error::Codec(cat2("laszip: ", detail))
}

/// How far a pass over a LAS file is.
#[derive(Debug, Clone, Copy, PartialEq, Eq, Structural)]
pub struct LasProgress {
    pub remaining: u64,
}

impl LasProgress {
    /// At the start of a file that declares a number of points.
    pub fn new(point_count: u64) -> (p: Self)
        ensures
            p.remaining == point_count,
    {
        LasProgress { remaining: point_count }
    }

    /// How many records the next batch asks for.
    pub open spec fn next(self, max: usize) -> int {
        let most = if max <= BATCH {
            max as int
        } else {
            BATCH as int
        };
        if most <= self.remaining {
            most
        } else {
            self.remaining as int
        }
    }

    /// How many records to ask for. None are left where it is zero.
    pub fn want(&self, max: usize) -> (n: usize)
        ensures
            n == self.next(max),
    {
        let most: usize = if max <= BATCH {
            max
        } else {
            BATCH
        };
        if most as u64 <= self.remaining {
            most
        } else {
            self.remaining as usize
        }
    }

    /// Takes note of how many whole records came. A file that ends early is
    /// read as far as it goes, and nothing is asked for after that.
    pub fn got(&mut self, want: usize, got: usize)
        requires
            got <= want <= old(self).remaining,
        ensures
            final(self).remaining == if got < want {
                0
            } else {
                old(self).remaining - got
            },
    {
        self.remaining = self.remaining - got as u64;
        if got < want {
            self.remaining = 0;
        }
    }
}

/// A pass that asks for batches comes to an end: each batch that is not the last
/// leaves less to read.
pub proof fn a_pass_ends(p: LasProgress, max: usize, got: int, after: LasProgress)
    requires
        max > 0,
        0 <= got <= p.next(max),
        after.remaining == if got < p.next(max) {
            0
        } else {
            p.remaining - got
        },
    ensures
        p.remaining > 0 ==> after.remaining < p.remaining,
        p.remaining == 0 ==> p.next(max) == 0,
{
}

/// How many whole records some bytes are.
pub fn whole_records(bytes: usize, stride: usize) -> (n: usize)
    requires
        stride > 0,
    ensures
        n == bytes as int / stride as int,
        n * stride <= bytes,
{
    let n: usize = bytes / stride;
    assert(n * stride <= bytes) by (nonlinear_arith)
        requires
            n == bytes as int / stride as int,
            stride > 0,
    ;
    n
}

/// A batch of scanned points being drained into records.
#[derive(Debug)]
pub struct Drain {
    pub current: PointBatch,
    pub at: usize,
}

impl Drain {
    pub open spec fn wf(self) -> bool {
        self.current.wf() && self.at <= self.current.x@.len()
    }

    /// Nothing to drain yet.
    pub fn new() -> (d: Self)
        ensures
            d.wf(),
            d.current.x@.len() == 0,
            d.at == 0,
    {
        Drain { current: PointBatch::new(), at: 0 }
    }

    /// Whether the next batch is needed.
    pub fn is_spent(&self) -> (r: bool)
        requires
            self.wf(),
        ensures
            r == (self.at == self.current.x@.len()),
    {
        self.at >= self.current.len()
    }

    /// Takes in the next batch, and says whether it holds anything.
    pub fn load(&mut self, batch: PointBatch) -> (r: bool)
        requires
            batch.wf(),
        ensures
            final(self).wf(),
            final(self).current == batch,
            final(self).at == 0,
            r == (batch.x@.len() > 0),
    {
        self.current = batch;
        self.at = 0;
        !self.current.is_empty()
    }

    /// The points to write next, up to a number, as the range of their places in
    /// the batch.
    pub fn next(&mut self, max: usize) -> (r: (usize, usize))
        requires
            old(self).wf(),
        ensures
            final(self).wf(),
            final(self).current == old(self).current,
            r.0 == old(self).at,
            r.1 == final(self).at,
            r.1 - r.0 == if old(self).current.x@.len() - old(self).at <= max {
                old(self).current.x@.len() - old(self).at
            } else {
                max as int
            },
    {
        let from: usize = self.at;
        let left: usize = self.current.len() - from;
        let n: usize = if left <= max {
            left
        } else {
            max
        };
        self.at = from + n;
        (from, self.at)
    }
}

} // verus!
