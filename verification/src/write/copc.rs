//! The COPC writer.
//!
//! One LAS 1.4 file whose laszip chunks are the octree's nodes. The order of
//! operations is forced by the format: the laszip record before the points it
//! describes, the chunk table after them, the hierarchy after that since it holds
//! file offsets, and the header last of all.

use super::copc_pages::{all_pages, build_pages, pages_put, pages_size, whole_listing};
use super::front::{
    add_common, common_records, declares_wkt, is_front, laszip_outgoing, put_front, put_records,
    records_put, Numbers,
};
use super::gps::{can_code_times, times_fit};
use super::hierarchy::Written;
use super::las_write::{evlr_bytes, outgoing, write_evlr, OutVlr, Outgoing};
use super::laszip::{
    chunk_table, codable, compress_chunk, items_for, items_of, items_size, laszip_chunk,
    laszip_payload, laszip_table, variable_payload, Item, LONGEST_CHUNK,
};
use super::WriteOptions;
use crate::bytes::{bytes64, le64, put_u64, put_zeros, real_at, slice_of, write_f64, write_u64, zeros};
use crate::cloud::wrap64;
use crate::double::{Real, INFINITY, NEG_INFINITY};
use crate::error::{Error, Failure};
use crate::las::copc::{
    info_of, Info, COPC_HIERARCHY_RECORD_ID, COPC_INFO_RECORD_ID, COPC_INFO_SIZE,
};
use crate::las::{double_at, LASZIP_RECORD_ID};
use crate::octree::OctreeKey;
use crate::record::GPS_TIME;
use crate::text::{cat2, cat4, cat5, decimal, decimal_of};
use vstd::prelude::*;

verus! {

/// The records of a COPC file, the info record first.
#[verifier::opaque]
pub open spec fn copc_records(options: WriteOptions, payload: Seq<u8>) -> Seq<Outgoing> {
    seq![
        Outgoing {
            user_id: "copc"@,
            record_id: COPC_INFO_RECORD_ID,
            description: "COPC info VLR"@,
            data: zeros(COPC_INFO_SIZE as nat),
        },
        laszip_outgoing("laszip variable chunks"@, payload),
    ] + common_records(options)
}

/// Where the points of a file start.
pub open spec fn points_at(options: WriteOptions, payload: Seq<u8>) -> int {
    375int + records_put(copc_records(options, payload)).len()
}

/// The header of a file that holds so many points, with its extended records at
/// a byte.
pub open spec fn copc_numbers(
    options: WriteOptions,
    payload: Seq<u8>,
    points: u64,
    evlr_offset: u64,
) -> Numbers {
    Numbers {
        point_count: points,
        min: options.extent.min,
        max: options.extent.max,
        offset_to_point_data: (points_at(options, payload) % 0x1_0000_0000) as u32,
        vlr_count: (copc_records(options, payload).len() as int % 0x1_0000_0000) as u32,
        evlr_offset,
        evlr_count: 1,
        wkt: declares_wkt(options.projection_vlrs@),
    }
}

/// Writes the nodes of a cloud, one at a time, and then the index.
#[derive(Debug)]
pub struct CopcWriter {
    pub options: WriteOptions,
    /// The fields of the compressed record.
    pub items: Vec<Item>,
    /// The payload of the laszip record.
    pub payload: Vec<u8>,
    /// Where the point data starts.
    pub start: u64,
    /// Where the next chunk starts.
    pub at: u64,
    pub nodes: Vec<Written>,
    pub points: u64,
    pub depth: u32,
    /// The least and the greatest GPS time.
    pub gps_time: [Real; 2],
    pub vlr_count: u32,
    pub wkt: bool,
}

/// What is left to be written when every node has been taken.
#[derive(Debug)]
pub struct Finish {
    /// The chunk table and the hierarchy, to append to the file.
    pub tail: Vec<u8>,
    /// Where the chunk table is, to write over the bytes where the points start.
    pub place: (u64, Vec<u8>),
    /// The info record, to write over the blank one.
    pub info: (u64, Vec<u8>),
    /// The header, to write over the first one.
    pub header: Vec<u8>,
    /// Bytes of the whole file.
    pub bytes: u64,
}

/// The bytes of the chunks of some nodes.
pub open spec fn chunks_size(nodes: Seq<Written>) -> int
    decreases nodes.len(),
{
    if nodes.len() == 0 {
        0
    } else {
        chunks_size(nodes.drop_last()) + nodes.last().byte_size
    }
}

/// The bytes of the chunks in front of node `i`'s.
#[verifier::opaque]
pub open spec fn chunks_before(nodes: Seq<Written>, i: int) -> int {
    chunks_size(nodes.take(i))
}

/// Whether the chunks of some nodes stand one behind the other from a byte on.
pub open spec fn laid_out(nodes: Seq<Written>, from: int) -> bool {
    forall|i: int|
        0 <= i < nodes.len() ==> (#[trigger] nodes[i]).byte_offset == wrap64(
            from + chunks_before(nodes, i),
        )
}

/// The least and the greatest time of the first `n` records, starting from a
/// range.
pub open spec fn times(range: (Real, Real), records: Seq<u8>, stride: int, n: int) -> (Real, Real)
    decreases n,
{
    if n <= 0 {
        range
    } else {
        let (low, high) = times(range, records, stride, n - 1);
        let t = double_at(records, (n - 1) * stride + GPS_TIME);
        (
            if t.below(low) {
                t
            } else {
                low
            },
            if high.below(t) {
                t
            } else {
                high
            },
        )
    }
}

/// The points and bytes of each chunk, and the empty one that ends them.
pub open spec fn chunk_list(nodes: Seq<Written>) -> Seq<(u64, u64)> {
    nodes.map_values(|n: Written| (n.points as u64, n.byte_size)).push((0, 0))
}

/// The tail of a file: its chunk table, then the hierarchy.
pub open spec fn tail_of(w: CopcWriter, table: Seq<u8>) -> Seq<u8> {
    table + evlr_bytes(
        "copc"@,
        COPC_HIERARCHY_RECORD_ID,
        "COPC hierarchy"@,
        pages_put(all_pages(w.nodes@, pages_at(w, table) as int)),
    )
}

/// Where the extended record of a file starts.
pub open spec fn evlr_at(w: CopcWriter, table: Seq<u8>) -> u64 {
    wrap64(w.at + table.len())
}

/// Where the pages of a file start.
pub open spec fn pages_at(w: CopcWriter, table: Seq<u8>) -> u64 {
    wrap64(evlr_at(w, table) + 60)
}

/// The info record of a file whose root cube has a centre and half an edge.
pub open spec fn info_for(w: CopcWriter, table: Seq<u8>, center: Seq<Real>, half: Real) -> Info {
    let base = pages_at(w, table) as int;
    let l = whole_listing(w.nodes@, base);
    Info {
        center,
        half_size: half,
        spacing: w.options.spacing,
        root_hierarchy_offset: wrap64(base + pages_size(l.pages)),
        root_hierarchy_size: wrap64((32 * l.own.len()) as int),
        gps_time_range: if w.gps_time[0].finite() {
            w.gps_time@
        } else {
            seq![Real { bits: 0 }, Real { bits: 0 }]
        },
    }
}

/// Whether a payload is an info record and zeros behind it.
#[verifier::opaque]
pub open spec fn holds_info(b: Seq<u8>, info: Info) -> bool {
    b.len() == 160 && info_of(b) == info && b.skip(72) == zeros(88)
}

impl CopcWriter {
    /// What holds of every writer: its chunks stand one behind the other, behind
    /// the records and the place of the chunk table.
    pub open spec fn wf(self) -> bool {
        &&& self.options.layout.wf()
        &&& self.options.layout.base + self.options.layout.extra <= u16::MAX
        &&& self.items@ == items_of(self.options.layout)
        &&& codable(self.items@)
        &&& items_size(self.items@) == self.stride()
        &&& self.start == wrap64(points_at(self.options, self.payload@))
        &&& self.vlr_count == copc_numbers(self.options, self.payload@, 0, 0).vlr_count
        &&& self.wkt == declares_wkt(self.options.projection_vlrs@)
        &&& laid_out(self.nodes@, self.start + 8)
        &&& self.at == wrap64(self.start + 8 + chunks_size(self.nodes@))
    }

    /// Bytes of a record.
    pub open spec fn stride(self) -> int {
        self.options.layout.base + self.options.layout.extra
    }

    /// A writer, and the bytes its file starts with. The info record and the place
    /// of the chunk table are filled in at the end.
    pub fn new(options: WriteOptions) -> (r: Result<(Self, Vec<u8>), Error>)
        requires
            options.layout.wf(),
            options.layout.base + options.layout.extra <= u16::MAX,
        ensures
            match r {
                Ok((w, head)) => {
                    &&& w.payload@ == laszip_payload(items_of(options.layout), LONGEST_CHUNK)
                    &&& w.wf()
                    &&& w.options == options
                    &&& w.nodes@.len() == 0
                    &&& w.points == 0
                    &&& w.depth == 0
                    &&& w.gps_time@ == seq![
                        Real { bits: INFINITY },
                        Real { bits: NEG_INFINITY },
                    ]
                    &&& head@.len() == points_at(options, w.payload@) + 8
                    &&& is_front(
                        head@.take(375),
                        options,
                        copc_numbers(options, w.payload@, 0, 0),
                    )
                    &&& head@.skip(375) == records_put(copc_records(options, w.payload@)) + bytes64(
                        0xffff_ffff_ffff_ffff,
                    )
                },
                Err(_) => false,
            },
    {
        let items = items_for(&options.layout);
        let payload = match variable_payload(&items) {
            Ok(p) => p,
            Err(e) => {
                return Err(Error::Codec(cat2("laszip VLR: ", e.as_str())));
            },
        };
        let (list, wkt) = record_list(&options, &payload);
        let records = put_records(&list);
        let size: u64 = records.len() as u64;
        let start: u64 = size.wrapping_add(375);
        let numbers = Numbers {
            point_count: 0,
            min: options.extent.min,
            max: options.extent.max,
            offset_to_point_data: (start % 0x1_0000_0000) as u32,
            vlr_count: (list.len() as u64 % 0x1_0000_0000) as u32,
            evlr_offset: 0,
            evlr_count: 1,
            wkt,
        };
        proof {
            lemma_narrow(points_at(options, payload@));
            assert(numbers == copc_numbers(options, payload@, 0, 0));
        }
        let front = put_front(&options, numbers);
        let head = joined(front, records);
        let at: u64 = start.wrapping_add(8);
        let w = CopcWriter {
            options,
            items,
            payload,
            start,
            at,
            nodes: Vec::new(),
            points: 0,
            depth: 0,
            gps_time: [Real { bits: INFINITY }, Real { bits: NEG_INFINITY }],
            vlr_count: numbers.vlr_count,
            wkt,
        };
        assert(w.gps_time@ =~= seq![Real { bits: INFINITY }, Real { bits: NEG_INFINITY }]);
        Ok((w, head))
    }

    fn widen(&self, records: &Vec<u8>, count: usize) -> (r: (Real, Real))
        requires
            self.wf(),
            count * self.stride() <= records@.len(),
        ensures
            r == times((self.gps_time[0], self.gps_time[1]), records@, self.stride(), count as int),
    {
        let stride: usize = self.options.stride();
        let mut low = self.gps_time[0];
        let mut high = self.gps_time[1];
        let mut i: usize = 0;
        let total: usize = records.len();
        while i < count
            invariant
                i <= count,
                stride == self.stride(),
                stride >= 30,
                total == records@.len(),
                count * stride <= total,
                (low, high) == times(
                    (self.gps_time[0], self.gps_time[1]),
                    records@,
                    stride as int,
                    i as int,
                ),
            decreases count - i,
        {
            assert(i * stride + stride <= count * stride && 0 <= i * stride) by (nonlinear_arith)
                requires
                    i < count,
                    0 <= stride,
            ;
            let t = real_at(records.as_slice(), i * stride + GPS_TIME);
            if t.is_below(low) {
                low = t;
            }
            if high.is_below(t) {
                high = t;
            }
            i = i + 1;
        }
        (low, high)
    }

    /// Notes a node whose chunk has been compressed.
    fn add_node(&mut self, key: OctreeKey, size: u64, count: usize, low: Real, high: Real)
        requires
            old(self).wf(),
            count <= i32::MAX,
        ensures
            final(self).wf(),
            final(self).options == old(self).options,
            final(self).payload == old(self).payload,
            final(self).start == old(self).start,
            final(self).nodes@ == old(self).nodes@.push(
                Written {
                    key,
                    byte_offset: old(self).at,
                    byte_size: size,
                    points: count as u32,
                },
            ),
            final(self).at == wrap64(old(self).at + size),
            final(self).points == wrap64(old(self).points + count),
            final(self).depth == if key.level > old(self).depth {
                key.level
            } else {
                old(self).depth
            },
            final(self).gps_time[0] == low,
            final(self).gps_time[1] == high,
    {
        let ghost before = self.nodes@;
        let ghost from = self.start + 8;
        self.nodes.push(
            Written { key, byte_offset: self.at, byte_size: size, points: count as u32 },
        );
        self.at = self.at.wrapping_add(size);
        self.points = self.points.wrapping_add(count as u64);
        if key.level > self.depth {
            self.depth = key.level;
        }
        self.gps_time = [low, high];
        proof {
            let after = self.nodes@;
            assert(after.drop_last() =~= before);
            lemma_wrap_add(from + chunks_size(before), size as int);
            assert forall|i: int| 0 <= i < after.len() implies (#[trigger] after[i]).byte_offset
                == wrap64(from + chunks_before(after, i)) by {
                reveal(chunks_before);
                if i < before.len() {
                    assert(after.take(i) =~= before.take(i));
                    assert(after[i] == before[i]);
                } else {
                    assert(after.take(i) =~= before);
                }
            }
        }
    }

    /// Whether the codec has room for the GPS times of a node that is not refused
    /// for its size.
    pub open spec fn is_codable(self, records: Seq<u8>) -> bool {
        records.len() as int / self.stride() <= i32::MAX ==> times_fit(
            records,
            self.stride(),
            LONGEST_CHUNK as int,
        )
    }

    /// Whether the codec has room for the GPS times of a node: where it has none,
    /// the node cannot be written.
    pub fn can_code(&self, records: &Vec<u8>) -> (r: bool)
        requires
            self.wf(),
        ensures
            r == self.is_codable(records@),
    {
        let stride: usize = self.options.stride();
        records.len() / stride > 0x7fff_ffff || can_code_times(
            records.as_slice(),
            stride,
            LONGEST_CHUNK,
        )
    }

    /// Takes the points of one node, in a chunk of their own. Returns the bytes to
    /// append to the file.
    pub fn write_node(&mut self, key: OctreeKey, records: &Vec<u8>) -> (r: Result<Vec<u8>, Error>)
        requires
            old(self).wf(),
            old(self).is_codable(records@),
        ensures
            final(self).wf(),
            final(self).options == old(self).options,
            final(self).payload == old(self).payload,
            final(self).start == old(self).start,
            ({
                let count = records@.len() as int / old(self).stride();
                match r {
                    Ok(bytes) => if count == 0 {
                        bytes@.len() == 0 && *final(self) == *old(self)
                    } else {
                        &&& count <= i32::MAX
                        &&& laszip_chunk(items_of(old(self).options.layout), records@) matches Ok(
                            written,
                        )
                        &&& bytes@ == written.skip(8)
                        &&& final(self).nodes@ == old(self).nodes@.push(
                            Written {
                                key,
                                byte_offset: old(self).at,
                                byte_size: bytes@.len() as u64,
                                points: count as u32,
                            },
                        )
                        &&& final(self).at == wrap64(old(self).at + bytes@.len())
                        &&& final(self).points == wrap64(old(self).points + count)
                        &&& final(self).depth == if key.level > old(self).depth {
                            key.level
                        } else {
                            old(self).depth
                        }
                        &&& (final(self).gps_time[0], final(self).gps_time[1]) == times(
                            (old(self).gps_time[0], old(self).gps_time[1]),
                            records@,
                            old(self).stride(),
                            count,
                        )
                    },
                    Err(e) => *final(self) == *old(self) && if count > i32::MAX {
                        e@ == Failure::Unsupported(
                            "node "@ + key.spec_ept_name() + " holds "@ + decimal(count as nat)
                                + " points and a COPC hierarchy entry counts them in an i32. Convert with a smaller span."@,
                        )
                    } else {
                        &&& count > 0
                        &&& laszip_chunk(items_of(old(self).options.layout), records@) matches Err(
                            detail,
                        )
                        &&& e@ == Failure::Codec(
                            "compressing "@ + key.spec_ept_name() + ": "@ + detail,
                        )
                    },
                }
            }),
    {
        let stride: usize = self.options.stride();
        let count: usize = records.len() / stride;
        if count == 0 {
            return Ok(Vec::new());
        }
        let name = key.ept_name();
        if count > 0x7fff_ffff {
            let n = decimal_of(count as u64);
            return Err(
                Error::Unsupported(
                    cat5(
                        "node ",
                        name.as_str(),
                        " holds ",
                        n.as_str(),
                        " points and a COPC hierarchy entry counts them in an i32. Convert with a smaller span.",
                    ),
                ),
            );
        }
        proof {
            lemma_whole(records@.len() as int, stride as int, count as int);
        }
        let (low, high) = self.widen(records, count);
        let written = match compress_chunk(&self.items, records.as_slice()) {
            Ok(b) => b,
            Err(e) => {
                return Err(
                    Error::Codec(cat4("compressing ", name.as_str(), ": ", e.as_str())),
                );
            },
        };
        let bytes = slice_of(written.as_slice(), 8, written.len());
        assert(bytes@ =~= written@.skip(8));
        self.add_node(key, bytes.len() as u64, count, low, high);
        Ok(bytes)
    }

    fn chunks(&self) -> (r: Vec<(u64, u64)>)
        ensures
            r@ == chunk_list(self.nodes@),
    {
        let mut list: Vec<(u64, u64)> = Vec::new();
        let mut i: usize = 0;
        while i < self.nodes.len()
            invariant
                i <= self.nodes.len(),
                list@ == self.nodes@.take(i as int).map_values(
                    |n: Written| (n.points as u64, n.byte_size),
                ),
            decreases self.nodes.len() - i,
        {
            let n = self.nodes[i];
            list.push((n.points as u64, n.byte_size));
            assert(list@ =~= self.nodes@.take(i + 1).map_values(
                |n: Written| (n.points as u64, n.byte_size),
            ));
            i = i + 1;
        }
        list.push((0, 0));
        assert(list@ =~= chunk_list(self.nodes@));
        list
    }

    #[verifier::rlimit(60)]
    fn put_info(&self, center: [Real; 3], half: Real, root: (u64, u64)) -> (out: Vec<u8>)
        ensures
            holds_info(out@, (Info {
                center: center@,
                half_size: half,
                spacing: self.options.spacing,
                root_hierarchy_offset: root.0,
                root_hierarchy_size: root.1,
                gps_time_range: if self.gps_time[0].finite() {
                    self.gps_time@
                } else {
                    seq![Real { bits: 0 }, Real { bits: 0 }]
                },
            })),
    {
        let mut info: Vec<u8> = Vec::new();
        put_zeros(&mut info, COPC_INFO_SIZE);
        let (low, high) = if self.gps_time[0].is_finite() {
            (self.gps_time[0], self.gps_time[1])
        } else {
            (Real { bits: 0 }, Real { bits: 0 })
        };
        let b = info.as_mut_slice();
        write_f64(b, 0, center[0]);
        write_f64(b, 8, center[1]);
        write_f64(b, 16, center[2]);
        write_f64(b, 24, half);
        write_f64(b, 32, self.options.spacing);
        write_u64(b, 40, root.0);
        write_u64(b, 48, root.1);
        write_f64(b, 56, low);
        write_f64(b, 64, high);
        proof {
            reveal(holds_info);
            let i = info_of(info@);
            assert(i.center =~= center@);
            assert(le64(info@, 40) == root.0);
            assert(le64(info@, 48) == root.1);
            if self.gps_time[0].finite() {
                assert(i.gps_time_range =~= self.gps_time@);
            } else {
                assert(i.gps_time_range =~= seq![Real { bits: 0 }, Real { bits: 0 }]);
            }
            assert(info@.skip(72) =~= zeros(88));
        }
        info
    }

    /// Adds the hierarchy behind a chunk table. Returns the place and the size of
    /// its root page.
    fn put_hierarchy(&self, tail: &mut Vec<u8>) -> (root: (u64, u64))
        ensures
            final(tail)@ == tail_of(*self, old(tail)@),
            ({
                let base = pages_at(*self, old(tail)@) as int;
                let l = whole_listing(self.nodes@, base);
                &&& root.0 == wrap64(base + pages_size(l.pages))
                &&& root.1 == wrap64((32 * l.own.len()) as int)
            }),
    {
        let evlr_offset: u64 = self.at.wrapping_add(tail.len() as u64);
        let base: u64 = evlr_offset.wrapping_add(60);
        let (pages, root) = build_pages(&self.nodes, base);
        let record = OutVlr::new("copc", COPC_HIERARCHY_RECORD_ID, "COPC hierarchy", pages);
        write_evlr(tail, &record);
        root
    }

    /// The chunk table, the hierarchy, and the header that finally tells the
    /// truth. The centre of the root cube and half its edge are given.
    #[verifier::rlimit(90)]
    pub fn finish(&self, center: [Real; 3], half: Real) -> (r: Result<Finish, Error>)
        requires
            self.wf(),
        ensures
            match r {
                Ok(f) => {
                    &&& laszip_table(chunk_list(self.nodes@)) matches Ok(table)
                    &&& f.tail@ == tail_of(*self, table)
                    &&& f.bytes == wrap64(self.at + f.tail@.len())
                    &&& f.place.0 == self.start
                    &&& f.place.1@ == bytes64(self.at as int)
                    &&& f.info.0 == 375 + 54
                    &&& holds_info(f.info.1@, info_for(*self, table, center@, half))
                    &&& is_front(
                        f.header@,
                        self.options,
                        copc_numbers(
                            self.options,
                            self.payload@,
                            self.points,
                            evlr_at(*self, table),
                        ),
                    )
                },
                Err(e) => laszip_table(chunk_list(self.nodes@)) matches Err(detail) && e@
                    == Failure::Codec("finishing the point data: "@ + detail),
            },
    {
        let chunks = self.chunks();
        let mut tail = match chunk_table(&chunks) {
            Ok(t) => t,
            Err(e) => {
                return Err(Error::Codec(cat2("finishing the point data: ", e.as_str())));
            },
        };
        let ghost table = tail@;
        let evlr_offset: u64 = self.at.wrapping_add(tail.len() as u64);
        let root = self.put_hierarchy(&mut tail);
        let bytes: u64 = self.at.wrapping_add(tail.len() as u64);
        let place = number_bytes(self.at);
        let info = self.put_info(center, half, root);
        let numbers = self.numbers(evlr_offset);
        let header = put_front(&self.options, numbers);
        Ok(Finish { tail, place: (self.start, place), info: (429, info), header, bytes })
    }

    fn numbers(&self, evlr_offset: u64) -> (n: Numbers)
        requires
            self.wf(),
        ensures
            n == copc_numbers(self.options, self.payload@, self.points, evlr_offset),
    {
        proof {
            lemma_narrow(points_at(self.options, self.payload@));
        }
        Numbers {
            point_count: self.points,
            min: self.options.extent.min,
            max: self.options.extent.max,
            offset_to_point_data: (self.start % 0x1_0000_0000) as u32,
            vlr_count: self.vlr_count,
            evlr_offset,
            evlr_count: 1,
            wkt: self.wkt,
        }
    }
}

/// The records of a file, and whether its projection is WKT.
fn record_list(options: &WriteOptions, payload: &Vec<u8>) -> (r: (Vec<OutVlr>, bool))
    ensures
        outgoing(r.0@) == copc_records(*options, payload@),
        r.0@.len() == copc_records(*options, payload@).len(),
        r.1 == declares_wkt(options.projection_vlrs@),
{
    let mut blank: Vec<u8> = Vec::new();
    put_zeros(&mut blank, COPC_INFO_SIZE);
    assert(blank@ =~= zeros(COPC_INFO_SIZE as nat));
    let copy = slice_of(payload.as_slice(), 0, payload.len());
    assert(copy@ =~= payload@);
    let mut list: Vec<OutVlr> = Vec::new();
    list.push(OutVlr::new("copc", COPC_INFO_RECORD_ID, "COPC info VLR", blank));
    list.push(OutVlr::new("laszip encoded", LASZIP_RECORD_ID, "laszip variable chunks", copy));
    let ghost two = list@;
    let wkt = add_common(options, &mut list);
    proof {
        reveal(copc_records);
        let records = copc_records(*options, payload@);
        assert(outgoing(two) =~= records.take(2));
        assert(outgoing(list@) =~= records);
        assert(outgoing(list@).len() == list@.len());
    }
    (list, wkt)
}

/// A number in eight bytes.
fn number_bytes(n: u64) -> (out: Vec<u8>)
    ensures
        out@ == bytes64(n as int),
{
    let mut out: Vec<u8> = Vec::new();
    put_u64(&mut out, n);
    assert(out@ =~= bytes64(n as int));
    out
}

/// A header, its records, and the place of the chunk table, not yet known.
fn joined(front: Vec<u8>, records: Vec<u8>) -> (head: Vec<u8>)
    requires
        front@.len() == 375,
    ensures
        head@.len() == 375 + records@.len() + 8,
        head@.take(375) == front@,
        head@.skip(375) == records@ + bytes64(0xffff_ffff_ffff_ffff),
{
    let mut head = front;
    let mut rest = records;
    let mut place = number_bytes(0xffff_ffff_ffff_ffff);
    head.append(&mut rest);
    head.append(&mut place);
    assert(head@.take(375) =~= front@);
    assert(head@.skip(375) =~= records@ + bytes64(0xffff_ffff_ffff_ffff));
    head
}

proof fn lemma_narrow(n: int)
    ensures
        n % 0x1_0000_0000_0000_0000 % 0x1_0000_0000 == n % 0x1_0000_0000,
{
}

proof fn lemma_whole(n: int, stride: int, count: int)
    requires
        stride > 0,
        0 <= n,
        count == n / stride,
    ensures
        count * stride <= n,
        count > 0 ==> n >= stride,
{
    vstd::arithmetic::div_mod::lemma_fundamental_div_mod(n, stride);
    assert(count * stride == stride * count) by (nonlinear_arith);
    if count > 0 {
        assert(stride * count >= stride) by (nonlinear_arith)
            requires
                count >= 1,
                stride > 0,
        ;
    }
}

proof fn lemma_wrap_add(a: int, b: int)
    requires
        0 <= b,
    ensures
        wrap64(wrap64(a) + b) == wrap64(a + b),
{
    vstd::arithmetic::div_mod::lemma_add_mod_noop_right(b, a, 0x1_0000_0000_0000_0000);
}

/// Each node's chunk starts where the one before it ends, the first behind the
/// place of the chunk table.
pub proof fn chunks_stand_end_to_end(w: CopcWriter, i: int)
    requires
        w.wf(),
        0 <= i < w.nodes@.len(),
    ensures
        i == 0 ==> w.nodes@[i].byte_offset == wrap64(w.start + 8),
        i > 0 ==> w.nodes@[i].byte_offset == wrap64(
            w.nodes@[i - 1].byte_offset + w.nodes@[i - 1].byte_size,
        ),
        i == w.nodes@.len() - 1 ==> w.at == wrap64(
            w.nodes@[i].byte_offset + w.nodes@[i].byte_size,
        ),
{
    let nodes = w.nodes@;
    let from = w.start + 8;
    lemma_before(nodes, i);
    if i > 0 {
        lemma_before(nodes, i - 1);
        lemma_wrap_add(from + chunks_before(nodes, i - 1), nodes[i - 1].byte_size as int);
    }
    if i == nodes.len() - 1 {
        lemma_wrap_add(from + chunks_before(nodes, i), nodes[i].byte_size as int);
    }
}

proof fn lemma_before(nodes: Seq<Written>, i: int)
    requires
        0 <= i < nodes.len(),
    ensures
        i == 0 ==> chunks_before(nodes, i) == 0,
        chunks_before(nodes, i + 1) == chunks_before(nodes, i) + nodes[i].byte_size,
        i == nodes.len() - 1 ==> chunks_before(nodes, i + 1) == chunks_size(nodes),
{
    reveal(chunks_before);
    assert(nodes.take(i + 1).drop_last() =~= nodes.take(i));
    if i == nodes.len() - 1 {
        assert(nodes.take(i + 1) =~= nodes);
    }
}

} // verus!
