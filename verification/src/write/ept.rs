//! The Entwine Point Tile writer.
//!
//! A manifest, one JSON page per subtree, and one file per node whose name is its
//! key. Two encodings: `binary` is the schema's fields as a flat record, and
//! `laszip` is a complete little LAZ file per node.

use super::front::{
    add_common, common_records, declares_wkt, is_front, laszip_outgoing, put_front, put_records,
    records_put, Numbers,
};
use super::gps::{can_code_times, times_fit};
use super::hierarchy::{can_split, comes_before};
use super::keys::{lemma_packed_range, pack, packed, packed_is_unique};
use super::las_write::{outgoing, OutVlr, Outgoing};
use super::laszip::{
    compress_file, fixed_payload, items_for, items_of, laszip_file, laszip_payload, CHUNK_POINTS,
};
use super::WriteOptions;
use crate::bounds::Bounds;
use crate::bytes::{put_range, slice_of};
use crate::cloud::{declared, wrap64};
use crate::crs::{CrsFormat, Declared};
use crate::double::Real;
use crate::error::{Error, Failure};
use crate::format::ept::PAGE_REFERENCE;
use crate::json::{Fields, Json, Number, Tree};
use crate::las::LASZIP_RECORD_ID;
use crate::octree::OctreeKey;
use crate::record::{
    CLASSIFICATION, GPS_TIME, POINT_SOURCE_ID, RETURNS, RGB, SCAN_ANGLE, USER_DATA,
};
use crate::text::{cat2, cat3, cat4, decimal, decimal_of};
use std::collections::HashMap;
use vstd::prelude::*;

verus! {

broadcast use vstd::std_specs::hash::group_hash_axioms;

/// How a node's points are stored.
#[derive(Debug, Clone, Copy, PartialEq, Eq, Structural)]
pub enum EptEncoding {
    Binary,
    Laszip,
}

impl EptEncoding {
    pub open spec fn spelling(self) -> Seq<char> {
        match self {
            EptEncoding::Binary => "binary"@,
            EptEncoding::Laszip => "laszip"@,
        }
    }

    pub fn name(self) -> (s: &'static str)
        ensures
            s@ == self.spelling(),
    {
        match self {
            EptEncoding::Binary => "binary",
            EptEncoding::Laszip => "laszip",
        }
    }

    pub open spec fn suffix(self) -> Seq<char> {
        match self {
            EptEncoding::Binary => "bin"@,
            EptEncoding::Laszip => "laz"@,
        }
    }

    fn extension(self) -> (s: &'static str)
        ensures
            s@ == self.suffix(),
    {
        match self {
            EptEncoding::Binary => "bin",
            EptEncoding::Laszip => "laz",
        }
    }
}

/// Nodes per hierarchy page before it defers to another.
pub const PAGE_NODES: usize = 512;

/// One field of the schema, which is also the binary record layout.
#[derive(Debug, Clone, Copy)]
pub struct SchemaField {
    pub name: &'static str,
    pub kind: &'static str,
    pub size: usize,
    /// The quantum and the origin, where the field is a coordinate.
    pub placed: Option<(Real, Real)>,
}

/// A field, as the values it holds.
pub struct FieldSpec {
    pub name: Seq<char>,
    pub kind: Seq<char>,
    pub size: usize,
    pub placed: Option<(Real, Real)>,
}

impl View for SchemaField {
    type V = FieldSpec;

    open spec fn view(&self) -> FieldSpec {
        FieldSpec { name: self.name@, kind: self.kind@, size: self.size, placed: self.placed }
    }
}

/// A field without a quantum.
pub open spec fn plain(name: Seq<char>, kind: Seq<char>, size: usize) -> FieldSpec {
    FieldSpec { name, kind, size, placed: None }
}

/// A coordinate.
pub open spec fn coordinate(name: Seq<char>, scale: Real, offset: Real) -> FieldSpec {
    FieldSpec { name, kind: "signed"@, size: 4, placed: Some((scale, offset)) }
}

/// Whether a record carries colour.
pub open spec fn colored(options: WriteOptions) -> bool {
    options.layout.format == 7 || options.layout.format == 8
}

/// The fields of a schema.
pub open spec fn schema_for(options: WriteOptions) -> Seq<FieldSpec> {
    seq![
        coordinate("X"@, options.scale[0], options.offset[0]),
        coordinate("Y"@, options.scale[1], options.offset[1]),
        coordinate("Z"@, options.scale[2], options.offset[2]),
        plain("Intensity"@, "unsigned"@, 2),
        plain("ReturnNumber"@, "unsigned"@, 1),
        plain("NumberOfReturns"@, "unsigned"@, 1),
        plain("Classification"@, "unsigned"@, 1),
        plain("ScanAngleRank"@, "signed"@, 2),
        plain("UserData"@, "unsigned"@, 1),
        plain("PointSourceId"@, "unsigned"@, 2),
    ] + (if options.has_gps_time {
        seq![plain("GpsTime"@, "float"@, 8)]
    } else {
        Seq::empty()
    }) + (if colored(options) {
        seq![
            plain("Red"@, "unsigned"@, 2),
            plain("Green"@, "unsigned"@, 2),
            plain("Blue"@, "unsigned"@, 2),
        ]
    } else {
        Seq::empty()
    })
}

/// Several fields, each as the values it holds.
pub open spec fn field_specs(list: Seq<SchemaField>) -> Seq<FieldSpec> {
    list.map_values(|f: SchemaField| f@)
}

/// The fields of a schema.
pub fn schema(options: &WriteOptions) -> (list: Vec<SchemaField>)
    ensures
        field_specs(list@) == schema_for(*options),
{
    let mut list: Vec<SchemaField> = Vec::new();
    let unsigned = "unsigned";
    let signed = "signed";
    list.push(
        SchemaField {
            name: "X",
            kind: signed,
            size: 4,
            placed: Some((options.scale[0], options.offset[0])),
        },
    );
    list.push(
        SchemaField {
            name: "Y",
            kind: signed,
            size: 4,
            placed: Some((options.scale[1], options.offset[1])),
        },
    );
    list.push(
        SchemaField {
            name: "Z",
            kind: signed,
            size: 4,
            placed: Some((options.scale[2], options.offset[2])),
        },
    );
    list.push(SchemaField { name: "Intensity", kind: unsigned, size: 2, placed: None });
    list.push(SchemaField { name: "ReturnNumber", kind: unsigned, size: 1, placed: None });
    list.push(SchemaField { name: "NumberOfReturns", kind: unsigned, size: 1, placed: None });
    list.push(SchemaField { name: "Classification", kind: unsigned, size: 1, placed: None });
    list.push(SchemaField { name: "ScanAngleRank", kind: signed, size: 2, placed: None });
    list.push(SchemaField { name: "UserData", kind: unsigned, size: 1, placed: None });
    list.push(SchemaField { name: "PointSourceId", kind: unsigned, size: 2, placed: None });
    if options.has_gps_time {
        list.push(SchemaField { name: "GpsTime", kind: "float", size: 8, placed: None });
    }
    if options.layout.has_color() {
        list.push(SchemaField { name: "Red", kind: unsigned, size: 2, placed: None });
        list.push(SchemaField { name: "Green", kind: unsigned, size: 2, placed: None });
        list.push(SchemaField { name: "Blue", kind: unsigned, size: 2, placed: None });
    }
    assert(field_specs(list@) =~= schema_for(*options));
    list
}

/// One record, as the schema lays it out.
pub open spec fn encoded(record: Seq<u8>, gps: bool, color: bool) -> Seq<u8> {
    record.subrange(0, 14) + seq![
        record[RETURNS as int] % 16,
        record[RETURNS as int] / 16,
        record[CLASSIFICATION as int],
    ] + record.subrange(SCAN_ANGLE as int, SCAN_ANGLE + 2) + seq![record[USER_DATA as int]]
        + record.subrange(POINT_SOURCE_ID as int, POINT_SOURCE_ID + 2) + (if gps {
        record.subrange(GPS_TIME as int, GPS_TIME + 8)
    } else {
        Seq::empty()
    }) + (if color {
        record.subrange(RGB as int, RGB + 6)
    } else {
        Seq::empty()
    })
}

/// The first `n` records, each as the schema lays it out.
pub open spec fn encoded_all(records: Seq<u8>, stride: int, gps: bool, color: bool, n: int) -> Seq<u8>
    decreases n,
{
    if n <= 0 {
        Seq::empty()
    } else {
        encoded_all(records, stride, gps, color, n - 1) + encoded(
            records.subrange((n - 1) * stride, n * stride),
            gps,
            color,
        )
    }
}

fn put_encoded(record: &[u8], gps: bool, color: bool, out: &mut Vec<u8>)
    requires
        record@.len() >= 30,
        color ==> record@.len() >= 36,
    ensures
        final(out)@ == old(out)@ + encoded(record@, gps, color),
{
    put_range(out, record, 0, 14);
    let returns: u8 = record[RETURNS];
    out.push(returns % 16);
    out.push(returns / 16);
    out.push(record[CLASSIFICATION]);
    put_range(out, record, SCAN_ANGLE, SCAN_ANGLE + 2);
    out.push(record[USER_DATA]);
    put_range(out, record, POINT_SOURCE_ID, POINT_SOURCE_ID + 2);
    if gps {
        put_range(out, record, GPS_TIME, GPS_TIME + 8);
    }
    if color {
        put_range(out, record, RGB, RGB + 6);
    }
    assert(out@ =~= old(out)@ + encoded(record@, gps, color));
}

/// The records of a node's file.
#[verifier::opaque]
pub open spec fn node_records(options: WriteOptions, payload: Seq<u8>) -> Seq<Outgoing> {
    seq![laszip_outgoing("laszip"@, payload)] + common_records(options)
}

/// The header of a node's file: its own extent, not the cloud's.
pub open spec fn node_numbers(
    options: WriteOptions,
    payload: Seq<u8>,
    count: u64,
    extent: Bounds,
) -> Numbers {
    Numbers {
        point_count: count,
        min: extent.min,
        max: extent.max,
        offset_to_point_data: ((375 + records_put(node_records(options, payload)).len())
            % 0x1_0000_0000) as u32,
        vlr_count: (node_records(options, payload).len() as int % 0x1_0000_0000) as u32,
        evlr_offset: 0,
        evlr_count: 0,
        wkt: declares_wkt(options.projection_vlrs@),
    }
}

/// Whether bytes are what stands in front of the points of a node's file.
pub open spec fn is_node_front(
    head: Seq<u8>,
    options: WriteOptions,
    payload: Seq<u8>,
    count: u64,
    extent: Bounds,
) -> bool {
    &&& head.len() == 375 + records_put(node_records(options, payload)).len()
    &&& is_front(head.take(375), options, node_numbers(options, payload, count, extent))
    &&& head.skip(375) == records_put(node_records(options, payload))
}

/// The points of a node as a whole LAZ file, given the node's extent.
fn laz_node(options: &WriteOptions, key: OctreeKey, records: &Vec<u8>, count: u64, extent: Bounds)
    -> (r: Result<Vec<u8>, Error>)
    requires
        options.layout.wf(),
        options.layout.base + options.layout.extra <= u16::MAX,
        times_fit(records@, options.layout.base + options.layout.extra, CHUNK_POINTS as int),
    ensures
        laz_outcome(*options, key, records@, count, extent, r),
{
    let items = items_for(&options.layout);
    let payload = match fixed_payload(&items) {
        Ok(p) => p,
        Err(e) => {
            return Err(Error::Codec(cat2("laszip VLR: ", e.as_str())));
        },
    };
    let head = node_front(options, &payload, count, extent);
    let ghost front = head@;
    let r = match compress_file(&items, head, records.as_slice()) {
        Ok(file) => Ok(file),
        Err(e) => {
            let name = key.ept_name();
            Err(Error::Codec(cat4("compressing ", name.as_str(), ": ", e.as_str())))
        },
    };
    assert(is_node_front(front, *options, payload@, count, extent));
    assert(compressed_outcome(laszip_file(items@, front, records@), key, r));
    proof {
        lemma_outcome(*options, key, records@, count, extent, payload@, front, r);
    }
    r
}

proof fn lemma_outcome(
    options: WriteOptions,
    key: OctreeKey,
    records: Seq<u8>,
    count: u64,
    extent: Bounds,
    payload: Seq<u8>,
    head: Seq<u8>,
    r: Result<Vec<u8>, Error>,
)
    requires
        payload == laszip_payload(items_of(options.layout), CHUNK_POINTS),
        is_node_front(head, options, payload, count, extent),
        compressed_outcome(laszip_file(items_of(options.layout), head, records), key, r),
    ensures
        laz_outcome(options, key, records, count, extent, r),
{
    let items = items_of(options.layout);
    assert(exists|head: Seq<u8>| #[trigger]
        is_node_front(head, options, payload, count, extent) && compressed_outcome(
            laszip_file(items, head, records),
            key,
            r,
        ));
}

/// What a LAZ file of a node's points comes to: whichever front it has, it is
/// the one that its options call for.
pub open spec fn laz_outcome(
    options: WriteOptions,
    key: OctreeKey,
    records: Seq<u8>,
    count: u64,
    extent: Bounds,
    r: Result<Vec<u8>, Error>,
) -> bool {
    let items = items_of(options.layout);
    let payload = laszip_payload(items, CHUNK_POINTS);
    exists|head: Seq<u8>| #[trigger]
        is_node_front(head, options, payload, count, extent) && compressed_outcome(
            laszip_file(items, head, records),
            key,
            r,
        )
}

/// What the compression of a node's points comes to.
pub open spec fn compressed_outcome(
    file: Result<Seq<u8>, Seq<char>>,
    key: OctreeKey,
    r: Result<Vec<u8>, Error>,
) -> bool {
    match (file, r) {
        (Ok(bytes), Ok(out)) => out@ == bytes,
        (Err(detail), Err(e)) => e@ == Failure::Codec(
            "compressing "@ + key.spec_ept_name() + ": "@ + detail,
        ),
        _ => false,
    }
}

fn node_front(options: &WriteOptions, payload: &Vec<u8>, count: u64, extent: Bounds) -> (head: Vec<
    u8,
>)
    requires
        options.layout.wf(),
        options.layout.base + options.layout.extra <= u16::MAX,
    ensures
        is_node_front(head@, *options, payload@, count, extent),
{
    let copy = slice_of(payload.as_slice(), 0, payload.len());
    assert(copy@ =~= payload@);
    let mut list: Vec<OutVlr> = Vec::new();
    list.push(OutVlr::new("laszip encoded", LASZIP_RECORD_ID, "laszip", copy));
    let ghost one = list@;
    let wkt = add_common(options, &mut list);
    proof {
        reveal(node_records);
        let all = node_records(*options, payload@);
        assert(outgoing(one) =~= all.take(1));
        assert(outgoing(list@) =~= all);
        assert(outgoing(list@).len() == list@.len());
    }
    let mut records = put_records(&list);
    let ghost body = records@;
    let size: u64 = (records.len() as u64 % 0x1_0000_0000 + 375) % 0x1_0000_0000;
    let numbers = Numbers {
        point_count: count,
        min: extent.min,
        max: extent.max,
        offset_to_point_data: size as u32,
        vlr_count: (list.len() as u64 % 0x1_0000_0000) as u32,
        evlr_offset: 0,
        evlr_count: 0,
        wkt,
    };
    proof {
        lemma_narrow(body.len() as int);
        assert(numbers == node_numbers(*options, payload@, count, extent));
    }
    let mut head = put_front(options, numbers);
    let ghost front = head@;
    head.append(&mut records);
    assert(head@.take(375) =~= front);
    assert(head@.skip(375) =~= body);
    head
}

proof fn lemma_narrow(n: int)
    requires
        0 <= n,
    ensures
        (n % 0x1_0000_0000 + 375) % 0x1_0000_0000 == (375 + n) % 0x1_0000_0000,
{
}

/// Writes the nodes of a cloud, one file each, and then the pages and the
/// manifest.
#[derive(Debug)]
pub struct EptWriter {
    pub options: WriteOptions,
    pub encoding: EptEncoding,
    pub schema: Vec<SchemaField>,
    /// The nodes that were written, each once.
    pub keys: Vec<OctreeKey>,
    /// The points of each node, by its packed address.
    pub counts: HashMap<u128, u64>,
    pub points: u64,
    pub depth: u32,
}

impl EptWriter {
    /// The points of each node that was written.
    pub open spec fn counted(self) -> Map<OctreeKey, u64> {
        Map::new(
            |k: OctreeKey| self.counts@.contains_key(packed(k) as u128),
            |k: OctreeKey| self.counts@[packed(k) as u128],
        )
    }

    /// What holds of every writer: its schema is the one its options lead to, and
    /// its list of nodes names each node once.
    pub open spec fn wf(self) -> bool {
        &&& self.options.layout.wf()
        &&& self.options.layout.base + self.options.layout.extra <= u16::MAX
        &&& field_specs(self.schema@) == schema_for(self.options)
        &&& self.keys@.no_duplicates()
        &&& forall|k: OctreeKey| #[trigger]
            self.keys@.contains(k) == self.counted().contains_key(k)
    }

    /// Bytes of a canonical record.
    pub open spec fn source_stride(self) -> int {
        self.options.layout.base + self.options.layout.extra
    }

    pub fn create(options: WriteOptions, encoding: EptEncoding) -> (w: Self)
        requires
            options.layout.wf(),
            options.layout.base + options.layout.extra <= u16::MAX,
        ensures
            w.wf(),
            w.options == options,
            w.encoding == encoding,
            w.counted() == Map::<OctreeKey, u64>::empty(),
            w.keys@.len() == 0,
            w.points == 0,
            w.depth == 0,
    {
        let list = schema(&options);
        let w = EptWriter {
            options,
            encoding,
            schema: list,
            keys: Vec::new(),
            counts: HashMap::new(),
            points: 0,
            depth: 0,
        };
        assert(w.counted() =~= Map::<OctreeKey, u64>::empty());
        w
    }

    /// The path of a node's file.
    pub open spec fn path_of(self, key: OctreeKey) -> Seq<char> {
        "ept-data/"@ + key.spec_ept_name() + "."@ + self.encoding.suffix()
    }

    pub fn node_path(&self, key: OctreeKey) -> (out: String)
        ensures
            out@ == self.path_of(key),
    {
        let name = key.ept_name();
        cat4("ept-data/", name.as_str(), ".", self.encoding.extension())
    }

    fn note(&mut self, key: OctreeKey, count: u64)
        requires
            old(self).wf(),
        ensures
            final(self).wf(),
            final(self).options == old(self).options,
            final(self).encoding == old(self).encoding,
            final(self).counted() == old(self).counted().insert(key, count),
            final(self).keys@ == if old(self).counted().contains_key(key) {
                old(self).keys@
            } else {
                old(self).keys@.push(key)
            },
            final(self).points == wrap64(old(self).points + count),
            final(self).depth == if key.level > old(self).depth {
                key.level
            } else {
                old(self).depth
            },
    {
        let n: u128 = pack(key);
        proof {
            lemma_packed_range(key);
        }
        let known = self.counts.contains_key(&n);
        self.counts.insert(n, count);
        let ghost before = old(self).counted();
        proof {
            let after = self.counted();
            assert forall|k: OctreeKey|
                after.contains_key(k) == (before.contains_key(k) || k == key) by {
                lemma_packed_range(k);
                if packed(k) == packed(key) {
                    packed_is_unique(k, key);
                }
            }
            assert forall|k: OctreeKey|
                before.insert(key, count).contains_key(k) implies after[k] == before.insert(
                key,
                count,
            )[k] by {
                lemma_packed_range(k);
                if packed(k) == packed(key) {
                    packed_is_unique(k, key);
                }
            }
            assert(after =~= before.insert(key, count));
        }
        let ghost keys = self.keys@;
        if !known {
            self.keys.push(key);
            proof {
                assert(!keys.contains(key));
                assert forall|k: OctreeKey| #[trigger]
                    self.keys@.contains(k) == (keys.contains(k) || k == key) by {
                    if keys.contains(k) {
                        let i = keys.index_of(k);
                        assert(self.keys@[i] == k);
                    }
                    if k == key {
                        assert(self.keys@[keys.len() as int] == key);
                    }
                }
            }
        }
        self.points = self.points.wrapping_add(count);
        if key.level > self.depth {
            self.depth = key.level;
        }
    }

    fn flat(&self, records: &Vec<u8>, count: usize) -> (out: Vec<u8>)
        requires
            self.wf(),
            count * self.source_stride() <= records@.len(),
        ensures
            out@ == encoded_all(
                records@,
                self.source_stride(),
                self.options.has_gps_time,
                colored(self.options),
                count as int,
            ),
    {
        let stride: usize = self.options.stride();
        let gps = self.options.has_gps_time;
        let color = self.options.layout.has_color();
        let total: usize = records.len();
        let mut out: Vec<u8> = Vec::new();
        let mut i: usize = 0;
        while i < count
            invariant
                i <= count,
                stride == self.source_stride(),
                stride >= 30,
                color ==> stride >= 36,
                total == records@.len(),
                count * stride <= total,
                out@ == encoded_all(records@, stride as int, gps, color, i as int),
            decreases count - i,
        {
            assert(i * stride + stride <= count * stride && 0 <= i * stride && (i + 1) * stride == i
                * stride + stride) by (nonlinear_arith)
                requires
                    i < count,
                    0 <= stride,
            ;
            let from: usize = i * stride;
            let record = slice_of(records.as_slice(), from, from + stride);
            put_encoded(record.as_slice(), gps, color, &mut out);
            i = i + 1;
        }
        out
    }

    /// Whether the codec, where there is one, has room for the GPS times of a node.
    pub open spec fn is_codable(self, records: Seq<u8>) -> bool {
        self.encoding == EptEncoding::Laszip ==> times_fit(
            records,
            self.source_stride(),
            CHUNK_POINTS as int,
        )
    }

    /// Whether the codec, where there is one, has room for the GPS times of a
    /// node: where it has none, the node cannot be written.
    pub fn can_code(&self, records: &Vec<u8>) -> (r: bool)
        requires
            self.wf(),
        ensures
            r == self.is_codable(records@),
    {
        match self.encoding {
            EptEncoding::Binary => true,
            EptEncoding::Laszip => can_code_times(
                records.as_slice(),
                self.options.stride(),
                CHUNK_POINTS,
            ),
        }
    }

    /// Takes the points of one node, with the node's own extent. Returns the file
    /// to write, or nothing for a node without points.
    pub fn write_node(&mut self, key: OctreeKey, records: &Vec<u8>, extent: Bounds) -> (r: Result<
        Option<Vec<u8>>,
        Error,
    >)
        requires
            old(self).wf(),
            old(self).is_codable(records@),
        ensures
            final(self).wf(),
            final(self).options == old(self).options,
            final(self).encoding == old(self).encoding,
            ({
                let count = records@.len() as int / old(self).source_stride();
                match r {
                    Ok(None) => count == 0 && *final(self) == *old(self),
                    Ok(Some(file)) => {
                        &&& count > 0
                        &&& match old(self).encoding {
                            EptEncoding::Binary => file@ == encoded_all(
                                records@,
                                old(self).source_stride(),
                                old(self).options.has_gps_time,
                                colored(old(self).options),
                                count,
                            ),
                            EptEncoding::Laszip => laz_outcome(
                                old(self).options,
                                key,
                                records@,
                                count as u64,
                                extent,
                                Ok(file),
                            ),
                        }
                        &&& final(self).counted() == old(self).counted().insert(key, count as u64)
                        &&& final(self).points == wrap64(old(self).points + count)
                        &&& final(self).depth == if key.level > old(self).depth {
                            key.level
                        } else {
                            old(self).depth
                        }
                    },
                    Err(e) => {
                        &&& count > 0
                        &&& old(self).encoding == EptEncoding::Laszip
                        &&& laz_outcome(
                            old(self).options,
                            key,
                            records@,
                            count as u64,
                            extent,
                            Err(e),
                        )
                        &&& *final(self) == *old(self)
                    },
                }
            }),
    {
        let stride: usize = self.options.stride();
        let count: usize = records.len() / stride;
        if count == 0 {
            return Ok(None);
        }
        proof {
            vstd::arithmetic::div_mod::lemma_fundamental_div_mod(
                records@.len() as int,
                stride as int,
            );
            assert(count * stride == stride * count) by (nonlinear_arith);
        }
        let file = match self.encoding {
            EptEncoding::Binary => self.flat(records, count),
            EptEncoding::Laszip => match laz_node(
                &self.options,
                key,
                records,
                count as u64,
                extent,
            ) {
                Ok(f) => f,
                Err(e) => {
                    return Err(e);
                },
            },
        };
        self.note(key, count as u64);
        Ok(Some(file))
    }

    /// Points of a node, or nothing where it was not written.
    fn count(&self, key: OctreeKey) -> (r: Option<u64>)
        ensures
            match r {
                Some(n) => self.counted().contains_key(key) && self.counted()[key] == n,
                None => !self.counted().contains_key(key),
            },
    {
        let n: u128 = pack(key);
        assert(packed(key) as u128 == n);
        match self.counts.get(&n) {
            Some(c) => Some(*c),
            None => None,
        }
    }
}

/// The children of a node that were written, those with an index below `n`, in
/// ascending order.
pub open spec fn kids_below(m: Map<OctreeKey, u64>, k: OctreeKey, n: int) -> Seq<OctreeKey>
    decreases n,
{
    if n <= 0 || !can_split(k) {
        Seq::empty()
    } else if m.contains_key(k.spec_child((n - 1) as u8)) {
        kids_below(m, k, n - 1).push(k.spec_child((n - 1) as u8))
    } else {
        kids_below(m, k, n - 1)
    }
}

/// The nodes of a page in level order: the children of the nodes from place `i`
/// on are added while the page has room.
pub open spec fn filled(m: Map<OctreeKey, u64>, list: Seq<OctreeKey>, i: int) -> Seq<OctreeKey>
    decreases PAGE_NODES - i,
{
    if i >= list.len() || i >= PAGE_NODES {
        list
    } else {
        filled(m, list + kids_below(m, list[i], 8), i + 1)
    }
}

/// The nodes of the page that starts at a node, those it defers last.
#[verifier::opaque]
pub open spec fn page_nodes(m: Map<OctreeKey, u64>, k: OctreeKey) -> Seq<OctreeKey> {
    filled(m, seq![k], 0)
}

/// The nodes that a page defers: those it has no room for.
pub open spec fn deferred(m: Map<OctreeKey, u64>, k: OctreeKey) -> Seq<OctreeKey> {
    let all = page_nodes(m, k);
    if all.len() > PAGE_NODES {
        all.skip(PAGE_NODES as int)
    } else {
        Seq::empty()
    }
}

/// Points of a node, zero where it was not written.
pub open spec fn points_of(m: Map<OctreeKey, u64>, k: OctreeKey) -> u64 {
    if m.contains_key(k) {
        m[k]
    } else {
        0
    }
}

/// The number that says a node continues in a page of its own.
pub open spec fn reference() -> Tree {
    Tree::Number(Number { unsigned: None, signed: Some(PAGE_REFERENCE), real: None })
}

/// The entry of node `i` of a page.
pub open spec fn entry(m: Map<OctreeKey, u64>, nodes: Seq<OctreeKey>, i: int) -> (
    Seq<char>,
    Tree,
) {
    (
        nodes[i].spec_ept_name(),
        if i < PAGE_NODES {
            Json::whole(points_of(m, nodes[i]))
        } else {
            reference()
        },
    )
}

/// The page that starts at a node: the points of each of its nodes, or a
/// reference to the page of one that is deferred.
pub open spec fn page(m: Map<OctreeKey, u64>, k: OctreeKey) -> Tree {
    let nodes = page_nodes(m, k);
    Tree::Object(Seq::new(nodes.len(), |i: int| entry(m, nodes, i)))
}

/// Where a page is written.
pub open spec fn page_path(k: OctreeKey) -> Seq<char> {
    "ept-hierarchy/"@ + k.spec_ept_name() + ".json"@
}

proof fn lemma_kid_levels(m: Map<OctreeKey, u64>, k: OctreeKey, n: int)
    requires
        n <= 8,
    ensures
        forall|i: int|
            0 <= i < kids_below(m, k, n).len() ==> (#[trigger] kids_below(m, k, n)[i]).level
                == k.level + 1,
    decreases n,
{
    if n > 0 && can_split(k) {
        lemma_kid_levels(m, k, n - 1);
        let before = kids_below(m, k, n - 1);
        let after = kids_below(m, k, n);
        assert forall|i: int| 0 <= i < after.len() implies (#[trigger] after[i]).level == k.level
            + 1 by {
            if i < before.len() {
                assert(after[i] == before[i]);
            } else {
                assert(after[i] == k.spec_child((n - 1) as u8));
            }
        }
    }
}

proof fn lemma_filled_levels(m: Map<OctreeKey, u64>, list: Seq<OctreeKey>, i: int, k: OctreeKey)
    requires
        list.len() > 0,
        list[0] == k,
        0 <= i,
        forall|j: int| 0 < j < list.len() ==> (#[trigger] list[j]).level > k.level,
    ensures
        ({
            let all = filled(m, list, i);
            &&& all.len() >= list.len()
            &&& all[0] == k
            &&& forall|j: int| 0 < j < all.len() ==> (#[trigger] all[j]).level > k.level
        }),
    decreases PAGE_NODES - i,
{
    if i < list.len() && i < PAGE_NODES {
        lemma_kid_levels(m, list[i], 8);
        let more = kids_below(m, list[i], 8);
        let next = list + more;
        assert forall|j: int| 0 < j < next.len() implies (#[trigger] next[j]).level > k.level by {
            if j >= list.len() {
                assert(next[j] == more[j - list.len()]);
                assert(more[j - list.len()].level == list[i].level + 1);
                if i > 0 {
                    assert(list[i].level > k.level);
                }
            }
        }
        lemma_filled_levels(m, next, i + 1, k);
    }
}

/// What a page defers is below the node it starts at.
pub proof fn lemma_deferred_levels(m: Map<OctreeKey, u64>, k: OctreeKey)
    ensures
        forall|i: int|
            0 <= i < deferred(m, k).len() ==> (#[trigger] deferred(m, k)[i]).level > k.level,
{
    reveal(page_nodes);
    lemma_filled_levels(m, seq![k], 0, k);
    let all = page_nodes(m, k);
    assert forall|i: int| 0 <= i < deferred(m, k).len() implies (#[trigger] deferred(
        m,
        k,
    )[i]).level > k.level by {
        assert(deferred(m, k)[i] == all[PAGE_NODES + i]);
    }
}

/// The nodes that pages start at, from a node down: the node, then those below
/// what its page defers, the last first.
pub open spec fn page_roots(m: Map<OctreeKey, u64>, k: OctreeKey) -> Seq<OctreeKey>
    decreases u32::MAX - k.level, 1int, 0int,
{
    seq![k] + roots_below(m, k, deferred(m, k).len() as int)
}

/// The nodes that pages start at below the first `n` nodes that a page defers.
pub open spec fn roots_below(m: Map<OctreeKey, u64>, k: OctreeKey, n: int) -> Seq<OctreeKey>
    decreases u32::MAX - k.level, 0int, n,
    when n <= deferred(m, k).len()
{
    if n <= 0 {
        Seq::empty()
    } else {
        proof {
            lemma_deferred_levels(m, k);
        }
        page_roots(m, deferred(m, k)[n - 1]) + roots_below(m, k, n - 1)
    }
}

/// The first of some nodes, shallowest first; the root where there are none.
pub open spec fn first_of(keys: Seq<OctreeKey>) -> OctreeKey
    decreases keys.len(),
{
    if keys.len() == 0 {
        OctreeKey::root()
    } else if keys.len() == 1 {
        keys[0]
    } else {
        let before = first_of(keys.drop_last());
        if comes_before(keys.last(), before) {
            keys.last()
        } else {
            before
        }
    }
}

/// Whether files are the pages that start at some nodes.
pub open spec fn are_pages(
    files: Seq<(String, Json)>,
    m: Map<OctreeKey, u64>,
    roots: Seq<OctreeKey>,
) -> bool {
    files.len() == roots.len() && forall|i: int|
        0 <= i < files.len() ==> (#[trigger] files[i]).0@ == page_path(roots[i]) && files[i].1.tree()
            == page(m, roots[i])
}

impl EptWriter {
    fn add_kids(&self, k: OctreeKey, list: &mut Vec<OctreeKey>)
        requires
            self.wf(),
        ensures
            final(list)@ == old(list)@ + kids_below(self.counted(), k, 8),
    {
        let ghost m = self.counted();
        let splits = k.level < u32::MAX && k.x < 0x8000_0000 && k.y < 0x8000_0000 && k.z
            < 0x8000_0000;
        assert(list@ =~= old(list)@ + kids_below(m, k, 0));
        if splits {
            let mut c: u8 = 0;
            while c < 8
                invariant
                    c <= 8,
                    self.wf(),
                    can_split(k),
                    m == self.counted(),
                    list@ == old(list)@ + kids_below(m, k, c as int),
                decreases 8 - c,
            {
                let child = k.child(c);
                if self.count(child).is_some() {
                    list.push(child);
                }
                assert(list@ =~= old(list)@ + kids_below(m, k, c + 1));
                c = c + 1;
            }
        } else {
            assert(list@ =~= old(list)@ + kids_below(m, k, 8));
        }
    }

    fn nodes_of_page(&self, k: OctreeKey) -> (list: Vec<OctreeKey>)
        requires
            self.wf(),
        ensures
            list@ == page_nodes(self.counted(), k),
    {
        let ghost m = self.counted();
        let mut list: Vec<OctreeKey> = Vec::new();
        list.push(k);
        let mut i: usize = 0;
        assert(list@ =~= seq![k]);
        proof {
            reveal(page_nodes);
        }
        while i < list.len() && i < PAGE_NODES
            invariant
                i <= PAGE_NODES,
                self.wf(),
                m == self.counted(),
                filled(m, list@, i as int) == page_nodes(m, k),
            decreases PAGE_NODES - i,
        {
            let at = list[i];
            self.add_kids(at, &mut list);
            i = i + 1;
        }
        list
    }

    fn page_json(&self, list: &Vec<OctreeKey>, k: Ghost<OctreeKey>) -> (j: Json)
        requires
            self.wf(),
            list@ == page_nodes(self.counted(), k@),
        ensures
            j.tree() == page(self.counted(), k@),
    {
        let ghost m = self.counted();
        let mut fields = Fields::new();
        let mut i: usize = 0;
        assert(fields@ =~= Seq::new(0, |j: int| entry(m, list@, j)));
        while i < list.len()
            invariant
                i <= list.len(),
                self.wf(),
                m == self.counted(),
                fields@ == Seq::new(i as nat, |j: int| entry(m, list@, j)),
            decreases list.len() - i,
        {
            let at = list[i];
            let name = at.ept_name();
            let value = if i < PAGE_NODES {
                let n: u64 = match self.count(at) {
                    Some(n) => n,
                    None => 0,
                };
                Json::count(n)
            } else {
                Json::Number(Number { unsigned: None, signed: Some(PAGE_REFERENCE), real: None })
            };
            fields.put(name.as_str(), value);
            assert(fields@ =~= Seq::new((i + 1) as nat, |j: int| entry(m, list@, j)));
            i = i + 1;
        }
        let j = fields.object();
        assert(j.tree()->Object_0 =~= page(m, k@)->Object_0);
        j
    }

    fn put_pages(&self, k: OctreeKey, files: &mut Vec<(String, Json)>)
        requires
            self.wf(),
        ensures
            final(files)@.len() >= old(files)@.len(),
            final(files)@.take(old(files)@.len() as int) == old(files)@,
            are_pages(
                final(files)@.skip(old(files)@.len() as int),
                self.counted(),
                page_roots(self.counted(), k),
            ),
        decreases u32::MAX - k.level,
    {
        let ghost m = self.counted();
        let ghost start = files@;
        let nodes = self.nodes_of_page(k);
        let name = k.ept_name();
        let path = cat3("ept-hierarchy/", name.as_str(), ".json");
        let json = self.page_json(&nodes, Ghost(k));
        files.push((path, json));
        let ghost mut roots = seq![k];
        let ghost later = deferred(m, k);
        proof {
            lemma_deferred_levels(m, k);
            assert(files@.take(start.len() as int) =~= start);
            assert(are_pages(files@.skip(start.len() as int), m, roots));
            assert(page_roots(m, k) =~= roots + roots_below(m, k, later.len() as int));
        }
        let mut n: usize = nodes.len();
        assert(nodes@.len() > PAGE_NODES ==> later.len() == nodes@.len() - PAGE_NODES);
        while n > PAGE_NODES
            invariant
                n <= nodes.len(),
                self.wf(),
                m == self.counted(),
                nodes@ == page_nodes(m, k),
                later == deferred(m, k),
                forall|i: int| 0 <= i < later.len() ==> (#[trigger] later[i]).level > k.level,
                start.len() <= files@.len(),
                files@.take(start.len() as int) == start,
                are_pages(files@.skip(start.len() as int), m, roots),
                page_roots(m, k) == roots + roots_below(
                    m,
                    k,
                    if n > PAGE_NODES {
                        n - PAGE_NODES
                    } else {
                        0
                    },
                ),
            decreases n,
        {
            let at = nodes[n - 1];
            let ghost i = n - 1 - PAGE_NODES;
            assert(later[i] == at);
            let ghost before = files@;
            self.put_pages(at, files);
            proof {
                let more = page_roots(m, at);
                let whole = files@.skip(start.len() as int);
                let old_part = before.skip(start.len() as int);
                let new_part = files@.skip(before.len() as int);
                assert(whole =~= old_part + new_part) by {
                    assert(files@.take(before.len() as int) =~= before);
                    assert forall|j: int| 0 <= j < whole.len() implies whole[j] == (old_part
                        + new_part)[j] by {
                        if j < old_part.len() {
                            assert(files@[start.len() + j] == files@.take(
                                before.len() as int,
                            )[start.len() + j]);
                        }
                    }
                }
                assert(are_pages(whole, m, roots + more)) by {
                    assert forall|j: int| 0 <= j < whole.len() implies (
                    #[trigger] whole[j]).0@ == page_path((roots + more)[j]) && whole[j].1.tree()
                        == page(m, (roots + more)[j]) by {
                        if j < old_part.len() {
                            assert(whole[j] == old_part[j]);
                        } else {
                            assert(whole[j] == new_part[j - old_part.len()]);
                        }
                    }
                }
                assert(files@.take(start.len() as int) =~= files@.take(before.len() as int).take(
                    start.len() as int,
                ));
                assert(roots_below(m, k, i + 1) == more + roots_below(m, k, i));
                assert(roots + (more + roots_below(m, k, i)) =~= (roots + more) + roots_below(
                    m,
                    k,
                    i,
                ));
                roots = roots + more;
            }
            n = n - 1;
        }
        assert(roots + Seq::<OctreeKey>::empty() =~= roots);
    }

    /// The hierarchy: one JSON object per page, `"level-x-y-z": count`, with `-1`
    /// for a node whose subtree continues in the page named after it. Each page
    /// with the path it is written to.
    pub fn hierarchy(&self) -> (files: Vec<(String, Json)>)
        requires
            self.wf(),
        ensures
            are_pages(
                files@,
                self.counted(),
                page_roots(self.counted(), first_of(self.keys@)),
            ),
    {
        let mut root = OctreeKey::root();
        let mut i: usize = 0;
        while i < self.keys.len()
            invariant
                i <= self.keys.len(),
                root == first_of(self.keys@.take(i as int)),
            decreases self.keys.len() - i,
        {
            let k = self.keys[i];
            assert(self.keys@.take(i + 1).drop_last() =~= self.keys@.take(i as int));
            if i == 0 || pack(k) < pack(root) {
                root = k;
            }
            i = i + 1;
        }
        assert(self.keys@.take(i as int) =~= self.keys@);
        let mut files: Vec<(String, Json)> = Vec::new();
        self.put_pages(root, &mut files);
        assert(files@.skip(0) =~= files@);
        files
    }
}

/// Six numbers: the corners of a box.
pub open spec fn corners(b: Bounds) -> Tree {
    Json::fractions(b.min@ + b.max@)
}

/// What a manifest says of the projection.
pub open spec fn srs_tree(crs: Option<Declared>) -> Tree {
    match crs {
        Some(d) => if d.format == CrsFormat::Wkt {
            Tree::Object(seq![("wkt"@, Tree::Text(d.raw))])
        } else if d.epsg is Some {
            Tree::Object(
                seq![
                    ("authority"@, Tree::Text("EPSG"@)),
                    ("horizontal"@, Tree::Text(decimal(d.epsg->0 as nat))),
                ],
            )
        } else {
            Tree::Object(Seq::empty())
        },
        None => Tree::Object(Seq::empty()),
    }
}

/// What a manifest says of a field.
pub open spec fn field_tree(f: FieldSpec) -> Tree {
    let own = seq![
        ("name"@, Tree::Text(f.name)),
        ("size"@, Json::whole(f.size as u64)),
        ("type"@, Tree::Text(f.kind)),
    ];
    Tree::Object(
        match f.placed {
            Some((scale, offset)) => own + seq![
                ("scale"@, Json::fraction(scale)),
                ("offset"@, Json::fraction(offset)),
            ],
            None => own,
        },
    )
}

/// What a manifest says of some fields.
pub open spec fn schema_tree(list: Seq<FieldSpec>) -> Tree {
    Tree::Array(list.map_values(|f: FieldSpec| field_tree(f)))
}

fn corners_json(b: &Bounds) -> (j: Json)
    ensures
        j.tree() == corners(*b),
{
    let six: [Real; 6] = [b.min[0], b.min[1], b.min[2], b.max[0], b.max[1], b.max[2]];
    assert(six@ =~= b.min@ + b.max@);
    Json::of_reals(six.as_slice())
}

fn srs_json(options: &WriteOptions) -> (j: Json)
    ensures
        j.tree() == srs_tree(declared(options.crs)),
{
    let mut fields = Fields::new();
    if let Some(crs) = &options.crs {
        if crs.format == CrsFormat::Wkt {
            fields.put("wkt", Json::of_text(crs.raw.as_str()));
        } else if let Some(code) = crs.epsg {
            let n = decimal_of(code as u64);
            fields.put("authority", Json::of_text("EPSG"));
            fields.put("horizontal", Json::of_text(n.as_str()));
        }
    }
    let j = fields.object();
    assert(j.tree()->Object_0 =~= srs_tree(declared(options.crs))->Object_0);
    j
}

fn field_json(f: &SchemaField) -> (j: Json)
    ensures
        j.tree() == field_tree(f@),
{
    let mut fields = Fields::new();
    fields.put("name", Json::of_text(f.name));
    fields.put("size", Json::count(f.size as u64));
    fields.put("type", Json::of_text(f.kind));
    if let Some((scale, offset)) = f.placed {
        fields.put("scale", Json::of_real(scale));
        fields.put("offset", Json::of_real(offset));
    }
    let j = fields.object();
    assert(j.tree()->Object_0 =~= field_tree(f@)->Object_0);
    j
}

fn schema_json(list: &Vec<SchemaField>) -> (j: Json)
    ensures
        j.tree() == schema_tree(field_specs(list@)),
{
    let mut items: Vec<Json> = Vec::new();
    let mut i: usize = 0;
    while i < list.len()
        invariant
            i <= list.len(),
            items@.len() == i,
            forall|k: int| 0 <= k < i ==> (#[trigger] items@[k]).tree() == field_tree(list@[k]@),
        decreases list.len() - i,
    {
        items.push(field_json(&list[i]));
        i = i + 1;
    }
    let j = Json::Array(items);
    assert(j.tree()->Array_0 =~= schema_tree(field_specs(list@))->Array_0);
    j
}

impl EptWriter {
    /// The manifest of what was written.
    pub open spec fn manifest_tree(self) -> Tree {
        Tree::Object(
            seq![
                ("version"@, Tree::Text("1.0.0"@)),
                ("bounds"@, corners(self.options.cube)),
                ("boundsConforming"@, corners(self.options.extent)),
                ("dataType"@, Tree::Text(self.encoding.spelling())),
                ("hierarchyType"@, Tree::Text("json"@)),
                ("points"@, Json::whole(self.points)),
                ("span"@, Json::whole(self.options.span as u64)),
                ("srs"@, srs_tree(declared(self.options.crs))),
                ("schema"@, schema_tree(schema_for(self.options))),
            ],
        )
    }

    /// The manifest of what was written.
    pub fn manifest(&self) -> (j: Json)
        requires
            self.wf(),
        ensures
            j.tree() == self.manifest_tree(),
    {
        let mut fields = Fields::new();
        fields.put("version", Json::of_text("1.0.0"));
        fields.put("bounds", corners_json(&self.options.cube));
        fields.put("boundsConforming", corners_json(&self.options.extent));
        fields.put("dataType", Json::of_text(self.encoding.name()));
        fields.put("hierarchyType", Json::of_text("json"));
        fields.put("points", Json::count(self.points));
        fields.put("span", Json::count(self.options.span as u64));
        fields.put("srs", srs_json(&self.options));
        fields.put("schema", schema_json(&self.schema));
        let j = fields.object();
        assert(j.tree()->Object_0 =~= self.manifest_tree()->Object_0);
        j
    }
}

} // verus!
