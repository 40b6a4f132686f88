//! The laszip codec: what points are compressed into.

use laz::{LasZipCompressor, LazItemRecordBuilder, LazItemType, LazVlrBuilder};
use std::io::Cursor;
use super::gps::times_fit;
use crate::bytes::{bytes16, bytes32, bytes64};
use crate::record::RecordLayout;
use vstd::prelude::*;

verus! {

/// One field of a compressed record.
#[derive(Debug, Clone, Copy, PartialEq, Eq, Structural)]
pub enum Item {
    /// The core of point formats 6, 7 and 8.
    Point14,
    Rgb14,
    RgbNir14,
    /// Extra bytes, so many of them.
    Byte14(u16),
}

/// Bytes of a field.
pub open spec fn item_size(i: Item) -> int {
    match i {
        Item::Point14 => 30,
        Item::Rgb14 => 6,
        Item::RgbNir14 => 8,
        Item::Byte14(n) => n as int,
    }
}

/// Bytes of a record of some fields.
pub open spec fn items_size(items: Seq<Item>) -> int
    decreases items.len(),
{
    if items.len() == 0 {
        0
    } else {
        items_size(items.drop_last()) + item_size(items.last())
    }
}

/// Points of a chunk where the codec starts a new one by itself.
pub const CHUNK_POINTS: u64 = 50_000;

/// Points of a chunk that is ended by hand, at most.
pub const LONGEST_CHUNK: u64 = 0xffff_ffff;

/// Whether the codec takes records of some fields: the core comes first and only
/// once, and their size fits its field.
pub open spec fn codable(items: Seq<Item>) -> bool {
    &&& items.len() > 0
    &&& items[0] == Item::Point14
    &&& forall|i: int| 0 < i < items.len() ==> #[trigger] items[i] != Item::Point14
    &&& 0 < items_size(items) <= u16::MAX
}

/// The fields of a record: the core, then colour, then the extra bytes.
#[verifier::opaque]
pub open spec fn items_of(layout: RecordLayout) -> Seq<Item> {
    let core = seq![Item::Point14];
    let color = if layout.format == 7 {
        seq![Item::Rgb14]
    } else if layout.format == 8 {
        seq![Item::RgbNir14]
    } else {
        Seq::empty()
    };
    let extra = if layout.extra > 0 {
        seq![Item::Byte14((layout.extra as int % 0x1_0000) as u16)]
    } else {
        Seq::empty()
    };
    core + color + extra
}

proof fn lemma_items_size(core: Seq<Item>, color: Seq<Item>, extra: Seq<Item>)
    requires
        core.len() == 1,
        color.len() <= 1,
        extra.len() <= 1,
    ensures
        items_size(core + color + extra) == item_size(core[0]) + (if color.len() == 1 {
            item_size(color[0])
        } else {
            0
        }) + (if extra.len() == 1 {
            item_size(extra[0])
        } else {
            0
        }),
{
    reveal_with_fuel(items_size, 4);
    let none = Seq::<Item>::empty();
    assert(core.drop_last() =~= none);
    if color.len() == 0 {
        assert(core + color =~= core);
    } else {
        assert((core + color).drop_last() =~= core);
    }
    if extra.len() == 0 {
        assert(core + color + extra =~= core + color);
    } else {
        assert((core + color + extra).drop_last() =~= core + color);
    }
}

/// The fields of a record. Getting the set wrong would give a file that
/// compresses and cannot be read back.
pub fn items_for(layout: &RecordLayout) -> (items: Vec<Item>)
    requires
        layout.wf(),
        layout.base + layout.extra <= u16::MAX,
    ensures
        items@ == items_of(*layout),
        codable(items@),
        items_size(items@) == layout.base + layout.extra,
{
    let mut items: Vec<Item> = Vec::new();
    items.push(Item::Point14);
    if layout.has_color() {
        if layout.has_nir() {
            items.push(Item::RgbNir14);
        } else {
            items.push(Item::Rgb14);
        }
    }
    if layout.extra > 0 {
        items.push(Item::Byte14(layout.extra as u16));
    }
    proof {
        let core = seq![Item::Point14];
        let color = if layout.format == 7 {
            seq![Item::Rgb14]
        } else if layout.format == 8 {
            seq![Item::RgbNir14]
        } else {
            Seq::empty()
        };
        let extra = if layout.extra > 0 {
            seq![Item::Byte14((layout.extra as int % 0x1_0000) as u16)]
        } else {
            Seq::empty()
        };
        lemma_items_size(core, color, extra);
        reveal(items_of);
        assert(items@ =~= items_of(*layout));
    }
    items
}

/// The number by which the codec knows a field.
pub open spec fn item_number(i: Item) -> int {
    match i {
        Item::Point14 => 10,
        Item::Rgb14 => 11,
        Item::RgbNir14 => 12,
        Item::Byte14(_) => 14,
    }
}

/// Some fields as the laszip record lists them: number, size and version of each.
pub open spec fn items_put(items: Seq<Item>) -> Seq<u8>
    decreases items.len(),
{
    if items.len() == 0 {
        Seq::empty()
    } else {
        items_put(items.drop_last()) + bytes16(item_number(items.last())) + bytes16(
            item_size(items.last()),
        ) + bytes16(3)
    }
}

/// The payload of the laszip record for some fields and chunks of some size:
/// layered compression, coder zero, version 2.2, no options, no special records,
/// and the fields.
pub open spec fn laszip_payload(items: Seq<Item>, chunk: u64) -> Seq<u8> {
    bytes16(3) + bytes16(0) + seq![2u8, 2u8] + bytes16(0) + bytes32(0) + bytes32(chunk as int)
        + bytes64(0xffff_ffff_ffff_ffff) + bytes64(0xffff_ffff_ffff_ffff) + bytes16(
        items.len() as int % 0x1_0000,
    ) + items_put(items)
}

/// `laz::LazVlrBuilder::with_variable_chunk_size` and `laz::LazVlr::write_to` on
/// bytes in memory: writes the payload whose chunk size says that chunks are
/// ended by hand, and does not fail.
#[verifier::external_body]
pub(crate) fn variable_payload(items: &Vec<Item>) -> (r: Result<Vec<u8>, String>)
    requires
        codable(items@),
    ensures
        match r {
            Ok(out) => out@ == laszip_payload(items@, LONGEST_CHUNK),
            Err(_) => false,
        },
{
    let mut fields = LazItemRecordBuilder::new();
    for i in items {
        fields.add_item(match *i {
            Item::Point14 => LazItemType::Point14,
            Item::Rgb14 => LazItemType::RGB14,
            Item::RgbNir14 => LazItemType::RGBNIR14,
            Item::Byte14(n) => LazItemType::Byte14(n),
        });
    }
    let vlr = LazVlrBuilder::new(fields.build()).with_variable_chunk_size().build();
    let mut out: Vec<u8> = Vec::new();
    vlr.write_to(&mut out).map_err(|e| e.to_string())?;
    Ok(out)
}

/// `laz::LazVlrBuilder::build` and `laz::LazVlr::write_to` on bytes in memory, the
/// chunk size left at the codec's own: writes the payload with that size, and
/// does not fail.
#[verifier::external_body]
pub(crate) fn fixed_payload(items: &Vec<Item>) -> (r: Result<Vec<u8>, String>)
    requires
        codable(items@),
    ensures
        match r {
            Ok(out) => out@ == laszip_payload(items@, CHUNK_POINTS),
            Err(_) => false,
        },
{
    let mut fields = LazItemRecordBuilder::new();
    for i in items {
        fields.add_item(match *i {
            Item::Point14 => LazItemType::Point14,
            Item::Rgb14 => LazItemType::RGB14,
            Item::RgbNir14 => LazItemType::RGBNIR14,
            Item::Byte14(n) => LazItemType::Byte14(n),
        });
    }
    let mut out: Vec<u8> = Vec::new();
    let vlr = LazVlrBuilder::new(fields.build()).build();
    vlr.write_to(&mut out).map_err(|e| e.to_string())?;
    Ok(out)
}

/// What the compressor writes for one chunk of records: the eight bytes it
/// keeps for the place of a chunk table, and the chunk.
pub uninterp spec fn laszip_chunk(items: Seq<Item>, records: Seq<u8>) -> Result<
    Seq<u8>,
    Seq<char>,
>;

/// `laz::LasZipCompressor::compress_many` and `finish_current_chunk` on a sink
/// in memory: what is written depends on the fields and the records alone, and
/// with one whole record at least it starts with the eight bytes it keeps. Two of
/// the codec's steps on GPS times can overflow; the records are such that neither
/// does.
#[verifier::external_body]
pub(crate) fn compress_chunk(items: &Vec<Item>, records: &[u8]) -> (r: Result<Vec<u8>, String>)
    requires
        codable(items@),
        times_fit(records@, items_size(items@), LONGEST_CHUNK as int),
    ensures
        match r {
            Ok(out) => laszip_chunk(items@, records@) == Ok::<Seq<u8>, Seq<char>>(out@) && (
            records@.len() >= items_size(items@) ==> out@.len() >= 8),
            Err(e) => laszip_chunk(items@, records@) == Err::<Seq<u8>, Seq<char>>(e@),
        },
{
    let mut fields = LazItemRecordBuilder::new();
    for i in items {
        fields.add_item(match *i {
            Item::Point14 => LazItemType::Point14,
            Item::Rgb14 => LazItemType::RGB14,
            Item::RgbNir14 => LazItemType::RGBNIR14,
            Item::Byte14(n) => LazItemType::Byte14(n),
        });
    }
    let vlr = LazVlrBuilder::new(fields.build()).with_variable_chunk_size().build();
    let sink = Cursor::new(Vec::new());
    let mut out = LasZipCompressor::new(sink, vlr).map_err(|e| e.to_string())?;
    out.compress_many(records).map_err(|e| e.to_string())?;
    out.finish_current_chunk().map_err(|e| e.to_string()).map(|_| out.into_inner().into_inner())
}

/// The chunk table of chunks of any size: for each the points and the bytes in
/// it.
pub uninterp spec fn laszip_table(chunks: Seq<(u64, u64)>) -> Result<Seq<u8>, Seq<char>>;

/// `laz::laszip::ChunkTable::write_to` with point counts: the table depends on
/// the chunks alone.
#[verifier::external_body]
pub(crate) fn chunk_table(chunks: &Vec<(u64, u64)>) -> (r: Result<Vec<u8>, String>)
    ensures
        match r {
            Ok(out) => laszip_table(chunks@) == Ok::<Seq<u8>, Seq<char>>(out@),
            Err(e) => laszip_table(chunks@) == Err::<Seq<u8>, Seq<char>>(e@),
        },
{
    let mut fields = LazItemRecordBuilder::new();
    fields.add_item(LazItemType::Point14);
    let vlr = LazVlrBuilder::new(fields.build()).with_variable_chunk_size().build();
    let mut table = laz::laszip::ChunkTable::with_capacity(chunks.len());
    for c in chunks {
        table.push(laz::laszip::ChunkTableEntry { point_count: c.0, byte_count: c.1 });
    }
    let mut out: Vec<u8> = Vec::new();
    table.write_to(&mut out, &vlr).map_err(|e| e.to_string())?;
    Ok(out)
}

/// A whole file: what stands in front of the points, and the points compressed
/// behind it in chunks of the codec's own size, with their table.
pub uninterp spec fn laszip_file(items: Seq<Item>, head: Seq<u8>, records: Seq<u8>) -> Result<
    Seq<u8>,
    Seq<char>,
>;

/// `laz::LasZipCompressor::compress_many` and `done` on a sink in memory that
/// starts behind `head`: the file depends on the fields, the front and the
/// records alone. Two of the codec's steps on GPS times can overflow; the records
/// are such that neither does.
#[verifier::external_body]
pub(crate) fn compress_file(items: &Vec<Item>, head: Vec<u8>, records: &[u8]) -> (r: Result<
    Vec<u8>,
    String,
>)
    requires
        codable(items@),
        times_fit(records@, items_size(items@), CHUNK_POINTS as int),
    ensures
        match r {
            Ok(out) => laszip_file(items@, head@, records@) == Ok::<Seq<u8>, Seq<char>>(out@),
            Err(e) => laszip_file(items@, head@, records@) == Err::<Seq<u8>, Seq<char>>(e@),
        },
{
    let mut fields = LazItemRecordBuilder::new();
    for i in items {
        fields.add_item(match *i {
            Item::Point14 => LazItemType::Point14,
            Item::Rgb14 => LazItemType::RGB14,
            Item::RgbNir14 => LazItemType::RGBNIR14,
            Item::Byte14(n) => LazItemType::Byte14(n),
        });
    }
    let (at, mut sink) = (head.len(), Cursor::new(head));
    sink.set_position(at as u64);
    let vlr = LazVlrBuilder::new(fields.build());
    let mut out = LasZipCompressor::new(sink, vlr.build()).map_err(|e| e.to_string())?;
    out.compress_many(records).map_err(|e| e.to_string())?;
    out.done().map_err(|e| e.to_string()).map(|_| out.into_inner().into_inner())
}

} // verus!
