//! What stands in front of the points of a LAS file: the header block and its
//! records.

use super::las_write::{
    any_wkt, carried_records, is_header_of, no_projection, outgoing, projection_vlrs, vlr_bytes,
    write_vlr, OutHeader, OutVlr, Outgoing,
};
use super::WriteOptions;
use crate::bytes::slice_of;
use crate::double::Real;
use crate::las::LASZIP_RECORD_ID;
use vstd::prelude::*;

verus! {

/// The projection records of a file: those the source carried, or one that says
/// there is none.
pub open spec fn projection_of(records: Seq<(u16, Vec<u8>)>) -> Seq<Outgoing> {
    if carried_records(records).len() > 0 {
        carried_records(records)
    } else {
        seq![no_projection()]
    }
}

/// Whether one of a file's projection records is WKT.
pub open spec fn declares_wkt(records: Seq<(u16, Vec<u8>)>) -> bool {
    carried_records(records).len() == 0 || any_wkt(records)
}

/// The laszip record.
pub open spec fn laszip_outgoing(description: Seq<char>, payload: Seq<u8>) -> Outgoing {
    Outgoing {
        user_id: "laszip encoded"@,
        record_id: LASZIP_RECORD_ID,
        description,
        data: payload,
    }
}

/// The record that describes the extra bytes, where there are any.
pub open spec fn extra_outgoing(extra: Seq<u8>) -> Seq<Outgoing> {
    if extra.len() == 0 {
        Seq::empty()
    } else {
        seq![
            Outgoing {
                user_id: "LASF_Spec"@,
                record_id: 4,
                description: "Extra Bytes"@,
                data: extra,
            },
        ]
    }
}

/// The bytes of some records.
pub open spec fn records_put(list: Seq<Outgoing>) -> Seq<u8>
    decreases list.len(),
{
    if list.len() == 0 {
        Seq::empty()
    } else {
        let r = list.last();
        records_put(list.drop_last()) + vlr_bytes(r.user_id, r.record_id, r.description, r.data)
    }
}

/// The records of a file behind its own: the projection and the extra bytes.
pub open spec fn common_records(options: WriteOptions) -> Seq<Outgoing> {
    projection_of(options.projection_vlrs@) + extra_outgoing(options.layout.extra_vlr@)
}

/// Adds the projection records and the record of the extra bytes. Returns whether
/// the projection is WKT.
pub(crate) fn add_common(options: &WriteOptions, list: &mut Vec<OutVlr>) -> (wkt: bool)
    ensures
        outgoing(final(list)@) == outgoing(old(list)@) + common_records(*options),
        wkt == declares_wkt(options.projection_vlrs@),
{
    let (mut projection, wkt) = projection_vlrs(&options.projection_vlrs);
    let ghost before = list@;
    let ghost added = projection@;
    list.append(&mut projection);
    assert(outgoing(list@) =~= outgoing(before) + outgoing(added));
    if options.layout.extra_vlr.len() > 0 {
        let data = slice_of(
            options.layout.extra_vlr.as_slice(),
            0,
            options.layout.extra_vlr.len(),
        );
        assert(data@ =~= options.layout.extra_vlr@);
        let v = OutVlr::new("LASF_Spec", 4, "Extra Bytes", data);
        let ghost middle = list@;
        list.push(v);
        assert(outgoing(list@) =~= outgoing(middle).push(v@));
    }
    assert(outgoing(list@) =~= outgoing(before) + common_records(*options));
    wkt
}

/// The bytes of some records.
pub(crate) fn put_records(list: &Vec<OutVlr>) -> (out: Vec<u8>)
    ensures
        out@ == records_put(outgoing(list@)),
{
    let mut out: Vec<u8> = Vec::new();
    let mut i: usize = 0;
    let ghost all = outgoing(list@);
    assert(all.take(0) =~= Seq::<Outgoing>::empty());
    while i < list.len()
        invariant
            i <= list.len(),
            all == outgoing(list@),
            out@ == records_put(all.take(i as int)),
        decreases list.len() - i,
    {
        write_vlr(&mut out, &list[i]);
        assert(all.take(i + 1).drop_last() =~= all.take(i as int));
        assert(all.take(i + 1).last() == list@[i as int]@);
        i = i + 1;
    }
    assert(all.take(i as int) =~= all);
    out
}

/// The numbers of a header that the options do not say.
#[derive(Debug, Clone, Copy)]
pub struct Numbers {
    pub point_count: u64,
    pub min: [Real; 3],
    pub max: [Real; 3],
    pub offset_to_point_data: u32,
    pub vlr_count: u32,
    pub evlr_offset: u64,
    pub evlr_count: u32,
    pub wkt: bool,
}

/// Whether bytes are the header block of a compressed file with some options and
/// numbers, its points by return left at zero.
#[verifier::opaque]
pub open spec fn is_front(b: Seq<u8>, options: WriteOptions, n: Numbers) -> bool {
    exists|h: OutHeader| #[trigger] is_header_of(b, h) && heads(h, options, n)
}

/// Whether a header says what some options and numbers call for.
pub open spec fn heads(h: OutHeader, options: WriteOptions, n: Numbers) -> bool {
    &&& h.point_format == options.layout.format
    &&& h.point_size == options.layout.base + options.layout.extra
    &&& h.compressed
    &&& h.point_count == n.point_count
    &&& h.scale == options.scale
    &&& h.offset == options.offset
    &&& h.min == n.min
    &&& h.max == n.max
    &&& h.offset_to_point_data == n.offset_to_point_data
    &&& h.vlr_count == n.vlr_count
    &&& h.evlr_offset == n.evlr_offset
    &&& h.evlr_count == n.evlr_count
    &&& h.generator@ == options.generator@
    &&& h.wkt == n.wkt
    &&& h.creation == options.creation
    &&& forall|i: int| 0 <= i < 15 ==> #[trigger] h.points_by_return[i] == 0
}

/// The header block of a compressed file.
pub(crate) fn put_front(options: &WriteOptions, n: Numbers) -> (out: Vec<u8>)
    requires
        options.layout.wf(),
        options.layout.base + options.layout.extra <= u16::MAX,
    ensures
        is_front(out@, *options, n),
        out@.len() == 375,
{
    let stride: usize = options.stride();
    let h = OutHeader {
        point_format: options.layout.format,
        point_size: stride as u16,
        compressed: true,
        point_count: n.point_count,
        scale: options.scale,
        offset: options.offset,
        min: n.min,
        max: n.max,
        offset_to_point_data: n.offset_to_point_data,
        vlr_count: n.vlr_count,
        evlr_offset: n.evlr_offset,
        evlr_count: n.evlr_count,
        generator: options.generator.as_str().to_owned(),
        wkt: n.wkt,
        creation: options.creation,
        points_by_return: [0; 15],
    };
    let out = h.to_bytes();
    assert(is_header_of(out@, h) && heads(h, *options, n));
    proof {
        reveal(is_front);
    }
    out
}

} // verus!
