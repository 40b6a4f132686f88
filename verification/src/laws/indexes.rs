//! What the readers of indexed clouds find, and what a walk of an index counts.

use crate::attribute::{AttributeType, Column};
use crate::bounds::Bounds;
use crate::bytes::{le32, le64};
use crate::cloud::{column_named, CloudInfo, FormatId, HierarchyStats, NodeInfo, Tally};
use crate::crs::string_declares;
use crate::double::Real;
use crate::error::Failure;
use crate::format::{copc, ept, las_file, potree};
use crate::format::las_file::{crs_for, extra_for, las_summary, layout_for};
use crate::json::Tree;
use crate::las::{LasHeader, Record};
use crate::las::copc::{CopcInfo, Entry};
use crate::las::crs::records_declare;
use crate::octree::OctreeKey;
use crate::text::{begins, decimal, unsigned};
use crate::warning::{notices, Notice};
use vstd::prelude::*;

verus! {

/// A walk counts every node once: its points and itself at its own level and no
/// other, its bytes with all the rest, and the depth is that of the deepest.
pub proof fn a_node_is_counted_at_its_level(t: Tally, n: NodeInfo, i: int)
    requires
        t.points.len() == t.counts.len(),
        0 <= i < t.with(n).points.len(),
        forall|j: int| 0 <= j < t.points.len() ==> #[trigger] t.points[j] + n.point_count
            <= u64::MAX,
        forall|j: int| 0 <= j < t.counts.len() ==> #[trigger] t.counts[j] < u64::MAX,
        t.nodes < u64::MAX,
        t.data_bytes + n.byte_size <= u64::MAX,
    ensures
        ({
            let w = t.with(n);
            let had = i < t.points.len();
            &&& w.nodes == t.nodes + 1
            &&& w.data_bytes == t.data_bytes + n.byte_size
            &&& w.depth >= t.depth && w.depth >= n.key.level && (w.depth == t.depth || w.depth
                == n.key.level)
            &&& w.points.len() == w.counts.len() && w.points.len() > n.key.level
            &&& w.points.len() == t.points.len() || w.points.len() == n.key.level + 1
            &&& i == n.key.level && had ==> w.points[i] == t.points[i] + n.point_count
                && w.counts[i] == t.counts[i] + 1
            &&& i == n.key.level && !had ==> w.points[i] == n.point_count && w.counts[i] == 1
            &&& i != n.key.level && had ==> w.points[i] == t.points[i] && w.counts[i] == t.counts[i]
            &&& i != n.key.level && !had ==> w.points[i] == 0 && w.counts[i] == 0
        }),
{
    if i < t.points.len() {
        assert(t.points[i] + n.point_count <= u64::MAX);
        assert(t.counts[i] < u64::MAX);
    }
}

/// A cloud without an index is one node with all of its points.
pub proof fn a_cloud_without_an_index_is_one_node(info: CloudInfo, s: HierarchyStats)
    requires
        crate::cloud::one_node(info, s),
    ensures
        s.nodes == 1,
        s.depth == 0,
        s.points_by_level@ == seq![info.point_count],
        s.nodes_by_level@ == seq![1u64],
        info.data_bytes is Some ==> s.data_bytes == info.data_bytes->0,
        info.data_bytes is None ==> s.data_bytes == 0,
        s.hierarchy_requests == 0 && s.hierarchy_bytes == 0,
{
    let t = s.tally();
    assert(t.points =~= seq![info.point_count]);
    assert(t.counts =~= seq![1u64]);
}

/// What a LAS file is summarised as: the numbers of its header, its bounds as the
/// tight ones, its encoding by its flag, its version with a point, and the bytes
/// behind the place where its points start.
pub proof fn a_file_is_summarised(
    header: LasHeader,
    format: FormatId,
    label: Seq<char>,
    cube: Bounds,
    size: Option<u64>,
    extra: Option<Seq<u8>>,
    gps: Option<[Real; 2]>,
    first: Seq<Notice>,
)
    ensures
        ({
            let s = las_summary(header, format, label, cube, size, None, extra, gps, first);
            &&& s.format == format && s.label == label
            &&& s.point_count == header.point_count
            &&& s.bounds == cube
            &&& s.tight_bounds.min == header.min && s.tight_bounds.max == header.max
            &&& s.scale == header.scale@ && s.offset == header.offset@
            &&& header.compressed ==> s.encoding == Some("laszip"@)
            &&& !header.compressed ==> s.encoding == Some("uncompressed"@)
            &&& s.version == Some(
                decimal(header.version_major as nat) + "."@ + decimal(header.version_minor as nat),
            )
            &&& size is None ==> s.data_bytes is None
            &&& size matches Some(n) ==> (n >= header.offset_to_point_data ==> s.data_bytes == Some(
                (n - header.offset_to_point_data) as u64,
            ))
            &&& size matches Some(n) ==> (n < header.offset_to_point_data ==> s.data_bytes == Some(
                0u64,
            ))
            &&& s.warnings.len() >= first.len() && s.warnings.take(first.len() as int) == first
        }),
{
    let s = las_summary(header, format, label, cube, size, None, extra, gps, first);
    assert(s.warnings.take(first.len() as int) =~= first);
}

/// What the front of a file declares counts before its extended records, which are
/// looked at only where the front says nothing.
pub proof fn the_front_declares_first(front: Seq<Record>, extended: Option<Seq<Record>>)
    ensures
        records_declare(front) is Some ==> crs_for(front, extended) == records_declare(front),
        records_declare(front) is None && extended is Some ==> crs_for(front, extended)
            == records_declare(extended->0),
        records_declare(front) is None && extended is None ==> crs_for(front, extended) is None,
        las_file::extra_record(front) is Some ==> extra_for(front, extended)
            == las_file::extra_record(front),
        las_file::extra_record(front) is None && extended is Some ==> extra_for(front, extended)
            == las_file::extra_record(extended->0),
{
}

/// A bare file whose records are cut short is warned of.
pub proof fn records_cut_short_are_warned_of(
    header: LasHeader,
    cube: Bounds,
    size: Option<u64>,
    extended: Option<Seq<Record>>,
    label: Seq<char>,
)
    ensures
        ({
            let s = las_file::summary_of(header, cube, size, extended, label);
            let l = layout_for(header, extra_for(header@.vlrs, extended), None);
            &&& s.format == FormatId::Las
            &&& s.crs == crs_for(header@.vlrs, extended)
            &&& header.vlrs_complete ==> s.warnings == l.warnings
            &&& !header.vlrs_complete ==> s.warnings.len() == l.warnings.len() + 1
                && s.warnings[0].code == "vlr-truncated"@
        }),
{
    let s = las_file::summary_of(header, cube, size, extended, label);
    let l = layout_for(header, extra_for(header@.vlrs, extended), None);
    if header.vlrs_complete {
        assert(s.warnings =~= l.warnings);
    }
}

/// A COPC file is known by its info record, and its spacing and times come from it.
pub proof fn a_copc_file_is_known_by_its_record(
    header: LasHeader,
    info: CopcInfo,
    cube: Bounds,
    size: Option<u64>,
    label: Seq<char>,
)
    ensures
        ({
            let s = copc::summary_of(header, info, cube, size, label);
            let l = layout_for(
                header,
                las_file::extra_record(header@.vlrs),
                Some(info.gps_time_range),
            );
            &&& s.format == FormatId::Copc
            &&& s.bounds == cube
            &&& s.spacing == Some(info.spacing)
            &&& s.point_count == header.point_count
            &&& s.crs == records_declare(header@.vlrs)
            &&& header.compressed ==> s.warnings == l.warnings
            &&& !header.compressed ==> s.warnings.len() == l.warnings.len() + 1
                && s.warnings.last().code == "copc-uncompressed"@
        }),
        forall|all: Seq<Record>| #[trigger]
            copc::copc_record(all) == crate::las::record_named(all, "copc"@, 1),
{
    let s = copc::summary_of(header, info, cube, size, label);
    let l = layout_for(header, las_file::extra_record(header@.vlrs), Some(info.gps_time_range));
    if header.compressed {
        assert(s.warnings =~= l.warnings);
    }
}

/// A walk of COPC pages starts at the root page, asks for the last page in line,
/// and never for a page twice.
pub proof fn pages_are_read_once(w: copc::Progress)
    ensures
        ({
            let (after, ask) = copc::advance(w);
            &&& w.queue.len() == 0 ==> ask is None && after == w
            &&& ask is None ==> after.queue.len() == 0
            &&& ask matches Some(p) ==> !w.visited.contains(p.0) && after.visited.last() == p.0
                && after.visited.len() == w.visited.len() + 1
            &&& w.queue.len() > 0 && !w.visited.contains(w.queue.last().offset) ==> ask == Some(
                (w.queue.last().offset, w.queue.last().size),
            ) && after.queue == w.queue.drop_last() && after.warnings == w.warnings
            &&& w.queue.len() > 0 && w.visited.contains(w.queue.last().offset)
                ==> after.warnings.len() > w.warnings.len()
            &&& after.tally == w.tally
        }),
    decreases w.queue.len(),
{
    if w.queue.len() > 0 && w.visited.contains(w.queue.last().offset) {
        let next = copc::Progress {
            queue: w.queue.drop_last(),
            warnings: w.warnings.push(copc::cycle_notice(w.queue.last())),
            ..w
        };
        pages_are_read_once(next);
        lemma_warnings_grow(next);
    }
}

proof fn lemma_warnings_grow(w: copc::Progress)
    ensures
        copc::advance(w).0.warnings.len() >= w.warnings.len(),
    decreases w.queue.len(),
{
    if w.queue.len() > 0 && w.visited.contains(w.queue.last().offset) {
        lemma_warnings_grow(
            copc::Progress {
                queue: w.queue.drop_last(),
                warnings: w.warnings.push(copc::cycle_notice(w.queue.last())),
                ..w
            },
        );
    }
}

/// The first page of a walk is the root page, where the info record says it is.
pub proof fn a_walk_starts_at_the_root_page(info: CopcInfo)
    ensures
        ({
            let (_, ask) = copc::advance(copc::at_start(info));
            ask == Some((info.root_hierarchy_offset, info.root_hierarchy_size))
        }),
        ept::advance(ept::at_start()).1 == Some("ept-hierarchy/0-0-0-0.json"@),
{
}

/// The entries of a page in order: each node counted with its address, points and
/// bytes, and each page put in line with its place and size.
pub proof fn entries_are_nodes_or_pages(list: Seq<Entry>, e: Entry)
    ensures
        e matches Entry::Node { key, offset, byte_size, point_count } ==> copc::nodes_in(
            list.push(e),
        ) == copc::nodes_in(list).push(NodeInfo { key, point_count, byte_size })
            && copc::pages_in(list.push(e)) == copc::pages_in(list),
        e matches Entry::Page { key, offset, byte_size } ==> copc::nodes_in(list.push(e))
            == copc::nodes_in(list) && copc::pages_in(list.push(e)).len() == copc::pages_in(
            list,
        ).len() + 1 && copc::pages_in(list.push(e)).last().offset == offset && copc::pages_in(
            list.push(e),
        ).last().size == byte_size,
        copc::nodes_in(Seq::empty()).len() == 0,
        copc::pages_in(Seq::empty()).len() == 0,
{
    assert(list.push(e).drop_last() =~= list);
}

/// A page that was read is counted with its bytes and its nodes, and the pages it
/// names are put in line.
pub proof fn a_page_that_was_read_is_counted(w: copc::Progress, bytes: Seq<u8>)
    requires
        copc::absorbed(w, bytes) is Ok,
        w.hierarchy_bytes + bytes.len() <= u64::MAX,
        w.hierarchy_requests < u32::MAX,
    ensures
        ({
            let a = copc::absorbed(w, bytes)->Ok_0;
            let list = crate::las::copc::page_of(bytes, w.reading)->Ok_0;
            &&& a.hierarchy_bytes == w.hierarchy_bytes + bytes.len()
            &&& a.hierarchy_requests == w.hierarchy_requests + 1
            &&& a.queue == w.queue + copc::pages_in(list)
            &&& a.tally == w.tally.with_all(copc::nodes_in(list))
            &&& a.warnings == w.warnings
        }),
{
}

/// A record of a Potree hierarchy, where it is published: a kind and a mask of a
/// byte each, the points in four, the place and the size in eight each.
pub proof fn a_hierarchy_record_is_where_it_is_published(h: Seq<u8>, at: int)
    ensures
        potree::entry_at(h, at).kind == h[at],
        potree::entry_at(h, at).mask == h[at + 1],
        potree::entry_at(h, at).points == le32(h, at + 2),
        potree::entry_at(h, at).offset == le64(h, at + 6),
        potree::entry_at(h, at).size == le64(h, at + 14),
{
}

/// Two to a power below eight.
pub open spec fn two_to(n: int) -> int {
    if n <= 0 {
        1
    } else if n == 1 {
        2
    } else if n == 2 {
        4
    } else if n == 3 {
        8
    } else if n == 4 {
        16
    } else if n == 5 {
        32
    } else if n == 6 {
        64
    } else {
        128
    }
}

/// Bit `n` of a byte, the lowest being bit zero.
pub proof fn a_bit_is_a_number(m: u8, n: int)
    requires
        0 <= n < 8,
    ensures
        (m >> (n as u8)) & 1u8 == m as int / two_to(n) % 2,
{
    assert(m >> 0u8 & 1 == m / 1 % 2) by (bit_vector);
    assert(m >> 1u8 & 1 == m / 2 % 2) by (bit_vector);
    assert(m >> 2u8 & 1 == m / 4 % 2) by (bit_vector);
    assert(m >> 3u8 & 1 == m / 8 % 2) by (bit_vector);
    assert(m >> 4u8 & 1 == m / 16 % 2) by (bit_vector);
    assert(m >> 5u8 & 1 == m / 32 % 2) by (bit_vector);
    assert(m >> 6u8 & 1 == m / 64 % 2) by (bit_vector);
    assert(m >> 7u8 & 1 == m / 128 % 2) by (bit_vector);
}

/// The children that a mask names, in ascending order, one for each bit.
pub proof fn a_mask_names_children(key: OctreeKey, mask: u8, n: int)
    requires
        0 <= n < 8,
    ensures
        ({
            let bit = mask as int / two_to(n) % 2;
            let all = potree::named_children(key, mask, n + 1);
            let before = potree::named_children(key, mask, n);
            &&& potree::named_children(key, mask, 0).len() == 0
            &&& bit == 1 ==> all == before.push(key.spec_child(n as u8))
            &&& bit == 0 ==> all == before
        }),
{
    a_bit_is_a_number(mask, n);
}

/// A chunk is read record by record: the next node in level order is the one a
/// record stands for. One of kind two names a further chunk, but for the first of
/// its chunk; any other is a node, and its children come in line.
pub proof fn records_stand_for_nodes_in_level_order(
    h: Seq<u8>,
    start: int,
    seed: OctreeKey,
    n: int,
)
    requires
        0 <= n,
        potree::chunk_of(h, start, seed, n) is Some,
    ensures
        ({
            let before = potree::chunk_of(h, start, seed, n)->0;
            let after = potree::chunk_of(h, start, seed, n + 1);
            let e = potree::entry_at(h, start + 22 * n);
            &&& potree::chunk_of(h, start, seed, 0)->0.keys == seq![seed]
            &&& before.keys.len() <= n ==> after is None
            &&& before.keys.len() > n && n > 0 && e.kind == 2 ==> after is Some && after->0.nodes
                == before.nodes && after->0.keys == before.keys && after->0.further
                == before.further.push((before.keys[n], e.offset, e.size))
            &&& before.keys.len() > n && (n == 0 || e.kind != 2) ==> after is Some
                && after->0.further == before.further && after->0.keys == before.keys
                + potree::named_children(before.keys[n], e.mask, 8) && after->0.nodes.len()
                == before.nodes.len() + 1 && after->0.nodes.last().key == before.keys[n]
                && after->0.nodes.last().point_count == e.points
                && after->0.nodes.last().byte_offset == e.offset && after->0.nodes.last().byte_size
                == e.size
        }),
{
}

/// A chunk must lie within the hierarchy and be a whole number of records, one at
/// least.
pub proof fn a_chunk_is_whole_records(h: Seq<u8>, seed: OctreeKey, offset: u64, size: u64)
    requires
        h.len() <= usize::MAX,
    ensures
        size == 0 || offset + size > h.len() ==> potree::chunk_at(h, seed, offset, size) is Err,
        offset + size <= h.len() && size % 22 != 0 ==> potree::chunk_at(
            h,
            seed,
            offset,
            size,
        ) is Err,
        potree::chunk_at(h, seed, offset, size) matches Ok(c) ==> size > 0 && size % 22 == 0
            && offset + size <= h.len() && potree::chunk_of(
            h,
            offset as int,
            seed,
            size as int / 22,
        ) == Some(c),
{
}

/// A walk of a Potree hierarchy starts with the first chunk at byte zero, counts every
/// node that it finds with its points and bytes, and asks for the file once.
pub proof fn a_potree_walk_counts_its_nodes(c: potree::PotreeCloud, s: HierarchyStats, i: int)
    requires
        c.walks_to(Ok(s)),
    ensures
        s.hierarchy_bytes == c.hierarchy@.len(),
        c.hierarchy@.len() == 0 ==> s.nodes == 0 && s.hierarchy_requests == 0
            && notices(s.warnings@).len() == 1 && notices(s.warnings@)[0].code
            == "hierarchy-missing"@,
        c.hierarchy@.len() > 0 ==> ({
            let found = potree::walk(
                c.hierarchy@,
                seq![
                    (
                        OctreeKey { level: 0, x: 0, y: 0, z: 0 },
                        0u64,
                        c.metadata.first_chunk_size,
                    ),
                ],
                Seq::empty(),
            );
            let all = potree::counted_all(found->Ok_0.nodes);
            &&& found is Ok
            &&& s.hierarchy_requests == 1
            &&& s.tally() == Tally::none().with_all(all)
            &&& 0 <= i < all.len() ==> all[i].key == found->Ok_0.nodes[i].key && all[i].point_count
                == found->Ok_0.nodes[i].point_count && all[i].byte_size
                == found->Ok_0.nodes[i].byte_size
        }),
{
}

/// A chunk that is reached a second time is warned of and read no more; any other is
/// read, its nodes before those of the chunks that it names.
pub proof fn chunks_are_read_once(
    h: Seq<u8>,
    queue: Seq<(OctreeKey, u64, u64)>,
    visited: Seq<u64>,
    seed: OctreeKey,
    offset: u64,
    size: u64,
)
    requires
        potree::distinct_within(visited, h.len()),
    ensures
        ({
            let w = potree::walk(h, queue.push((seed, offset, size)), visited);
            let c = potree::chunk_at(h, seed, offset, size);
            &&& potree::walk(h, Seq::empty(), visited) matches Ok(f) && f.nodes.len() == 0
            &&& visited.contains(offset) && potree::walk(h, queue, visited) is Ok ==> w is Ok
                && w->Ok_0.nodes == potree::walk(h, queue, visited)->Ok_0.nodes
                && w->Ok_0.cycles[0].code == "hierarchy-cycle"@
            &&& !visited.contains(offset) && c is Err ==> w is Err
            &&& !visited.contains(offset) && c is Ok && potree::walk(
                h,
                queue + c->Ok_0.further,
                visited.push(offset),
            ) is Ok ==> w is Ok && w->Ok_0.nodes == c->Ok_0.nodes + potree::walk(
                h,
                queue + c->Ok_0.further,
                visited.push(offset),
            )->Ok_0.nodes
        }),
{
    assert(queue.push((seed, offset, size)).drop_last() =~= queue);
}

/// The manifest of a Potree cloud: it must be an object of version 2 with a box and
/// attributes.
pub proof fn a_potree_manifest_must_be_one(json: Tree, label: Seq<char>)
    ensures
        ({
            let m = potree::manifest_of(json, label);
            &&& !json.is_object() ==> m is Err
            &&& json.text_at("version"@) is None ==> m is Err
            &&& json.is_object() && json.text_at("version"@) is Some && !begins(
                json.text_at("version"@)->0,
                "2."@,
            ) ==> m is Err && m->Err_0 is NotFormat
            &&& json.at("boundingBox"@) is None ==> m is Err
            &&& json.items_at("attributes"@) is None ==> m is Err
            &&& m matches Ok(held) ==> json.is_object() && json.at("boundingBox"@) is Some
                && potree::triple(json.at("boundingBox"@)->0.at("min"@)) == Some(
                held.0.bounds.min,
            ) && potree::triple(json.at("boundingBox"@)->0.at("max"@)) == Some(held.0.bounds.max)
        }),
{
}

/// A Potree manifest says what it says: its points, its quantum and origin, its
/// spacing and depth, the projection and the encoding, plain where it is not stated.
pub proof fn a_potree_manifest_is_summarised(json: Tree, label: Seq<char>)
    requires
        potree::manifest_of(json, label) is Ok,
    ensures
        ({
            let (s, m, stride) = potree::manifest_of(json, label)->Ok_0;
            let all = potree::attributes_of(json.items_at("attributes"@)->0)->Ok_0;
            &&& s.format == FormatId::PotreeV2
            &&& json.unsigned_at("points"@) matches Some(n) ==> s.point_count == n
            &&& potree::triple(json.at("scale"@)) matches Some(v) ==> s.scale == v@
            &&& potree::triple(json.at("offset"@)) matches Some(v) ==> s.offset == v@
            &&& potree::triple(json.at("scale"@)) is None ==> s.scale[0].bits
                == 0x3ff0_0000_0000_0000
            &&& potree::triple(json.at("offset"@)) is None ==> s.offset[0].bits == 0
            &&& s.spacing == json.real_at("spacing"@)
            &&& json.text_at("projection"@) matches Some(t) ==> s.crs == string_declares(t)
            &&& json.text_at("projection"@) is None ==> s.crs is None
            &&& json.text_at("encoding"@) matches Some(t) ==> m.encoding == t && s.encoding == Some(
                t,
            )
            &&& json.text_at("encoding"@) is None ==> m.encoding == "DEFAULT"@
            &&& s.levels == Some(m.depth)
            &&& json.at("hierarchy"@) matches Some(h) ==> (h.unsigned_at("firstChunkSize"@) matches
                Some(n) ==> m.first_chunk_size == n)
            &&& m.encoding == "BROTLI"@ ==> stride is None
            &&& m.encoding != "BROTLI"@ ==> stride == s.record_bytes
            &&& s.attributes == crate::attribute::laid_out(all)
            &&& potree::stated_extent(s.attributes) matches Some(b) ==> s.tight_bounds == b
            &&& potree::stated_extent(s.attributes) is None ==> s.tight_bounds == s.bounds
                && s.warnings.last().code == "missing-position-attribute"@
        }),
{
}

/// The tight extent of a Potree cloud is the domain of its position, where that has
/// three elements.
pub proof fn the_extent_is_that_of_the_position(all: Seq<Column>)
    ensures
        column_named(all, "position"@) matches Some(c) ==> (c.num_elements == 3 && c.min.len() == 3
            && c.max.len() == 3 ==> ({
            let b = potree::stated_extent(all);
            b is Some && b->0.min@ == c.min && b->0.max@ == c.max
        })),
        column_named(all, "position"@) matches Some(c) ==> (c.num_elements != 3
            ==> potree::stated_extent(all) is None),
        column_named(all, "position"@) is None && column_named(all, "POSITION_CARTESIAN"@) is None
            ==> potree::stated_extent(all) is None,
{
    if let Some(c) = column_named(all, "position"@) {
        if c.num_elements == 3 && c.min.len() == 3 && c.max.len() == 3 {
            let b = potree::stated_extent(all)->0;
            assert(b.min@ =~= c.min);
            assert(b.max@ =~= c.max);
        }
    }
}

/// An attribute of a Potree manifest: it needs a name and one of the ten types, has
/// one element at least, and a domain, a scale of one and an offset of zero where it
/// states none.
pub proof fn an_attribute_is_declared(raw: Tree, i: nat, k: int)
    ensures
        ({
            let a = potree::attribute_of(raw, i);
            let n = match raw.unsigned_at("numElements"@) {
                Some(n) => n as usize,
                None => 1,
            };
            &&& raw.text_at("name"@) is None ==> a is Err
            &&& raw.text_at("type"@) is None ==> a is Err
            &&& raw.text_at("type"@) matches Some(t) ==> (AttributeType::spelt(t) is None
                ==> a is Err)
            &&& raw.text_at("type"@) matches Some(t) ==> (raw.text_at("name"@) is Some
                && AttributeType::spelt(t) is Some ==> a is Ok && a->Ok_0.name == raw.text_at(
                "name"@,
            )->0 && Some(a->Ok_0.kind) == AttributeType::spelt(t) && (raw.unsigned_at(
                "numElements"@,
            ) != Some(0u64) ==> a->Ok_0.num_elements == n) && (raw.unsigned_at("numElements"@)
                == Some(0u64) ==> a->Ok_0.num_elements == 1))
            &&& a matches Ok(c) ==> c.min.len() == c.num_elements && c.scale.len() == c.num_elements
            &&& a matches Ok(c) ==> (0 <= k < c.num_elements && raw.at("scale"@) is None
                ==> c.scale[k].bits == 0x3ff0_0000_0000_0000)
            &&& a matches Ok(c) ==> (0 <= k < c.num_elements && raw.at("offset"@) is None
                ==> c.offset[k].bits == 0)
            &&& a matches Ok(c) ==> (raw.at("min"@) matches Some(Tree::Array(items)) ==> (0 <= k
                < c.num_elements && k < items.len() && items[k].measure() is Some ==> c.min[k]
                == items[k].measure()->0))
            &&& a matches Ok(c) ==> (raw.at("max"@) matches Some(Tree::Array(items)) ==> (0 <= k
                < c.num_elements && k < items.len() && items[k].measure() is Some ==> c.max[k]
                == items[k].measure()->0))
        }),
{
}

/// The types that a schema spells as a kind and a number of bytes.
pub proof fn a_schema_spells_types()
    ensures
        ept::type_of("signed"@, 1) == Some(AttributeType::Int8),
        ept::type_of("signed"@, 2) == Some(AttributeType::Int16),
        ept::type_of("signed"@, 4) == Some(AttributeType::Int32),
        ept::type_of("signed"@, 8) == Some(AttributeType::Int64),
        ept::type_of("unsigned"@, 1) == Some(AttributeType::Uint8),
        ept::type_of("unsigned"@, 2) == Some(AttributeType::Uint16),
        ept::type_of("unsigned"@, 4) == Some(AttributeType::Uint32),
        ept::type_of("unsigned"@, 8) == Some(AttributeType::Uint64),
        ept::type_of("float"@, 4) == Some(AttributeType::Float),
        ept::type_of("float"@, 8) == Some(AttributeType::Double),
        forall|kind: Seq<char>, size: u64| #[trigger]
            ept::type_of(kind, size) matches Some(t) ==> t.width() == size,
{
    reveal_strlit("signed");
    reveal_strlit("unsigned");
    reveal_strlit("float");
    assert("signed"@.len() == 6 && "unsigned"@.len() == 8 && "float"@.len() == 5);
}

/// The neutral names of the dimensions of EPT.
pub proof fn dimensions_have_neutral_names()
    ensures
        ept::attribute_name("Intensity"@) == "intensity"@,
        ept::attribute_name("Classification"@) == "classification"@,
        ept::attribute_name("GpsTime"@) == "gps-time"@,
        ept::attribute_name("ReturnNumber"@) == "return number"@,
        ept::attribute_name("NumberOfReturns"@) == "number of returns"@,
        ept::attribute_name("PointSourceId"@) == "point source id"@,
        ept::attribute_name("ScanAngleRank"@) == "scan angle rank"@,
        ept::attribute_name("UserData"@) == "user data"@,
        ept::attribute_name("Red"@) == "red"@,
        ept::attribute_name("Green"@) == "green"@,
        ept::attribute_name("Blue"@) == "blue"@,
        ept::attribute_name("X"@) == "X"@,
{
    reveal_strlit("Intensity");
    reveal_strlit("ReturnNumber");
    reveal_strlit("NumberOfReturns");
    reveal_strlit("ScanDirectionFlag");
    reveal_strlit("EdgeOfFlightLine");
    reveal_strlit("Classification");
    reveal_strlit("ScanAngleRank");
    reveal_strlit("UserData");
    reveal_strlit("PointSourceId");
    reveal_strlit("GpsTime");
    reveal_strlit("Red");
    reveal_strlit("Green");
    reveal_strlit("Blue");
    reveal_strlit("X");
    assert("Intensity"@.len() == 9 && "ReturnNumber"@.len() == 12 && "NumberOfReturns"@.len() == 15);
    assert("ScanDirectionFlag"@.len() == 17 && "EdgeOfFlightLine"@.len() == 16);
    assert("Classification"@.len() == 14 && "ScanAngleRank"@.len() == 13 && "UserData"@.len() == 8);
    assert("PointSourceId"@.len() == 13 && "GpsTime"@.len() == 7 && "Red"@.len() == 3);
    assert("Green"@.len() == 5 && "Blue"@.len() == 4 && "X"@.len() == 1);
    assert("ScanAngleRank"@[0] == 'S' && "PointSourceId"@[0] == 'P');
}

/// A box of six numbers: the least corner first.
pub proof fn a_box_is_six_numbers(json: Tree, key: Seq<char>)
    ensures
        json.items_at(key) is None ==> ept::box_at(json, key) is None,
        json.items_at(key) matches Some(b) ==> (b.len() < 6 ==> ept::box_at(json, key) is None),
        json.items_at(key) matches Some(b) ==> (b.len() >= 6 && (forall|i: int|
            0 <= i < 6 ==> (#[trigger] b[i]).measure() is Some) ==> ({
            let x = ept::box_at(json, key);
            &&& x is Some
            &&& x->0.min@ == seq![b[0].measure()->0, b[1].measure()->0, b[2].measure()->0]
            &&& x->0.max@ == seq![b[3].measure()->0, b[4].measure()->0, b[5].measure()->0]
        })),
{
    if let Some(b) = json.items_at(key) {
        if b.len() >= 6 && (forall|i: int| 0 <= i < 6 ==> (#[trigger] b[i]).measure() is Some) {
            let x = ept::box_at(json, key)->0;
            assert(b[0].measure() is Some && b[1].measure() is Some && b[2].measure() is Some);
            assert(b[3].measure() is Some && b[4].measure() is Some && b[5].measure() is Some);
            assert(x.min@ =~= seq![b[0].measure()->0, b[1].measure()->0, b[2].measure()->0]);
            assert(x.max@ =~= seq![b[3].measure()->0, b[4].measure()->0, b[5].measure()->0]);
        }
    }
}

/// A reference system of EPT is its text where that declares one, and else its
/// code, with the vertical one beside it.
pub proof fn the_text_of_a_system_comes_before_its_code(srs: Tree)
    ensures
        ({
            let d = ept::srs_declares(srs);
            let wkt = srs.text_at("wkt"@);
            let said = wkt is Some && string_declares(wkt->0) is Some;
            let code = ept::code_at(srs, "horizontal"@);
            &&& said ==> d == string_declares(wkt->0)
            &&& !said && srs.text_at("authority"@) == Some("EPSG"@) && code is Some ==> d is Some
                && d->0.epsg == code && d->0.vertical_epsg == ept::code_at(srs, "vertical"@)
            &&& !said && code is None ==> d is None
            &&& !said && srs.text_at("authority"@) is None ==> d is None
        }),
        forall|key: Seq<char>| #[trigger]
            ept::code_at(srs, key) matches Some(n) ==> srs.text_at(key) is Some && unsigned(
                srs.text_at(key)->0,
                u32::MAX as nat,
            ) == Some(n as nat),
{
}

/// An EPT manifest must be an object with bounds and a schema, and says what it
/// says: its points, its conforming box, its encoding and the quantum of its three
/// coordinates.
pub proof fn an_ept_manifest_is_summarised(json: Tree, manifest: Seq<char>, label: Seq<char>)
    ensures
        ({
            let m = ept::manifest_of(json, manifest, label);
            let list = json.items_at("schema"@);
            &&& !json.is_object() ==> m is Err
            &&& ept::box_at(json, "bounds"@) is None ==> m is Err
            &&& list is None ==> m is Err
            &&& m matches Ok(e) ==> ept::box_at(json, "bounds"@) == Some(e.summary.bounds)
            &&& m matches Ok(e) ==> e.summary.format == FormatId::Ept
            &&& m matches Ok(e) ==> (json.unsigned_at("points"@) matches Some(n)
                ==> e.summary.point_count == n)
            &&& m matches Ok(e) ==> (ept::box_at(json, "boundsConforming"@) matches Some(b)
                ==> e.summary.tight_bounds == b)
            &&& m matches Ok(e) ==> (ept::box_at(json, "boundsConforming"@) is None
                ==> e.summary.tight_bounds == e.summary.bounds)
            &&& m matches Ok(e) ==> (json.text_at("dataType"@) matches Some(t) ==> e.data_type == t
                && e.summary.encoding == Some(t))
            &&& m matches Ok(e) ==> (json.text_at("dataType"@) is None ==> e.data_type == "binary"@)
            &&& m matches Ok(e) ==> (json.text_at("hierarchyType"@) == Some("json"@)
                ==> e.summary.warnings.len() == 0)
            &&& m matches Ok(e) ==> (json.unsigned_at("span"@) matches Some(n) ==> (n <= u32::MAX
                ==> e.span == n))
            &&& m matches Ok(e) ==> e.summary.attributes == crate::attribute::laid_out(
                ept::schema_of(list->0)->Ok_0,
            )
            &&& m matches Ok(e) ==> (ept::coordinates(list->0).len() == 3 ==> e.summary.scale
                == seq![
                ept::coordinates(list->0)[0].0,
                ept::coordinates(list->0)[1].0,
                ept::coordinates(list->0)[2].0,
            ] && e.summary.offset == seq![
                ept::coordinates(list->0)[0].1,
                ept::coordinates(list->0)[1].1,
                ept::coordinates(list->0)[2].1,
            ])
        }),
{
}

/// A field of a schema: it needs a name and a type that is one, and is one element
/// with its scale and offset, one and zero where it states none.
pub proof fn a_field_of_a_schema_is_an_attribute(field: Tree, i: nat)
    ensures
        ({
            let a = ept::attribute_of(field, i);
            &&& field.text_at("name"@) is None ==> a is Err
            &&& a matches Ok(c) ==> c.num_elements == 1 && c.name == ept::attribute_name(
                field.text_at("name"@)->0,
            )
            &&& field.text_at("type"@) matches Some(t) ==> (field.unsigned_at("size"@) matches Some(
                n,
            ) ==> (field.text_at("name"@) is Some && ept::type_of(t, n) is Some ==> a is Ok && Some(
                a->Ok_0.kind,
            ) == ept::type_of(t, n)))
            &&& field.text_at("type"@) matches Some(t) ==> (field.unsigned_at("size"@) matches Some(
                n,
            ) ==> (ept::type_of(t, n) is None ==> a is Err))
            &&& a matches Ok(c) ==> (field.real_at("scale"@) matches Some(x) ==> c.scale == seq![x])
            &&& a matches Ok(c) ==> (field.real_at("scale"@) is None ==> c.scale == seq![
                Real { bits: 0x3ff0_0000_0000_0000 },
            ])
            &&& a matches Ok(c) ==> (field.real_at("offset"@) matches Some(x) ==> c.offset == seq![
                x,
            ])
            &&& a matches Ok(c) ==> (field.real_at("offset"@) is None ==> c.offset == seq![
                Real { bits: 0 },
            ])
        }),
{
}

/// The file of a node is named after its encoding.
pub proof fn files_are_named_after_their_encoding(other: Seq<char>)
    ensures
        ept::extension_of("laszip"@) == "laz"@,
        ept::extension_of("zstandard"@) == "zst"@,
        other != "laszip"@ && other != "zstandard"@ ==> ept::extension_of(other) == "bin"@,
{
    reveal_strlit("laszip");
    reveal_strlit("zstandard");
    assert("laszip"@.len() == 6 && "zstandard"@.len() == 9);
}

/// An entry of an EPT page: minus one names a further page, any other count is a
/// node with so many points, none where it is below zero, and a name that is no
/// address is warned of.
pub proof fn an_entry_is_a_node_or_a_page(w: ept::Progress, k: OctreeKey, count: Tree)
    ensures
        ({
            let name = k.spec_ept_name();
            let a = ept::with_entry(w, name, count);
            &&& count.signed() == Some(-1i64) ==> a.tally == w.tally && a.queue == w.queue.push(
                "ept-hierarchy/"@ + name + ".json"@,
            )
            &&& count.signed() matches Some(n) ==> (n >= 0 ==> a.queue == w.queue && a.tally
                == w.tally.with(NodeInfo { key: k, point_count: n as u64, byte_size: 0 }))
            &&& count.signed() matches Some(n) ==> (n < -1 ==> a.tally == w.tally.with(
                NodeInfo { key: k, point_count: 0, byte_size: 0 },
            ))
            &&& a.warnings == w.warnings
        }),
{
    ept::names_read_back(k);
}

/// A name that is no address is passed over with a warning.
pub proof fn other_names_are_warned_of(w: ept::Progress, name: Seq<char>, count: Tree)
    requires
        ept::key_of(name) is None,
    ensures
        ({
            let a = ept::with_entry(w, name, count);
            &&& a.tally == w.tally && a.queue == w.queue
            &&& a.warnings.len() == w.warnings.len() + 1
            &&& a.warnings.last().code == "hierarchy-key"@
        }),
{
}

/// The entries of a page are taken in order, and the page is counted.
pub proof fn entries_are_taken_in_order(
    w: ept::Progress,
    fields: Seq<(Seq<char>, Tree)>,
    name: Seq<char>,
    count: Tree,
    size: nat,
)
    requires
        w.hierarchy_bytes + size <= u64::MAX,
        w.hierarchy_requests < u32::MAX,
    ensures
        ept::with_entries(w, Seq::empty()) == w,
        ept::with_entries(w, fields.push((name, count))) == ept::with_entry(
            ept::with_entries(w, fields),
            name,
            count,
        ),
        ({
            let a = ept::page_absorbed(w, Tree::Object(Seq::empty()), size)->Ok_0;
            &&& a.hierarchy_bytes == w.hierarchy_bytes + size
            &&& a.hierarchy_requests == w.hierarchy_requests + 1
        }),
        ept::page_absorbed(w, Tree::Null, size) is Err,
{
    assert(fields.push((name, count)).drop_last() =~= fields);
}

/// A page of EPT is asked for once, the last in line first.
pub proof fn ept_pages_are_read_once(w: ept::Progress)
    ensures
        ({
            let (after, ask) = ept::advance(w);
            &&& ask is None ==> after.queue.len() == 0
            &&& ask matches Some(p) ==> !w.visited.contains(p) && after.visited == w.visited.push(p)
                && after.reading == p
            &&& w.queue.len() > 0 && !w.visited.contains(w.queue.last()) ==> ask == Some(
                w.queue.last(),
            ) && after.queue == w.queue.drop_last()
            &&& after.tally == w.tally
        }),
    decreases w.queue.len(),
{
    if w.queue.len() > 0 && w.visited.contains(w.queue.last()) {
        ept_pages_are_read_once(ept::Progress { queue: w.queue.drop_last(), ..w });
    }
}

/// A document of no name of its own is tried as Potree, then as a tileset, then as
/// EPT.
pub proof fn documents_are_tried_in_order()
    ensures
        crate::format::attempts() == seq![FormatId::PotreeV2, FormatId::Tiles3D, FormatId::Ept],
{
}

/// What is wrong with the front of a COPC file is told of COPC, and with its header of
/// that.
pub proof fn a_broken_front_is_told(f: copc::FrontFault, shown: Seq<char>)
    ensures
        f is NoRecord ==> (f.failure(shown) matches Failure::NotFormat { format, .. } && format
            == "COPC"@),
        f is Info ==> (f.failure(shown) matches Failure::NotFormat { format, .. } && format
            == "COPC"@),
        f matches copc::FrontFault::Header(e) ==> f.failure(shown) == e.failure(),
{
}

/// Counts add up.
pub proof fn counts_add_up(counts: Seq<u64>, n: u64)
    ensures
        crate::cloud::sum(Seq::empty()) == 0,
        crate::cloud::sum(counts.push(n)) == crate::cloud::sum(counts) + n,
{
    assert(counts.push(n).drop_last() =~= counts);
}

} // verus!
