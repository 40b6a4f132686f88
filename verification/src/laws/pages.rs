//! How the indexes are written: the records of a Potree hierarchy, the pages of COPC
//! and EPT, and the manifests beside them.

use crate::bounds::Bounds;
use crate::bytes::{bytes32, bytes64};
use crate::cloud::declared;
use crate::crs::{CrsFormat, Declared};
use crate::double::Real;
use crate::json::{Json, Tree};
use crate::las::copc::{entry_bytes, Entry};
use crate::octree::OctreeKey;
use crate::text::decimal;
use crate::write::WriteOptions;
use crate::write::copc_pages::{
    above, all_pages, described, entries_put, entry_put, own_entry, paged_out, pages_put,
    pages_size, subtree_size, top_key, visit, visit_kids, whole_listing,
};
use crate::write::ept::{
    corners, deferred, entry, field_tree, filled, node_numbers, node_records, page, page_nodes,
    page_path, schema_for, srs_tree, EptEncoding, EptWriter, FieldSpec,
};
use crate::write::front::{common_records, records_put};
use crate::write::hierarchy::{
    below, cut, cut_record, first_key, hierarchy_of, level_below, mask, node_with, order,
    own_records, own_size, plain_record, record_bytes, Written,
};
use vstd::prelude::*;

verus! {

/// A record of a Potree hierarchy: a kind and a mask of a byte each, the points in
/// four bytes, the place and the size in eight each, 22 in all.
pub proof fn a_record_is_laid_out(kind: u8, mask: u8, points: u32, offset: u64, size: u64)
    ensures
        ({
            let r = record_bytes(kind, mask, points, offset, size);
            &&& r.len() == 22
            &&& r[0] == kind
            &&& r[1] == mask
            &&& r.subrange(2, 6) == bytes32(points as int)
            &&& r.subrange(6, 14) == bytes64(offset as int)
            &&& r.subrange(14, 22) == bytes64(size as int)
        }),
{
    let r = record_bytes(kind, mask, points, offset, size);
    assert(r.subrange(2, 6) =~= bytes32(points as int));
    assert(r.subrange(6, 14) =~= bytes64(offset as int));
    assert(r.subrange(14, 22) =~= bytes64(size as int));
}

/// The record of a node has its points, its place and its size; its kind is one
/// where it has no children and zero where it has some. That of a node which goes on
/// elsewhere is of kind two and has the place of its chunk.
pub proof fn a_node_has_its_record(
    w: Seq<Written>,
    k: OctreeKey,
    n: Written,
    places: Map<OctreeKey, (u64, u64)>,
)
    requires
        node_with(w, k) == Some(n),
    ensures
        mask(w, k) == 0 ==> plain_record(w, k) == record_bytes(
            1,
            0,
            n.points,
            n.byte_offset,
            n.byte_size,
        ),
        mask(w, k) != 0 ==> plain_record(w, k) == record_bytes(
            0,
            mask(w, k),
            n.points,
            n.byte_offset,
            n.byte_size,
        ),
        places.contains_key(k) ==> cut_record(w, k, places) == record_bytes(
            2,
            0,
            n.points,
            places[k].0,
            places[k].1,
        ),
        !places.contains_key(k) ==> cut_record(w, k, places) == plain_record(w, k),
{
}

/// A chunk holds five levels, the last of them at the cut, and 22 bytes for each of
/// its nodes.
pub proof fn a_chunk_holds_five_levels(w: Seq<Written>, k: OctreeKey)
    ensures
        order(w, k) == level_below(w, k, 0) + level_below(w, k, 1) + level_below(w, k, 2)
            + level_below(w, k, 3) + level_below(w, k, 4),
        cut(w, k) == level_below(w, k, 4),
        own_size(w, k) == 22 * order(w, k).len(),
        level_below(w, k, 0) == seq![k],
{
}

/// The first address of some nodes comes before every other.
pub proof fn the_first_address_comes_first(w: Seq<Written>, i: int)
    requires
        0 <= i < w.len(),
    ensures
        crate::write::keys::packed(first_key(w)) <= crate::write::keys::packed(w[i].key),
        exists|j: int| 0 <= j < w.len() && (#[trigger] w[j]).key == first_key(w),
    decreases w.len(),
{
    if w.len() == 1 {
        assert(w[0].key == first_key(w));
    } else {
        let f = w.drop_last();
        the_first_address_comes_first(f, 0);
        if i < w.len() - 1 {
            the_first_address_comes_first(f, i);
            assert(f[i] == w[i]);
        }
        let j = choose|j: int| 0 <= j < f.len() && (#[trigger] f[j]).key == first_key(f);
        assert(w[j].key == f[j].key);
        assert(w[w.len() - 1] == w.last());
    }
}

/// The root chunk of a hierarchy stands at its start, and the chunks below it behind
/// it.
pub proof fn the_root_chunk_comes_first(w: Seq<Written>)
    ensures
        ({
            let k = first_key(w);
            let b = below(w, k, cut(w, k).len() as int, own_size(w, k));
            &&& hierarchy_of(w) == own_records(w, k, b.1) + b.0
        }),
{
}

/// Whether bytes are an entry: the address in four numbers of four bytes, the place
/// in eight, the bytes and the points in four each.
pub open spec fn is_entry(
    b: Seq<u8>,
    key: OctreeKey,
    offset: u64,
    byte_size: int,
    points: int,
) -> bool {
    &&& b.len() == 32
    &&& b.subrange(0, 4) == bytes32(key.level as int)
    &&& b.subrange(4, 8) == bytes32(key.x as int)
    &&& b.subrange(8, 12) == bytes32(key.y as int)
    &&& b.subrange(12, 16) == bytes32(key.z as int)
    &&& b.subrange(16, 24) == bytes64(offset as int)
    &&& b.subrange(24, 28) == bytes32(byte_size)
    &&& b.subrange(28, 32) == bytes32(points)
}

/// An entry of a COPC page names a node with its points, or a page with minus one.
#[verifier::spinoff_prover]
pub proof fn an_entry_is_laid_out(key: OctreeKey, offset: u64, byte_size: u64, points: u64)
    requires
        byte_size <= u32::MAX,
        points <= u32::MAX,
    ensures
        is_entry(
            entry_put(Entry::Node { key, offset, byte_size, point_count: points }),
            key,
            offset,
            byte_size as int,
            points as int,
        ),
        is_entry(
            entry_put(Entry::Page { key, offset, byte_size }),
            key,
            offset,
            byte_size as int,
            0xffff_ffff,
        ),
{
    reveal(entry_put);
    lemma_entry(key, offset, byte_size as int, points as int);
    lemma_entry(key, offset, byte_size as int, 0xffff_ffff);
    lemma_small(byte_size);
    lemma_small(points);
}

proof fn lemma_small(n: u64)
    requires
        n <= u32::MAX,
    ensures
        n as int % 0x1_0000_0000 == n,
{
}

#[verifier::spinoff_prover]
proof fn lemma_entry(key: OctreeKey, offset: u64, byte_size: int, points: int)
    ensures
        is_entry(entry_bytes(key, offset, byte_size, points), key, offset, byte_size, points),
{
    let n = entry_bytes(key, offset, byte_size, points);
    assert(n.subrange(0, 4) =~= bytes32(key.level as int));
    assert(n.subrange(4, 8) =~= bytes32(key.x as int));
    assert(n.subrange(8, 12) =~= bytes32(key.y as int));
    assert(n.subrange(12, 16) =~= bytes32(key.z as int));
    assert(n.subrange(16, 24) =~= bytes64(offset as int));
    assert(n.subrange(24, 28) =~= bytes32(byte_size));
    assert(n.subrange(28, 32) =~= bytes32(points));
}

/// Pages stand one behind the other, each with its entries in order.
pub proof fn pages_follow_each_other(
    pages: Seq<Seq<Entry>>,
    page: Seq<Entry>,
    list: Seq<Entry>,
    e: Entry,
)
    ensures
        pages_put(pages.push(page)) == pages_put(pages) + entries_put(page),
        pages_size(pages.push(page)) == pages_size(pages) + 32 * page.len(),
        entries_put(list.push(e)) == entries_put(list) + entry_put(e),
        pages_put(Seq::empty()).len() == 0,
        entries_put(Seq::empty()).len() == 0,
{
    assert(pages.push(page).drop_last() =~= pages);
    assert(list.push(e).drop_last() =~= list);
}

/// The entry of a node that was written: its place, its bytes and its points. One
/// that only has nodes below it has none of them, and any other no entry.
pub proof fn a_node_has_its_entry(w: Seq<Written>, k: OctreeKey)
    ensures
        node_with(w, k) matches Some(n) ==> own_entry(w, k) == seq![
            Entry::Node {
                key: k,
                offset: n.byte_offset,
                byte_size: n.byte_size,
                point_count: n.points as u64,
            },
        ],
        node_with(w, k) is None ==> own_entry(w, k).len() <= 1 && forall|i: int|
            0 <= i < own_entry(w, k).len() ==> #[trigger] own_entry(w, k)[i] == (Entry::Node {
                key: k,
                offset: 0,
                byte_size: 0,
                point_count: 0,
            }),
{
}

/// A subtree goes to a page of its own four levels down, where it has 32 nodes at
/// least; the page of which it is a part then names it by its place and size.
pub proof fn large_subtrees_get_a_page(w: Seq<Written>, k: OctreeKey, d: int, at: int)
    ensures
        d < 4 ==> !paged_out(w, k, d),
        d == 4 && subtree_size(w, k) >= 32 ==> paged_out(w, k, d),
        subtree_size(w, k) < 32 ==> !paged_out(w, k, d),
        paged_out(w, k, d) ==> ({
            let l = visit(w, k, d, at);
            let p = visit(w, k, 0, at);
            &&& l.own.len() == 1
            &&& l.pages == p.pages.push(p.own)
            &&& at + pages_size(p.pages) <= u64::MAX && 0 <= at + pages_size(p.pages) && 32
                * p.own.len() <= u64::MAX ==> l.own[0] == (Entry::Page {
                key: k,
                offset: (at + pages_size(p.pages)) as u64,
                byte_size: (32 * p.own.len()) as u64,
            })
        }),
        !paged_out(w, k, d) ==> visit(w, k, d, at).own == own_entry(w, k) + visit_kids(
            w,
            k,
            d,
            8,
            at,
        ).own,
{
}

/// The root page comes last.
pub proof fn the_root_page_comes_last(w: Seq<Written>, base: int)
    ensures
        all_pages(w, base).last() == whole_listing(w, base).own,
        all_pages(w, base).drop_last() == whole_listing(w, base).pages,
        whole_listing(w, base) == visit(w, top_key(w), 0, base),
{
    reveal(whole_listing);
    assert(all_pages(w, base).drop_last() =~= whole_listing(w, base).pages);
}

/// A node is described where it was written or stands above one that was.
pub proof fn ancestors_are_described(w: Seq<Written>, i: int, k: OctreeKey)
    requires
        0 <= i < w.len(),
    ensures
        described(w, w[i].key),
        w[i].key.level > 0 ==> described(w, w[i].key.spec_parent()->0),
        above(k, k),
{
    assert(above(w[i].key, w[i].key));
    if w[i].key.level > 0 {
        let p = w[i].key.spec_parent()->0;
        assert(above(p, p));
        assert(above(p, w[i].key));
    }
}

/// A page of EPT states the points of its first 512 nodes, and refers to the pages
/// of the others by minus one.
pub proof fn a_page_states_points(m: Map<OctreeKey, u64>, k: OctreeKey, i: int)
    requires
        0 <= i < page_nodes(m, k).len(),
    ensures
        ({
            let nodes = page_nodes(m, k);
            let e = entry(m, nodes, i);
            &&& page(m, k) matches Tree::Object(fields) && fields.len() == nodes.len() && fields[i]
                == e
            &&& e.0 == nodes[i].spec_ept_name()
            &&& i < 512 && m.contains_key(nodes[i]) ==> e.1 == Json::whole(m[nodes[i]])
            &&& i >= 512 ==> e.1.signed() == Some(-1i64)
            &&& nodes.len() <= 512 ==> deferred(m, k).len() == 0
            &&& nodes.len() > 512 ==> deferred(m, k) == nodes.skip(512)
            &&& page_path(k) == "ept-hierarchy/"@ + k.spec_ept_name() + ".json"@
        }),
{
}

/// A page starts with its node and goes on level by level: the children of each of
/// its nodes come behind those that are there, while it has room.
pub proof fn a_page_goes_level_by_level(m: Map<OctreeKey, u64>, list: Seq<OctreeKey>, i: int)
    requires
        0 <= i,
    ensures
        i < list.len() && i < 512 ==> filled(m, list, i) == filled(
            m,
            list + crate::write::ept::kids_below(m, list[i], 8),
            i + 1,
        ),
        i >= list.len() || i >= 512 ==> filled(m, list, i) == list,
{
}

/// The children of a node that were written, in ascending order.
pub proof fn written_children_are_listed(m: Map<OctreeKey, u64>, k: OctreeKey, n: int)
    requires
        0 <= n < 8,
        k.level < 0x7fff_ffff && k.x < 0x7fff_ffff && k.y < 0x7fff_ffff && k.z < 0x7fff_ffff,
    ensures
        ({
            let all = crate::write::ept::kids_below(m, k, n + 1);
            let before = crate::write::ept::kids_below(m, k, n);
            &&& m.contains_key(k.spec_child(n as u8)) ==> all == before.push(k.spec_child(n as u8))
            &&& !m.contains_key(k.spec_child(n as u8)) ==> all == before
        }),
{
}

/// The file of a node: `ept-data/`, its address and the extension of its encoding.
pub proof fn a_node_has_its_file(w: EptWriter, k: OctreeKey)
    ensures
        w.encoding == EptEncoding::Binary ==> w.path_of(k) == "ept-data/"@ + k.spec_ept_name()
            + "."@ + "bin"@,
        w.encoding == EptEncoding::Laszip ==> w.path_of(k) == "ept-data/"@ + k.spec_ept_name()
            + "."@ + "laz"@,
        EptEncoding::Binary.spelling() == "binary"@,
        EptEncoding::Laszip.spelling() == "laszip"@,
{
}

/// The header of a node's own file: its points and its extent, the place behind its
/// records, and no extended records.
pub proof fn a_node_file_is_numbered(
    options: WriteOptions,
    payload: Seq<u8>,
    count: u64,
    extent: Bounds,
)
    requires
        375 + records_put(node_records(options, payload)).len() <= u32::MAX,
        node_records(options, payload).len() <= u32::MAX,
    ensures
        ({
            let n = node_numbers(options, payload, count, extent);
            let r = node_records(options, payload);
            &&& n.point_count == count
            &&& n.min == extent.min && n.max == extent.max
            &&& n.offset_to_point_data == 375 + records_put(r).len()
            &&& n.vlr_count == r.len()
            &&& n.evlr_offset == 0 && n.evlr_count == 0
            &&& n.wkt == crate::write::front::declares_wkt(options.projection_vlrs@)
            &&& r.len() == 1 + common_records(options).len()
            &&& r[0].user_id == "laszip encoded"@ && r[0].record_id == 22204 && r[0].data == payload
            &&& r.skip(1) == common_records(options)
        }),
{
    reveal(node_records);
    assert(node_records(options, payload).skip(1) =~= common_records(options));
}

/// The corners of a box in a manifest are six numbers, the least corner first.
pub proof fn corners_are_six_numbers(b: Bounds, i: int)
    requires
        0 <= i < 3,
    ensures
        corners(b) == Json::fractions(b.min@ + b.max@),
        (b.min@ + b.max@).len() == 6,
        (b.min@ + b.max@)[i] == b.min@[i],
        (b.min@ + b.max@)[i + 3] == b.max@[i],
{
}

/// A reference system in a manifest: its text where it is WKT, else its code, else
/// nothing.
pub proof fn a_system_is_written(d: Declared)
    ensures
        d.format == CrsFormat::Wkt ==> srs_tree(Some(d)) == Tree::Object(
            seq![("wkt"@, Tree::Text(d.raw))],
        ),
        d.format != CrsFormat::Wkt ==> (d.epsg matches Some(n) ==> srs_tree(Some(d))
            == Tree::Object(
            seq![
                ("authority"@, Tree::Text("EPSG"@)),
                ("horizontal"@, Tree::Text(decimal(n as nat))),
            ],
        )),
        d.format != CrsFormat::Wkt && d.epsg is None ==> srs_tree(Some(d)) == Tree::Object(
            Seq::empty(),
        ),
        srs_tree(None) == Tree::Object(Seq::empty()),
{
}

/// The manifest of EPT, field by field.
pub proof fn an_ept_manifest_is_written(w: EptWriter)
    ensures
        ({
            let f = w.manifest_tree()->Object_0;
            &&& w.manifest_tree() is Object
            &&& f.len() == 9
            &&& f[0] == ("version"@, Tree::Text("1.0.0"@))
            &&& f[1] == ("bounds"@, Json::fractions(w.options.cube.min@ + w.options.cube.max@))
            &&& f[2] == (
                "boundsConforming"@,
                Json::fractions(w.options.extent.min@ + w.options.extent.max@),
            )
            &&& f[3] == ("dataType"@, Tree::Text(w.encoding.spelling()))
            &&& f[4] == ("hierarchyType"@, Tree::Text("json"@))
            &&& f[5] == ("points"@, Json::whole(w.points))
            &&& f[6] == ("span"@, Json::whole(w.options.span as u64))
            &&& f[7] == ("srs"@, srs_tree(declared(w.options.crs)))
            &&& f[8] == (
                "schema"@,
                Tree::Array(
                    schema_for(w.options).map_values(|f: FieldSpec| field_tree(f)),
                ),
            )
        }),
{
}

/// A field of a schema: its name, its size and its type, and for a coordinate its
/// quantum and origin.
pub proof fn a_field_is_written(f: FieldSpec)
    ensures
        ({
            let t = field_tree(f)->Object_0;
            &&& field_tree(f) is Object
            &&& t[0] == ("name"@, Tree::Text(f.name))
            &&& t[1] == ("size"@, Json::whole(f.size as u64))
            &&& t[2] == ("type"@, Tree::Text(f.kind))
            &&& f.placed is None ==> t.len() == 3
            &&& f.placed matches Some(p) ==> t.len() == 5 && t[3] == ("scale"@, Json::fraction(p.0))
                && t[4] == ("offset"@, Json::fraction(p.1))
        }),
{
}

/// Numbers in a document: a whole one is whole, a fraction is a fraction.
pub proof fn numbers_are_written(n: u64, x: Real, list: Seq<Real>, i: int)
    requires
        0 <= i < list.len(),
    ensures
        Json::whole(n).unsigned() == Some(n),
        Json::fraction(x).measure() == Some(x),
        Json::fraction(x).unsigned() is None,
        Json::fractions(list) matches Tree::Array(a) && a.len() == list.len() && a[i]
            == Json::fraction(list[i]),
{
}

/// A page goes down four levels: each child is one level deeper, as far as the cut.
pub proof fn pages_go_down_four_levels(d: int)
    ensures
        d < 4 ==> crate::write::copc_pages::deeper(d) == d + 1,
        d >= 4 ==> crate::write::copc_pages::deeper(d) == d,
{
}

} // verus!
