//! What a tile holds of the points of its node.

use crate::bytes::{bytes32, le32};
use crate::double::{ONE, ZERO};
use crate::json::{Json, Tree};
use crate::octree::OctreeKey;
use crate::write::copc_pages::described;
use crate::write::hierarchy::{can_split, Written};
use crate::write::tileset::{
    box_numbers, child_tile, colors_of, content_path, gltf_of, high_of, kid_trees, least, low_of,
    most, padded, positions_of, tile_colors, tile_tree, tiles, tiles_below, transform_numbers,
    upright, view_tree, views_of, Content, Geometry, Single, Triple,
};
use vstd::prelude::*;

verus! {

/// The position of each point stands in its own twelve bytes, turned from Z-up to
/// Y-up: the first axis, the third, and the second with its sign turned.
pub proof fn every_position_is_turned_in_its_place(points: Seq<Triple>, n: int, i: int)
    requires
        0 <= i < n <= points.len(),
    ensures
        positions_of(points, n).len() == 12 * n,
        le32(positions_of(points, n), 12 * i) == points[i].0.bits,
        le32(positions_of(points, n), 12 * i + 4) == points[i].2.bits,
        le32(positions_of(points, n), 12 * i + 8) == if points[i].1.bits < 0x8000_0000 {
            points[i].1.bits + 0x8000_0000
        } else {
            points[i].1.bits - 0x8000_0000
        },
    decreases n,
{
    let all = positions_of(points, n);
    let before = positions_of(points, n - 1);
    let p = upright(points[n - 1]);
    lemma_positions_len(points, n - 1);
    let at = 12 * (n - 1);
    if i < n - 1 {
        every_position_is_turned_in_its_place(points, n - 1, i);
        assert forall|j: int| 0 <= j < before.len() implies all[j] == before[j] by {}
    } else {
        let (a, b, c) = (bytes32(p.0.bits as int), bytes32(p.1.bits as int), bytes32(p.2.bits as int));
        crate::bytes::le32_reads_bytes32(p.0.bits as int);
        crate::bytes::le32_reads_bytes32(p.1.bits as int);
        crate::bytes::le32_reads_bytes32(p.2.bits as int);
        assert(all[at] == a[0] && all[at + 1] == a[1] && all[at + 2] == a[2] && all[at + 3] == a[3]);
        assert(all[at + 4] == b[0] && all[at + 5] == b[1] && all[at + 6] == b[2] && all[at + 7]
            == b[3]);
        assert(all[at + 8] == c[0] && all[at + 9] == c[1] && all[at + 10] == c[2] && all[at + 11]
            == c[3]);
    }
}

proof fn lemma_positions_len(points: Seq<Triple>, n: int)
    requires
        0 <= n,
    ensures
        positions_of(points, n).len() == 12 * n,
    decreases n,
{
    if n > 0 {
        lemma_positions_len(points, n - 1);
    }
}

/// No position lies outside of the corners that a tile states.
pub proof fn the_corners_hold_every_position(points: Seq<Triple>, n: int, i: int)
    requires
        0 <= i < n <= points.len(),
        points[i].0.rank() is Some,
        points[i].1.rank() is Some,
        points[i].2.rank() is Some,
    ensures
        ({
            let low = low_of(points, n);
            let high = high_of(points, n);
            let p = points[i];
            let y = if p.1.bits < 0x8000_0000 {
                Single { bits: (p.1.bits + 0x8000_0000) as u32 }
            } else {
                Single { bits: (p.1.bits - 0x8000_0000) as u32 }
            };
            &&& !p.0.below(low.0) && !high.0.below(p.0)
            &&& !p.2.below(low.1) && !high.1.below(p.2)
            &&& !y.below(low.2) && !high.2.below(y)
        }),
    decreases n,
{
    let p = upright(points[i]);
    lemma_ranked(points, n);
    lemma_ranked(points, n - 1);
    let l = low_of(points, n - 1);
    let h = high_of(points, n - 1);
    if i < n - 1 {
        the_corners_hold_every_position(points, n - 1, i);
    }
}

proof fn lemma_ranked(points: Seq<Triple>, n: int)
    ensures
        low_of(points, n).0.rank() is Some,
        low_of(points, n).1.rank() is Some,
        low_of(points, n).2.rank() is Some,
        high_of(points, n).0.rank() is Some,
        high_of(points, n).1.rank() is Some,
        high_of(points, n).2.rank() is Some,
    decreases n,
{
    if n > 0 {
        lemma_ranked(points, n - 1);
    }
}

/// Each corner that a tile states is that of a point: on each axis the least and
/// the greatest are taken by one of them, or the tile has no point there.
pub proof fn the_corners_are_those_of_points(points: Seq<Triple>, n: int)
    requires
        0 <= n <= points.len(),
    ensures
        low_of(points, n).0.bits == 0x7f80_0000 || exists|i: int|
            0 <= i < n && (#[trigger] points[i]).0 == low_of(points, n).0,
        high_of(points, n).0.bits == 0xff80_0000 || exists|i: int|
            0 <= i < n && (#[trigger] points[i]).0 == high_of(points, n).0,
        low_of(points, n).1.bits == 0x7f80_0000 || exists|i: int|
            0 <= i < n && (#[trigger] points[i]).2 == low_of(points, n).1,
        high_of(points, n).1.bits == 0xff80_0000 || exists|i: int|
            0 <= i < n && (#[trigger] points[i]).2 == high_of(points, n).1,
        low_of(points, n).2.bits == 0x7f80_0000 || exists|i: int|
            0 <= i < n && (#[trigger] points[i]).1.turned() == low_of(points, n).2,
        high_of(points, n).2.bits == 0xff80_0000 || exists|i: int|
            0 <= i < n && (#[trigger] points[i]).1.turned() == high_of(points, n).2,
    decreases n,
{
    if n > 0 {
        the_corners_are_those_of_points(points, n - 1);
        let p = points[n - 1];
        assert(p.0 == upright(p).0 && p.2 == upright(p).1 && p.1.turned() == upright(p).2);
    }
}

/// The order of numbers is that of the numbers: by sign, then by size.
pub proof fn singles_are_ordered_by_value(a: Single, b: Single)
    ensures
        a.bits < 0x7f80_0000 && b.bits < 0x7f80_0000 ==> (a.below(b) <==> a.bits < b.bits),
        0x8000_0000 < a.bits <= 0xff80_0000 && b.bits < 0x7f80_0000 ==> a.below(b),
        0x8000_0000 <= a.bits < 0xff80_0000 && 0x8000_0000 <= b.bits < 0xff80_0000 ==> (a.below(b)
            <==> a.bits > b.bits),
        a.turned().turned() == a,
        a.turned() != a,
        least(a, b) == a || least(a, b) == b,
        most(a, b) == a || most(a, b) == b,
{
}

/// Each point keeps its own colour: the high byte of each of its three channels.
pub proof fn every_point_keeps_its_color(records: Seq<u8>, stride: int, n: int, i: int, c: int)
    requires
        0 <= i < n,
        0 <= c < 3,
    ensures
        colors_of(records, stride, n).len() == 3 * n,
        colors_of(records, stride, n)[3 * i + c] == records[i * stride + 30 + 2 * c + 1],
    decreases n,
{
    let all = colors_of(records, stride, n);
    let before = colors_of(records, stride, n - 1);
    lemma_colors_len(records, stride, n - 1);
    if i < n - 1 {
        every_point_keeps_its_color(records, stride, n - 1, i, c);
        assert(all[3 * i + c] == before[3 * i + c]);
    } else {
        assert(c == 0 || c == 1 || c == 2);
    }
}

proof fn lemma_colors_len(records: Seq<u8>, stride: int, n: int)
    requires
        0 <= n,
    ensures
        colors_of(records, stride, n).len() == 3 * n,
    decreases n,
{
    if n > 0 {
        lemma_colors_len(records, stride, n - 1);
    }
}

/// A tile has colours exactly where the records of its node have.
pub proof fn a_tile_has_colors_where_its_records_do(
    records: Seq<u8>,
    layout: crate::record::RecordLayout,
    count: int,
)
    requires
        layout.wf(),
        0 <= count,
    ensures
        layout.format == 6 ==> tile_colors(records, layout, count) is None,
        layout.format == 7 || layout.format == 8 ==> (tile_colors(records, layout, count) matches Some(
            c,
        ) && c.len() == 3 * count && c == colors_of(
            records,
            layout.base + layout.extra,
            count,
        )),
{
    lemma_colors_len(records, layout.base + layout.extra, count);
}

/// Bytes are filled up to whole words, with fewer than four bytes behind them.
pub proof fn bytes_are_filled_up_to_words(b: Seq<u8>, fill: u8, i: int)
    ensures
        padded(b, fill).len() % 4 == 0,
        b.len() <= padded(b, fill).len() < b.len() + 4,
        b.is_prefix_of(padded(b, fill)),
        b.len() <= i < padded(b, fill).len() ==> padded(b, fill)[i] == fill,
{
    assert(b =~= padded(b, fill).take(b.len() as int));
}

/// A tile is framed as a GLB: its mark and version, its whole length, and its two
/// chunks, each with its length and its mark.
pub proof fn a_tile_is_framed(json: Seq<u8>, binary: Seq<u8>)
    requires
        json.len() + binary.len() + 32 < 0x1_0000_0000,
    ensures
        ({
            let b = crate::write::tileset::glb_of(json, binary);
            let n = padded(json, 32).len() as int;
            &&& b[0] == 'g' as u8 && b[1] == 'l' as u8 && b[2] == 'T' as u8 && b[3] == 'F' as u8
            &&& le32(b, 4) == 2
            &&& le32(b, 8) == b.len()
            &&& le32(b, 12) == n
            &&& b[16] == 'J' as u8 && b[17] == 'S' as u8 && b[18] == 'O' as u8 && b[19] == 'N' as u8
            &&& b.subrange(20, 20 + json.len() as int) == json
            &&& le32(b, 20 + n) == binary.len()
            &&& b[24 + n] == 'B' as u8 && b[25 + n] == 'I' as u8 && b[26 + n] == 'N' as u8 && b[27
                + n] == 0
            &&& b.skip(28 + n) == binary
        }),
{
    let b = crate::write::tileset::glb_of(json, binary);
    let text = padded(json, 32);
    let n = text.len() as int;
    bytes_are_filled_up_to_words(json, 32, 0);
    let total = 28int + text.len() + binary.len();
    let (p0, p4, p6) = (bytes32(0x4654_6c67), bytes32(0x4e4f_534a), bytes32(0x004e_4942));
    let (p1, p2, p3, p5) = (bytes32(2), bytes32(total), bytes32(n), bytes32(binary.len() as int));
    lemma_pieces(json, binary);
    lemma_marks();
    lemma_frame(p0, p1, p2, p3, p4, text, p5, p6, binary);
    lemma_word(2);
    lemma_word(total);
    lemma_word(n);
    lemma_word(binary.len() as int);
    assert(b.subrange(20, 20 + json.len() as int) =~= text.take(json.len() as int));
}

proof fn lemma_word(n: int)
    requires
        0 <= n < 0x1_0000_0000,
    ensures
        le32(bytes32(n), 0) == n,
        bytes32(n).len() == 4,
{
    crate::bytes::le32_reads_bytes32(n);
}

proof fn lemma_marks()
    ensures
        bytes32(0x4654_6c67) == seq![103u8, 108u8, 84u8, 70u8],
        bytes32(0x4e4f_534a) == seq![74u8, 83u8, 79u8, 78u8],
        bytes32(0x004e_4942) == seq![66u8, 73u8, 78u8, 0u8],
{
    assert(bytes32(0x4654_6c67) =~= seq![103u8, 108u8, 84u8, 70u8]);
    assert(bytes32(0x4e4f_534a) =~= seq![74u8, 83u8, 79u8, 78u8]);
    assert(bytes32(0x004e_4942) =~= seq![66u8, 73u8, 78u8, 0u8]);
}

proof fn lemma_pieces(json: Seq<u8>, binary: Seq<u8>)
    requires
        json.len() + binary.len() + 32 < 0x1_0000_0000,
    ensures
        ({
            let text = padded(json, 32);
            crate::write::tileset::glb_of(json, binary) == bytes32(0x4654_6c67) + bytes32(2)
                + bytes32(28int + text.len() + binary.len()) + bytes32(text.len() as int) + bytes32(
                0x4e4f_534a,
            ) + text + bytes32(binary.len() as int) + bytes32(0x004e_4942) + binary
        }),
{
    reveal(crate::write::tileset::glb_of);
    bytes_are_filled_up_to_words(json, 32, 0);
    let text = padded(json, 32);
    vstd::arithmetic::div_mod::lemma_small_mod(
        (28 + text.len() + binary.len()) as nat,
        0x1_0000_0000,
    );
    vstd::arithmetic::div_mod::lemma_small_mod(text.len(), 0x1_0000_0000);
    vstd::arithmetic::div_mod::lemma_small_mod(binary.len(), 0x1_0000_0000);
}

#[verifier::spinoff_prover]
#[verifier::rlimit(40)]
proof fn lemma_frame(
    p0: Seq<u8>,
    p1: Seq<u8>,
    p2: Seq<u8>,
    p3: Seq<u8>,
    p4: Seq<u8>,
    text: Seq<u8>,
    p5: Seq<u8>,
    p6: Seq<u8>,
    binary: Seq<u8>,
)
    requires
        p0.len() == 4 && p1.len() == 4 && p2.len() == 4 && p3.len() == 4 && p4.len() == 4,
        p5.len() == 4 && p6.len() == 4,
    ensures
        ({
            let b = p0 + p1 + p2 + p3 + p4 + text + p5 + p6 + binary;
            let n = text.len() as int;
            &&& b.len() == 28 + n + binary.len()
            &&& b[0] == p0[0] && b[1] == p0[1] && b[2] == p0[2] && b[3] == p0[3]
            &&& le32(b, 4) == le32(p1, 0)
            &&& le32(b, 8) == le32(p2, 0)
            &&& le32(b, 12) == le32(p3, 0)
            &&& b[16] == p4[0] && b[17] == p4[1] && b[18] == p4[2] && b[19] == p4[3]
            &&& forall|i: int| 20 <= i < 20 + n ==> #[trigger] b[i] == text[i - 20]
            &&& le32(b, 20 + n) == le32(p5, 0)
            &&& b[24 + n] == p6[0] && b[25 + n] == p6[1] && b[26 + n] == p6[2] && b[27 + n] == p6[3]
            &&& b.skip(28 + n) == binary
        }),
{
    let b = p0 + p1 + p2 + p3 + p4 + text + p5 + p6 + binary;
    let n = text.len() as int;
    assert(b.skip(28 + n) =~= binary);
}

/// The document of a tile draws its points: floats of three for the positions with
/// their corners, normalised bytes of three for the colours, both as many as the
/// points, and the colours behind the positions in the buffer.
pub proof fn a_tile_describes_its_buffer(c: Content)
    ensures
        ({
            let t = gltf_of(c)->Object_0;
            let views = t[6].1->Array_0;
            let accessors = t[5].1->Array_0;
            let positions = accessors[0]->Object_0;
            let primitive = t[4].1->Array_0[0]->Object_0[0].1->Array_0[0]->Object_0;
            &&& t[4].0 == "meshes"@ && t[5].0 == "accessors"@ && t[6].0 == "bufferViews"@
                && t[7].0 == "buffers"@
            &&& t[7].1->Array_0[0]->Object_0[0] == ("byteLength"@, Json::whole(c.buffer_bytes))
            &&& primitive[0].1->Object_0[0] == ("POSITION"@, Json::whole(0))
            &&& primitive[1] == ("mode"@, Json::whole(0))
            &&& positions[0] == ("bufferView"@, Json::whole(0))
            &&& positions[1] == ("componentType"@, Json::whole(5126))
            &&& positions[2] == ("count"@, Json::whole(c.count))
            &&& positions[3] == ("type"@, Tree::Text("VEC3"@))
            &&& positions[4] == ("min"@, Json::fractions(c.min@))
            &&& positions[5] == ("max"@, Json::fractions(c.max@))
            &&& views[0]->Object_0[1] == ("byteOffset"@, Json::whole(0))
            &&& views[0]->Object_0[2] == ("byteLength"@, Json::whole(c.position_bytes))
            &&& c.color_bytes is None ==> views.len() == 1 && accessors.len() == 1
                && primitive[0].1->Object_0.len() == 1
            &&& c.color_bytes matches Some(n) ==> {
                let colors = accessors[1]->Object_0;
                &&& primitive[0].1->Object_0[1] == ("COLOR_0"@, Json::whole(1))
                &&& colors[0] == ("bufferView"@, Json::whole(1))
                &&& colors[1] == ("componentType"@, Json::whole(5121))
                &&& colors[2] == ("normalized"@, Tree::Bool(true))
                &&& colors[3] == ("count"@, Json::whole(c.count))
                &&& colors[4] == ("type"@, Tree::Text("VEC3"@))
                &&& views[1]->Object_0[1] == ("byteOffset"@, Json::whole(c.position_bytes))
                &&& views[1]->Object_0[2] == ("byteLength"@, Json::whole(n))
            }
        }),
{
    let views = views_of(c);
    assert(views[0] == view_tree(0, c.position_bytes));
}

/// The box of a tile lies about its centre, half an edge along each axis, and its
/// transform moves it there and does nothing else.
pub proof fn a_tile_lies_about_its_centre(g: Geometry, i: int)
    requires
        0 <= i < 16,
    ensures
        box_numbers(g).len() == 12,
        box_numbers(g)[3] == g.half[0],
        box_numbers(g)[7] == g.half[1],
        box_numbers(g)[11] == g.half[2],
        i < 12 && i != 3 && i != 7 && i != 11 ==> box_numbers(g)[i].bits == ZERO,
        transform_numbers(g).len() == 16,
        transform_numbers(g)[12] == g.centre[0],
        transform_numbers(g)[13] == g.centre[1],
        transform_numbers(g)[14] == g.centre[2],
        i == 0 || i == 5 || i == 10 || i == 15 ==> transform_numbers(g)[i].bits == ONE,
        i < 12 && i != 0 && i != 5 && i != 10 ==> transform_numbers(g)[i].bits == ZERO,
        ZERO == 0,
        ONE == 0x3ff0_0000_0000_0000,
{
}

/// The geometry of a tile stands where the tile stands among the tiles: first
/// that of a parent, then those of its children one after the other.
pub proof fn a_child_has_the_geometry_of_its_place(
    w: Seq<Written>,
    k: OctreeKey,
    geo: Seq<Geometry>,
    i: int,
    c: int,
)
    requires
        can_split(k),
        0 <= c < 8,
        described(w, child_tile(k, c)),
    ensures
        ({
            let place = 1 + tiles_below(w, k, c).len() as int;
            &&& tiles(w, k)[0] == k
            &&& tiles(w, k)[place] == child_tile(k, c)
            &&& kid_trees(w, k, geo, i, 8).contains(tile_tree(w, child_tile(k, c), geo, i + place))
        }),
{
    lemma_child_stands(w, k, geo, i, c, 8);
    let rest = tiles_below(w, k, 8);
    assert(tiles(w, k)[1 + tiles_below(w, k, c).len() as int] == rest[tiles_below(w, k, c).len() as int]);
}

proof fn lemma_child_stands(
    w: Seq<Written>,
    k: OctreeKey,
    geo: Seq<Geometry>,
    i: int,
    c: int,
    n: int,
)
    requires
        can_split(k),
        0 <= c < n <= 8,
        described(w, child_tile(k, c)),
    ensures
        tiles_below(w, k, c).len() < tiles_below(w, k, n).len(),
        tiles_below(w, k, n)[tiles_below(w, k, c).len() as int] == child_tile(k, c),
        kid_trees(w, k, geo, i, n).contains(
            tile_tree(w, child_tile(k, c), geo, i + 1 + tiles_below(w, k, c).len()),
        ),
    decreases n,
{
    let before = tiles_below(w, k, n - 1);
    let kids = kid_trees(w, k, geo, i, n - 1);
    let all = kid_trees(w, k, geo, i, n);
    if c == n - 1 {
        assert(tiles(w, child_tile(k, c))[0] == child_tile(k, c));
        assert(all[kids.len() as int] == tile_tree(
            w,
            child_tile(k, c),
            geo,
            i + 1 + tiles_below(w, k, c).len(),
        ));
    } else {
        lemma_child_stands(w, k, geo, i, c, n - 1);
        let t = tile_tree(w, child_tile(k, c), geo, i + 1 + tiles_below(w, k, c).len());
        let j = choose|j: int| 0 <= j < kids.len() && kids[j] == t;
        assert(all[j] == t);
    }
}

/// The content of a tile is named after its address, and its children are the
/// eight of the octree, the first axis changing fastest.
pub proof fn a_tile_is_named_after_its_address(k: OctreeKey, c: int)
    requires
        can_split(k),
        0 <= c < 8,
    ensures
        content_path(k) == "content/"@ + k.spec_ept_name() + ".glb"@,
        child_tile(k, c).level == k.level + 1,
        child_tile(k, c).x == 2 * k.x + c % 2,
        child_tile(k, c).y == 2 * k.y + c / 2 % 2,
        child_tile(k, c).z == 2 * k.z + c / 4,
{
    assert(c == 0 || c == 1 || c == 2 || c == 3 || c == 4 || c == 5 || c == 6 || c == 7);
}

} // verus!
