//! What stays and what changes when a cloud is stored another way.

use crate::attribute::Column;
use crate::bytes::{bytes32, le16, le32};
use crate::format::potree::PotreeNodeRef;
use crate::json::{field, Json, Tree};
use crate::optimize::{
    cell_for, decoded, entries_named, gone, kept, position_notices, rewritten, target_of,
    unknown_notices, with_field, Optimizer,
};
use crate::write::blocks::{
    blocks_of, coded_place, coded_stride, is_negative, place, records_of, stride, Cell, Coding,
};
use crate::write::morton::{byte_code, color_bytes, low_dword, position_bytes, woven};
use crate::write::potree::PotreeEncoding;
use vstd::prelude::*;

verus! {

/// A name that was asked for is dropped unless it is the position; any other stays.
/// Both are listed in the order of the manifest.
pub proof fn what_is_asked_for_is_dropped(all: Seq<Column>, drop: Seq<Seq<char>>, c: Column)
    ensures
        ({
            let position = c.name == "position"@ || c.name == "POSITION_CARTESIAN"@;
            let goes = drop.contains(c.name) && !position;
            &&& goes ==> kept(all.push(c), drop) == kept(all, drop) && gone(all.push(c), drop)
                == gone(all, drop).push(c.name)
            &&& !goes ==> kept(all.push(c), drop) == kept(all, drop).push(all.len() as int) && gone(
                all.push(c),
                drop,
            ) == gone(all, drop)
            &&& drop.contains(c.name) && position ==> position_notices(
                all.push(c),
                drop,
            ).len() == position_notices(all, drop).len() + 1 && position_notices(
                all.push(c),
                drop,
            ).last().code == "position-kept"@
            &&& goes || !drop.contains(c.name) ==> position_notices(all.push(c), drop)
                == position_notices(all, drop)
        }),
{
    assert(all.push(c).drop_last() =~= all);
    reveal_strlit("position");
    reveal_strlit("POSITION_CARTESIAN");
    reveal_strlit("rgb");
    reveal_strlit("rgba");
    reveal_strlit("RGBA");
    assert("position"@.len() == 8 && "POSITION_CARTESIAN"@.len() == 18 && "rgb"@.len() == 3);
    assert("rgba"@.len() == 4 && "RGBA"@.len() == 4);
}

/// A name that no attribute has is warned of.
pub proof fn unknown_names_are_warned_of(all: Seq<Column>, drop: Seq<Seq<char>>, name: Seq<char>)
    ensures
        (exists|i: int| 0 <= i < all.len() && (#[trigger] all[i]).name == name) ==> unknown_notices(
            all,
            drop.push(name),
        ) == unknown_notices(all, drop),
        (forall|i: int| 0 <= i < all.len() ==> (#[trigger] all[i]).name != name) ==> ({
            let n = unknown_notices(all, drop.push(name));
            &&& n.len() == unknown_notices(all, drop).len() + 1
            &&& n.last().code == "no-such-attribute"@
            &&& n.last().path == name
        }),
{
    assert(drop.push(name).drop_last() =~= drop);
}

/// The encoding that is written is the one asked for, or the one there is.
pub proof fn the_encoding_is_kept_unless_asked(source: Seq<char>, e: PotreeEncoding)
    ensures
        target_of(Some(e), source) == e,
        target_of(None, "BROTLI"@) == PotreeEncoding::Brotli,
        source != "BROTLI"@ ==> target_of(None, source) == PotreeEncoding::Default,
        PotreeEncoding::Brotli.spelling() == "BROTLI"@,
        PotreeEncoding::Default.spelling() == "DEFAULT"@,
{
}

/// In compressed blocks the position takes 16 bytes and the colour eight, and any
/// other attribute what it took.
pub proof fn attributes_are_coded_by_their_part(c: Column)
    ensures
        ({
            let cell = cell_for(c);
            &&& c.name == "position"@ ==> cell.coding == Coding::Position && cell.spec_width() == 16
            &&& c.name == "rgb"@ || c.name == "rgba"@ || c.name == "RGBA"@ ==> cell.coding
                == Coding::Color && cell.spec_width() == 8
            &&& c.name == "intensity"@ ==> cell.coding == Coding::Plain && cell.spec_width()
                == cell.size
            &&& c.num_elements * c.kind.width() <= usize::MAX ==> cell.size == c.num_elements
                * c.kind.width()
        }),
{
    reveal_strlit("position");
    reveal_strlit("POSITION_CARTESIAN");
    reveal_strlit("rgb");
    reveal_strlit("rgba");
    reveal_strlit("RGBA");
    reveal_strlit("intensity");
    assert("position"@.len() == 8 && "POSITION_CARTESIAN"@.len() == 18 && "rgb"@.len() == 3);
    assert("rgba"@.len() == 4 && "RGBA"@.len() == 4 && "intensity"@.len() == 9);
    if c.num_elements * c.kind.width() <= usize::MAX {
        let n = c.num_elements * c.kind.width();
        assert(n >= 0) by (nonlinear_arith)
            requires
                n == c.num_elements * c.kind.width(),
        ;
        vstd::arithmetic::div_mod::lemma_small_mod(n as nat, (usize::MAX + 1) as nat);
    }
}

/// The attributes of a record stand one behind the other, as they are and coded.
pub proof fn attributes_stand_one_behind_the_other(cells: Seq<Cell>, j: int)
    requires
        0 <= j < cells.len(),
    ensures
        place(cells, 0) == 0 && coded_place(cells, 0) == 0,
        place(cells, j + 1) == place(cells, j) + cells[j].size,
        cells[j].coding == Coding::Position ==> coded_place(cells, j + 1) == coded_place(cells, j)
            + 16,
        cells[j].coding == Coding::Color ==> coded_place(cells, j + 1) == coded_place(cells, j) + 8,
        cells[j].coding == Coding::Plain ==> coded_place(cells, j + 1) == coded_place(cells, j)
            + cells[j].size,
        stride(cells) == place(cells, cells.len() as int),
        coded_stride(cells) == coded_place(cells, cells.len() as int),
{
}

/// Attribute `k` of point `l` stands in the block of the attribute, at the place of
/// the point.
pub proof fn an_attribute_stands_in_its_block(
    bytes: Seq<u8>,
    cells: Seq<Cell>,
    count: int,
    k: int,
    l: int,
)
    requires
        0 <= k < cells.len(),
        0 <= l < count,
        stride(cells) * count <= bytes.len(),
    ensures
        ({
            let at = place(cells, k) * count + l * cells[k].size;
            let from = l * stride(cells) + place(cells, k);
            blocks_of(bytes, cells, count).subrange(at, at + cells[k].size) == bytes.subrange(
                from,
                from + cells[k].size,
            )
        }),
{
    crate::write::blocks::lemma_block_at(bytes, cells, count, k, l);
}

/// A position is negative where one of its three numbers is, as signed numbers go.
pub proof fn a_negative_position_is_seen(v: Seq<u8>)
    ensures
        is_negative(v) <==> le32(v, 0) >= 0x8000_0000 || le32(v, 4) >= 0x8000_0000 || le32(v, 8)
            >= 0x8000_0000,
{
}

/// The codes of a value: the three numbers of a position at bytes 0, 4 and 8, the
/// three channels of a colour at 0, 2 and 4, and any other value as it is.
pub proof fn values_are_coded_by_their_numbers(cell: Cell, v: Seq<u8>)
    ensures
        cell.coding == Coding::Position ==> cell.coded(v) == position_bytes(
            le32(v, 0) as u32,
            le32(v, 4) as u32,
            le32(v, 8) as u32,
        ),
        cell.coding == Coding::Color ==> cell.coded(v) == color_bytes(
            le16(v, 0) as u16,
            le16(v, 2) as u16,
            le16(v, 4) as u16,
        ),
        cell.coding == Coding::Plain ==> cell.coded(v) == v && cell.plain(v) == v,
{
}

/// A code has the bits of a byte of each number in turns: x, then y, then z.
pub proof fn bytes_take_turns(x: u32, y: u32, z: u32, i: u32)
    requires
        i < 8,
    ensures
        (woven(x, y, z) >> (3 * i) as u32) & 1 == (x >> i) & 1,
        (woven(x, y, z) >> (3 * i + 1) as u32) & 1 == (y >> i) & 1,
        (woven(x, y, z) >> (3 * i + 2) as u32) & 1 == (z >> i) & 1,
        woven(x, y, z) < 0x100_0000,
{
    lemma_turns(x, y, z, i);
}

proof fn lemma_turns(x: u32, y: u32, z: u32, i: u32)
    by (bit_vector)
    requires
        i < 8,
    ensures
        (woven(x, y, z) >> (3 * i) as u32) & 1 == (x >> i) & 1,
        (woven(x, y, z) >> (3 * i + 1) as u32) & 1 == (y >> i) & 1,
        (woven(x, y, z) >> (3 * i + 2) as u32) & 1 == (z >> i) & 1,
        woven(x, y, z) < 0x100_0000,
{
}

/// The record of a position: the codes of its two high bytes first, then those of
/// its two low ones, each pair in eight bytes with the lower code first. That of a
/// colour is one such pair.
pub proof fn high_codes_come_first(x: u32, y: u32, z: u32, r: u16, g: u16, b: u16)
    ensures
        ({
            let p = position_bytes(x, y, z);
            &&& p.len() == 16
            &&& p.subrange(0, 4) == bytes32(
                low_dword(byte_code(x, y, z, 2), byte_code(x, y, z, 3)) as int,
            )
            &&& p.subrange(4, 8) == bytes32((byte_code(x, y, z, 3) >> 8) as int)
            &&& p.subrange(8, 12) == bytes32(
                low_dword(byte_code(x, y, z, 0), byte_code(x, y, z, 1)) as int,
            )
            &&& p.subrange(12, 16) == bytes32((byte_code(x, y, z, 1) >> 8) as int)
        }),
        ({
            let c = color_bytes(r, g, b);
            let (u, v, w) = (r as u32, g as u32, b as u32);
            &&& c.len() == 8
            &&& c.subrange(0, 4) == bytes32(
                low_dword(byte_code(u, v, w, 0), byte_code(u, v, w, 1)) as int,
            )
            &&& c.subrange(4, 8) == bytes32((byte_code(u, v, w, 1) >> 8) as int)
        }),
        forall|low: u32, high: u32| #[trigger] low_dword(low, high) == low | ((high & 0xff) << 24),
{
    let p = position_bytes(x, y, z);
    let c = color_bytes(r, g, b);
    let (u, v, w) = (r as u32, g as u32, b as u32);
    assert(p.subrange(0, 4) =~= bytes32(
        low_dword(byte_code(x, y, z, 2), byte_code(x, y, z, 3)) as int,
    ));
    assert(p.subrange(4, 8) =~= bytes32((byte_code(x, y, z, 3) >> 8) as int));
    assert(p.subrange(8, 12) =~= bytes32(
        low_dword(byte_code(x, y, z, 0), byte_code(x, y, z, 1)) as int,
    ));
    assert(p.subrange(12, 16) =~= bytes32((byte_code(x, y, z, 1) >> 8) as int));
    assert(c.subrange(0, 4) =~= bytes32(
        low_dword(byte_code(u, v, w, 0), byte_code(u, v, w, 1)) as int,
    ));
    assert(c.subrange(4, 8) =~= bytes32((byte_code(u, v, w, 1) >> 8) as int));
}

/// A node that was taken in stands behind those before it with its key, its points
/// and its new bytes; what it had and what it has are counted.
pub proof fn a_node_is_taken_in(
    o: Optimizer,
    node: PotreeNodeRef,
    payload: Seq<u8>,
    bytes: Seq<u8>,
    after: Optimizer,
)
    requires
        o.takes(node, payload, bytes, after),
        node.point_count > 0,
        node.byte_size > 0,
        o.at + bytes.len() <= u64::MAX,
        o.bytes_before + node.byte_size <= u64::MAX,
        o.bytes_after + bytes.len() <= u64::MAX,
        o.points + node.point_count <= u64::MAX,
    ensures
        after.written@.len() == o.written@.len() + 1,
        after.written@.drop_last() == o.written@,
        after.written@.last().key == node.key,
        after.written@.last().points == node.point_count,
        after.written@.last().byte_offset == o.at,
        after.written@.last().byte_size == bytes.len(),
        after.at == o.at + bytes.len(),
        after.bytes_before == o.bytes_before + node.byte_size,
        after.bytes_after == o.bytes_after + bytes.len(),
        after.points == o.points + node.point_count,
        decoded(payload, o.cells@, node.point_count as int, o.source_brotli) is Ok,
        o.target == PotreeEncoding::Default ==> bytes == records_of(
            decoded(payload, o.cells@, node.point_count as int, o.source_brotli)->Ok_0,
            o.parts@,
            node.point_count as int,
        ),
{
    reveal(Optimizer::encodes);
    assert(after.written@.drop_last() =~= o.written@);
}

/// A node without points or bytes keeps its place in the tree, and has no bytes.
pub proof fn an_empty_node_is_kept(
    o: Optimizer,
    node: PotreeNodeRef,
    payload: Seq<u8>,
    bytes: Seq<u8>,
    after: Optimizer,
)
    requires
        o.takes(node, payload, bytes, after),
        node.point_count == 0 || node.byte_size == 0,
    ensures
        bytes.len() == 0,
        after.written@.len() == o.written@.len() + 1,
        after.written@.last().key == node.key,
        after.written@.last().points == node.point_count,
        after.written@.last().byte_size == 0,
        after.at == o.at && after.points == o.points,
{
}

/// A payload is refused where it is shorter than its points need.
pub proof fn a_short_payload_is_refused(bytes: Seq<u8>, cells: Seq<Cell>, count: int)
    ensures
        bytes.len() < stride(cells) * count ==> decoded(bytes, cells, count, false) is Err,
        bytes.len() >= stride(cells) * count ==> decoded(bytes, cells, count, false) == Ok::<
            Seq<u8>,
            crate::error::Failure,
        >(blocks_of(bytes, cells, count)),
        crate::codec::brotli_unpacked(bytes) is Err ==> decoded(bytes, cells, count, true) is Err,
        crate::codec::brotli_unpacked(bytes) matches Ok(raw) ==> (raw.len() < coded_stride(cells)
            * count ==> decoded(bytes, cells, count, true) is Err),
{
}

/// A field of a manifest is replaced where it stands, or put behind the others, and
/// no other field changes.
pub proof fn a_field_is_replaced_in_its_place(
    fields: Seq<(Seq<char>, Tree)>,
    key: Seq<char>,
    value: Tree,
    other: Seq<char>,
)
    requires
        other != key,
    ensures
        field(with_field(fields, key, value), key) == Some(value),
        field(with_field(fields, key, value), other) == field(fields, other),
        with_field(fields, key, value).len() == fields.len() || with_field(fields, key, value).len()
            == fields.len() + 1,
    decreases fields.len(),
{
    let out = with_field(fields, key, value);
    if fields.len() == 0 {
        assert(out =~= seq![(key, value)]);
        assert(out.skip(1) =~= fields);
    } else if fields[0].0 == key {
        assert(out[0] == (key, value));
        assert(out.skip(1) =~= fields.skip(1));
    } else {
        let rest = fields.skip(1);
        a_field_is_replaced_in_its_place(rest, key, value, other);
        lemma_field_at(fields, key, 1);
        let at = crate::optimize::field_at(fields, key, 0);
        assert(at == crate::optimize::field_at(fields, key, 1));
        assert(out.skip(1) =~= with_field(rest, key, value));
        assert(out[0] == fields[0]);
    }
}

proof fn lemma_field_at(fields: Seq<(Seq<char>, Tree)>, key: Seq<char>, from: int)
    requires
        1 <= from <= fields.len(),
    ensures
        crate::optimize::field_at(fields, key, from) == 1 + crate::optimize::field_at(
            fields.skip(1),
            key,
            from - 1,
        ),
        from <= crate::optimize::field_at(fields, key, from) <= fields.len(),
    decreases fields.len() - from,
{
    if from < fields.len() {
        assert(fields.skip(1)[from - 1] == fields[from]);
        if fields[from].0 != key {
            lemma_field_at(fields, key, from + 1);
        }
    }
}

/// A rewritten manifest says the new encoding, and everything that is not the
/// encoding, the hierarchy or the attributes as before.
pub proof fn a_manifest_is_rewritten(
    fields: Seq<(Seq<char>, Tree)>,
    encoding: Seq<char>,
    first: u64,
    names: Seq<Seq<char>>,
    other: Seq<char>,
)
    requires
        other != "encoding"@,
        other != "hierarchy"@,
        other != "attributes"@,
    ensures
        field(rewritten(fields, encoding, first, names), "encoding"@) == Some(Tree::Text(encoding)),
        field(rewritten(fields, encoding, first, names), other) == field(fields, other),
        field(fields, "hierarchy"@) matches Some(Tree::Object(h)) ==> ({
            let t = field(rewritten(fields, encoding, first, names), "hierarchy"@);
            t matches Some(Tree::Object(g)) && field(g, "firstChunkSize"@) == Some(
                Json::whole(first),
            ) && field(g, "stepSize"@) == Some(Json::whole(5))
        }),
        field(fields, "attributes"@) matches Some(Tree::Array(list)) ==> field(
            rewritten(fields, encoding, first, names),
            "attributes"@,
        ) == Some(Tree::Array(entries_named(list, names))),
{
    reveal_strlit("encoding");
    reveal_strlit("hierarchy");
    reveal_strlit("attributes");
    reveal_strlit("firstChunkSize");
    reveal_strlit("stepSize");
    assert("encoding"@.len() == 8 && "hierarchy"@.len() == 9 && "attributes"@.len() == 10);
    assert("firstChunkSize"@.len() == 14 && "stepSize"@.len() == 8);
    let e = Tree::Text(encoding);
    let a = with_field(fields, "encoding"@, e);
    a_field_is_replaced_in_its_place(fields, "encoding"@, e, other);
    a_field_is_replaced_in_its_place(fields, "encoding"@, e, "hierarchy"@);
    a_field_is_replaced_in_its_place(fields, "encoding"@, e, "attributes"@);
    let b = match field(a, "hierarchy"@) {
        Some(Tree::Object(h)) => {
            let g = with_field(h, "firstChunkSize"@, Json::whole(first));
            let t = Tree::Object(with_field(g, "stepSize"@, Json::whole(5)));
            a_field_is_replaced_in_its_place(
                h,
                "firstChunkSize"@,
                Json::whole(first),
                "stepSize"@,
            );
            a_field_is_replaced_in_its_place(g, "stepSize"@, Json::whole(5), "firstChunkSize"@);
            a_field_is_replaced_in_its_place(a, "hierarchy"@, t, other);
            a_field_is_replaced_in_its_place(a, "hierarchy"@, t, "encoding"@);
            a_field_is_replaced_in_its_place(a, "hierarchy"@, t, "attributes"@);
            with_field(a, "hierarchy"@, t)
        },
        _ => a,
    };
    if let Some(Tree::Array(list)) = field(b, "attributes"@) {
        let t = Tree::Array(entries_named(list, names));
        a_field_is_replaced_in_its_place(b, "attributes"@, t, other);
        a_field_is_replaced_in_its_place(b, "attributes"@, t, "encoding"@);
        a_field_is_replaced_in_its_place(b, "attributes"@, t, "hierarchy"@);
    }
}

/// The entries of the attributes that stay are kept as they are, in order.
pub proof fn entries_that_stay_are_kept(list: Seq<Tree>, names: Seq<Seq<char>>, t: Tree)
    ensures
        t.text_at("name"@) matches Some(n) ==> (names.contains(n) ==> entries_named(
            list.push(t),
            names,
        ) == entries_named(list, names).push(t)),
        t.text_at("name"@) matches Some(n) ==> (!names.contains(n) ==> entries_named(
            list.push(t),
            names,
        ) == entries_named(list, names)),
        entries_named(Seq::empty(), names).len() == 0,
{
    assert(list.push(t).drop_last() =~= list);
}

/// A value is wide enough for its coding where a position has twelve bytes and a
/// colour six.
pub proof fn codings_need_their_bytes(cell: Cell)
    ensures
        cell.coding == Coding::Position ==> (cell.wf() <==> cell.size >= 12),
        cell.coding == Coding::Color ==> (cell.wf() <==> cell.size >= 6),
        cell.coding == Coding::Plain ==> cell.wf(),
{
}

/// A cloud has a negative position where one of its points does, in an attribute
/// that is a position.
pub proof fn any_negative_position_is_seen(
    blocks: Seq<u8>,
    parts: Seq<crate::write::blocks::Part>,
    count: int,
    j: int,
    i: int,
)
    requires
        0 <= j < parts.len(),
        0 <= i < count,
    ensures
        ({
            let at = parts[j].start * count + i * parts[j].cell.size;
            let v = blocks.subrange(at, at + parts[j].cell.size);
            parts[j].cell.coding == Coding::Position && is_negative(v)
                ==> crate::write::blocks::any_negative(blocks, parts, count)
        }),
        (forall|j: int|
            0 <= j < parts.len() ==> (#[trigger] parts[j]).cell.coding != Coding::Position)
            ==> !crate::write::blocks::any_negative(blocks, parts, count),
{
    let v = crate::write::blocks::in_block(
        blocks,
        parts[j].start as int,
        parts[j].cell.size as int,
        count,
        i,
    );
}

/// That a position is negative is remembered, and only told where the coding has no
/// sign.
pub proof fn a_negative_position_is_remembered(
    o: Optimizer,
    node: PotreeNodeRef,
    payload: Seq<u8>,
    bytes: Seq<u8>,
    after: Optimizer,
)
    requires
        o.takes(node, payload, bytes, after),
    ensures
        o.negative_position ==> after.negative_position,
        o.target == PotreeEncoding::Default ==> after.negative_position == o.negative_position,
        o.target == PotreeEncoding::Brotli && node.point_count > 0 && node.byte_size > 0 && ({
            let blocks = decoded(payload, o.cells@, node.point_count as int, o.source_brotli);
            crate::write::blocks::any_negative(blocks->Ok_0, o.parts@, node.point_count as int)
        }) ==> after.negative_position,
{
}

} // verus!
