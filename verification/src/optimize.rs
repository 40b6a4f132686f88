//! The same cloud, better bytes.
//!
//! Re-encoding, not reconverting. The tree stays exactly as it is: every node
//! keeps its key, its point count and its place, and what changes is how the
//! points inside it are stored. The intermediate form is one block per
//! attribute; nothing is decoded into values, which is why an attribute this
//! code has never heard of survives untouched.

use crate::attribute::{columns, role_of, Attribute, AttributeRole, Column};
use crate::cloud::wrap64;
use crate::codec::{brotli_compress, brotli_decompress, brotli_unpacked, packs, BROTLI_WINDOW};
use crate::error::{Error, Failure};
use crate::format::potree::{whole_walk, PotreeCloud, PotreeNodeRef};
use crate::json::{field, tree_fields, trees, Fields, Json, Tree};
use crate::octree::OctreeKey;
use crate::text::{add_text, cat2, cat3, quoted, quoted_text, same, texts};
use crate::warning::{append, notices, notices_push, Notice, Warning};
use crate::write::blocks::{
    any_negative, blocks_of, coded_blocks, coded_place, coded_size, coded_stride, interleave,
    lemma_place_grows, parts_within, place, plain_blocks, record_size, records_of, stride,
    transpose, unweave, weave, whole, Cell, Coding, Part,
};
use crate::write::hierarchy::{
    first_key, hierarchy_bytes, hierarchy_of, keys_of, node_with, own_size, Written, STEP_SIZE,
};
use crate::write::keys::{last_at_is_there, pack, packed, packed_is_unique};
use crate::write::potree::PotreeEncoding;
use crate::write::read_back::{as_read, is_tree, written_hierarchy_reads_back};
use std::collections::HashMap;
use vstd::prelude::*;

verus! {

broadcast use vstd::std_specs::hash::group_hash_axioms;

/// What to re-encode, and how.
#[derive(Debug)]
pub struct OptimizeOptions {
    /// Where the cloud is read from and written to. Never looked at here.
    pub input: String,
    pub output: String,
    /// `None` keeps whatever the source used.
    pub encoding: Option<PotreeEncoding>,
    /// Attribute names to leave out, verbatim as the manifest spells them.
    pub drop: Vec<String>,
    /// Brotli quality, when the output is compressed.
    pub quality: u32,
}

impl OptimizeOptions {
    pub fn new(input: String, output: String) -> (o: Self)
        ensures
            o.input == input,
            o.output == output,
            o.encoding is None,
            o.drop@.len() == 0,
            o.quality == 6,
    {
        OptimizeOptions { input, output, encoding: None, drop: Vec::new(), quality: 6 }
    }
}

/// How an attribute goes into a compressed block, by the part it plays.
pub open spec fn cell_for(c: Column) -> Cell {
    Cell {
        coding: match role_of(c.name) {
            Some(AttributeRole::Position) => Coding::Position,
            Some(AttributeRole::Color) => Coding::Color,
            None => Coding::Plain,
        },
        size: c.bytes() as usize,
    }
}

/// How the attributes go into compressed blocks.
pub open spec fn cells_for(all: Seq<Column>) -> Seq<Cell> {
    all.map_values(|c: Column| cell_for(c))
}

fn make_cell(a: &Attribute) -> (c: Cell)
    ensures
        c == cell_for(a@),
{
    let coding = match a.role() {
        Some(AttributeRole::Position) => Coding::Position,
        Some(AttributeRole::Color) => Coding::Color,
        None => Coding::Plain,
    };
    Cell { coding, size: a.byte_size() }
}

/// How the attributes go into compressed blocks.
pub fn make_cells(attributes: &Vec<Attribute>) -> (out: Vec<Cell>)
    ensures
        out@ == cells_for(columns(attributes@)),
{
    let mut out: Vec<Cell> = Vec::new();
    let mut i: usize = 0;
    while i < attributes.len()
        invariant
            i <= attributes.len(),
            out@ == cells_for(columns(attributes@)).take(i as int),
        decreases attributes.len() - i,
    {
        out.push(make_cell(&attributes[i]));
        assert(out@ =~= cells_for(columns(attributes@)).take(i + 1));
        i = i + 1;
    }
    assert(out@ =~= cells_for(columns(attributes@)));
    out
}

/// Whether an attribute stays: it was not asked to be dropped, or it is the
/// position, without which a cloud is not a cloud.
pub open spec fn stays(c: Column, drop: Seq<Seq<char>>) -> bool {
    !drop.contains(c.name) || role_of(c.name) == Some(AttributeRole::Position)
}

/// Which attributes stay, in the manifest's own order.
pub open spec fn kept(all: Seq<Column>, drop: Seq<Seq<char>>) -> Seq<int>
    decreases all.len(),
{
    if all.len() == 0 {
        Seq::empty()
    } else if stays(all.last(), drop) {
        kept(all.drop_last(), drop).push(all.len() - 1)
    } else {
        kept(all.drop_last(), drop)
    }
}

/// The names of the attributes that go.
pub open spec fn gone(all: Seq<Column>, drop: Seq<Seq<char>>) -> Seq<Seq<char>>
    decreases all.len(),
{
    if all.len() == 0 {
        Seq::empty()
    } else if stays(all.last(), drop) {
        gone(all.drop_last(), drop)
    } else {
        gone(all.drop_last(), drop).push(all.last().name)
    }
}

/// What is said of a position that was asked to be dropped.
pub open spec fn position_notices(all: Seq<Column>, drop: Seq<Seq<char>>) -> Seq<Notice>
    decreases all.len(),
{
    if all.len() == 0 {
        Seq::empty()
    } else {
        let before = position_notices(all.drop_last(), drop);
        let c = all.last();
        if drop.contains(c.name) && role_of(c.name) == Some(AttributeRole::Position) {
            before.push(
                Notice {
                    code: "position-kept"@,
                    path: c.name,
                    message: "Position cannot be dropped; every other request was honoured."@,
                },
            )
        } else {
            before
        }
    }
}

/// Whether an attribute has a name.
pub open spec fn any_named(all: Seq<Column>, name: Seq<char>) -> bool {
    exists|i: int| 0 <= i < all.len() && (#[trigger] all[i]).name == name
}

/// What is said of names that no attribute has.
pub open spec fn unknown_notices(all: Seq<Column>, drop: Seq<Seq<char>>) -> Seq<Notice>
    decreases drop.len(),
{
    if drop.len() == 0 {
        Seq::empty()
    } else {
        let before = unknown_notices(all, drop.drop_last());
        let name = drop.last();
        if any_named(all, name) {
            before
        } else {
            before.push(
                Notice {
                    code: "no-such-attribute"@,
                    path: name,
                    message: "The cloud has no attribute named "@ + quoted_text(name)
                        + ", so nothing was dropped for it."@,
                },
            )
        }
    }
}

/// What is to be done to every node.
#[derive(Debug)]
pub struct Plan {
    pub target: PotreeEncoding,
    /// The attributes that stay, by their place in the manifest.
    pub keep: Vec<usize>,
    pub dropped: Vec<String>,
    pub warnings: Vec<Warning>,
}

fn listed(names: &Vec<String>, name: &str) -> (r: bool)
    ensures
        r == texts(names@).contains(name@),
{
    let mut i: usize = 0;
    while i < names.len()
        invariant
            i <= names.len(),
            forall|k: int| 0 <= k < i ==> (#[trigger] texts(names@)[k]) != name@,
        decreases names.len() - i,
    {
        if same(names[i].as_str(), name) {
            assert(texts(names@)[i as int] == name@);
            return true;
        }
        i = i + 1;
    }
    false
}

fn has_named(attributes: &Vec<Attribute>, name: &str) -> (r: bool)
    ensures
        r == any_named(columns(attributes@), name@),
{
    let mut i: usize = 0;
    while i < attributes.len()
        invariant
            i <= attributes.len(),
            forall|k: int| 0 <= k < i ==> (#[trigger] columns(attributes@)[k]).name != name@,
        decreases attributes.len() - i,
    {
        if same(attributes[i].name.as_str(), name) {
            assert(columns(attributes@)[i as int].name == name@);
            return true;
        }
        i = i + 1;
    }
    false
}

/// The encoding that is written: the one asked for, or the one there is.
pub open spec fn target_of(asked: Option<PotreeEncoding>, source: Seq<char>) -> PotreeEncoding {
    match asked {
        Some(e) => e,
        None => if source == "BROTLI"@ {
            PotreeEncoding::Brotli
        } else {
            PotreeEncoding::Default
        },
    }
}

/// Indices as mathematical numbers.
pub open spec fn indices(list: Seq<usize>) -> Seq<int> {
    list.map_values(|i: usize| i as int)
}

/// Decides what is to be done to every node.
pub fn plan(attributes: &Vec<Attribute>, source_encoding: &str, options: &OptimizeOptions) -> (p:
    Plan)
    ensures
        ({
            let all = columns(attributes@);
            let drop = texts(options.drop@);
            &&& p.target == target_of(options.encoding, source_encoding@)
            &&& indices(p.keep@) == kept(all, drop)
            &&& texts(p.dropped@) == gone(all, drop)
            &&& notices(p.warnings@) == position_notices(all, drop) + unknown_notices(all, drop)
        }),
{
    let ghost all = columns(attributes@);
    let ghost drop = texts(options.drop@);
    let mut keep: Vec<usize> = Vec::new();
    let mut dropped: Vec<String> = Vec::new();
    let mut warnings: Vec<Warning> = Vec::new();
    let mut i: usize = 0;
    assert(all.take(0) =~= Seq::<Column>::empty());
    assert(indices(keep@) =~= Seq::<int>::empty());
    assert(texts(dropped@) =~= Seq::<Seq<char>>::empty());
    assert(notices(warnings@) =~= Seq::<Notice>::empty());
    while i < attributes.len()
        invariant
            i <= attributes.len(),
            all == columns(attributes@),
            drop == texts(options.drop@),
            indices(keep@) == kept(all.take(i as int), drop),
            texts(dropped@) == gone(all.take(i as int), drop),
            notices(warnings@) == position_notices(all.take(i as int), drop),
        decreases attributes.len() - i,
    {
        let ghost some = all.take(i + 1);
        assert(some.drop_last() =~= all.take(i as int));
        assert(some.last() == attributes@[i as int]@);
        let a = &attributes[i];
        let asked = listed(&options.drop, a.name.as_str());
        let is_position = match a.role() {
            Some(AttributeRole::Position) => true,
            _ => false,
        };
        if asked && is_position {
            let w = Warning::new(
                "position-kept",
                a.name.clone(),
                "Position cannot be dropped; every other request was honoured.".to_owned(),
            );
            proof {
                notices_push(warnings@, w);
            }
            warnings.push(w);
        }
        if asked && !is_position {
            dropped.push(a.name.clone());
            assert(texts(dropped@) =~= gone(some, drop));
        } else {
            keep.push(i);
            assert(indices(keep@) =~= kept(some, drop));
        }
        i = i + 1;
    }
    assert(all.take(i as int) =~= all);
    let ghost first = notices(warnings@);
    let mut j: usize = 0;
    assert(drop.take(0) =~= Seq::<Seq<char>>::empty());
    assert(notices(warnings@) =~= first + unknown_notices(all, drop.take(0)));
    while j < options.drop.len()
        invariant
            j <= options.drop.len(),
            all == columns(attributes@),
            drop == texts(options.drop@),
            notices(warnings@) == first + unknown_notices(all, drop.take(j as int)),
        decreases options.drop.len() - j,
    {
        let ghost some = drop.take(j + 1);
        assert(some.drop_last() =~= drop.take(j as int));
        let name = options.drop[j].as_str();
        assert(some.last() == name@);
        if !has_named(attributes, name) {
            let shown = quoted(name);
            let w = Warning::new(
                "no-such-attribute",
                name.to_owned(),
                cat3(
                    "The cloud has no attribute named ",
                    shown.as_str(),
                    ", so nothing was dropped for it.",
                ),
            );
            proof {
                notices_push(warnings@, w);
            }
            warnings.push(w);
        }
        assert(notices(warnings@) =~= first + unknown_notices(all, some));
        j = j + 1;
    }
    assert(drop.take(j as int) =~= drop);
    let target = match options.encoding {
        Some(e) => e,
        None => if same(source_encoding, "BROTLI") {
            PotreeEncoding::Brotli
        } else {
            PotreeEncoding::Default
        },
    };
    Plan { target, keep, dropped, warnings }
}

/// Whatever is asked, an attribute that plays the part of the position stays.
pub proof fn position_is_never_dropped(all: Seq<Column>, drop: Seq<Seq<char>>, i: int)
    requires
        0 <= i < all.len(),
        role_of(all[i].name) == Some(AttributeRole::Position),
    ensures
        kept(all, drop).contains(i),
    decreases all.len(),
{
    let shorter = all.drop_last();
    let before = kept(shorter, drop);
    let after = kept(all, drop);
    if i < shorter.len() {
        position_is_never_dropped(shorter, drop, i);
        let k = choose|k: int| 0 <= k < before.len() && before[k] == i;
        assert(after[k] == i);
    } else {
        assert(after[after.len() - 1] == i);
    }
}

/// An attribute that nobody asked to drop stays, and one that was asked for and
/// is not the position goes.
pub proof fn requests_are_honoured(all: Seq<Column>, drop: Seq<Seq<char>>, i: int)
    requires
        0 <= i < all.len(),
    ensures
        kept(all, drop).contains(i) == stays(all[i], drop),
        forall|k: int|
            0 <= k < kept(all, drop).len() ==> 0 <= #[trigger] kept(all, drop)[k] < all.len(),
    decreases all.len(),
{
    let shorter = all.drop_last();
    let before = kept(shorter, drop);
    let after = kept(all, drop);
    lemma_kept_within(shorter, drop);
    lemma_kept_within(all, drop);
    if i < shorter.len() {
        requests_are_honoured(shorter, drop, i);
        assert(shorter[i] == all[i]);
        if before.contains(i) {
            let k = choose|k: int| 0 <= k < before.len() && before[k] == i;
            assert(after[k] == i);
        } else if after.contains(i) {
            let k = choose|k: int| 0 <= k < after.len() && after[k] == i;
            assert(k < before.len());
            assert(before[k] == i);
        }
    } else {
        if stays(all[i], drop) {
            assert(after[after.len() - 1] == i);
        } else if after.contains(i) {
            let k = choose|k: int| 0 <= k < after.len() && after[k] == i;
            assert(before[k] < shorter.len());
        }
    }
}

proof fn lemma_kept_within(all: Seq<Column>, drop: Seq<Seq<char>>)
    ensures
        forall|k: int|
            0 <= k < kept(all, drop).len() ==> 0 <= #[trigger] kept(all, drop)[k] < all.len(),
    decreases all.len(),
{
    if all.len() > 0 {
        lemma_kept_within(all.drop_last(), drop);
        let before = kept(all.drop_last(), drop);
        assert forall|k: int| 0 <= k < kept(all, drop).len() implies 0 <= #[trigger] kept(
            all,
            drop,
        )[k] < all.len() by {
            if k < before.len() {
                assert(kept(all, drop)[k] == before[k]);
            }
        }
    }
}

/// The first attribute with a name.
pub open spec fn first_named(all: Seq<Column>, name: Seq<char>, from: int) -> int
    decreases all.len() - from,
{
    if from < 0 || from >= all.len() || all[from].name == name {
        from
    } else {
        first_named(all, name, from + 1)
    }
}

/// The attributes that are kept, each with the block it is taken from: that of
/// the first attribute with its name.
pub open spec fn parts_for(all: Seq<Column>, keep: Seq<int>) -> Seq<Part> {
    keep.map_values(
        |k: int|
            Part {
                cell: cell_for(all[k]),
                start: place(cells_for(all), first_named(all, all[k].name, 0)) as usize,
            },
    )
}

/// Where an attribute's block starts, in bytes per point.
fn block_offset(attributes: &Vec<Attribute>, cells: &Vec<Cell>, k: usize) -> (at: usize)
    requires
        k < attributes@.len(),
        cells@ == cells_for(columns(attributes@)),
        stride(cells@) <= usize::MAX,
    ensures
        ({
            let all = columns(attributes@);
            let first = first_named(all, all[k as int].name, 0);
            &&& 0 <= first <= k
            &&& at == place(cells@, first)
            &&& at + cells@[k as int].size <= stride(cells@)
        }),
{
    let ghost all = columns(attributes@);
    let mut at: usize = 0;
    let mut i: usize = 0;
    while !same(attributes[i].name.as_str(), attributes[k].name.as_str())
        invariant
            i <= k < attributes@.len(),
            all == columns(attributes@),
            cells@ == cells_for(all),
            stride(cells@) <= usize::MAX,
            at == place(cells@, i as int),
            first_named(all, all[k as int].name, 0) == first_named(
                all,
                all[k as int].name,
                i as int,
            ),
        decreases k - i,
    {
        proof {
            assert(all[i as int].name == attributes@[i as int].name@);
            assert(all[k as int].name == attributes@[k as int].name@);
            lemma_place_grows(cells@, i + 1, cells@.len() as int);
        }
        at = at + cells[i].size;
        i = i + 1;
    }
    proof {
        assert(all[i as int].name == all[k as int].name);
        lemma_place_grows(cells@, i as int, k as int);
        lemma_place_grows(cells@, k + 1, cells@.len() as int);
    }
    at
}

/// The attributes that are kept, each with the block it is taken from.
pub fn make_parts(attributes: &Vec<Attribute>, cells: &Vec<Cell>, keep: &Vec<usize>) -> (out: Vec<
    Part,
>)
    requires
        cells@ == cells_for(columns(attributes@)),
        stride(cells@) <= usize::MAX,
        forall|j: int| 0 <= j < keep@.len() ==> #[trigger] keep@[j] < attributes@.len(),
    ensures
        out@ == parts_for(columns(attributes@), indices(keep@)),
        parts_within(out@, stride(cells@)),
{
    let ghost want = parts_for(columns(attributes@), indices(keep@));
    let mut out: Vec<Part> = Vec::new();
    let mut j: usize = 0;
    while j < keep.len()
        invariant
            j <= keep.len(),
            cells@ == cells_for(columns(attributes@)),
            stride(cells@) <= usize::MAX,
            forall|i: int| 0 <= i < keep@.len() ==> #[trigger] keep@[i] < attributes@.len(),
            want == parts_for(columns(attributes@), indices(keep@)),
            out@ == want.take(j as int),
            parts_within(out@, stride(cells@)),
        decreases keep.len() - j,
    {
        let k: usize = keep[j];
        let start: usize = block_offset(attributes, cells, k);
        let part = Part { cell: cells[k], start };
        let ghost before = out@;
        out.push(part);
        assert(want[j as int] == part);
        assert(out@ =~= want.take(j + 1));
        assert(parts_within(out@, stride(cells@))) by {
            assert forall|i: int| 0 <= i < out@.len() implies (#[trigger] out@[i]).start
                + out@[i].cell.size <= stride(cells@) by {
                if i < before.len() {
                    assert(before[i].start + before[i].cell.size <= stride(cells@));
                }
            }
        }
        j = j + 1;
    }
    assert(want.take(j as int) =~= want);
    out
}

/// The blocks of a node, or what is wrong with its payload.
pub open spec fn decoded(bytes: Seq<u8>, cells: Seq<Cell>, count: int, brotli: bool) -> Result<
    Seq<u8>,
    Failure,
> {
    if !brotli {
        if bytes.len() < stride(cells) * count {
            Err(
                Failure::Truncated {
                    need: wrap64(stride(cells) * count),
                    got: bytes.len() as u64,
                    what: "a DEFAULT node payload"@,
                },
            )
        } else {
            Ok(blocks_of(bytes, cells, count))
        }
    } else {
        match brotli_unpacked(bytes) {
            Err(why) => Err(Failure::Codec("brotli: "@ + why)),
            Ok(raw) => if raw.len() < coded_stride(cells) * count {
                Err(
                    Failure::Truncated {
                        need: wrap64(coded_stride(cells) * count),
                        got: raw.len() as u64,
                        what: "a BROTLI node payload"@,
                    },
                )
            } else {
                Ok(plain_blocks(raw, cells, count))
            },
        }
    }
}

/// Whether attributes are small enough to add up, coded and not, and wide enough
/// for their coding.
pub open spec fn codable(cells: Seq<Cell>) -> bool {
    &&& stride(cells) <= usize::MAX
    &&& coded_stride(cells) <= usize::MAX
    &&& forall|j: int| 0 <= j < cells.len() ==> (#[trigger] cells[j]).wf()
}

fn short(size: usize, count: usize, len: usize) -> (need: Option<u64>)
    ensures
        match need {
            Some(n) => len < size * count && n == wrap64(size * count),
            None => len >= size * count,
        },
{
    assert(0 <= size * count <= usize::MAX * usize::MAX) by (nonlinear_arith)
        requires
            0 <= size <= usize::MAX,
            0 <= count <= usize::MAX,
    ;
    assert(usize::MAX * usize::MAX <= u128::MAX) by {
        assert(0xffff_ffff_ffff_ffffint * 0xffff_ffff_ffff_ffffint <= u128::MAX) by (nonlinear_arith);
        assert(usize::MAX * usize::MAX <= 0xffff_ffff_ffff_ffffint * 0xffff_ffff_ffff_ffffint)
            by (nonlinear_arith)
            requires
                0 <= usize::MAX <= 0xffff_ffff_ffff_ffffint,
        ;
    }
    assert(size as u128 * count as u128 == size * count);
    let product: u128 = size as u128 * count as u128;
    if (len as u128) < product {
        Some((product % 0x1_0000_0000_0000_0000) as u64)
    } else {
        None
    }
}

/// The blocks of a node.
pub fn decode_node(bytes: &[u8], count: usize, cells: &Vec<Cell>, brotli: bool) -> (r: Result<
    Vec<u8>,
    Error,
>)
    requires
        stride(cells@) <= usize::MAX,
        brotli ==> codable(cells@),
    ensures
        match r {
            Ok(out) => decoded(bytes@, cells@, count as int, brotli) == Ok::<Seq<u8>, Failure>(out@),
            Err(e) => decoded(bytes@, cells@, count as int, brotli) == Err::<Seq<u8>, Failure>(e@),
        },
{
    if !brotli {
        let size: usize = record_size(cells, cells.len());
        if let Some(need) = short(size, count, bytes.len()) {
            return Err(
                Error::Truncated {
                    need,
                    got: bytes.len() as u64,
                    what: "a DEFAULT node payload".to_owned(),
                },
            );
        }
        return Ok(transpose(bytes, cells, count));
    }
    let raw = match brotli_decompress(bytes) {
        Ok(raw) => raw,
        Err(e) => {
            return Err(Error::Codec(cat2("brotli: ", e.as_str())));
        },
    };
    let size: usize = coded_size(cells, cells.len());
    if let Some(need) = short(size, count, raw.len()) {
        return Err(
            Error::Truncated {
                need,
                got: raw.len() as u64,
                what: "a BROTLI node payload".to_owned(),
            },
        );
    }
    Ok(unweave(raw.as_slice(), cells, count))
}

/// Blocks back to interleaved records, keeping only some attributes.
pub fn encode_default(blocks: &[u8], count: usize, parts: &Vec<Part>, total: usize) -> (out: Vec<
    u8,
>)
    requires
        total * count <= blocks@.len(),
        parts_within(parts@, total as int),
    ensures
        out@ == records_of(blocks@, parts@, count as int),
{
    interleave(blocks, parts, count, total)
}

/// Blocks to morton-coded blocks, compressed. Also returns whether a position is
/// negative, which the coding cannot tell from a large positive number.
pub fn encode_brotli(
    blocks: &[u8],
    count: usize,
    parts: &Vec<Part>,
    total: usize,
    quality: u32,
) -> (r: Result<(Vec<u8>, bool), Error>)
    requires
        total * count <= blocks@.len(),
        parts_within(parts@, total as int),
        forall|j: int| 0 <= j < parts@.len() ==> (#[trigger] parts@[j]).cell.wf(),
    ensures
        match r {
            Ok((out, negative)) => {
                &&& packs(coded_blocks(blocks@, parts@, count as int), quality, out@)
                &&& negative == any_negative(blocks@, parts@, count as int)
            },
            Err(_) => false,
        },
{
    let (raw, negative) = weave(blocks, parts, count, total);
    match brotli_compress(raw.as_slice(), quality, BROTLI_WINDOW) {
        Ok(out) => Ok((out, negative)),
        Err(e) => Err(Error::Codec(cat2("brotli: ", e.as_str()))),
    }
}

/// A node stored one way and then the other is the node it was: records that
/// were compressed, whatever stream the compressor chose, decode to the blocks
/// whose records they are.
pub proof fn encodings_are_inverse(records: Seq<u8>, stream: Seq<u8>, cells: Seq<Cell>, count: int)
    requires
        0 <= count,
        stride(cells) <= usize::MAX,
        records.len() == stride(cells) * count,
        forall|j: int| 0 <= j < cells.len() ==> (#[trigger] cells[j]).exact(),
        brotli_unpacked(stream) == Ok::<Seq<u8>, Seq<char>>(
            coded_blocks(blocks_of(records, cells, count), whole(cells), count),
        ),
    ensures
        decoded(stream, cells, count, true) == decoded(records, cells, count, false),
        decoded(stream, cells, count, true) matches Ok(blocks) && records_of(
            blocks,
            whole(cells),
            count,
        ) == records,
{
    let blocks = blocks_of(records, cells, count);
    crate::write::blocks::blocks_have_every_byte(records, cells, count);
    crate::write::blocks::coded_blocks_read_back(blocks, cells, count);
    crate::write::blocks::records_read_back(records, cells, count);
}

/// What was done, for whoever asked.
#[derive(Debug)]
pub struct OptimizeReport {
    pub nodes: u64,
    pub points: u64,
    pub bytes_before: u64,
    pub bytes_after: u64,
    /// Bytes of one record before and after.
    pub record_before: usize,
    pub record_after: usize,
    pub encoding_before: String,
    pub encoding_after: String,
    pub dropped: Vec<String>,
    pub warnings: Vec<Warning>,
}

/// The attributes at some places, in order.
pub open spec fn chosen(all: Seq<Column>, keep: Seq<int>) -> Seq<Column> {
    keep.map_values(|i: int| all[i])
}

fn sum_sizes(attributes: &Vec<Attribute>, keep: &Vec<usize>) -> (n: usize)
    requires
        forall|j: int| 0 <= j < keep@.len() ==> #[trigger] keep@[j] < attributes@.len(),
    ensures
        n == crate::attribute::record_size(chosen(columns(attributes@), indices(keep@))),
{
    let ghost all = chosen(columns(attributes@), indices(keep@));
    let mut n: usize = 0;
    let mut i: usize = 0;
    assert(all.take(0) =~= Seq::<Column>::empty());
    while i < keep.len()
        invariant
            i <= keep.len(),
            all == chosen(columns(attributes@), indices(keep@)),
            forall|j: int| 0 <= j < keep@.len() ==> #[trigger] keep@[j] < attributes@.len(),
            n == crate::attribute::record_size(all.take(i as int)),
        decreases keep.len() - i,
    {
        assert(all.take(i + 1).drop_last() =~= all.take(i as int));
        let k: usize = keep[i];
        assert(all[i as int] == attributes@[k as int]@);
        let size: usize = attributes[k].byte_size();
        proof {
            crate::bytes::wrapped_sum(n, size);
        }
        n = n.wrapping_add(size);
        i = i + 1;
    }
    assert(all.take(i as int) =~= all);
    n
}

fn copy_names(names: &Vec<String>) -> (out: Vec<String>)
    ensures
        texts(out@) == texts(names@),
{
    let ghost all = texts(names@);
    let mut out: Vec<String> = Vec::new();
    let mut i: usize = 0;
    assert(texts(out@) =~= all.take(0));
    while i < names.len()
        invariant
            i <= names.len(),
            all == texts(names@),
            texts(out@) == all.take(i as int),
        decreases names.len() - i,
    {
        add_text(&mut out, names[i].clone());
        assert(all.take(i + 1) =~= all.take(i as int).push(all[i as int]));
        i = i + 1;
    }
    assert(all.take(i as int) =~= all);
    out
}

/// What is said where a position is negative and the coding has no sign.
pub open spec fn negative_notice() -> Notice {
    Notice {
        code: "negative-position"@,
        path: "attributes[position]"@,
        message: "Some positions are negative integers, and BROTLI's morton coding has no sign: a reader decodes them as very large positive values. The cloud's origin is not at its minimum, which is what makes this possible \u{2014} re-run `convert` on the source to move it."@,
    }
}

/// Re-encodes the nodes of a cloud, one at a time.
#[derive(Debug)]
pub struct Optimizer {
    pub cells: Vec<Cell>,
    pub parts: Vec<Part>,
    /// Whether the source is compressed.
    pub source_brotli: bool,
    pub target: PotreeEncoding,
    pub quality: u32,
    pub written: Vec<Written>,
    /// Bytes of points written so far.
    pub at: u64,
    pub negative_position: bool,
    pub bytes_before: u64,
    pub bytes_after: u64,
    pub points: u64,
}

/// Whether each attribute stands in the record where those before it end.
pub open spec fn is_laid_out(all: Seq<Column>) -> bool {
    forall|j: int|
        0 <= j < all.len() ==> (#[trigger] all[j]).byte_offset == place(cells_for(all), j)
}

/// Whether the attributes of a cloud can be re-encoded: they stand one after
/// another and add up, and what is decoded from or encoded to a compressed
/// payload is wide enough for its coding.
pub open spec fn recodable(
    all: Seq<Column>,
    source_brotli: bool,
    keep: Seq<int>,
    target: PotreeEncoding,
) -> bool {
    let cells = cells_for(all);
    &&& is_laid_out(all)
    &&& stride(cells) <= usize::MAX
    &&& source_brotli ==> codable(cells)
    &&& target == PotreeEncoding::Brotli ==> forall|j: int|
        0 <= j < keep.len() ==> cells[#[trigger] keep[j]].wf()
}

fn are_laid_out(attributes: &Vec<Attribute>, cells: &Vec<Cell>) -> (r: bool)
    requires
        cells@ == cells_for(columns(attributes@)),
    ensures
        r == (is_laid_out(columns(attributes@)) && stride(cells@) <= usize::MAX),
{
    let ghost all = columns(attributes@);
    let mut at: usize = 0;
    let mut j: usize = 0;
    while j < cells.len()
        invariant
            j <= cells@.len(),
            cells@ == cells_for(all),
            all == columns(attributes@),
            cells@.len() == attributes@.len(),
            at == place(cells@, j as int),
            forall|k: int|
                0 <= k < j ==> (#[trigger] all[k]).byte_offset == place(cells_for(all), k),
        decreases cells@.len() - j,
    {
        proof {
            lemma_place_grows(cells@, j + 1, cells@.len() as int);
            assert(all[j as int].byte_offset == attributes@[j as int].byte_offset);
        }
        if attributes[j].byte_offset != at {
            assert(all[j as int].byte_offset != place(cells_for(all), j as int));
            return false;
        }
        if cells[j].size > usize::MAX - at {
            return false;
        }
        at = at + cells[j].size;
        j = j + 1;
    }
    true
}

fn are_codable(cells: &Vec<Cell>) -> (r: bool)
    requires
        stride(cells@) <= usize::MAX,
    ensures
        r == codable(cells@),
{
    let mut coded: usize = 0;
    let mut j: usize = 0;
    while j < cells.len()
        invariant
            j <= cells@.len(),
            stride(cells@) <= usize::MAX,
            coded == coded_place(cells@, j as int),
            forall|k: int| 0 <= k < j ==> (#[trigger] cells@[k]).wf(),
        decreases cells@.len() - j,
    {
        proof {
            lemma_place_grows(cells@, j + 1, cells@.len() as int);
        }
        if !cells[j].is_wide_enough() {
            assert(!cells@[j as int].wf());
            return false;
        }
        if cells[j].width() > usize::MAX - coded {
            return false;
        }
        coded = coded + cells[j].width();
        j = j + 1;
    }
    true
}

/// Whether the attributes of a cloud can be re-encoded as planned.
pub fn supported(attributes: &Vec<Attribute>, source_encoding: &str, plan: &Plan) -> (r: bool)
    requires
        forall|j: int| 0 <= j < plan.keep@.len() ==> #[trigger] plan.keep@[j] < attributes@.len(),
    ensures
        r == recodable(
            columns(attributes@),
            source_encoding@ == "BROTLI"@,
            indices(plan.keep@),
            plan.target,
        ),
{
    let cells = make_cells(attributes);
    if !are_laid_out(attributes, &cells) {
        return false;
    }
    if same(source_encoding, "BROTLI") && !are_codable(&cells) {
        return false;
    }
    if let PotreeEncoding::Default = plan.target {
        return true;
    }
    let ghost keep = indices(plan.keep@);
    let mut j: usize = 0;
    while j < plan.keep.len()
        invariant
            j <= plan.keep@.len(),
            plan.target == PotreeEncoding::Brotli,
            keep == indices(plan.keep@),
            cells@ == cells_for(columns(attributes@)),
            cells@.len() == attributes@.len(),
            forall|k: int| 0 <= k < plan.keep@.len() ==> #[trigger] plan.keep@[k]
                < attributes@.len(),
            forall|k: int| 0 <= k < j ==> cells@[#[trigger] keep[k]].wf(),
        decreases plan.keep@.len() - j,
    {
        assert(keep[j as int] == plan.keep@[j as int]);
        if !cells[plan.keep[j]].is_wide_enough() {
            assert(!cells@[keep[j as int]].wf());
            return false;
        }
        j = j + 1;
    }
    true
}

/// A node with the bytes it has now, in place of those it had.
pub open spec fn moved(node: PotreeNodeRef, at: u64, size: u64) -> Written {
    Written { key: node.key, byte_offset: at, byte_size: size, points: node.point_count }
}

impl Optimizer {
    /// What holds of every optimizer: what it keeps lies within the blocks, and
    /// what goes through the coding can be coded.
    pub open spec fn wf(self) -> bool {
        &&& stride(self.cells@) <= usize::MAX
        &&& self.source_brotli ==> codable(self.cells@)
        &&& parts_within(self.parts@, stride(self.cells@))
        &&& self.target == PotreeEncoding::Brotli ==> forall|j: int|
            0 <= j < self.parts@.len() ==> (#[trigger] self.parts@[j]).cell.wf()
    }

    /// Whether a payload is the one a node should have.
    #[verifier::opaque]
    pub open spec fn encodes(self, blocks: Seq<u8>, count: int, bytes: Seq<u8>) -> bool {
        match self.target {
            PotreeEncoding::Default => bytes == records_of(blocks, self.parts@, count),
            PotreeEncoding::Brotli => packs(
                coded_blocks(blocks, self.parts@, count),
                self.quality,
                bytes,
            ),
        }
    }

    /// Whether taking in a node with its payload gives some bytes and leads to
    /// another state. A node without points or without a payload gives none.
    pub open spec fn takes(
        self,
        node: PotreeNodeRef,
        payload: Seq<u8>,
        bytes: Seq<u8>,
        after: Self,
    ) -> bool {
        let count = node.point_count as int;
        let blocks = decoded(payload, self.cells@, count, self.source_brotli);
        &&& after.cells == self.cells
        &&& after.parts == self.parts
        &&& after.source_brotli == self.source_brotli
        &&& after.target == self.target
        &&& after.quality == self.quality
        &&& if node.point_count == 0 || node.byte_size == 0 {
            &&& bytes.len() == 0
            &&& after.written@ == self.written@.push(moved(node, self.at, 0))
            &&& after.at == self.at
            &&& after.negative_position == self.negative_position
            &&& after.bytes_before == self.bytes_before
            &&& after.bytes_after == self.bytes_after
            &&& after.points == self.points
        } else {
            &&& blocks is Ok
            &&& self.encodes(blocks->Ok_0, count, bytes)
            &&& after.written@ == self.written@.push(moved(node, self.at, bytes.len() as u64))
            &&& after.at == wrap64(self.at + bytes.len())
            &&& after.negative_position == (self.negative_position || (self.target
                == PotreeEncoding::Brotli && any_negative(blocks->Ok_0, self.parts@, count)))
            &&& after.bytes_before == wrap64(self.bytes_before + node.byte_size)
            &&& after.bytes_after == wrap64(self.bytes_after + bytes.len())
            &&& after.points == wrap64(self.points + node.point_count)
        }
    }

    /// Starts on a cloud.
    pub fn new(
        attributes: &Vec<Attribute>,
        source_encoding: &str,
        plan: &Plan,
        quality: u32,
    ) -> (o: Self)
        requires
            recodable(
                columns(attributes@),
                source_encoding@ == "BROTLI"@,
                indices(plan.keep@),
                plan.target,
            ),
            forall|j: int| 0 <= j < plan.keep@.len() ==> #[trigger] plan.keep@[j]
                < attributes@.len(),
        ensures
            o.wf(),
            o.cells@ == cells_for(columns(attributes@)),
            o.parts@ == parts_for(columns(attributes@), indices(plan.keep@)),
            o.source_brotli == (source_encoding@ == "BROTLI"@),
            o.target == plan.target,
            o.quality == quality,
            o.written@.len() == 0,
            o.at == 0,
            !o.negative_position,
            o.bytes_before == 0,
            o.bytes_after == 0,
            o.points == 0,
    {
        let cells = make_cells(attributes);
        let parts = make_parts(attributes, &cells, &plan.keep);
        proof {
            let all = columns(attributes@);
            if plan.target == PotreeEncoding::Brotli {
                assert forall|j: int| 0 <= j < parts@.len() implies (
                #[trigger] parts@[j]).cell.wf() by {
                    let k = indices(plan.keep@)[j];
                    assert(plan.keep@[j] < attributes@.len());
                    assert(cells@[k] == cell_for(all[k]));
                    assert(cells@[k].wf());
                }
            }
        }
        Optimizer {
            cells,
            parts,
            source_brotli: same(source_encoding, "BROTLI"),
            target: plan.target,
            quality,
            written: Vec::new(),
            at: 0,
            negative_position: false,
            bytes_before: 0,
            bytes_after: 0,
            points: 0,
        }
    }

    /// Whether a node has a payload of its own to read.
    pub fn wants(&self, node: &PotreeNodeRef) -> (r: bool)
        ensures
            r == (node.point_count > 0 && node.byte_size > 0),
    {
        node.point_count > 0 && node.byte_size > 0
    }

    /// A payload in the encoding that is written, and whether a position in it is
    /// negative where the coding has no sign.
    fn recode(&self, payload: &[u8], count: usize) -> (r: Result<(Vec<u8>, bool), Error>)
        requires
            self.wf(),
        ensures
            ({
                let blocks = decoded(payload@, self.cells@, count as int, self.source_brotli);
                match r {
                    Ok((bytes, negative)) => {
                        &&& blocks is Ok
                        &&& self.encodes(blocks->Ok_0, count as int, bytes@)
                        &&& negative == (self.target == PotreeEncoding::Brotli && any_negative(
                            blocks->Ok_0,
                            self.parts@,
                            count as int,
                        ))
                    },
                    Err(e) => blocks == Err::<Seq<u8>, Failure>(e@),
                }
            }),
    {
        let blocks = match decode_node(payload, count, &self.cells, self.source_brotli) {
            Ok(b) => b,
            Err(e) => {
                return Err(e);
            },
        };
        let total: usize = record_size(&self.cells, self.cells.len());
        proof {
            reveal(Optimizer::encodes);
            lemma_blocks_len(payload@, self.cells@, count as int, self.source_brotli);
        }
        match self.target {
            PotreeEncoding::Default => Ok(
                (encode_default(blocks.as_slice(), count, &self.parts, total), false),
            ),
            PotreeEncoding::Brotli => encode_brotli(
                blocks.as_slice(),
                count,
                &self.parts,
                total,
                self.quality,
            ),
        }
    }

    /// Takes one node, with its payload where it has one. Returns the bytes to
    /// append to the point file. The node keeps its key and its point count.
    pub fn absorb(&mut self, node: PotreeNodeRef, payload: &[u8]) -> (r: Result<Vec<u8>, Error>)
        requires
            old(self).wf(),
        ensures
            final(self).wf(),
            match r {
                Ok(bytes) => old(self).takes(node, payload@, bytes@, *final(self)),
                Err(e) => {
                    &&& node.point_count > 0 && node.byte_size > 0
                    &&& decoded(
                        payload@,
                        old(self).cells@,
                        node.point_count as int,
                        old(self).source_brotli,
                    ) == Err::<Seq<u8>, Failure>(e@)
                    &&& *final(self) == *old(self)
                },
            },
    {
        let ghost start = self.written@;
        if node.point_count == 0 || node.byte_size == 0 {
            self.written.push(
                Written {
                    key: node.key,
                    byte_offset: self.at,
                    byte_size: 0,
                    points: node.point_count,
                },
            );
            return Ok(Vec::new());
        }
        let count: usize = node.point_count as usize;
        let (bytes, negative) = match self.recode(payload, count) {
            Ok(out) => out,
            Err(e) => {
                return Err(e);
            },
        };
        self.bytes_before = self.bytes_before.wrapping_add(node.byte_size);
        if negative {
            self.negative_position = true;
        }
        let size: u64 = bytes.len() as u64;
        self.written.push(
            Written {
                key: node.key,
                byte_offset: self.at,
                byte_size: size,
                points: node.point_count,
            },
        );
        self.at = self.at.wrapping_add(size);
        self.bytes_after = self.bytes_after.wrapping_add(size);
        self.points = self.points.wrapping_add(node.point_count as u64);
        Ok(bytes)
    }

    /// What is said where a position is negative and the coding has no sign.
    pub fn warning(&self) -> (w: Option<Warning>)
        ensures
            match w {
                Some(w) => self.negative_position && w@ == negative_notice(),
                None => !self.negative_position,
            },
    {
        if self.negative_position {
            Some(
                Warning::new(
                    "negative-position",
                    "attributes[position]".to_owned(),
                    "Some positions are negative integers, and BROTLI's morton coding has no sign: a reader decodes them as very large positive values. The cloud's origin is not at its minimum, which is what makes this possible \u{2014} re-run `convert` on the source to move it.".to_owned(),
                ),
            )
        } else {
            None
        }
    }

    /// What was done, once the last node has been taken.
    pub fn report(&self, plan: &Plan, attributes: &Vec<Attribute>, source_encoding: &str) -> (r:
        OptimizeReport)
        requires
            forall|j: int| 0 <= j < plan.keep@.len() ==> #[trigger] plan.keep@[j]
                < attributes@.len(),
        ensures
            r.nodes == self.written@.len() as u64,
            r.points == self.points,
            r.bytes_before == self.bytes_before,
            r.bytes_after == self.bytes_after,
            r.record_before == crate::attribute::record_size(columns(attributes@)),
            r.record_after == crate::attribute::record_size(
                chosen(columns(attributes@), indices(plan.keep@)),
            ),
            r.encoding_before@ == source_encoding@,
            r.encoding_after@ == self.target.spelling(),
            texts(r.dropped@) == texts(plan.dropped@),
            notices(r.warnings@) == notices(plan.warnings@) + if self.negative_position {
                seq![negative_notice()]
            } else {
                Seq::empty()
            },
    {
        let mut warnings: Vec<Warning> = Vec::new();
        append(&mut warnings, &plan.warnings);
        assert(notices(warnings@) =~= notices(plan.warnings@));
        if let Some(w) = self.warning() {
            proof {
                notices_push(warnings@, w);
            }
            warnings.push(w);
        }
        assert(notices(warnings@) =~= notices(plan.warnings@) + if self.negative_position {
            seq![negative_notice()]
        } else {
            Seq::empty()
        });
        let mut everything: Vec<usize> = Vec::new();
        let mut i: usize = 0;
        while i < attributes.len()
            invariant
                i <= attributes.len(),
                everything@.len() == i,
                forall|k: int| 0 <= k < i ==> #[trigger] everything@[k] == k,
            decreases attributes.len() - i,
        {
            everything.push(i);
            i = i + 1;
        }
        proof {
            assert(chosen(columns(attributes@), indices(everything@)) =~= columns(attributes@));
        }
        OptimizeReport {
            nodes: self.written.len() as u64,
            points: self.points,
            bytes_before: self.bytes_before,
            bytes_after: self.bytes_after,
            record_before: sum_sizes(attributes, &everything),
            record_after: sum_sizes(attributes, &plan.keep),
            encoding_before: source_encoding.to_owned(),
            encoding_after: self.target.name().to_owned(),
            dropped: copy_names(&plan.dropped),
            warnings,
        }
    }

    /// The index of the cloud as it is now, and the size of its first chunk.
    pub fn hierarchy(&self) -> (r: (Vec<u8>, u64))
        ensures
            r.0@ == hierarchy_of(self.written@),
            r.1 == own_size(self.written@, first_key(self.written@)),
    {
        hierarchy_bytes(&self.written)
    }
}

proof fn lemma_blocks_len(bytes: Seq<u8>, cells: Seq<Cell>, count: int, brotli: bool)
    requires
        0 <= count,
        brotli ==> codable(cells),
        decoded(bytes, cells, count, brotli) is Ok,
    ensures
        decoded(bytes, cells, count, brotli)->Ok_0.len() == stride(cells) * count,
{
    if !brotli {
        crate::write::blocks::blocks_have_every_byte(bytes, cells, count);
    } else {
        crate::write::blocks::decoded_blocks_have_every_byte(
            brotli_unpacked(bytes)->Ok_0,
            cells,
            count,
        );
    }
}

/// Whether nodes were written with the keys and the points that they had.
pub open spec fn same_tree(nodes: Seq<PotreeNodeRef>, w: Seq<Written>) -> bool {
    nodes.len() == w.len() && forall|i: int|
        0 <= i < w.len() ==> (#[trigger] w[i]).key == nodes[i].key && w[i].points
            == nodes[i].point_count
}

/// Taking one more node in keeps the tree, whatever its payload became.
pub proof fn absorbing_keeps_the_tree(
    nodes: Seq<PotreeNodeRef>,
    w: Seq<Written>,
    node: PotreeNodeRef,
    at: u64,
    size: u64,
)
    requires
        same_tree(nodes, w),
    ensures
        same_tree(nodes.push(node), w.push(moved(node, at, size))),
{
}

/// Whether some nodes are, by key and points, those of a list: all of them, no
/// other, and none twice.
pub open spec fn same_nodes(found: Seq<PotreeNodeRef>, nodes: Seq<PotreeNodeRef>) -> bool {
    &&& forall|i: int| 0 <= i < nodes.len() ==> stands_in(found, #[trigger] nodes[i])
    &&& forall|j: int| 0 <= j < found.len() ==> stands_in(nodes, #[trigger] found[j])
    &&& forall|a: int, b: int|
        0 <= a < b < found.len() ==> (#[trigger] found[a]).key != (#[trigger] found[b]).key
}

/// Whether a list has a node with the key and the points of another.
pub open spec fn stands_in(list: Seq<PotreeNodeRef>, n: PotreeNodeRef) -> bool {
    exists|i: int|
        0 <= i < list.len() && (#[trigger] list[i]).key == n.key && list[i].point_count
            == n.point_count
}

proof fn lemma_same_nodes(found: Seq<PotreeNodeRef>, nodes: Seq<PotreeNodeRef>, w: Seq<Written>)
    requires
        same_tree(nodes, w),
        forall|j: int|
            0 <= j < found.len() ==> exists|i: int|
                0 <= i < w.len() && #[trigger] as_read(w[i]) == #[trigger] found[j],
        forall|i: int| 0 <= i < w.len() ==> found.contains(as_read(#[trigger] w[i])),
        forall|a: int, b: int|
            0 <= a < b < found.len() ==> (#[trigger] found[a]).key != (#[trigger] found[b]).key,
    ensures
        same_nodes(found, nodes),
{
    assert forall|i: int| 0 <= i < nodes.len() implies stands_in(found, #[trigger] nodes[i]) by {
        let r = as_read(w[i]);
        assert(found.contains(r));
        let j = choose|j: int| 0 <= j < found.len() && found[j] == r;
        assert(found[j].key == nodes[i].key);
    }
    assert forall|j: int| 0 <= j < found.len() implies stands_in(nodes, #[trigger] found[j]) by {
        let i = choose|i: int| 0 <= i < w.len() && #[trigger] as_read(w[i]) == found[j];
        assert(nodes[i].key == w[i].key);
    }
}

/// The tree is untouched: the rewritten hierarchy reads back as the nodes that
/// were taken in, every one of them with its key and its points, and no other.
pub proof fn the_tree_is_untouched(nodes: Seq<PotreeNodeRef>, w: Seq<Written>)
    requires
        same_tree(nodes, w),
        is_tree(w),
        hierarchy_of(w).len() <= usize::MAX,
    ensures
        whole_walk(hierarchy_of(w), own_size(w, first_key(w)) as u64) matches Ok(found)
            && same_nodes(found.nodes, nodes),
{
    written_hierarchy_reads_back(w);
    let found = whole_walk(hierarchy_of(w), own_size(w, first_key(w)) as u64)->Ok_0;
    lemma_same_nodes(found.nodes, nodes, w);
}

/// The nodes whose payload starts at a byte, in order.
pub open spec fn at_offset(nodes: Seq<PotreeNodeRef>, offset: u64) -> Seq<PotreeNodeRef> {
    nodes.filter(|n: PotreeNodeRef| n.byte_offset == offset)
}

/// `sort_by_key` of a slice, on the byte offset: the same nodes in ascending
/// order of offset, those with one offset in the order they had.
#[verifier::external_body]
fn sort_by_offset(nodes: &mut Vec<PotreeNodeRef>)
    ensures
        final(nodes)@.to_multiset() == old(nodes)@.to_multiset(),
        forall|i: int, j: int|
            0 <= i <= j < final(nodes)@.len() ==> (#[trigger] final(nodes)@[i]).byte_offset <= (
            #[trigger] final(nodes)@[j]).byte_offset,
        forall|o: u64| #[trigger] at_offset(final(nodes)@, o) == at_offset(old(nodes)@, o),
{
    nodes.sort_by_key(|n| n.byte_offset);
}

/// Every node of the source hierarchy, sorted by where its payload sits: reading
/// them in that order is one forward scan.
pub fn collect_nodes(cloud: &PotreeCloud) -> (r: Result<Vec<PotreeNodeRef>, Error>)
    ensures
        match r {
            Ok(nodes) => {
                let found = if cloud.hierarchy@.len() == 0 {
                    Seq::empty()
                } else {
                    crate::format::potree::whole_walk(
                        cloud.hierarchy@,
                        cloud.metadata.first_chunk_size,
                    )->Ok_0.nodes
                };
                &&& cloud.hierarchy@.len() > 0 ==> crate::format::potree::whole_walk(
                    cloud.hierarchy@,
                    cloud.metadata.first_chunk_size,
                ) is Ok
                &&& nodes@.to_multiset() == found.to_multiset()
                &&& forall|i: int, j: int|
                    0 <= i <= j < nodes@.len() ==> (#[trigger] nodes@[i]).byte_offset <= (
                    #[trigger] nodes@[j]).byte_offset
                &&& forall|o: u64| #[trigger] at_offset(nodes@, o) == at_offset(found, o)
            },
            Err(e) => cloud.hierarchy@.len() > 0 && crate::format::potree::whole_walk(
                cloud.hierarchy@,
                cloud.metadata.first_chunk_size,
            ) == Err::<crate::format::potree::Found, Failure>(e@),
        },
{
    match cloud.for_each_node() {
        Ok(mut nodes) => {
            proof {
                if cloud.hierarchy@.len() == 0 {
                    assert(nodes@ =~= Seq::<PotreeNodeRef>::empty());
                }
            }
            sort_by_offset(&mut nodes);
            Ok(nodes)
        },
        Err(e) => Err(e),
    }
}

/// Where the first field with a name stands, or the number of fields.
pub open spec fn field_at(fields: Seq<(Seq<char>, Tree)>, key: Seq<char>, from: int) -> int
    decreases fields.len() - from,
{
    if from < 0 || from >= fields.len() || fields[from].0 == key {
        from
    } else {
        field_at(fields, key, from + 1)
    }
}

/// The fields of an object with one of them replaced, or added behind them.
pub open spec fn with_field(fields: Seq<(Seq<char>, Tree)>, key: Seq<char>, value: Tree) -> Seq<
    (Seq<char>, Tree),
> {
    let at = field_at(fields, key, 0);
    if at < fields.len() {
        fields.update(at, (key, value))
    } else {
        fields.push((key, value))
    }
}

fn put_in(fields: &mut Fields, key: &str, value: Json)
    ensures
        final(fields)@ == with_field(old(fields)@, key@, value.tree()),
{
    let ghost all = fields@;
    let mut i: usize = 0;
    while i < fields.list.len() && !same(fields.list[i].0.as_str(), key)
        invariant
            i <= fields.list@.len(),
            all == tree_fields(fields.list@),
            field_at(all, key@, 0) == field_at(all, key@, i as int),
        decreases fields.list@.len() - i,
    {
        assert(all[i as int].0 == fields.list@[i as int].0@);
        i = i + 1;
    }
    if i < fields.list.len() {
        assert(all[i as int].0 == fields.list@[i as int].0@);
        fields.list.set(i, (key.to_owned(), value));
    } else {
        fields.list.push((key.to_owned(), value));
    }
    assert(fields@ =~= with_field(all, key@, value.tree()));
}

fn copy_fields(list: &Vec<(String, Json)>) -> (f: Fields)
    ensures
        f@ == tree_fields(list@),
{
    let mut f = Fields::new();
    let mut i: usize = 0;
    let ghost want = tree_fields(list@);
    assert(want.take(0) =~= f@);
    while i < list.len()
        invariant
            i <= list.len(),
            want == tree_fields(list@),
            f@ == want.take(i as int),
        decreases list.len() - i,
    {
        f.put(list[i].0.as_str(), list[i].1.duplicate());
        assert(f@ =~= want.take(i + 1));
        i = i + 1;
    }
    assert(want.take(i as int) =~= want);
    f
}

/// The entries of an attribute list whose names are among some.
pub open spec fn entries_named(list: Seq<Tree>, names: Seq<Seq<char>>) -> Seq<Tree>
    decreases list.len(),
{
    if list.len() == 0 {
        Seq::empty()
    } else {
        let before = entries_named(list.drop_last(), names);
        match list.last().text_at("name"@) {
            Some(n) => if names.contains(n) {
                before.push(list.last())
            } else {
                before
            },
            None => before,
        }
    }
}

fn keep_entries(list: &Vec<Json>, names: &Vec<String>) -> (j: Json)
    ensures
        j.tree() == Tree::Array(entries_named(trees(list@), texts(names@))),
{
    let ghost all = trees(list@);
    let ghost wanted = texts(names@);
    let mut out: Vec<Json> = Vec::new();
    let mut i: usize = 0;
    assert(all.take(0) =~= Seq::<Tree>::empty());
    assert(trees(out@) =~= Seq::<Tree>::empty());
    while i < list.len()
        invariant
            i <= list.len(),
            all == trees(list@),
            wanted == texts(names@),
            trees(out@) == entries_named(all.take(i as int), wanted),
        decreases list.len() - i,
    {
        let ghost some = all.take(i + 1);
        assert(some.drop_last() =~= all.take(i as int));
        assert(some.last() == list@[i as int].tree());
        if let Some(name) = list[i].text_at("name") {
            if listed(names, name.as_str()) {
                out.push(list[i].duplicate());
            }
        }
        assert(trees(out@) =~= entries_named(some, wanted));
        i = i + 1;
    }
    assert(all.take(i as int) =~= all);
    let j = Json::Array(out);
    assert(j.tree()->Array_0 =~= entries_named(all, wanted));
    j
}

/// A manifest with the encoding, the chunk size and the attribute list replaced,
/// and everything else as it was.
pub open spec fn rewritten(
    fields: Seq<(Seq<char>, Tree)>,
    encoding: Seq<char>,
    first_chunk_size: u64,
    names: Seq<Seq<char>>,
) -> Seq<(Seq<char>, Tree)> {
    let a = with_field(fields, "encoding"@, Tree::Text(encoding));
    let b = match field(a, "hierarchy"@) {
        Some(Tree::Object(h)) => with_field(
            a,
            "hierarchy"@,
            Tree::Object(
                with_field(
                    with_field(h, "firstChunkSize"@, Json::whole(first_chunk_size)),
                    "stepSize"@,
                    Json::whole(STEP_SIZE as u64),
                ),
            ),
        ),
        _ => a,
    };
    match field(b, "attributes"@) {
        Some(Tree::Array(list)) => with_field(
            b,
            "attributes"@,
            Tree::Array(entries_named(list, names)),
        ),
        _ => b,
    }
}

/// The source manifest with the attribute list and the encoding replaced. The
/// entries are taken from the manifest itself, so that what this code has no
/// opinion about survives.
pub fn rewrite_metadata(
    manifest: &Json,
    encoding: &str,
    first_chunk_size: u64,
    names: &Vec<String>,
) -> (r: Result<Json, Error>)
    ensures
        match r {
            Ok(j) => manifest.tree() matches Tree::Object(fields) && j.tree() == Tree::Object(
                rewritten(fields, encoding@, first_chunk_size, texts(names@)),
            ),
            Err(e) => !manifest.tree().is_object() && e@ == (Failure::Manifest {
                path: "metadata.json"@,
                detail: "the manifest is not a JSON object"@,
            }),
        },
{
    let list = match manifest.as_object() {
        Some(l) => l,
        None => {
            return Err(
                Error::manifest(
                    "metadata.json".to_owned(),
                    "the manifest is not a JSON object".to_owned(),
                ),
            );
        },
    };
    let mut fields = copy_fields(list);
    put_in(&mut fields, "encoding", Json::of_text(encoding));
    let with_encoding = fields.object();
    let mut fields = match with_encoding.as_object() {
        Some(l) => copy_fields(l),
        None => Fields::new(),
    };
    if let Some(h) = with_encoding.get("hierarchy") {
        if let Some(inner) = h.as_object() {
            let mut chunk = copy_fields(inner);
            put_in(&mut chunk, "firstChunkSize", Json::count(first_chunk_size));
            put_in(&mut chunk, "stepSize", Json::count(STEP_SIZE as u64));
            put_in(&mut fields, "hierarchy", chunk.object());
        }
    }
    let with_hierarchy = fields.object();
    let mut fields = match with_hierarchy.as_object() {
        Some(l) => copy_fields(l),
        None => Fields::new(),
    };
    if let Some(a) = with_hierarchy.get("attributes") {
        if let Some(entries) = a.as_array() {
            put_in(&mut fields, "attributes", keep_entries(entries, names));
        }
    }
    Ok(fields.object())
}

/// The nodes by their packed address, the last of those that share one.
pub fn node_index(nodes: &Vec<Written>) -> (m: HashMap<u128, (u64, u64, u32)>)
    ensures
        forall|k: OctreeKey|
            {
                let n = #[trigger] packed(k) as u128;
                match node_with(nodes@, k) {
                    Some(w) => m@.contains_key(n) && m@[n] == (
                        w.byte_offset,
                        w.byte_size,
                        w.points,
                    ),
                    None => !m@.contains_key(n),
                }
            },
{
    let mut m: HashMap<u128, (u64, u64, u32)> = HashMap::new();
    let mut i: usize = 0;
    assert(nodes@.take(0) =~= Seq::<Written>::empty());
    assert(keys_of(nodes@.take(0)) =~= Seq::<OctreeKey>::empty());
    while i < nodes.len()
        invariant
            i <= nodes.len(),
            indexed(m@, nodes@.take(i as int)),
        decreases nodes.len() - i,
    {
        let n: u128 = pack(nodes[i].key);
        let value = (nodes[i].byte_offset, nodes[i].byte_size, nodes[i].points);
        proof {
            lemma_indexed_push(m@, nodes@.take(i as int), nodes@[i as int]);
            assert(nodes@.take(i as int).push(nodes@[i as int]) =~= nodes@.take(i + 1));
        }
        m.insert(n, value);
        i = i + 1;
    }
    assert(nodes@.take(i as int) =~= nodes@);
    m
}

spec fn indexed(m: Map<u128, (u64, u64, u32)>, nodes: Seq<Written>) -> bool {
    forall|k: OctreeKey|
        {
            let n = #[trigger] packed(k) as u128;
            match node_with(nodes, k) {
                Some(w) => m.contains_key(n) && m[n] == (w.byte_offset, w.byte_size, w.points),
                None => !m.contains_key(n),
            }
        }
}

proof fn lemma_indexed_push(m: Map<u128, (u64, u64, u32)>, nodes: Seq<Written>, w: Written)
    requires
        indexed(m, nodes),
    ensures
        indexed(
            m.insert(packed(w.key) as u128, (w.byte_offset, w.byte_size, w.points)),
            nodes.push(w),
        ),
{
    let more = nodes.push(w);
    let after = m.insert(packed(w.key) as u128, (w.byte_offset, w.byte_size, w.points));
    assert(keys_of(more).drop_last() =~= keys_of(nodes));
    assert(keys_of(more).last() == w.key);
    assert forall|k: OctreeKey|
        {
            let n = #[trigger] packed(k) as u128;
            match node_with(more, k) {
                Some(x) => after.contains_key(n) && after[n] == (
                    x.byte_offset,
                    x.byte_size,
                    x.points,
                ),
                None => !after.contains_key(n),
            }
        } by {
        crate::write::keys::lemma_packed_range(k);
        crate::write::keys::lemma_packed_range(w.key);
        last_at_is_there(keys_of(nodes), k);
        if k != w.key && packed(k) == packed(w.key) {
            packed_is_unique(k, w.key);
        }
        let n = packed(k) as u128;
        assert(match node_with(nodes, k) {
            Some(x) => m.contains_key(n),
            None => !m.contains_key(n),
        });
    }
}

} // verus!
