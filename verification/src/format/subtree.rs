//! `.subtree` files: which tiles of an implicit tiling are there.

use crate::bytes::{le64, slice_of, u64_at};
use crate::json::{json_read, trees, Json, Tree};
use vstd::prelude::*;

verus! {

/// Which of a run of things are there.
#[derive(Debug)]
pub enum Availability {
    /// All of them, or none.
    Constant(bool),
    /// Those whose bit is set, the lowest bit of each byte first.
    Bits(Vec<u8>),
}

/// Which of a run of things are there, as the values it holds.
pub enum Available {
    Constant(bool),
    Bits(Seq<u8>),
}

impl View for Availability {
    type V = Available;

    open spec fn view(&self) -> Available {
        match *self {
            Availability::Constant(v) => Available::Constant(v),
            Availability::Bits(b) => Available::Bits(b@),
        }
    }
}

impl Available {
    /// Whether thing `i` is there.
    pub open spec fn has(self, i: int) -> bool {
        match self {
            Available::Constant(v) => v,
            Available::Bits(b) => i / 8 < b.len() && (b[i / 8] >> ((i % 8) as u8)) & 1u8 == 1u8,
        }
    }
}

impl Availability {
    /// Whether a thing is there.
    pub fn get(&self, index: u64) -> (r: bool)
        ensures
            r == self@.has(index as int),
    {
        match self {
            Availability::Constant(v) => *v,
            Availability::Bits(bytes) => {
                let at: u64 = index / 8;
                if at >= bytes.len() as u64 {
                    return false;
                }
                let shift: u8 = (index % 8) as u8;
                (bytes[at as usize] >> shift) & 1u8 == 1u8
            },
        }
    }
}

/// How many ways a tile is divided.
pub open spec fn branching(three_d: bool) -> int {
    if three_d {
        8
    } else {
        4
    }
}

/// The tiles `l` levels below a tile, were all of them there.
pub open spec fn cells(three_d: bool, l: nat) -> int
    decreases l,
{
    if l == 0 {
        1
    } else {
        branching(three_d) * cells(three_d, (l - 1) as nat)
    }
}

/// The tiles along an edge `l` levels below a tile.
pub open spec fn across(l: nat) -> int
    decreases l,
{
    if l == 0 {
        1
    } else {
        2 * across((l - 1) as nat)
    }
}

/// More levels mean more tiles.
pub proof fn cells_grow(three_d: bool, a: nat, b: nat)
    requires
        a <= b,
    ensures
        1 <= cells(three_d, a) <= cells(three_d, b),
    decreases b,
{
    if b > 0 {
        if a < b {
            cells_grow(three_d, a, (b - 1) as nat);
        } else {
            cells_grow(three_d, (b - 1) as nat, (b - 1) as nat);
        }
    }
}

/// A level has at least as many tiles as stand along an edge.
pub proof fn across_is_less(three_d: bool, l: nat)
    ensures
        1 <= across(l) <= cells(three_d, l),
    decreases l,
{
    if l > 0 {
        across_is_less(three_d, (l - 1) as nat);
    }
}

/// The tiles `l` levels below a tile, where they can be counted.
pub fn cell_count(three_d: bool, l: u64) -> (r: Option<u64>)
    ensures
        match r {
            Some(n) => n == cells(three_d, l as nat),
            None => cells(three_d, l as nat) > u64::MAX,
        },
{
    let b: u64 = if three_d {
        8
    } else {
        4
    };
    let mut n: u64 = 1;
    let mut i: u64 = 0;
    while i < l
        invariant
            i <= l,
            b == branching(three_d),
            n == cells(three_d, i as nat),
        decreases l - i,
    {
        assert(cells(three_d, (i + 1) as nat) == b * n);
        match n.checked_mul(b) {
            Some(m) => {
                n = m;
            },
            None => {
                proof {
                    assert(b * n == n * b) by (nonlinear_arith);
                    cells_grow(three_d, (i + 1) as nat, l as nat);
                }
                return None;
            },
        }
        assert(b * n == n * b) by (nonlinear_arith);
        i = i + 1;
    }
    Some(n)
}

/// The tiles along an edge `l` levels below a tile.
pub fn edge_count(three_d: bool, l: u64) -> (n: u64)
    requires
        cells(three_d, l as nat) <= u64::MAX,
    ensures
        n == across(l as nat),
{
    let mut n: u64 = 1;
    let mut i: u64 = 0;
    while i < l
        invariant
            i <= l,
            n == across(i as nat),
            cells(three_d, l as nat) <= u64::MAX,
        decreases l - i,
    {
        proof {
            across_is_less(three_d, (i + 1) as nat);
            cells_grow(three_d, (i + 1) as nat, l as nat);
        }
        n = n * 2;
        i = i + 1;
    }
    n
}

/// Where a tile is along each axis, given its place in Morton order.
pub open spec fn decoded(morton: int, three_d: bool, levels: nat) -> (int, int, int)
    decreases levels,
{
    if levels == 0 {
        (0, 0, 0)
    } else {
        let (x, y, z) = decoded(morton / branching(three_d), three_d, (levels - 1) as nat);
        (
            morton % 2 + 2 * x,
            morton / 2 % 2 + 2 * y,
            if three_d {
                morton / 4 % 2 + 2 * z
            } else {
                0
            },
        )
    }
}

/// Where a tile is along each axis, given its place in Morton order.
pub fn morton_decode(morton: u64, three_d: bool, levels: u32) -> (r: (u64, u64, u64))
    ensures
        (r.0 as int, r.1 as int, r.2 as int) == decoded(morton as int, three_d, levels as nat),
        r.0 <= morton && r.1 <= morton && r.2 <= morton,
    decreases levels,
{
    if levels == 0 {
        return (0, 0, 0);
    }
    let rest: u64 = if three_d {
        morton / 8
    } else {
        morton / 4
    };
    let (x, y, z) = morton_decode(rest, three_d, levels - 1);
    let dz: u64 = if three_d {
        morton / 4 % 2 + 2 * z
    } else {
        0
    };
    (morton % 2 + 2 * x, morton / 2 % 2 + 2 * y, dz)
}

/// Just enough of a `.subtree` to count what is available.
#[derive(Debug)]
pub struct Subtree {
    pub tiles: Availability,
    pub children: Availability,
}

/// A subtree, as the values it holds.
pub struct Held {
    pub tiles: Available,
    pub children: Available,
}

impl View for Subtree {
    type V = Held;

    open spec fn view(&self) -> Held {
        Held { tiles: self.tiles@, children: self.children@ }
    }
}

impl Held {
    /// Whether a tile of a level of the subtree is there. Levels stand one behind
    /// the other.
    pub open spec fn tile(self, three_d: bool, l: nat, morton: int) -> bool {
        self.tiles.has((cells(three_d, l) - 1) / (branching(three_d) - 1) + morton)
    }
}

/// A whole number in a field, or zero.
pub open spec fn count_at(t: Tree, key: Seq<char>) -> u64 {
    match t.unsigned_at(key) {
        Some(n) => n,
        None => 0,
    }
}

/// The bytes that a buffer view names, none where they are not there.
pub open spec fn view_bytes(view: Tree, binary: Seq<u8>) -> Seq<u8> {
    let from = count_at(view, "byteOffset"@) as int;
    let to = from + count_at(view, "byteLength"@);
    if to <= binary.len() {
        binary.subrange(from, to)
    } else {
        Seq::empty()
    }
}

/// Whether a buffer is kept outside the file.
pub open spec fn is_outside(buffer: Tree) -> bool {
    buffer.at("uri"@) is Some
}

/// Whether any buffer is kept outside the file.
pub open spec fn any_outside(json: Tree) -> bool {
    match json.items_at("buffers"@) {
        Some(list) => some_outside(list),
        None => false,
    }
}

/// Whether one of some buffers is kept outside the file.
pub open spec fn some_outside(list: Seq<Tree>) -> bool {
    exists|i: int| 0 <= i < list.len() && is_outside(#[trigger] list[i])
}

/// The buffer view that a node names: its `bitstream`, or its `bufferView` where
/// it has none.
pub open spec fn named_view(node: Tree) -> Option<u64> {
    match node.at("bitstream"@) {
        Some(v) => v.unsigned(),
        None => node.unsigned_at("bufferView"@),
    }
}

/// What is there according to a field.
pub open spec fn availability_of(json: Tree, key: Seq<char>, binary: Seq<u8>) -> Available {
    match json.at(key) {
        None => Available::Constant(false),
        Some(node) => match node.unsigned_at("constant"@) {
            Some(c) => Available::Constant(c != 0),
            None => {
                let views = json.items_at("bufferViews"@);
                match (named_view(node), views) {
                    (Some(i), Some(list)) => if i < list.len() {
                        Available::Bits(view_bytes(list[i as int], binary))
                    } else {
                        Available::Constant(false)
                    },
                    _ => Available::Constant(false),
                }
            },
        },
    }
}

/// What the document and the bytes behind it hold. One that keeps a buffer
/// outside is refused: reading it as empty would look like an empty tileset.
pub open spec fn held_in(json: Tree, binary: Seq<u8>) -> Option<Held> {
    if any_outside(json) {
        None
    } else {
        Some(
            Held {
                tiles: availability_of(json, "tileAvailability"@, binary),
                children: availability_of(json, "childSubtreeAvailability"@, binary),
            },
        )
    }
}

/// Whether bytes are framed as a `.subtree`: its mark, and the length of the
/// document within it.
pub open spec fn is_framed(b: Seq<u8>) -> bool {
    b.len() >= 24 && b[0] == 115 && b[1] == 117 && b[2] == 98 && b[3] == 116 && 24 + le64(b, 8)
        <= b.len()
}

/// What a `.subtree` holds, or nothing where it cannot be read.
pub open spec fn subtree_of(b: Seq<u8>) -> Option<Held> {
    if !is_framed(b) {
        None
    } else {
        let cut = 24 + le64(b, 8);
        match json_read(b.subrange(24, cut)) {
            Ok(json) => held_in(json, b.skip(cut)),
            Err(_) => None,
        }
    }
}

fn read_count(j: &Json, key: &str) -> (n: u64)
    ensures
        n == count_at(j.tree(), key@),
{
    match j.unsigned_at(key) {
        Some(n) => n,
        None => 0,
    }
}

fn read_view(view: &Json, binary: &[u8]) -> (out: Vec<u8>)
    ensures
        out@ == view_bytes(view.tree(), binary@),
{
    let from: u64 = read_count(view, "byteOffset");
    let length: u64 = read_count(view, "byteLength");
    let size: u64 = binary.len() as u64;
    if from <= size && length <= size - from {
        let out = slice_of(binary, from as usize, (from + length) as usize);
        out
    } else {
        Vec::new()
    }
}

fn read_named_view(node: &Json) -> (r: Option<u64>)
    ensures
        r == named_view(node.tree()),
{
    match node.get("bitstream") {
        Some(v) => v.as_unsigned(),
        None => node.unsigned_at("bufferView"),
    }
}

fn read_availability(json: &Json, key: &str, binary: &[u8]) -> (r: Availability)
    ensures
        r@ == availability_of(json.tree(), key@, binary@),
{
    let node = match json.get(key) {
        Some(n) => n,
        None => {
            return Availability::Constant(false);
        },
    };
    if let Some(c) = node.unsigned_at("constant") {
        return Availability::Constant(c != 0);
    }
    match (read_named_view(node), json.array_at("bufferViews")) {
        (Some(i), Some(list)) => {
            if i < list.len() as u64 {
                assert(trees(list@)[i as int] == list@[i as int].tree());
                Availability::Bits(read_view(&list[i as usize], binary))
            } else {
                Availability::Constant(false)
            }
        },
        _ => Availability::Constant(false),
    }
}

fn keeps_outside(json: &Json) -> (r: bool)
    ensures
        r == any_outside(json.tree()),
{
    match json.array_at("buffers") {
        Some(list) => {
            let ghost all = trees(list@);
            let mut i: usize = 0;
            while i < list.len()
                invariant
                    i <= list.len(),
                    all == trees(list@),
                    json.tree().items_at("buffers"@) == Some(all),
                    forall|j: int| 0 <= j < i ==> !is_outside(#[trigger] all[j]),
                decreases list.len() - i,
            {
                assert(all[i as int] == list@[i as int].tree());
                if list[i].get("uri").is_some() {
                    assert(is_outside(all[i as int]));
                    assert(some_outside(all));
                    return true;
                }
                i = i + 1;
            }
            false
        },
        None => false,
    }
}

impl Subtree {
    /// What a parsed document and the bytes behind it hold.
    pub fn read(json: &Json, binary: &[u8]) -> (r: Option<Self>)
        ensures
            match r {
                Some(s) => held_in(json.tree(), binary@) == Some(s@),
                None => held_in(json.tree(), binary@) is None,
            },
    {
        if keeps_outside(json) {
            return None;
        }
        Some(
            Subtree {
                tiles: read_availability(json, "tileAvailability", binary),
                children: read_availability(json, "childSubtreeAvailability", binary),
            },
        )
    }

    /// Reads a `.subtree`.
    pub fn parse(bytes: &[u8]) -> (r: Option<Self>)
        ensures
            match r {
                Some(s) => subtree_of(bytes@) == Some(s@),
                None => subtree_of(bytes@) is None,
            },
    {
        let n: usize = bytes.len();
        if n < 24 || bytes[0] != 115 || bytes[1] != 117 || bytes[2] != 98 || bytes[3] != 116 {
            return None;
        }
        let length: u64 = u64_at(bytes, 8);
        if length > (n - 24) as u64 {
            return None;
        }
        let cut: usize = 24 + length as usize;
        let document = slice_of(bytes, 24, cut);
        let binary = slice_of(bytes, cut, n);
        assert(binary@ =~= bytes@.skip(cut as int));
        match Json::read(document.as_slice()) {
            Ok(json) => Subtree::read(&json, binary.as_slice()),
            Err(_) => None,
        }
    }

    /// Whether a tile of a level of the subtree is there.
    pub fn tile_available(&self, three_d: bool, level_in_subtree: u64, morton: u64) -> (r: bool)
        requires
            4 * cells(three_d, level_in_subtree as nat) <= u64::MAX,
            morton < cells(three_d, level_in_subtree as nat),
        ensures
            r == self@.tile(three_d, level_in_subtree as nat, morton as int),
    {
        match cell_count(three_d, level_in_subtree) {
            Some(n) => {
                proof {
                    cells_grow(three_d, level_in_subtree as nat, level_in_subtree as nat);
                }
                let offset: u64 = if three_d {
                    (n - 1) / 7
                } else {
                    (n - 1) / 3
                };
                self.tiles.get(offset + morton)
            },
            None => false,
        }
    }

    pub fn child_subtree_available(&self, morton: u64) -> (r: bool)
        ensures
            r == self@.children.has(morton as int),
    {
        self.children.get(morton)
    }
}

/// The tiles on the levels above level `l` of a subtree.
pub open spec fn tiles_above(three_d: bool, l: nat) -> int
    decreases l,
{
    if l == 0 {
        0
    } else {
        tiles_above(three_d, (l - 1) as nat) + cells(three_d, (l - 1) as nat)
    }
}

proof fn lemma_above(l: nat)
    ensures
        cells(true, l) == 7 * tiles_above(true, l) + 1,
        cells(false, l) == 3 * tiles_above(false, l) + 1,
    decreases l,
{
    if l > 0 {
        let less = (l - 1) as nat;
        lemma_above(less);
        assert(cells(true, l) == 8 * cells(true, less));
        assert(cells(false, l) == 4 * cells(false, less));
    }
}

/// A level of a subtree starts behind all the tiles above it, so no two tiles
/// share a bit.
pub proof fn levels_stand_end_to_end(three_d: bool, l: nat)
    ensures
        (cells(three_d, l) - 1) / (branching(three_d) - 1) == tiles_above(three_d, l),
{
    lemma_above(l);
    let above = tiles_above(three_d, l);
    if three_d {
        assert((7 * above) / 7 == above);
    } else {
        assert((3 * above) / 3 == above);
    }
}

/// Two places in Morton order are never the same tile.
pub proof fn morton_is_one_to_one(a: int, b: int, three_d: bool, levels: nat)
    requires
        0 <= a < cells(three_d, levels),
        0 <= b < cells(three_d, levels),
        decoded(a, three_d, levels) == decoded(b, three_d, levels),
    ensures
        a == b,
    decreases levels,
{
    if levels > 0 {
        let n = branching(three_d);
        let less = (levels - 1) as nat;
        let (ax, ay, az) = decoded(a / n, three_d, less);
        let (bx, by_, bz) = decoded(b / n, three_d, less);
        assert(a % 2 + 2 * ax == b % 2 + 2 * bx);
        assert(a / 2 % 2 + 2 * ay == b / 2 % 2 + 2 * by_);
        if three_d {
            assert(a / 4 % 2 + 2 * az == b / 4 % 2 + 2 * bz);
        } else {
            lemma_flat(a / n, less);
            lemma_flat(b / n, less);
        }
        morton_is_one_to_one(a / n, b / n, three_d, less);
    }
}

proof fn lemma_flat(m: int, levels: nat)
    ensures
        decoded(m, false, levels).2 == 0,
{
}

/// A decoded tile lies within the subtree.
pub proof fn decoded_is_within(m: int, three_d: bool, levels: nat)
    requires
        0 <= m,
    ensures
        0 <= decoded(m, three_d, levels).0 < across(levels),
        0 <= decoded(m, three_d, levels).1 < across(levels),
        0 <= decoded(m, three_d, levels).2 < across(levels),
    decreases levels,
{
    if levels > 0 {
        decoded_is_within(m / branching(three_d), three_d, (levels - 1) as nat);
    }
}

} // verus!
