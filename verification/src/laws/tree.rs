//! How a tree is addressed, and what its nodes hold.

use crate::bounds::Bounds;
use crate::build::{
    bucket, cell_number, children_down_to, falling, keeps, staying, takes_all, BuildOptions, Slot,
};
use crate::build::chunked::{cells_at, cut_level, takes_in};
use crate::double::{bit_len, nearest53, rounded, Real};
use crate::octree::{bit_of, child_holding, interleaved, OctreeKey};
use crate::text::decimal;
use vstd::arithmetic::power2::{lemma2_to64, pow2};
use vstd::prelude::*;

verus! {

/// The children of a node: twice its place on every axis, and one more on x, y and
/// z for the bits four, two and one of the index.
pub proof fn a_child_is_one_level_down(k: OctreeKey, index: u8)
    requires
        index < 8,
        k.level < 0x7fff_ffff && k.x < 0x7fff_ffff && k.y < 0x7fff_ffff && k.z < 0x7fff_ffff,
    ensures
        ({
            let c = k.spec_child(index);
            &&& c.level == k.level + 1
            &&& c.x == 2 * k.x + if index >= 4 {
                1int
            } else {
                0
            }
            &&& c.y == 2 * k.y + if index == 2 || index == 3 || index == 6 || index == 7 {
                1int
            } else {
                0
            }
            &&& c.z == 2 * k.z + if index == 1 || index == 3 || index == 5 || index == 7 {
                1int
            } else {
                0
            }
        }),
{
}

/// The node above a node has half its place on every axis, and the root has none.
pub proof fn the_parent_is_one_level_up(k: OctreeKey)
    ensures
        k.level == 0 ==> k.spec_parent() is None && k.spec_child_index() is None,
        k.level > 0 ==> ({
            let p = k.spec_parent()->0;
            &&& k.spec_parent() is Some
            &&& p.level == k.level - 1
            &&& k.x == 2 * p.x || k.x == 2 * p.x + 1
            &&& k.y == 2 * p.y || k.y == 2 * p.y + 1
            &&& k.z == 2 * p.z || k.z == 2 * p.z + 1
            &&& k.spec_child_index() == Some(
                (4 * (k.x - 2 * p.x) + 2 * (k.y - 2 * p.y) + (k.z - 2 * p.z)) as u8,
            )
        }),
{
}

/// A point at the centre or past it, on x, y or z, falls to a child with the bit
/// four, two or one.
pub proof fn a_point_falls_on_its_side(center: Seq<Real>, p: Seq<Real>)
    ensures
        ({
            let c = child_holding(center, p);
            &&& 0 <= c < 8
            &&& c >= 4 <==> center[0].at_most(p[0])
            &&& (c == 2 || c == 3 || c == 6 || c == 7) <==> center[1].at_most(p[1])
            &&& (c == 1 || c == 3 || c == 5 || c == 7) <==> center[2].at_most(p[2])
        }),
{
}

/// The two spellings of an address: its four numbers with hyphens, and `r` with a
/// digit for every level, the bits of x, y and z counting four, two and one, the
/// digit of the lowest level last.
pub proof fn an_address_is_spelt(k: OctreeKey, d: int)
    requires
        0 <= d < k.level <= 32,
    ensures
        k.spec_ept_name() == decimal(k.level as nat) + "-"@ + decimal(k.x as nat) + "-"@ + decimal(
            k.y as nat,
        ) + "-"@ + decimal(k.z as nat),
        ({
            let name = k.spec_potree_name();
            let at = k.level - 1 - d;
            &&& name.len() == k.level + 1
            &&& name[0] == 'r'
            &&& name[d + 1] as int == 48 + 4 * bit_of(k.x, at) + 2 * bit_of(k.y, at) + bit_of(
                k.z,
                at,
            )
        }),
        bit_of(k.x, 0) == k.x % 2,
        bit_of(k.x, 1) == k.x / 2 % 2,
{
    lemma2_to64();
    assert(pow2(0) == 1 && pow2(1) == 2);
    assert(k.x as int / 1 == k.x);
    let at = k.level - 1 - d;
    assert(0 <= at < 32);
    assert((k.level - 1 - d) % 32 == at);
    assert(0 <= k.digit(d) < 8);
}

/// A Morton code has the bits of x, y and z in turns, from the lowest on.
pub proof fn a_code_takes_turns(x: u32, y: u32, z: u32, i: u32)
    requires
        i < 10,
    ensures
        (interleaved(x, y, z) >> (3 * i) as u32) & 1 == (x >> i) & 1,
        (interleaved(x, y, z) >> (3 * i + 1) as u32) & 1 == (y >> i) & 1,
        (interleaved(x, y, z) >> (3 * i + 2) as u32) & 1 == (z >> i) & 1,
        interleaved(x, y, z) < 0x4000_0000,
{
    lemma_turn(x, y, z, i);
}

proof fn lemma_turn(x: u32, y: u32, z: u32, i: u32)
    by (bit_vector)
    requires
        i < 10,
    ensures
        (interleaved(x, y, z) >> (3 * i) as u32) & 1 == (x >> i) & 1,
        (interleaved(x, y, z) >> (3 * i + 1) as u32) & 1 == (y >> i) & 1,
        (interleaved(x, y, z) >> (3 * i + 2) as u32) & 1 == (z >> i) & 1,
        interleaved(x, y, z) < 0x4000_0000,
{
}

/// Numbers are ordered as they are: the positive by their bits, the negative the
/// other way round and below them, zero between, and what is no number nowhere.
pub proof fn numbers_are_ordered(a: Real, b: Real)
    ensures
        a.bits <= 0x7ff0_0000_0000_0000 && b.bits <= 0x7ff0_0000_0000_0000 ==> (a.below(b)
            <==> a.bits < b.bits),
        0x8000_0000_0000_0000 <= a.bits <= 0xfff0_0000_0000_0000 && 0x8000_0000_0000_0000 <= b.bits
            <= 0xfff0_0000_0000_0000 ==> (a.below(b) <==> a.bits > b.bits),
        0x8000_0000_0000_0000 < a.bits <= 0xfff0_0000_0000_0000 && b.bits <= 0x7ff0_0000_0000_0000
            ==> a.below(b) && !b.below(a),
        a.bits == 0x8000_0000_0000_0000 && b.bits == 0 ==> !a.below(b) && !b.below(a) && a.at_most(
            b,
        ) && b.at_most(a),
        0x7ff0_0000_0000_0000 < a.bits < 0x8000_0000_0000_0000 || a.bits > 0xfff0_0000_0000_0000
            ==> !a.below(b) && !b.below(a) && !a.at_most(b) && !b.at_most(a),
        a.at_most(a) ==> (a.at_most(b) || b.below(a) || !b.at_most(b)),
        a.finite() <==> (a.bits % 0x8000_0000_0000_0000) < 0x7ff0_0000_0000_0000,
        a.positive() <==> 0 < a.bits < 0x7ff0_0000_0000_0000,
{
}

/// A box is grown no more than it needs: each corner is the old one or that of the
/// point.
pub proof fn a_box_grows_to_the_point(b: Bounds, p: Seq<Real>, i: int)
    requires
        0 <= i < 3,
    ensures
        ({
            let g = b.grown(p);
            &&& p[i].below(b.min@[i]) ==> g.min@[i] == p[i]
            &&& !p[i].below(b.min@[i]) ==> g.min@[i] == b.min@[i]
            &&& b.max@[i].below(p[i]) ==> g.max@[i] == p[i]
            &&& !b.max@[i].below(p[i]) ==> g.max@[i] == b.max@[i]
        }),
        b.holds(p) ==> b.min@[i].at_most(p[i]) && p[i].at_most(b.max@[i]),
        b.max@[i].below(b.min@[i]) ==> b.inverted(),
{
}

/// The cells of a grid are numbered along x, then y, then z.
pub proof fn cells_are_numbered_along_the_axes(cell: Seq<u32>, span: u32)
    requires
        cell[0] < span && cell[1] < span && cell[2] < span,
        span <= 1625,
    ensures
        cell_number(cell, span) == cell[0] + span * cell[1] + span * span * cell[2],
{
    let a = cell[0] as int;
    let b = cell[1] as int;
    let c = cell[2] as int;
    let s = span as int;
    assert(s * (b + s * c) == s * b + s * s * c) by (nonlinear_arith);
    assert(0 <= a + s * b + s * s * c < 0x1_0000_0000) by (nonlinear_arith)
        requires
            0 <= a < s,
            0 <= b < s,
            0 <= c < s,
            s <= 1625,
    ;
}

/// A node takes all of its input where that is no more than a leaf holds, or where
/// it is as deep as a node may be, and only there.
pub proof fn small_nodes_are_not_split(count: int, level: u32, options: BuildOptions)
    ensures
        count <= options.leaf_points ==> takes_all(count, level, options),
        level >= options.max_depth ==> takes_all(count, level, options),
        count > options.leaf_points && level < options.max_depth ==> !takes_all(
            count,
            level,
            options,
        ),
{
}

/// A node that is split takes its points in turn: one whose cell is free stays
/// behind those that stayed, and one whose cell is taken falls to the child that
/// contains it, and to no other.
pub proof fn a_point_stays_where_its_cell_is_free(
    records: Seq<u8>,
    stride: int,
    slots: Seq<Slot>,
    n: int,
    child: int,
)
    requires
        0 <= n,
    ensures
        ({
            let r = records.subrange(n * stride, n * stride + stride);
            let taken = exists|j: int|
                0 <= j < n && (#[trigger] slots[j]).cell == slots[n].cell;
            &&& !taken ==> staying(records, stride, slots, n + 1) == staying(
                records,
                stride,
                slots,
                n,
            ) + r && falling(records, stride, slots, child, n + 1) == falling(
                records,
                stride,
                slots,
                child,
                n,
            )
            &&& taken ==> staying(records, stride, slots, n + 1) == staying(
                records,
                stride,
                slots,
                n,
            )
            &&& taken && slots[n].child == child ==> falling(records, stride, slots, child, n + 1)
                == falling(records, stride, slots, child, n) + r
            &&& taken && slots[n].child != child ==> falling(records, stride, slots, child, n + 1)
                == falling(records, stride, slots, child, n)
            &&& staying(records, stride, slots, 0).len() == 0
            &&& falling(records, stride, slots, child, 0).len() == 0
        }),
{
}

/// What a node keeps and hands down: all and nothing where it is not split, and
/// else what stays and what falls of every point.
pub proof fn a_node_keeps_or_hands_down(
    records: Seq<u8>,
    level: u32,
    stride: int,
    options: BuildOptions,
    slots: Seq<Slot>,
    child: int,
)
    ensures
        ({
            let count = records.len() as int / stride;
            let small = count <= options.leaf_points || level >= options.max_depth;
            &&& small ==> keeps(records, level, stride, options, slots) == records && bucket(
                records,
                level,
                stride,
                options,
                slots,
                child,
            ).len() == 0
            &&& !small ==> keeps(records, level, stride, options, slots) == staying(
                records,
                stride,
                slots,
                count,
            ) && bucket(records, level, stride, options, slots, child) == falling(
                records,
                stride,
                slots,
                child,
                count,
            )
        }),
{
}

/// The children of a node are put in line so that the first comes next: child `c`
/// behind those with higher indices, at its own address and with its own points,
/// and only where it has any.
pub proof fn children_come_in_ascending_order(
    key: OctreeKey,
    records: Seq<u8>,
    stride: int,
    options: BuildOptions,
    slots: Seq<Slot>,
    c: int,
)
    requires
        0 <= c < 8,
    ensures
        ({
            let line = children_down_to(key, records, stride, options, slots, c);
            let above = children_down_to(key, records, stride, options, slots, c + 1);
            let b = bucket(records, key.level, stride, options, slots, c);
            &&& b.len() == 0 ==> line == above
            &&& b.len() > 0 ==> line.len() == above.len() + 1 && line.drop_last() == above
                && line.last().0 == key.spec_child(c as u8) && line.last().1 == b
            &&& children_down_to(key, records, stride, options, slots, 8).len() == 0
        }),
{
    let line = children_down_to(key, records, stride, options, slots, c);
    let above = children_down_to(key, records, stride, options, slots, c + 1);
    if bucket(records, key.level, stride, options, slots, c).len() > 0 {
        assert(line.drop_last() =~= above);
    }
}

proof fn lemma_cells()
    ensures
        cells_at(0) == 1,
        cells_at(1) == 8,
        cells_at(2) == 64,
        cells_at(3) == 512,
        cells_at(4) == 4096,
{
    reveal_with_fuel(cells_at, 6);
}

/// A cloud is cut at the first level whose cells fit half the memory there is, the
/// points being spread over them, and at the fourth level where none does.
pub proof fn a_cloud_is_cut_where_its_cells_fit(expected: u64, budget: u64, level: u32)
    requires
        expected < 0x20_0000_0000_0000,
        2 <= budget < 0x20_0000_0000_0000,
        level <= 4,
    ensures
        ({
            let cut = cut_level(expected, budget, 0);
            let cells = cells_at(level);
            &&& cells_at(0) == 1 && cells_at(1) == 8 && cells_at(2) == 64 && cells_at(3) == 512
                && cells_at(4) == 4096
            &&& cut <= 4
            &&& level < cut ==> 2 * expected > budget * cells
            &&& level == cut && level < 4 ==> 2 * expected <= budget * cells
        }),
{
    lemma_cells();
    lemma_short(expected as nat);
    lemma_short(budget as nat);
    reveal_with_fuel(cut_level, 6);
}

proof fn lemma_short(n: nat)
    requires
        n < 0x20_0000_0000_0000,
    ensures
        nearest53(n) == n,
{
    lemma2_to64();
    vstd::arithmetic::power2::lemma2_to64_rest();
    assert(pow2(53) == 0x20_0000_0000_0000);
    lemma_digits(n, 53);
}

proof fn lemma_digits(n: nat, d: nat)
    requires
        n < pow2(d),
    ensures
        bit_len(n) <= d,
    decreases d,
{
    if d == 0 {
        lemma2_to64();
    } else {
        vstd::arithmetic::power2::lemma_pow2_unfold(d);
        lemma_digits(n / 2, (d - 1) as nat);
    }
}

/// Rounding gives the nearest whole number, and an even one where two are as near.
pub proof fn rounding_gives_the_nearest(a: nat, b: nat)
    requires
        b > 0,
    ensures
        -(b as int) <= 2 * (a - b * rounded(a, b)) <= b,
        2 * (a - b * rounded(a, b)) == b || 2 * (a - b * rounded(a, b)) == -(b as int) ==> rounded(
            a,
            b,
        ) % 2 == 0,
{
    let q = a / b;
    let r = a % b;
    assert(a == b * q + r && 0 <= r < b) by (nonlinear_arith)
        requires
            b > 0,
            q == a / b,
            r == a % b,
    ;
    assert(b * (q + 1) == b * q + b) by (nonlinear_arith);
}

/// Records wait for the file of their cell until there are four megabytes of them,
/// and then are handed over together.
pub proof fn records_wait_for_four_megabytes(
    before: Seq<u8>,
    record: Seq<u8>,
    handed: Option<Seq<u8>>,
    after: Seq<u8>,
)
    requires
        takes_in(before, record, handed, after),
    ensures
        before.len() + record.len() >= 4 * 1024 * 1024 ==> handed == Some(before + record)
            && after.len() == 0,
        before.len() + record.len() < 4 * 1024 * 1024 ==> handed is None && after == before + record,
{
}

/// A point stands in a box where it stands between its faces on all three axes.
pub proof fn a_box_holds_what_is_between_its_faces(b: Bounds, p: Seq<Real>)
    ensures
        b.holds(p) <==> b.min@[0].at_most(p[0]) && p[0].at_most(b.max@[0]) && b.min@[1].at_most(
            p[1],
        ) && p[1].at_most(b.max@[1]) && b.min@[2].at_most(p[2]) && p[2].at_most(b.max@[2]),
        b.inverted() <==> b.max@[0].below(b.min@[0]) || b.max@[1].below(b.min@[1])
            || b.max@[2].below(b.min@[2]),
{
    if b.holds(p) {
        assert(p[0] == p[0] && p[1] == p[1] && p[2] == p[2]);
    }
    if b.max@[0].below(b.min@[0]) || b.max@[1].below(b.min@[1]) || b.max@[2].below(b.min@[2]) {
        assert(b.max@[0] == b.max@[0] && b.max@[1] == b.max@[1] && b.max@[2] == b.max@[2]);
    }
}

} // verus!
