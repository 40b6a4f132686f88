//! Nodes as a walk tells of them: how often each, and how many points in all.

use crate::cloud::{adding_keeps_agreement, sum, walks_agree, wrap64, NodeInfo, Tally};
use crate::octree::OctreeKey;
use vstd::prelude::*;

verus! {

/// How many of some nodes have an address.
pub open spec fn told(nodes: Seq<NodeInfo>, k: OctreeKey) -> nat
    decreases nodes.len(),
{
    if nodes.len() == 0 {
        0
    } else {
        told(nodes.drop_last(), k) + if nodes.last().key == k {
            1nat
        } else {
            0
        }
    }
}

/// The points of some nodes.
pub open spec fn points_told(nodes: Seq<NodeInfo>) -> int
    decreases nodes.len(),
{
    if nodes.len() == 0 {
        0
    } else {
        points_told(nodes.drop_last()) + nodes.last().point_count
    }
}

pub(crate) proof fn lemma_told_add(a: Seq<NodeInfo>, b: Seq<NodeInfo>, k: OctreeKey)
    ensures
        told(a + b, k) == told(a, k) + told(b, k),
        points_told(a + b) == points_told(a) + points_told(b),
    decreases b.len(),
{
    if b.len() == 0 {
        assert(a + b =~= a);
    } else {
        lemma_told_add(a, b.drop_last(), k);
        assert((a + b).drop_last() =~= a + b.drop_last());
    }
}

pub(crate) proof fn lemma_tally_on(t: Tally, a: Seq<NodeInfo>, b: Seq<NodeInfo>)
    ensures
        t.with_all(a + b) == t.with_all(a).with_all(b),
    decreases b.len(),
{
    if b.len() == 0 {
        assert(a + b =~= a);
    } else {
        lemma_tally_on(t, a, b.drop_last());
        assert((a + b).drop_last() =~= a + b.drop_last());
    }
}

pub(crate) proof fn lemma_tally_counts(nodes: Seq<NodeInfo>)
    ensures
        Tally::none().with_all(nodes).nodes == wrap64(nodes.len() as int),
        wrap64(sum(Tally::none().with_all(nodes).points)) == wrap64(points_told(nodes)),
    decreases nodes.len(),
{
    if nodes.len() > 0 {
        let before = nodes.drop_last();
        let t = Tally::none().with_all(before);
        lemma_tally_counts(before);
        walks_agree(before);
        adding_keeps_agreement(t, nodes.last());
        let by = nodes.last().point_count as int;
        let m = 0x1_0000_0000_0000_0000int;
        vstd::arithmetic::div_mod::lemma_add_mod_noop(sum(t.points), by, m);
        vstd::arithmetic::div_mod::lemma_add_mod_noop(points_told(before), by, m);
        assert(sum(t.points) % m == points_told(before) % m);
        vstd::arithmetic::div_mod::lemma_add_mod_noop_right(1, before.len() as int, m);
    }
}

/// Nodes that are told once each have addresses of their own.
pub(crate) proof fn lemma_told_twice(nodes: Seq<NodeInfo>, i: int, j: int)
    requires
        0 <= i < j < nodes.len(),
        nodes[i].key == nodes[j].key,
    ensures
        told(nodes, nodes[i].key) >= 2,
    decreases nodes.len(),
{
    let before = nodes.drop_last();
    if j < before.len() {
        lemma_told_twice(before, i, j);
    } else {
        lemma_told_somewhere(before, i);
    }
}

pub(crate) proof fn lemma_told_somewhere(nodes: Seq<NodeInfo>, i: int)
    requires
        0 <= i < nodes.len(),
    ensures
        told(nodes, nodes[i].key) >= 1,
    decreases nodes.len(),
{
    if i < nodes.len() - 1 {
        lemma_told_somewhere(nodes.drop_last(), i);
    }
}

pub(crate) proof fn lemma_told_where(nodes: Seq<NodeInfo>, k: OctreeKey) -> (i: int)
    requires
        told(nodes, k) > 0,
    ensures
        0 <= i < nodes.len(),
        nodes[i].key == k,
    decreases nodes.len(),
{
    if nodes.last().key == k {
        nodes.len() - 1
    } else {
        lemma_told_where(nodes.drop_last(), k)
    }
}

} // verus!
