//! What every format can say about a cloud, minus its points.

use crate::attribute::{columns, record_size, role_of, Attribute, AttributeRole, Column};
use crate::bounds::Bounds;
use crate::crs::{Crs, Declared};
use crate::double::{Real, ONE, ZERO};
use crate::octree::OctreeKey;
use crate::text::same;
use crate::warning::{notices, notices_push, Notice, Warning};
use vstd::prelude::*;

verus! {

/// Which driver read it.
#[derive(Debug, Clone, Copy, PartialEq, Eq, Structural)]
pub enum FormatId {
    PotreeV2,
    Copc,
    Ept,
    /// A bare LAS or LAZ file: points, no index.
    Las,
    /// An E57 file: one or more scans, no index.
    E57,
    /// A 3D Tiles tileset: explicit tree, implicit rule, or both.
    Tiles3D,
}

impl FormatId {
    pub open spec fn spelling(self) -> Seq<char> {
        match self {
            FormatId::PotreeV2 => "potree-v2"@,
            FormatId::Copc => "copc"@,
            FormatId::Ept => "ept"@,
            FormatId::Las => "las"@,
            FormatId::E57 => "e57"@,
            FormatId::Tiles3D => "3d-tiles"@,
        }
    }

    pub fn name(self) -> (s: &'static str)
        ensures
            s@ == self.spelling(),
    {
        match self {
            FormatId::PotreeV2 => "potree-v2",
            FormatId::Copc => "copc",
            FormatId::Ept => "ept",
            FormatId::Las => "las",
            FormatId::E57 => "e57",
            FormatId::Tiles3D => "3d-tiles",
        }
    }

    pub open spec fn caption(self) -> Seq<char> {
        match self {
            FormatId::PotreeV2 => "Potree v2"@,
            FormatId::Copc => "COPC"@,
            FormatId::Ept => "Entwine Point Tile"@,
            FormatId::Las => "LAS/LAZ"@,
            FormatId::E57 => "E57"@,
            FormatId::Tiles3D => "3D Tiles"@,
        }
    }

    /// What a human calls it.
    pub fn title(self) -> (s: &'static str)
        ensures
            s@ == self.caption(),
    {
        match self {
            FormatId::PotreeV2 => "Potree v2",
            FormatId::Copc => "COPC",
            FormatId::Ept => "Entwine Point Tile",
            FormatId::Las => "LAS/LAZ",
            FormatId::E57 => "E57",
            FormatId::Tiles3D => "3D Tiles",
        }
    }

    /// Whether the format carries its own spatial index.
    pub fn is_indexed(self) -> (r: bool)
        ensures
            r == (self != FormatId::Las && self != FormatId::E57),
    {
        !matches!(self, FormatId::Las | FormatId::E57)
    }
}

/// The neutral summary.
#[derive(Debug)]
pub struct CloudInfo {
    pub format: FormatId,
    /// Where it was read from. A path or a URL; never parsed.
    pub label: String,
    /// Points across every level, as the file declares it.
    pub point_count: u64,
    /// The indexing volume: the cube an octree subdivides.
    pub bounds: Bounds,
    /// The tight extent, in absolute CRS units.
    pub tight_bounds: Bounds,
    /// Position quantum and origin, when the format stores integers.
    pub scale: [Real; 3],
    pub offset: [Real; 3],
    /// In source order. For a record-oriented format this is the field order.
    pub attributes: Vec<Attribute>,
    pub crs: Option<Crs>,
    /// Distance between neighbouring points at the root, where stated.
    pub spacing: Option<Real>,
    /// Deepest level the index reaches, where the manifest states it.
    pub levels: Option<u32>,
    /// How the point records are stored, verbatim from the file.
    pub encoding: Option<String>,
    /// The version string the file carries, when it carries one.
    pub version: Option<String>,
    /// Total bytes of point data, when knowable without walking every node.
    pub data_bytes: Option<u64>,
    /// Bytes of one stored record, as the format states it.
    pub record_bytes: Option<usize>,
    /// Tolerated anomalies, in discovery order.
    pub warnings: Vec<Warning>,
}

/// A summary, as the values it holds.
#[verifier::ext_equal]
pub struct Summary {
    pub format: FormatId,
    pub label: Seq<char>,
    pub point_count: u64,
    pub bounds: Bounds,
    pub tight_bounds: Bounds,
    pub scale: Seq<Real>,
    pub offset: Seq<Real>,
    pub attributes: Seq<Column>,
    pub crs: Option<Declared>,
    pub spacing: Option<Real>,
    pub levels: Option<u32>,
    pub encoding: Option<Seq<char>>,
    pub version: Option<Seq<char>>,
    pub data_bytes: Option<u64>,
    pub record_bytes: Option<usize>,
    pub warnings: Seq<Notice>,
}

/// A string that may be missing, as its characters.
pub open spec fn spelled(s: Option<String>) -> Option<Seq<char>> {
    match s {
        Some(t) => Some(t@),
        None => None,
    }
}

impl View for CloudInfo {
    type V = Summary;

    open spec fn view(&self) -> Summary {
        Summary {
            format: self.format,
            label: self.label@,
            point_count: self.point_count,
            bounds: self.bounds,
            tight_bounds: self.tight_bounds,
            scale: self.scale@,
            offset: self.offset@,
            attributes: columns(self.attributes@),
            crs: declared(self.crs),
            spacing: self.spacing,
            levels: self.levels,
            encoding: spelled(self.encoding),
            version: spelled(self.version),
            data_bytes: self.data_bytes,
            record_bytes: self.record_bytes,
            warnings: notices(self.warnings@),
        }
    }
}

impl Summary {
    /// The summary of which nothing but the format and the label is known.
    pub open spec fn blank(format: FormatId, label: Seq<char>) -> Self {
        let one = Real { bits: ONE };
        let zero = Real { bits: ZERO };
        Summary {
            format,
            label,
            point_count: 0,
            bounds: Bounds::nothing(),
            tight_bounds: Bounds::nothing(),
            scale: seq![one, one, one],
            offset: seq![zero, zero, zero],
            attributes: Seq::empty(),
            crs: None,
            spacing: None,
            levels: None,
            encoding: None,
            version: None,
            data_bytes: None,
            record_bytes: None,
            warnings: Seq::empty(),
        }
    }
}

/// A declaration that may be missing, as the values it holds.
pub open spec fn declared(crs: Option<Crs>) -> Option<Declared> {
    match crs {
        Some(c) => Some(c@),
        None => None,
    }
}

/// The first attribute with a name.
pub open spec fn column_named(all: Seq<Column>, name: Seq<char>) -> Option<Column>
    decreases all.len(),
{
    if all.len() == 0 {
        None
    } else if all[0].name == name {
        Some(all[0])
    } else {
        column_named(all.skip(1), name)
    }
}

impl CloudInfo {
    /// An empty summary of a given format, for a reader to fill in.
    pub fn new(format: FormatId, label: String) -> (c: Self)
        ensures
            c@ == Summary::blank(format, label@),
    {
        let one = Real { bits: ONE };
        let zero = Real { bits: ZERO };
        let c = CloudInfo {
            format,
            label,
            point_count: 0,
            bounds: Bounds::empty(),
            tight_bounds: Bounds::empty(),
            scale: [one, one, one],
            offset: [zero, zero, zero],
            attributes: Vec::new(),
            crs: None,
            spacing: None,
            levels: None,
            encoding: None,
            version: None,
            data_bytes: None,
            record_bytes: None,
            warnings: Vec::new(),
        };
        assert(c.scale@ =~= seq![one, one, one]);
        assert(c.offset@ =~= seq![zero, zero, zero]);
        assert(c@ =~= Summary::blank(format, label@));
        c
    }

    /// Notes a tolerated anomaly, after those already noted.
    pub fn warn(&mut self, code: &'static str, path: String, message: String)
        ensures
            notices(final(self).warnings@) == notices(old(self).warnings@).push(
                Notice { code: code@, path: path@, message: message@ },
            ),
            *final(self) == (CloudInfo { warnings: final(self).warnings, ..*old(self) }),
            final(self)@ == (Summary {
                warnings: old(self)@.warnings.push(
                    Notice { code: code@, path: path@, message: message@ },
                ),
                ..old(self)@
            }),
    {
        let w = Warning::new(code, path, message);
        proof {
            notices_push(self.warnings@, w);
        }
        self.warnings.push(w);
    }

    /// Bytes of one stored point record.
    pub fn bytes_per_point(&self) -> (n: usize)
        ensures
            n == match self.record_bytes {
                Some(b) => b as int,
                None => record_size(columns(self.attributes@)),
            },
    {
        match self.record_bytes {
            Some(b) => b,
            None => {
                let mut total: usize = 0;
                let mut i: usize = 0;
                let ghost all = columns(self.attributes@);
                assert(all.take(0) =~= Seq::<Column>::empty());
                while i < self.attributes.len()
                    invariant
                        i <= self.attributes.len(),
                        all == columns(self.attributes@),
                        total == record_size(all.take(i as int)),
                    decreases self.attributes.len() - i,
                {
                    assert(all.take(i + 1).drop_last() =~= all.take(i as int));
                    assert(all.take(i + 1).last() == self.attributes@[i as int]@);
                    let size: usize = self.attributes[i].byte_size();
                    proof {
                        crate::bytes::wrapped_sum(total, size);
                    }
                    total = total.wrapping_add(size);
                    i = i + 1;
                }
                assert(all.take(i as int) =~= all);
                total
            },
        }
    }

    /// The first attribute with a name.
    pub fn attribute(&self, name: &str) -> (r: Option<&Attribute>)
        ensures
            match r {
                Some(a) => column_named(columns(self.attributes@), name@) == Some(a@),
                None => column_named(columns(self.attributes@), name@) is None,
            },
    {
        let mut i: usize = 0;
        let ghost all = columns(self.attributes@);
        assert(all.skip(0) =~= all);
        while i < self.attributes.len()
            invariant
                i <= self.attributes.len(),
                all == columns(self.attributes@),
                column_named(all, name@) == column_named(all.skip(i as int), name@),
            decreases self.attributes.len() - i,
        {
            assert(all.skip(i as int)[0] == self.attributes@[i as int]@);
            if same(self.attributes[i].name.as_str(), name) {
                return Some(&self.attributes[i]);
            }
            assert(all.skip(i as int).skip(1) =~= all.skip(i + 1));
            i = i + 1;
        }
        None
    }

    /// Whether any attribute plays the part of colour.
    pub fn has_color(&self) -> (r: bool)
        ensures
            r == exists|i: int|
                0 <= i < self.attributes@.len() && role_of((#[trigger] self.attributes@[i])@.name)
                    == Some(AttributeRole::Color),
    {
        let mut i: usize = 0;
        while i < self.attributes.len()
            invariant
                i <= self.attributes.len(),
                forall|j: int|
                    0 <= j < i ==> role_of((#[trigger] self.attributes@[j])@.name) != Some(
                        AttributeRole::Color,
                    ),
            decreases self.attributes.len() - i,
        {
            if let Some(AttributeRole::Color) = self.attributes[i].role() {
                return true;
            }
            i = i + 1;
        }
        false
    }
}

/// One node of an index, as a walk of the hierarchy found it.
#[derive(Debug, Clone, Copy, PartialEq, Structural)]
pub struct NodeInfo {
    pub key: OctreeKey,
    pub point_count: u64,
    /// Bytes of stored payload, compressed if it is compressed.
    pub byte_size: u64,
}

/// What a full walk of the hierarchy learned.
#[derive(Debug)]
pub struct HierarchyStats {
    pub nodes: u64,
    /// Deepest level with at least one node.
    pub depth: u32,
    /// Points per level, index 0 being the root level.
    pub points_by_level: Vec<u64>,
    pub nodes_by_level: Vec<u64>,
    /// Payload bytes summed over every node, where the hierarchy states them.
    pub data_bytes: u64,
    /// Bytes of hierarchy structure itself, and how many requests reading it
    /// took.
    pub hierarchy_bytes: u64,
    pub hierarchy_requests: u32,
    pub warnings: Vec<Warning>,
}

/// A 64-bit sum, wrapped.
pub open spec fn wrap64(n: int) -> u64 {
    (n % 0x1_0000_0000_0000_0000) as u64
}

/// A per-level count with `by` added at `level`, new levels starting at zero.
pub open spec fn bumped(counts: Seq<u64>, level: int, by: u64) -> Seq<u64> {
    Seq::new(
        if counts.len() > level {
            counts.len()
        } else {
            (level + 1) as nat
        },
        |i: int|
            {
                let held = if i < counts.len() {
                    counts[i]
                } else {
                    0u64
                };
                if i == level {
                    wrap64(held + by)
                } else {
                    held
                }
            },
    )
}

/// What the nodes of a walk add up to.
pub struct Tally {
    pub nodes: u64,
    pub depth: u32,
    pub points: Seq<u64>,
    pub counts: Seq<u64>,
    pub data_bytes: u64,
}

impl Tally {
    /// Nothing walked yet.
    pub open spec fn none() -> Self {
        Tally { nodes: 0, depth: 0, points: Seq::empty(), counts: Seq::empty(), data_bytes: 0 }
    }

    /// The tally with one more node.
    pub open spec fn with(self, node: NodeInfo) -> Self {
        Tally {
            nodes: wrap64(self.nodes + 1),
            depth: if node.key.level > self.depth {
                node.key.level
            } else {
                self.depth
            },
            points: bumped(self.points, node.key.level as int, node.point_count),
            counts: bumped(self.counts, node.key.level as int, 1),
            data_bytes: wrap64(self.data_bytes + node.byte_size),
        }
    }

    /// The tally with several more nodes.
    pub open spec fn with_all(self, nodes: Seq<NodeInfo>) -> Self
        decreases nodes.len(),
    {
        if nodes.len() == 0 {
            self
        } else {
            self.with_all(nodes.drop_last()).with(nodes.last())
        }
    }
}

/// The sum of a list of counts.
pub open spec fn sum(counts: Seq<u64>) -> int
    decreases counts.len(),
{
    if counts.len() == 0 {
        0
    } else {
        sum(counts.drop_last()) + counts.last()
    }
}

/// Whether statistics are those of a cloud without an index: the whole file is
/// one node at level zero, with every point in it.
pub open spec fn one_node(info: CloudInfo, s: HierarchyStats) -> bool {
    &&& s.wf()
    &&& s.tally() == Tally::none().with(
        NodeInfo {
            key: OctreeKey::root(),
            point_count: info.point_count,
            byte_size: match info.data_bytes {
                Some(n) => n,
                None => 0,
            },
        },
    )
    &&& s.hierarchy_bytes == 0
    &&& s.hierarchy_requests == 0
    &&& s.warnings@.len() == 0
}

impl HierarchyStats {
    /// What the nodes so far add up to.
    pub open spec fn tally(self) -> Tally {
        Tally {
            nodes: self.nodes,
            depth: self.depth,
            points: self.points_by_level@,
            counts: self.nodes_by_level@,
            data_bytes: self.data_bytes,
        }
    }

    /// Whether the two per-level lists have the same levels.
    pub open spec fn wf(self) -> bool {
        self.points_by_level@.len() == self.nodes_by_level@.len()
    }

    /// Nothing walked yet.
    pub fn new() -> (s: Self)
        ensures
            s.wf(),
            s.tally() == Tally::none(),
            s.hierarchy_bytes == 0,
            s.hierarchy_requests == 0,
            s.warnings@.len() == 0,
    {
        let s = HierarchyStats {
            nodes: 0,
            depth: 0,
            points_by_level: Vec::new(),
            nodes_by_level: Vec::new(),
            data_bytes: 0,
            hierarchy_bytes: 0,
            hierarchy_requests: 0,
            warnings: Vec::new(),
        };
        assert(s.points_by_level@ =~= Seq::<u64>::empty());
        assert(s.nodes_by_level@ =~= Seq::<u64>::empty());
        s
    }

    /// Counts one node at its level.
    pub fn add(&mut self, node: NodeInfo)
        requires
            old(self).wf(),
        ensures
            final(self).wf(),
            final(self).tally() == old(self).tally().with(node),
            final(self).hierarchy_bytes == old(self).hierarchy_bytes,
            final(self).hierarchy_requests == old(self).hierarchy_requests,
            final(self).warnings == old(self).warnings,
    {
        let level: usize = node.key.level as usize;
        let ghost points = self.points_by_level@;
        let ghost counts = self.nodes_by_level@;
        while self.points_by_level.len() <= level
            invariant
                self.points_by_level@.len() == self.nodes_by_level@.len(),
                points.len() == counts.len(),
                points.len() <= self.points_by_level@.len(),
                self.points_by_level@.len() <= level + 1 || self.points_by_level@.len()
                    == points.len(),
                self.points_by_level@.take(points.len() as int) == points,
                self.nodes_by_level@.take(points.len() as int) == counts,
                forall|i: int|
                    points.len() <= i < self.points_by_level@.len() ==> self.points_by_level@[i]
                        == 0 && self.nodes_by_level@[i] == 0,
                self.nodes == old(self).nodes,
                self.depth == old(self).depth,
                self.data_bytes == old(self).data_bytes,
                self.hierarchy_bytes == old(self).hierarchy_bytes,
                self.hierarchy_requests == old(self).hierarchy_requests,
                self.warnings == old(self).warnings,
            decreases level + 1 - self.points_by_level@.len(),
        {
            let ghost a = self.points_by_level@;
            let ghost b = self.nodes_by_level@;
            self.points_by_level.push(0);
            self.nodes_by_level.push(0);
            assert(self.points_by_level@.take(points.len() as int) =~= a.take(points.len() as int));
            assert(self.nodes_by_level@.take(points.len() as int) =~= b.take(points.len() as int));
        }
        assert(forall|i: int|
            0 <= i < points.len() ==> self.points_by_level@[i] == self.points_by_level@.take(
                points.len() as int,
            )[i]);
        assert(forall|i: int|
            0 <= i < points.len() ==> self.nodes_by_level@[i] == self.nodes_by_level@.take(
                points.len() as int,
            )[i]);
        let p: u64 = self.points_by_level[level].wrapping_add(node.point_count);
        let c: u64 = self.nodes_by_level[level].wrapping_add(1);
        self.points_by_level[level] = p;
        self.nodes_by_level[level] = c;
        self.nodes = self.nodes.wrapping_add(1);
        self.data_bytes = self.data_bytes.wrapping_add(node.byte_size);
        if node.key.level > self.depth {
            self.depth = node.key.level;
        }
        assert(self.points_by_level@ =~= bumped(points, level as int, node.point_count));
        assert(self.nodes_by_level@ =~= bumped(counts, level as int, 1));
    }

    /// Notes a tolerated anomaly, after those already noted.
    pub fn warn(&mut self, code: &'static str, path: String, message: String)
        ensures
            notices(final(self).warnings@) == notices(old(self).warnings@).push(
                Notice { code: code@, path: path@, message: message@ },
            ),
            *final(self) == (HierarchyStats { warnings: final(self).warnings, ..*old(self) }),
    {
        let w = Warning::new(code, path, message);
        proof {
            notices_push(self.warnings@, w);
        }
        self.warnings.push(w);
    }

    /// Counts one read of `bytes` bytes of index.
    pub fn count_read(&mut self, bytes: u64)
        ensures
            *final(self) == (HierarchyStats {
                hierarchy_bytes: wrap64(old(self).hierarchy_bytes + bytes),
                hierarchy_requests: ((old(self).hierarchy_requests + 1) % 0x1_0000_0000) as u32,
                ..*old(self)
            }),
    {
        self.hierarchy_bytes = self.hierarchy_bytes.wrapping_add(bytes);
        self.hierarchy_requests = self.hierarchy_requests.wrapping_add(1);
    }

    /// Points over all levels.
    pub fn total_points(&self) -> (n: u64)
        ensures
            n == wrap64(sum(self.points_by_level@)),
    {
        let mut total: u64 = 0;
        let mut i: usize = 0;
        let ghost all = self.points_by_level@;
        assert(all.take(0) =~= Seq::<u64>::empty());
        while i < self.points_by_level.len()
            invariant
                i <= self.points_by_level.len(),
                all == self.points_by_level@,
                total == wrap64(sum(all.take(i as int))),
            decreases self.points_by_level.len() - i,
        {
            assert(all.take(i + 1).drop_last() =~= all.take(i as int));
            total = total.wrapping_add(self.points_by_level[i]);
            i = i + 1;
        }
        assert(all.take(i as int) =~= all);
        total
    }
}

/// Adding at one level adds that much to the sum.
pub proof fn bumped_adds(counts: Seq<u64>, level: int, by: u64)
    requires
        0 <= level,
    ensures
        wrap64(sum(bumped(counts, level, by))) == wrap64(sum(counts) + by),
    decreases bumped(counts, level, by).len(),
{
    let b = bumped(counts, level, by);
    if counts.len() > level + 1 {
        let shorter = counts.drop_last();
        bumped_adds(shorter, level, by);
        assert(b.drop_last() =~= bumped(shorter, level, by));
        lemma_wrap_shift(sum(bumped(shorter, level, by)), sum(shorter) + by, counts.last() as int);
    } else if counts.len() == level + 1 {
        assert(b.drop_last() =~= counts.drop_last());
        assert(b.last() == wrap64(counts.last() + by));
        lemma_wrap_tail(sum(counts.drop_last()), counts.last() + by);
    } else {
        lemma_zeros_sum(counts, level as nat);
        let padded = counts + Seq::new((level - counts.len()) as nat, |i: int| 0u64);
        assert(b.drop_last() =~= padded);
        assert(b.last() == wrap64(by as int));
    }
}

proof fn lemma_wrap_shift(a: int, b: int, c: int)
    requires
        wrap64(a) == wrap64(b),
    ensures
        wrap64(a + c) == wrap64(b + c),
{
    let m = 0x1_0000_0000_0000_0000int;
    assert((a + c) % m == (b + c) % m) by {
        vstd::arithmetic::div_mod::lemma_add_mod_noop(a, c, m);
        vstd::arithmetic::div_mod::lemma_add_mod_noop(b, c, m);
        assert(a % m == b % m);
    }
}

proof fn lemma_wrap_tail(a: int, b: int)
    ensures
        wrap64(a + wrap64(b)) == wrap64(a + b),
{
    vstd::arithmetic::div_mod::lemma_add_mod_noop_right(a, b, 0x1_0000_0000_0000_0000);
}

proof fn lemma_zeros_sum(counts: Seq<u64>, n: nat)
    requires
        counts.len() <= n,
    ensures
        sum(counts + Seq::new((n - counts.len()) as nat, |i: int| 0u64)) == sum(counts),
    decreases n - counts.len(),
{
    let tail = Seq::new((n - counts.len()) as nat, |i: int| 0u64);
    if counts.len() == n {
        assert(counts + tail =~= counts);
    } else {
        let less = (n - 1) as nat;
        lemma_zeros_sum(counts, less);
        assert((counts + tail).drop_last() =~= counts + Seq::new(
            (less - counts.len()) as nat,
            |i: int| 0u64,
        ));
    }
}

/// What a tally says agrees with itself: the levels add up to the node count,
/// and the deepest level is the last one counted.
pub open spec fn agrees(t: Tally) -> bool {
    &&& t.points.len() == t.counts.len()
    &&& wrap64(sum(t.counts)) == t.nodes
    &&& t.depth == if t.counts.len() == 0 {
        0
    } else {
        t.counts.len() - 1
    }
}

/// Counting a node keeps the tally in agreement with itself, and adds the
/// node's points to the total.
pub proof fn adding_keeps_agreement(t: Tally, node: NodeInfo)
    requires
        agrees(t),
    ensures
        agrees(t.with(node)),
        wrap64(sum(t.with(node).points)) == wrap64(sum(t.points) + node.point_count),
{
    bumped_adds(t.counts, node.key.level as int, 1);
    bumped_adds(t.points, node.key.level as int, node.point_count);
    lemma_wrap_shift(sum(t.counts), t.nodes as int, 1);
}

/// A tally that starts from nothing agrees with itself whatever was walked.
pub proof fn walks_agree(nodes: Seq<NodeInfo>)
    ensures
        agrees(Tally::none().with_all(nodes)),
    decreases nodes.len(),
{
    if nodes.len() > 0 {
        walks_agree(nodes.drop_last());
        adding_keeps_agreement(Tally::none().with_all(nodes.drop_last()), nodes.last());
    }
}

} // verus!
