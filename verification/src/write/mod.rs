//! Writing clouds: the records, the headers and the indexes.
//!
//! Which points are in which node is decided elsewhere; these modules decide
//! how a node is spelled, and they share the canonical record they are handed.

pub mod account;
pub mod blocks;
pub mod copc;
pub mod copc_fits;
pub mod copc_pages;
pub mod copc_refs;
pub mod copc_total;
pub mod copc_walk;
pub mod ept;
pub mod ept_count;
pub mod ept_manifest;
pub mod ept_pages;
pub mod ept_total;
pub mod ept_walk;
pub mod evlr_list;
pub mod front;
pub mod gps;
pub mod hierarchy;
pub mod keys;
pub mod las_write;
pub mod laszip;
pub mod morton;
pub mod potree;
pub mod potree_manifest;
pub mod read_back;
pub mod tileset;
pub mod tileset_document;
pub mod tileset_walk;

use crate::bounds::Bounds;
use crate::crs::Crs;
use crate::double::Real;
use crate::record::RecordLayout;
use vstd::prelude::*;

verus! {

/// What every writer needs to know beyond the nodes themselves.
#[derive(Debug)]
pub struct WriteOptions {
    pub layout: RecordLayout,
    /// The cube the octree subdivides.
    pub cube: Bounds,
    /// The measured extent of the points.
    pub extent: Bounds,
    pub scale: [Real; 3],
    pub offset: [Real; 3],
    /// Distance between neighbouring points at the root.
    pub spacing: Real,
    /// Points across a node's edge.
    pub span: u32,
    /// Whether the points carry GPS time.
    pub has_gps_time: bool,
    /// Whether every input was a legacy LAS point format, which decides how two
    /// fields are named.
    pub legacy_fields: bool,
    pub crs: Option<Crs>,
    /// The source's projection records, to be written out unchanged.
    pub projection_vlrs: Vec<(u16, Vec<u8>)>,
    /// Written into the file so a cloud says what made it.
    pub generator: String,
    /// Day of the year and year. Supplied rather than read from the clock.
    pub creation: (u16, u16),
}

/// Whether three numbers are finite.
pub open spec fn are_finite(v: [Real; 3]) -> bool {
    v[0].finite() && v[1].finite() && v[2].finite()
}

/// Whether the corners of a box are finite.
pub open spec fn is_finite_box(b: Bounds) -> bool {
    are_finite(b.min) && are_finite(b.max)
}

/// Three numbers, each as it is read.
pub open spec fn read_triple(v: [Real; 3], back: spec_fn(Real) -> Real) -> [Real; 3] {
    [back(v[0]), back(v[1]), back(v[2])]
}

/// A box, its corners as they are read.
pub open spec fn read_box(b: Bounds, back: spec_fn(Real) -> Real) -> Bounds {
    Bounds { min: read_triple(b.min, back), max: read_triple(b.max, back) }
}

impl WriteOptions {
    /// Whether every number of the options is finite, as a manifest needs them.
    pub open spec fn is_finite(self) -> bool {
        &&& is_finite_box(self.cube)
        &&& is_finite_box(self.extent)
        &&& are_finite(self.scale)
        &&& are_finite(self.offset)
        &&& self.spacing.finite()
    }

    pub fn stride(&self) -> (n: usize)
        requires
            self.layout.wf(),
        ensures
            n == self.layout.base + self.layout.extra,
    {
        self.layout.stride()
    }
}

/// What a writer produced.
#[derive(Debug)]
pub struct WriteReport {
    pub nodes: u64,
    pub points: u64,
    pub depth: u32,
    pub bytes: u64,
    pub path: String,
}

} // verus!
