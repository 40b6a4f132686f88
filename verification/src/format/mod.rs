//! Reading clouds: one module per format, and which of them a target is for.

pub mod copc;
pub mod e57_file;
pub mod ept;
pub mod las_file;
pub mod potree;
pub mod subtree;
pub mod tileset;
pub mod tileset_walk;

use crate::cloud::{one_node, CloudInfo, FormatId, HierarchyStats};
use crate::error::{Error, Failure};
use crate::octree::OctreeKey;
use crate::text::{cat2, ends, ends_with, lowered, same, to_lower};
use vstd::prelude::*;

verus! {

/// What a target looks like before anything has been read.
#[derive(Debug, Clone, Copy, PartialEq, Eq, Structural)]
pub enum Shape {
    /// A directory or a URL prefix.
    Prefix,
    /// A specific file: a manifest, or a `.las`/`.laz`/`.copc.laz`.
    File,
}

/// What the name of a target says of it. A name only decides what to look at
/// first.
#[derive(Debug, Clone, Copy, PartialEq, Eq, Structural)]
pub enum Opening {
    /// The manifest of one format, by its own name.
    Manifest(FormatId),
    /// An E57 file.
    E57,
    /// A LAS or LAZ file, which may be COPC.
    LasLike,
    /// Some other JSON document: each format that has one is asked.
    AnyManifest,
    /// A place that may hold a manifest.
    Prefix,
}

/// What a name says.
pub open spec fn opening_of(name: Seq<char>) -> Opening {
    let lower = lowered(name);
    if name == "metadata.json"@ {
        Opening::Manifest(FormatId::PotreeV2)
    } else if name == "ept.json"@ {
        Opening::Manifest(FormatId::Ept)
    } else if name == "tileset.json"@ {
        Opening::Manifest(FormatId::Tiles3D)
    } else if name.len() == 0 {
        Opening::Prefix
    } else if ends(lower, ".e57"@) {
        Opening::E57
    } else if ends(lower, ".las"@) || ends(lower, ".laz"@) {
        Opening::LasLike
    } else if ends(lower, ".json"@) {
        Opening::AnyManifest
    } else {
        Opening::Prefix
    }
}

/// What the name of a target says of it.
pub fn opening(name: &str) -> (r: Opening)
    ensures
        r == opening_of(name@),
{
    if same(name, "metadata.json") {
        return Opening::Manifest(FormatId::PotreeV2);
    }
    if same(name, "ept.json") {
        return Opening::Manifest(FormatId::Ept);
    }
    if same(name, "tileset.json") {
        return Opening::Manifest(FormatId::Tiles3D);
    }
    if same(name, "") {
        proof {
            reveal_strlit("");
        }
        return Opening::Prefix;
    }
    proof {
        reveal_strlit("");
        assert(name@.len() == 0 ==> name@ =~= ""@);
    }
    let lower = to_lower(name);
    if ends_with(lower.as_str(), ".e57") {
        Opening::E57
    } else if ends_with(lower.as_str(), ".las") || ends_with(lower.as_str(), ".laz") {
        Opening::LasLike
    } else if ends_with(lower.as_str(), ".json") {
        Opening::AnyManifest
    } else {
        Opening::Prefix
    }
}

/// The formats that a JSON document of any other name is tried as, in order.
pub open spec fn attempts() -> Seq<FormatId> {
    seq![FormatId::PotreeV2, FormatId::Tiles3D, FormatId::Ept]
}

/// The format to try a JSON document of any other name as, after some that it
/// was not. The failure of the last is the one that is told.
pub fn next_attempt(failed: usize) -> (r: Option<FormatId>)
    ensures
        r == if failed < attempts().len() {
            Some(attempts()[failed as int])
        } else {
            None
        },
{
    if failed == 0 {
        Some(FormatId::PotreeV2)
    } else if failed == 1 {
        Some(FormatId::Tiles3D)
    } else if failed == 2 {
        Some(FormatId::Ept)
    } else {
        None
    }
}

/// The name of a format's manifest, where it has one. It is a name that says so.
pub fn manifest_name(format: FormatId) -> (r: Option<&'static str>)
    ensures
        match r {
            Some(name) => opening_of(name@) == Opening::Manifest(format),
            None => !attempts().contains(format),
        },
{
    proof {
        reveal_strlit("metadata.json");
        reveal_strlit("ept.json");
        reveal_strlit("tileset.json");
        assert("ept.json"@.len() != "metadata.json"@.len());
        assert("tileset.json"@.len() != "metadata.json"@.len());
        assert("ept.json"@.len() != "tileset.json"@.len());
        assert(attempts()[0] == FormatId::PotreeV2);
        assert(attempts()[1] == FormatId::Tiles3D);
        assert(attempts()[2] == FormatId::Ept);
    }
    match format {
        FormatId::PotreeV2 => Some("metadata.json"),
        FormatId::Ept => Some("ept.json"),
        FormatId::Tiles3D => Some("tileset.json"),
        _ => None,
    }
}

/// Which format a prefix holds, by the manifests that are there: the cheapest to
/// ask for first, and no guessing beyond them.
pub fn prefix_format(metadata: bool, ept: bool, tileset: bool, label: &str) -> (r: Result<
    FormatId,
    Error,
>)
    ensures
        match r {
            Ok(f) => f == if metadata {
                FormatId::PotreeV2
            } else if ept {
                FormatId::Ept
            } else {
                FormatId::Tiles3D
            } && (metadata || ept || tileset),
            Err(e) => !metadata && !ept && !tileset && e@ == Failure::NotFormat {
                format: "a point cloud"@,
                detail: label@
                    + " holds no metadata.json, ept.json or tileset.json, and is not a .las, .laz, .copc.laz or .e57 file"@,
            },
        },
{
    if metadata {
        Ok(FormatId::PotreeV2)
    } else if ept {
        Ok(FormatId::Ept)
    } else if tileset {
        Ok(FormatId::Tiles3D)
    } else {
        Err(
            Error::not_format(
                "a point cloud",
                cat2(
                    label,
                    " holds no metadata.json, ept.json or tileset.json, and is not a .las, .laz, .copc.laz or .e57 file",
                ),
            ),
        )
    }
}

/// Whether a failure to open a file as COPC means that it is a bare LAS file:
/// the bytes are not COPC, as opposed to not being readable.
pub fn is_other_format(e: &Error) -> (r: bool)
    ensures
        r == (e@ is NotFormat),
{
    matches!(e, Error::NotFormat { .. })
}

/// A walk over a hierarchy: done where everything is there already, and
/// otherwise one that says what to read.
#[derive(Debug)]
pub enum Walk {
    Done(HierarchyStats),
    Copc(copc::PageWalk),
    Ept(ept::PageWalk),
    Tiles(tileset_walk::TileWalk),
}

/// An open cloud.
#[derive(Debug)]
pub enum Cloud {
    Potree(potree::PotreeCloud),
    Copc(copc::CopcCloud),
    Ept(ept::EptCloud),
    Tileset(tileset::TilesetCloud),
    Las(las_file::LasCloud),
    E57(e57_file::E57Cloud),
}

impl Cloud {
    /// The neutral summary, whatever the format.
    pub open spec fn summary(self) -> CloudInfo {
        match self {
            Cloud::Potree(c) => c.info,
            Cloud::Copc(c) => c.info,
            Cloud::Ept(c) => c.info,
            Cloud::Tileset(c) => c.info,
            Cloud::Las(c) => c.info,
            Cloud::E57(c) => c.info,
        }
    }

    /// The neutral summary, whatever the format.
    pub fn info(&self) -> (i: &CloudInfo)
        ensures
            *i == self.summary(),
    {
        match self {
            Cloud::Potree(c) => &c.info,
            Cloud::Copc(c) => &c.info,
            Cloud::Ept(c) => &c.info,
            Cloud::Tileset(c) => &c.info,
            Cloud::Las(c) => &c.info,
            Cloud::E57(c) => &c.info,
        }
    }

    /// Walks the hierarchy, or starts to.
    pub fn hierarchy(&self) -> (r: Result<Walk, Error>)
        ensures
            match (*self, r) {
                (Cloud::Potree(c), Ok(Walk::Done(s))) => c.walks_to(Ok(s)),
                (Cloud::Potree(c), Err(e)) => c.walks_to(Err(e)),
                (Cloud::Copc(c), Ok(Walk::Copc(w))) => w.stats.wf() && w@ == copc::at_start(c.copc),
                (Cloud::Ept(_), Ok(Walk::Ept(w))) => w.stats.wf() && w@ == ept::at_start(),
                (Cloud::Tileset(c), Ok(Walk::Tiles(w))) => w.stats.wf() && w@
                    == tileset_walk::at_start(c.manifest@),
                (Cloud::Las(c), Ok(Walk::Done(s))) => one_node(c.info, s),
                (Cloud::E57(c), Ok(Walk::Done(s))) => one_node(c.info, s),
                _ => false,
            },
    {
        match self {
            Cloud::Potree(c) => match c.hierarchy() {
                Ok(s) => Ok(Walk::Done(s)),
                Err(e) => Err(e),
            },
            Cloud::Copc(c) => Ok(Walk::Copc(c.hierarchy())),
            Cloud::Ept(c) => Ok(Walk::Ept(c.hierarchy())),
            Cloud::Tileset(c) => Ok(Walk::Tiles(c.hierarchy())),
            Cloud::Las(c) => Ok(Walk::Done(c.hierarchy())),
            Cloud::E57(c) => Ok(Walk::Done(c.hierarchy())),
        }
    }

    /// The file whose delivery matters: not the manifest, but the payload that a
    /// viewer asks for hundreds of times. `tile` is the first payload of a
    /// tileset, which stands in for all of them. A single file is named by the
    /// target already.
    pub fn probe_target(&self, tile: &str) -> (s: String)
        ensures
            s@ == match *self {
                Cloud::Potree(_) => "octree.bin"@,
                Cloud::Ept(c) => "ept-data/"@ + OctreeKey::root().spec_ept_name() + "."@
                    + ept::extension_of(c.data_type@),
                Cloud::Tileset(_) => tile@,
                _ => Seq::empty(),
            },
    {
        match self {
            Cloud::Potree(_) => "octree.bin".to_owned(),
            Cloud::Ept(c) => c.node_path(OctreeKey::root()),
            Cloud::Tileset(_) => tile.to_owned(),
            _ => {
                let none = String::new();
                assert(none@ =~= Seq::<char>::empty());
                none
            },
        }
    }
}

} // verus!
