//! A walk over the tiles of a tileset: the document, every external tileset it
//! names, and every `.subtree` that an implicit rule points at.
//!
//! The walk counts tiles, never points. It says what to read next, and takes
//! what was read.

use super::subtree::{
    across, cell_count, cells, cells_grow, decoded, edge_count, morton_decode,
    subtree_of, Held, Subtree,
};
use super::tileset::{
    children_of, content_uris, fill_template, filled, join, joined, levels_of, read_levels,
    read_rule, rule_of, uris_of, TilesetCloud,
};
use crate::cloud::{wrap64, HierarchyStats, NodeInfo, Tally};
use crate::error::{Error, Failure};
use crate::json::{field, json_read, tree_fields, trees, Json, Tree};
use crate::octree::OctreeKey;
use crate::text::{cat2, cat5, decimal, decimal_of, ends, ends_with, same, texts};
use crate::warning::{notices, Notice};
use vstd::prelude::*;

verus! {

/// How deep a chain of external tilesets to follow before giving up.
pub const MAX_EXTERNAL_DEPTH: u32 = 8;

/// A rule that a walk follows.
#[derive(Debug)]
pub struct Rule {
    /// Where the subtrees are.
    pub template: String,
    /// Whether a tile is divided along all three axes.
    pub three_d: bool,
    pub subtree_levels: u64,
    pub available_levels: u64,
}

/// A rule, as the values it holds.
pub struct RuleView {
    pub template: Seq<char>,
    pub three_d: bool,
    pub subtree_levels: u64,
    pub available_levels: u64,
}

impl View for Rule {
    type V = RuleView;

    open spec fn view(&self) -> RuleView {
        RuleView {
            template: self.template@,
            three_d: self.three_d,
            subtree_levels: self.subtree_levels,
            available_levels: self.available_levels,
        }
    }
}

impl Rule {
    fn duplicate(&self) -> (r: Self)
        ensures
            r@ == self@,
    {
        Rule {
            template: self.template.clone(),
            three_d: self.three_d,
            subtree_levels: self.subtree_levels,
            available_levels: self.available_levels,
        }
    }
}

/// The rule that a walk follows from a tile. One without a template, or without
/// levels, leads nowhere.
pub open spec fn followed(tile: Tree) -> Option<RuleView> {
    match rule_of(tile) {
        None => None,
        Some(rule) => {
            let template = match rule.at("subtrees"@) {
                Some(s) => s.text_at("uri"@),
                None => None,
            };
            let subtree_levels = match rule.unsigned_at("subtreeLevels"@) {
                Some(n) => n,
                None => 0,
            };
            if template is None || subtree_levels == 0 {
                None
            } else {
                Some(
                    RuleView {
                        template: template->0,
                        three_d: rule.text_at("subdivisionScheme"@) != Some("QUADTREE"@),
                        subtree_levels,
                        available_levels: levels_of(rule),
                    },
                )
            }
        },
    }
}

/// A rule that may be missing, as the values it holds.
pub open spec fn rule_view(r: Option<Rule>) -> Option<RuleView> {
    match r {
        Some(rule) => Some(rule@),
        None => None,
    }
}

fn read_followed(tile: &Json) -> (r: Option<Rule>)
    ensures
        rule_view(r) == followed(tile.tree()),
{
    let rule = match read_rule(tile) {
        Some(rule) => rule,
        None => {
            return None;
        },
    };
    let template = match rule.get("subtrees") {
        Some(s) => s.text_at("uri"),
        None => None,
    };
    let subtree_levels: u64 = match rule.unsigned_at("subtreeLevels") {
        Some(n) => n,
        None => 0,
    };
    match template {
        None => None,
        Some(t) => {
            if subtree_levels == 0 {
                return None;
            }
            let three_d = match rule.text_at("subdivisionScheme") {
                Some(s) => !same(s.as_str(), "QUADTREE"),
                None => true,
            };
            Some(
                Rule {
                    template: t.clone(),
                    three_d,
                    subtree_levels,
                    available_levels: read_levels(rule),
                },
            )
        },
    }
}

/// Where a subtree starts: its level and its place along each axis.
#[derive(Debug, Clone, Copy, PartialEq, Eq, Structural)]
pub struct Place {
    pub level: u64,
    pub x: u64,
    pub y: u64,
    pub z: u64,
}

/// Something a walk has still to do.
#[derive(Debug)]
pub enum Task {
    /// Read a document.
    Document { path: String, level: u32, depth: u32 },
    /// Visit a tile and what it names.
    Tile { tile: Json, document: String, level: u32, depth: u32 },
    /// Read a subtree.
    Part { rule: Rule, document: String, base: u32, place: Place },
}

/// Something a walk has still to do, as the values it holds.
pub enum Job {
    Document { path: Seq<char>, level: u32, depth: u32 },
    Tile { tile: Tree, document: Seq<char>, level: u32, depth: u32 },
    Part { rule: RuleView, document: Seq<char>, base: u32, place: Place },
}

impl View for Task {
    type V = Job;

    open spec fn view(&self) -> Job {
        match *self {
            Task::Document { path, level, depth } => Job::Document { path: path@, level, depth },
            Task::Tile { tile, document, level, depth } => Job::Tile {
                tile: tile.tree(),
                document: document@,
                level,
                depth,
            },
            Task::Part { rule, document, base, place } => Job::Part {
                rule: rule@,
                document: document@,
                base,
                place,
            },
        }
    }
}

/// A number of 32 bits, one larger.
pub open spec fn next32(n: u32) -> u32 {
    ((n + 1) % 0x1_0000_0000) as u32
}

/// A tile at a level, as the statistics count it.
pub open spec fn tile_at(level: u32) -> NodeInfo {
    NodeInfo { key: OctreeKey { level, x: 0, y: 0, z: 0 }, point_count: 0, byte_size: 0 }
}

/// The path of a subtree.
pub open spec fn part_path(rule: RuleView, document: Seq<char>, place: Place) -> Seq<char> {
    joined(
        document,
        filled(rule.template, place.level, place.x, place.y, place.z, rule.three_d),
    )
}

/// The documents among some URIs from `i` on, the first last.
pub open spec fn documents(
    uris: Seq<Seq<char>>,
    i: int,
    document: Seq<char>,
    level: u32,
    depth: u32,
) -> Seq<Job>
    decreases uris.len() - i,
{
    if i >= uris.len() {
        Seq::empty()
    } else if ends(uris[i], ".json"@) {
        documents(uris, i + 1, document, level, depth).push(
            Job::Document {
                path: joined(document, uris[i]),
                level: next32(level),
                depth: next32(depth),
            },
        )
    } else {
        documents(uris, i + 1, document, level, depth)
    }
}

/// Some children from `i` on, the first last.
pub open spec fn children(list: Seq<Tree>, i: int, document: Seq<char>, level: u32, depth: u32) -> Seq<
    Job,
>
    decreases list.len() - i,
{
    if i >= list.len() {
        Seq::empty()
    } else {
        children(list, i + 1, document, level, depth).push(
            Job::Tile { tile: list[i], document, level: next32(level), depth },
        )
    }
}

/// What a tile leads to, the first last: the documents it names, then the
/// subtrees of its rule, then its children.
pub open spec fn below(tile: Tree, document: Seq<char>, level: u32, depth: u32) -> Seq<Job> {
    let kids = match children_of(tile) {
        Some(list) => children(list, 0, document, level, depth),
        None => Seq::empty(),
    };
    let parts = match followed(tile) {
        Some(rule) => seq![
            Job::Part {
                rule,
                document,
                base: level,
                place: Place { level: 0, x: 0, y: 0, z: 0 },
            },
        ],
        None => Seq::empty(),
    };
    kids + parts + documents(uris_of(tile), 0, document, level, depth)
}

/// A walk over the tiles of a tileset, between two steps.
#[verifier::ext_equal]
pub struct Progress {
    /// What is still to do, the next last.
    pub stack: Seq<Job>,
    /// The documents that have been asked for.
    pub seen: Seq<Seq<char>>,
    /// What is being read.
    pub waiting: Option<Job>,
    pub tally: Tally,
    pub hierarchy_bytes: u64,
    pub hierarchy_requests: u32,
    pub warnings: Seq<Notice>,
}

/// What a step asks of the program.
#[derive(Debug)]
pub enum Step {
    /// Nothing is left to do.
    Done,
    /// Another step.
    Again,
    /// To read a file, and to hand over what it holds.
    Read(String),
}

/// What a step asks, as the values it holds.
pub enum Ask {
    Done,
    Again,
    Read(Seq<char>),
}

impl View for Step {
    type V = Ask;

    open spec fn view(&self) -> Ask {
        match *self {
            Step::Done => Ask::Done,
            Step::Again => Ask::Again,
            Step::Read(path) => Ask::Read(path@),
        }
    }
}

/// The complaint against a chain of external tilesets that is too deep.
pub open spec fn depth_notice(path: Seq<char>, depth: u32) -> Notice {
    Notice {
        code: "external-tileset-depth"@,
        path,
        message: "stopped following external tilesets at "@ + path + ", "@ + decimal(depth as nat)
            + " deep"@,
    }
}

/// One step of a walk.
pub open spec fn stepped(w: Progress) -> (Progress, Ask) {
    if w.stack.len() == 0 {
        (w, Ask::Done)
    } else {
        let rest = Progress { stack: w.stack.drop_last(), ..w };
        match w.stack.last() {
            Job::Document { path, level, depth } => if w.seen.contains(path) {
                (rest, Ask::Again)
            } else if depth > MAX_EXTERNAL_DEPTH {
                (
                    Progress {
                        seen: w.seen.push(path),
                        warnings: w.warnings.push(depth_notice(path, depth)),
                        ..rest
                    },
                    Ask::Again,
                )
            } else {
                (
                    Progress {
                        seen: w.seen.push(path),
                        waiting: Some(Job::Document { path, level, depth }),
                        ..rest
                    },
                    Ask::Read(path),
                )
            },
            Job::Tile { tile, document, level, depth } => (
                Progress {
                    stack: rest.stack + below(tile, document, level, depth),
                    tally: w.tally.with(tile_at(level)),
                    ..rest
                },
                Ask::Again,
            ),
            Job::Part { rule, document, base, place } => if place.level >= rule.available_levels {
                (rest, Ask::Again)
            } else {
                (
                    Progress { waiting: Some(Job::Part { rule, document, base, place }), ..rest },
                    Ask::Read(part_path(rule, document, place)),
                )
            },
        }
    }
}

/// The complaint against a document that is not there.
pub open spec fn document_notice(path: Seq<char>) -> Notice {
    Notice {
        code: "external-tileset-missing"@,
        path,
        message: path + " is named by a tile and is not there"@,
    }
}

/// The complaint against a subtree that is not there.
pub open spec fn missing_notice(path: Seq<char>) -> Notice {
    Notice {
        code: "subtree-missing"@,
        path,
        message: path + " is named by an implicit rule and is not there"@,
    }
}

/// The complaint against a subtree that cannot be read.
pub open spec fn unreadable_notice(path: Seq<char>) -> Notice {
    Notice {
        code: "subtree-unreadable"@,
        path,
        message: path + " is not a readable .subtree"@,
    }
}

/// A walk that was told that what it asked for is not there.
pub open spec fn without(w: Progress) -> Progress {
    match w.waiting {
        None => w,
        Some(job) => Progress {
            waiting: None,
            warnings: match job {
                Job::Document { path, .. } => w.warnings.push(document_notice(path)),
                Job::Part { rule, document, place, .. } => w.warnings.push(
                    missing_notice(part_path(rule, document, place)),
                ),
                Job::Tile { .. } => w.warnings,
            },
            ..w
        },
    }
}

/// The level of the whole tree that a level of a rule's tree is.
pub open spec fn whole_level(base: u32, level: int) -> u32 {
    ((base + level % 0x1_0000_0000) % 0x1_0000_0000) as u32
}

/// The tiles of a level of a subtree that are there, those before place `n`.
pub open spec fn tiles_before(s: Held, three_d: bool, l: nat, n: int, level: u32) -> Seq<NodeInfo>
    decreases n,
{
    if n <= 0 {
        Seq::empty()
    } else if s.tile(three_d, l, n - 1) {
        tiles_before(s, three_d, l, n - 1, level).push(tile_at(level))
    } else {
        tiles_before(s, three_d, l, n - 1, level)
    }
}

/// The tiles of one level of a subtree, none where the rule has no such level.
#[verifier::opaque]
pub open spec fn level_tiles(s: Held, rule: RuleView, base: u32, place: Place, l: nat) -> Seq<
    NodeInfo,
> {
    let at = wrap64(place.level + l);
    if at < rule.available_levels {
        tiles_before(
            s,
            rule.three_d,
            l,
            cells(rule.three_d, l),
            whole_level(base, at as int),
        )
    } else {
        Seq::empty()
    }
}

/// The tiles of the levels of a subtree from its second to the one before `l`.
pub open spec fn tiles_within(s: Held, rule: RuleView, base: u32, place: Place, l: int) -> Seq<
    NodeInfo,
>
    decreases l,
{
    if l <= 1 {
        Seq::empty()
    } else {
        tiles_within(s, rule, base, place, l - 1) + level_tiles(
            s,
            rule,
            base,
            place,
            (l - 1) as nat,
        )
    }
}

/// The tiles that a subtree adds. Its first level is counted by whoever declares
/// the rule, but only for the first subtree.
pub open spec fn tiles_of(s: Held, rule: RuleView, base: u32, place: Place) -> Seq<NodeInfo> {
    let first = if place.level > 0 && s.tile(rule.three_d, 0, 0) {
        seq![tile_at(whole_level(base, place.level as int))]
    } else {
        Seq::empty()
    };
    first + tiles_within(s, rule, base, place, rule.subtree_levels as int)
}

/// Where a subtree below another starts.
pub open spec fn place_below(rule: RuleView, place: Place, morton: int) -> Place {
    let span = across(rule.subtree_levels as nat);
    let (dx, dy, dz) = decoded(
        morton,
        rule.three_d,
        (rule.subtree_levels as int % 0x1_0000_0000) as nat,
    );
    Place {
        level: wrap64(place.level + rule.subtree_levels),
        x: wrap64(wrap64(place.x * span) + dx),
        y: wrap64(wrap64(place.y * span) + dy),
        z: wrap64(wrap64(place.z * span) + dz),
    }
}

/// The subtrees below a subtree, those before place `n`.
pub open spec fn parts_before(
    s: Held,
    rule: RuleView,
    document: Seq<char>,
    base: u32,
    place: Place,
    n: int,
) -> Seq<Job>
    decreases n,
{
    if n <= 0 {
        Seq::empty()
    } else if s.children.has(n - 1) {
        parts_before(s, rule, document, base, place, n - 1).push(
            Job::Part { rule, document, base, place: place_below(rule, place, n - 1) },
        )
    } else {
        parts_before(s, rule, document, base, place, n - 1)
    }
}

/// A tally with several more nodes.
#[verifier::opaque]
pub open spec fn tallied(t: Tally, nodes: Seq<NodeInfo>) -> Tally {
    t.with_all(nodes)
}

/// A walk that has read so many bytes of a file.
pub open spec fn counted(w: Progress, size: nat) -> Progress {
    Progress {
        waiting: None,
        hierarchy_bytes: wrap64(w.hierarchy_bytes + size),
        hierarchy_requests: next32(w.hierarchy_requests),
        ..w
    }
}

/// A walk that was handed a subtree, or one that cannot be read.
pub open spec fn with_part(
    w: Progress,
    rule: RuleView,
    document: Seq<char>,
    base: u32,
    place: Place,
    s: Option<Held>,
) -> Progress {
    match s {
        None => Progress {
            warnings: w.warnings.push(unreadable_notice(part_path(rule, document, place))),
            ..w
        },
        Some(held) => Progress {
            tally: tallied(w.tally, tiles_of(held, rule, base, place)),
            stack: w.stack + parts_before(
                held,
                rule,
                document,
                base,
                place,
                cells(rule.three_d, rule.subtree_levels as nat),
            ),
            ..w
        },
    }
}

/// A walk that was handed a document.
pub open spec fn with_document(w: Progress, path: Seq<char>, level: u32, depth: u32, json: Tree)
    -> Progress {
    match json.at("root"@) {
        Some(root) => Progress {
            stack: w.stack.push(Job::Tile { tile: root, document: path, level, depth }),
            ..w
        },
        None => w,
    }
}

/// A walk that was handed the bytes it asked for.
pub open spec fn absorbed(w: Progress, bytes: Seq<u8>) -> Result<Progress, Failure> {
    let next = counted(w, bytes.len());
    match w.waiting {
        Some(Job::Document { path, level, depth }) => match json_read(bytes) {
            Err(why) => Err(Failure::Manifest { path, detail: "not JSON: "@ + why }),
            Ok(json) => Ok(with_document(next, path, level, depth, json)),
        },
        Some(Job::Part { rule, document, base, place }) => Ok(
            with_part(next, rule, document, base, place, subtree_of(bytes)),
        ),
        _ => Ok(w),
    }
}

/// Whether the tiles of what is being read can be addressed.
pub open spec fn is_addressable(w: Progress) -> bool {
    match w.waiting {
        Some(Job::Part { rule, .. }) => cells(rule.three_d, rule.subtree_levels as nat) <= u64::MAX,
        _ => true,
    }
}

/// Whether the bytes of what is being read can be taken: where they are a
/// subtree, its tiles can be addressed.
pub open spec fn is_takeable(w: Progress, bytes: Seq<u8>) -> bool {
    is_addressable(w) || subtree_of(bytes) is None
}

/// A walk over the tiles of a tileset.
#[derive(Debug)]
pub struct TileWalk {
    pub stack: Vec<Task>,
    pub seen: Vec<String>,
    pub waiting: Option<Task>,
    pub stats: HierarchyStats,
}

/// Several tasks, each as the values it holds.
pub open spec fn jobs(list: Seq<Task>) -> Seq<Job> {
    list.map_values(|t: Task| t@)
}

/// A task that may be missing, as the values it holds.
pub open spec fn job_view(t: Option<Task>) -> Option<Job> {
    match t {
        Some(task) => Some(task@),
        None => None,
    }
}

impl View for TileWalk {
    type V = Progress;

    open spec fn view(&self) -> Progress {
        Progress {
            stack: jobs(self.stack@),
            seen: texts(self.seen@),
            waiting: job_view(self.waiting),
            tally: self.stats.tally(),
            hierarchy_bytes: self.stats.hierarchy_bytes,
            hierarchy_requests: self.stats.hierarchy_requests,
            warnings: notices(self.stats.warnings@),
        }
    }
}

/// A walk that has not read anything: the manifest is to come.
pub open spec fn at_start(manifest: Seq<char>) -> Progress {
    Progress {
        stack: seq![Job::Document { path: manifest, level: 0, depth: 0 }],
        seen: Seq::empty(),
        waiting: None,
        tally: Tally::none(),
        hierarchy_bytes: 0,
        hierarchy_requests: 0,
        warnings: Seq::empty(),
    }
}

impl TilesetCloud {
    /// Starts a walk of the tree.
    pub fn hierarchy(&self) -> (w: TileWalk)
        ensures
            w.stats.wf(),
            w@ == at_start(self.manifest@),
    {
        let mut stack: Vec<Task> = Vec::new();
        stack.push(Task::Document { path: self.manifest.clone(), level: 0, depth: 0 });
        let w = TileWalk {
            stack,
            seen: Vec::new(),
            waiting: None,
            stats: HierarchyStats::new(),
        };
        assert(w@.stack =~= at_start(self.manifest@).stack);
        assert(w@.seen =~= at_start(self.manifest@).seen);
        assert(w@ =~= at_start(self.manifest@));
        w
    }
}

proof fn jobs_push(list: Seq<Task>, t: Task)
    ensures
        jobs(list.push(t)) == jobs(list).push(t@),
{
    assert(jobs(list.push(t)) =~= jobs(list).push(t@));
}

/// Pushes the documents among some URIs, the first last.
fn push_documents(stack: &mut Vec<Task>, uris: &Vec<String>, document: &str, level: u32, depth: u32)
    ensures
        jobs(final(stack)@) == jobs(old(stack)@) + documents(
            texts(uris@),
            0,
            document@,
            level,
            depth,
        ),
{
    let ghost all = texts(uris@);
    let ghost base = jobs(stack@);
    let mut i: usize = uris.len();
    assert(jobs(stack@) =~= base + documents(all, i as int, document@, level, depth));
    while i > 0
        invariant
            i <= uris.len(),
            all == texts(uris@),
            jobs(stack@) == base + documents(all, i as int, document@, level, depth),
        decreases i,
    {
        i = i - 1;
        assert(all[i as int] == uris@[i as int]@);
        if ends_with(uris[i].as_str(), ".json") {
            let t = Task::Document {
                path: join(document, uris[i].as_str()),
                level: level.wrapping_add(1),
                depth: depth.wrapping_add(1),
            };
            proof {
                jobs_push(stack@, t);
            }
            stack.push(t);
            assert(jobs(stack@) =~= base + documents(all, i as int, document@, level, depth));
        }
    }
}

/// The children of a tile, taken out of it.
fn take_children(tile: Json) -> (r: Option<Vec<Json>>)
    ensures
        match r {
            Some(v) => children_of(tile.tree()) == Some(trees(v@)),
            None => children_of(tile.tree()) is None,
        },
{
    match tile {
        Json::Object(fields_in) => {
            let mut fields = fields_in;
            let ghost all = tree_fields(fields@);
            assert(tile.tree()->Object_0 =~= all);
            assert(all.skip(0) =~= all);
            let mut i: usize = 0;
            while i < fields.len()
                invariant
                    i <= fields.len(),
                    all == tree_fields(fields@),
                    tile.tree() == Tree::Object(all),
                    field(all, "children"@) == field(all.skip(i as int), "children"@),
                decreases fields.len() - i,
            {
                assert(all.skip(i as int)[0] == (fields@[i as int].0@, fields@[i as int].1.tree()));
                if same(fields[i].0.as_str(), "children") {
                    let mut entry: (String, Json) = (String::new(), Json::Null);
                    std::mem::swap(&mut entry, &mut fields[i]);
                    match entry.1 {
                        Json::Array(items) => {
                            assert(entry.1.tree()->Array_0 =~= trees(items@));
                            return Some(items);
                        },
                        _ => {
                            return None;
                        },
                    }
                }
                assert(all.skip(i as int).skip(1) =~= all.skip(i + 1));
                i = i + 1;
            }
            None
        },
        _ => None,
    }
}

/// Pushes some children, the first last.
fn push_children(stack: &mut Vec<Task>, list: Vec<Json>, document: &str, level: u32, depth: u32)
    ensures
        jobs(final(stack)@) == jobs(old(stack)@) + children(
            trees(list@),
            0,
            document@,
            level,
            depth,
        ),
{
    let mut left = list;
    let ghost all = trees(list@);
    let ghost base = jobs(stack@);
    assert(jobs(stack@) =~= base + children(all, all.len() as int, document@, level, depth));
    while left.len() > 0
        invariant
            left@.len() <= all.len(),
            trees(left@) == all.take(left@.len() as int),
            jobs(stack@) == base + children(all, left@.len() as int, document@, level, depth),
        decreases left.len(),
    {
        let ghost n = left@.len() as int;
        let ghost before = left@;
        match left.pop() {
            None => {
                return;
            },
            Some(tile) => {
                let t = Task::Tile {
                    tile,
                    document: document.to_owned(),
                    level: level.wrapping_add(1),
                    depth,
                };
                proof {
                    jobs_push(stack@, t);
                    assert(trees(before)[n - 1] == tile.tree());
                    assert(all.take(n)[n - 1] == all[n - 1]);
                    assert(trees(left@) =~= trees(before).take(n - 1));
                    assert(all.take(n).take(n - 1) =~= all.take(n - 1));
                }
                stack.push(t);
                assert(jobs(stack@) =~= base + children(all, n - 1, document@, level, depth));
            },
        }
    }
}

/// Whether a list holds a string.
fn holds(list: &Vec<String>, s: &str) -> (r: bool)
    ensures
        r == texts(list@).contains(s@),
{
    let mut i: usize = 0;
    while i < list.len()
        invariant
            i <= list.len(),
            forall|j: int| 0 <= j < i ==> #[trigger] texts(list@)[j] != s@,
        decreases list.len() - i,
    {
        assert(texts(list@)[i as int] == list@[i as int]@);
        if same(list[i].as_str(), s) {
            return true;
        }
        i = i + 1;
    }
    false
}

/// The path of a subtree.
fn path_of(rule: &Rule, document: &str, place: Place) -> (out: String)
    ensures
        out@ == part_path(rule@, document@, place),
{
    let path = fill_template(
        rule.template.as_str(),
        place.level,
        place.x,
        place.y,
        place.z,
        rule.three_d,
    );
    join(document, path.as_str())
}

impl TileWalk {
    fn visit(&mut self, tile: Json, document: String, level: u32, depth: u32)
        requires
            old(self).stats.wf(),
        ensures
            final(self).stats.wf(),
            final(self)@ == (Progress {
                stack: old(self)@.stack + below(tile.tree(), document@, level, depth),
                tally: old(self)@.tally.with(tile_at(level)),
                ..old(self)@
            }),
    {
        let ghost start = self@;
        let ghost t = tile.tree();
        self.stats.add(
            NodeInfo {
                key: OctreeKey::new(level, 0, 0, 0),
                point_count: 0,
                byte_size: 0,
            },
        );
        let uris = content_uris(&tile);
        let rule = read_followed(&tile);
        let ghost kids = match children_of(t) {
            Some(list) => children(list, 0, document@, level, depth),
            None => Seq::empty(),
        };
        if let Some(list) = take_children(tile) {
            push_children(&mut self.stack, list, document.as_str(), level, depth);
        }
        assert(jobs(self.stack@) =~= start.stack + kids);
        let ghost middle = jobs(self.stack@);
        if let Some(rule) = rule {
            let task = Task::Part {
                rule,
                document: document.clone(),
                base: level,
                place: Place { level: 0, x: 0, y: 0, z: 0 },
            };
            proof {
                jobs_push(self.stack@, task);
            }
            self.stack.push(task);
        }
        push_documents(&mut self.stack, &uris, document.as_str(), level, depth);
        assert(jobs(self.stack@) =~= start.stack + below(t, document@, level, depth));
    }

    /// One step of the walk.
    pub fn step(&mut self) -> (r: Step)
        requires
            old(self).stats.wf(),
        ensures
            final(self).stats.wf(),
            (final(self)@, r@) == stepped(old(self)@),
    {
        let ghost start = self@;
        let task = match self.stack.pop() {
            Some(t) => t,
            None => {
                assert(self@ =~= start);
                return Step::Done;
            },
        };
        assert(jobs(self.stack@) =~= start.stack.drop_last());
        assert(start.stack.last() == task@);
        match task {
            Task::Document { path, level, depth } => {
                if holds(&self.seen, path.as_str()) {
                    assert(self@ =~= stepped(start).0);
                    return Step::Again;
                }
                let ghost seen = self.seen@;
                self.seen.push(path.clone());
                assert(texts(self.seen@) =~= texts(seen).push(path@));
                if depth > MAX_EXTERNAL_DEPTH {
                    let n = decimal_of(depth as u64);
                    let message = cat5(
                        "stopped following external tilesets at ",
                        path.as_str(),
                        ", ",
                        n.as_str(),
                        " deep",
                    );
                    self.stats.warn("external-tileset-depth", path, message);
                    assert(self@ =~= stepped(start).0);
                    return Step::Again;
                }
                let ask = path.clone();
                self.waiting = Some(Task::Document { path, level, depth });
                assert(self@ =~= stepped(start).0);
                Step::Read(ask)
            },
            Task::Tile { tile, document, level, depth } => {
                self.visit(tile, document, level, depth);
                assert(self@ =~= stepped(start).0);
                Step::Again
            },
            Task::Part { rule, document, base, place } => {
                if place.level >= rule.available_levels {
                    assert(self@ =~= stepped(start).0);
                    return Step::Again;
                }
                let path = path_of(&rule, document.as_str(), place);
                self.waiting = Some(Task::Part { rule, document, base, place });
                assert(self@ =~= stepped(start).0);
                Step::Read(path)
            },
        }
    }

    /// Takes notice that what was asked for is not there.
    pub fn missing(&mut self)
        requires
            old(self).stats.wf(),
        ensures
            final(self).stats.wf(),
            final(self)@ == without(old(self)@),
    {
        let ghost start = self@;
        let mut waiting: Option<Task> = None;
        std::mem::swap(&mut waiting, &mut self.waiting);
        match waiting {
            None => {},
            Some(Task::Document { path, .. }) => {
                let message = cat2(path.as_str(), " is named by a tile and is not there");
                self.stats.warn("external-tileset-missing", path, message);
            },
            Some(Task::Part { rule, document, place, .. }) => {
                let path = path_of(&rule, document.as_str(), place);
                let message = cat2(
                    path.as_str(),
                    " is named by an implicit rule and is not there",
                );
                self.stats.warn("subtree-missing", path, message);
            },
            Some(Task::Tile { .. }) => {},
        }
        assert(self@ =~= without(start));
    }

    /// Whether the tiles of what is being read can be addressed.
    pub fn addressable(&self) -> (r: bool)
        ensures
            r == is_addressable(self@),
    {
        match &self.waiting {
            Some(Task::Part { rule, .. }) => cell_count(rule.three_d, rule.subtree_levels).is_some(),
            _ => true,
        }
    }

    fn add_tile(&mut self, level: u32)
        requires
            old(self).stats.wf(),
        ensures
            final(self).stats.wf(),
            final(self)@ == (Progress {
                tally: old(self)@.tally.with(tile_at(level)),
                ..old(self)@
            }),
    {
        self.stats.add(
            NodeInfo {
                key: OctreeKey::new(level, 0, 0, 0),
                point_count: 0,
                byte_size: 0,
            },
        );
        assert(self@ =~= Progress {
            tally: old(self)@.tally.with(tile_at(level)),
            ..old(self)@
        });
    }

    /// Counts the tiles of one level of a subtree.
    fn add_level(&mut self, s: &Subtree, three_d: bool, l: u64, count: u64, level: u32)
        requires
            old(self).stats.wf(),
            count == cells(three_d, l as nat),
            4 * count <= u64::MAX,
        ensures
            final(self).stats.wf(),
            final(self)@ == (Progress {
                tally: tallied(
                    old(self)@.tally,
                    tiles_before(s@, three_d, l as nat, count as int, level),
                ),
                ..old(self)@
            }),
    {
        let ghost start = self@;
        let mut morton: u64 = 0;
        proof {
            lemma_tallied(start.tally, Seq::empty(), tile_at(level));
        }
        assert(self@ =~= Progress {
            tally: tallied(start.tally, tiles_before(s@, three_d, l as nat, 0, level)),
            ..start
        });
        while morton < count
            invariant
                morton <= count,
                count == cells(three_d, l as nat),
                4 * count <= u64::MAX,
                self.stats.wf(),
                self@ == (Progress {
                    tally: tallied(
                        start.tally,
                        tiles_before(s@, three_d, l as nat, morton as int, level),
                    ),
                    ..start
                }),
            decreases count - morton,
        {
            let ghost seen = tiles_before(s@, three_d, l as nat, morton as int, level);
            if s.tile_available(three_d, l, morton) {
                self.add_tile(level);
                proof {
                    lemma_tallied(start.tally, seen, tile_at(level));
                }
            }
            morton = morton + 1;
        }
    }
}

proof fn lemma_tallied(t: Tally, a: Seq<NodeInfo>, n: NodeInfo)
    ensures
        tallied(t, Seq::empty()) == t,
        tallied(t, a.push(n)) == tallied(t, a).with(n),
{
    reveal(tallied);
    assert(a.push(n).drop_last() =~= a);
}

proof fn lemma_with_all(t: Tally, a: Seq<NodeInfo>, b: Seq<NodeInfo>)
    ensures
        tallied(t, a + b) == tallied(tallied(t, a), b),
    decreases b.len(),
{
    reveal(tallied);
    if b.len() == 0 {
        assert(a + b =~= a);
    } else {
        lemma_with_all(t, a, b.drop_last());
        assert((a + b).drop_last() =~= a + b.drop_last());
    }
}

/// Where a subtree below another starts.
#[verifier::spinoff_prover]
#[verifier::rlimit(30)]
fn next_place(rule: &Rule, place: Place, morton: u64, span: u64) -> (p: Place)
    requires
        span == across(rule.subtree_levels as nat),
    ensures
        p == place_below(rule@, place, morton as int),
{
    let narrow: u32 = (rule.subtree_levels % 0x1_0000_0000) as u32;
    let (dx, dy, dz) = morton_decode(morton, rule.three_d, narrow);
    Place {
        level: place.level.wrapping_add(rule.subtree_levels),
        x: place.x.wrapping_mul(span).wrapping_add(dx),
        y: place.y.wrapping_mul(span).wrapping_add(dy),
        z: place.z.wrapping_mul(span).wrapping_add(dz),
    }
}

/// Adds two numbers of 32 bits, the second cut down to them.
fn add_level_numbers(base: u32, level: u64) -> (r: u32)
    ensures
        r == whole_level(base, level as int),
{
    base.wrapping_add((level % 0x1_0000_0000) as u32)
}

impl TileWalk {
    /// Counts the tiles of one level of a subtree, where the rule has it.
    fn add_next_level(&mut self, s: &Subtree, rule: &Rule, base: u32, place: Place, l: u64)
        requires
            old(self).stats.wf(),
            l < rule.subtree_levels,
            cells(rule.three_d, rule.subtree_levels as nat) <= u64::MAX,
        ensures
            final(self).stats.wf(),
            final(self)@ == (Progress {
                tally: tallied(
                    old(self)@.tally,
                    level_tiles(s@, rule@, base, place, l as nat),
                ),
                ..old(self)@
            }),
    {
        let at: u64 = place.level.wrapping_add(l);
        let three_d = rule.three_d;
        proof {
            reveal(level_tiles);
            let levels = rule.subtree_levels as nat;
            cells_grow(three_d, (l + 1) as nat, levels);
            cells_grow(three_d, l as nat, l as nat);
            if three_d {
                assert(cells(three_d, (l + 1) as nat) == 8 * cells(three_d, l as nat));
            } else {
                assert(cells(three_d, (l + 1) as nat) == 4 * cells(three_d, l as nat));
            }
            lemma_tallied(self@.tally, Seq::empty(), tile_at(0));
        }
        if at < rule.available_levels {
            let count: u64 = match cell_count(three_d, l) {
                Some(n) => n,
                None => 0,
            };
            let level: u32 = add_level_numbers(base, at);
            self.add_level(s, three_d, l, count, level);
        } else {
            assert(self@ =~= Progress { tally: tallied(self@.tally, Seq::empty()), ..self@ });
        }
    }

    /// Counts the tiles of a subtree.
    fn add_tiles(&mut self, s: &Subtree, rule: &Rule, base: u32, place: Place)
        requires
            old(self).stats.wf(),
            cells(rule.three_d, rule.subtree_levels as nat) <= u64::MAX,
        ensures
            final(self).stats.wf(),
            final(self)@ == (Progress {
                tally: tallied(old(self)@.tally, tiles_of(s@, rule@, base, place)),
                ..old(self)@
            }),
    {
        let ghost start = self@;
        let three_d = rule.three_d;
        let levels: u64 = rule.subtree_levels;
        let ghost first = if place.level > 0 && s@.tile(three_d, 0, 0) {
            seq![tile_at(whole_level(base, place.level as int))]
        } else {
            Seq::empty()
        };
        if place.level > 0 && s.tile_available(three_d, 0, 0) {
            let level: u32 = add_level_numbers(base, place.level);
            self.add_tile(level);
            assert(first =~= Seq::<NodeInfo>::empty().push(tile_at(level)));
        }
        proof {
            lemma_tallied(
                start.tally,
                Seq::empty(),
                tile_at(whole_level(base, place.level as int)),
            );
        }
        assert(self@.tally == tallied(start.tally, first));
        let mut l: u64 = 1;
        assert(first + tiles_within(s@, rule@, base, place, 1) =~= first);
        while l < levels
            invariant
                1 <= l,
                l <= levels || l == 1,
                levels == rule.subtree_levels,
                three_d == rule.three_d,
                cells(three_d, levels as nat) <= u64::MAX,
                self.stats.wf(),
                self@ == (Progress {
                    tally: tallied(
                        start.tally,
                        first + tiles_within(s@, rule@, base, place, l as int),
                    ),
                    ..start
                }),
            decreases levels - l,
        {
            let ghost within = tiles_within(s@, rule@, base, place, l as int);
            self.add_next_level(s, rule, base, place, l);
            proof {
                let more = level_tiles(s@, rule@, base, place, l as nat);
                lemma_with_all(start.tally, first + within, more);
                assert((first + within) + more =~= first + (within + more));
            }
            l = l + 1;
        }
    }

    /// Pushes the subtrees below a subtree.
    fn push_parts(&mut self, s: &Subtree, rule: &Rule, document: &str, base: u32, place: Place)
        requires
            old(self).stats.wf(),
            cells(rule.three_d, rule.subtree_levels as nat) <= u64::MAX,
        ensures
            final(self).stats.wf(),
            final(self)@ == (Progress {
                stack: old(self)@.stack + parts_before(
                    s@,
                    rule@,
                    document@,
                    base,
                    place,
                    cells(rule.three_d, rule.subtree_levels as nat),
                ),
                ..old(self)@
            }),
    {
        let ghost start = self@;
        let three_d = rule.three_d;
        let levels: u64 = rule.subtree_levels;
        let span: u64 = edge_count(three_d, levels);
        let count: u64 = match cell_count(three_d, levels) {
            Some(n) => n,
            None => 0,
        };
        let mut morton: u64 = 0;
        assert(jobs(self.stack@) =~= start.stack + parts_before(
            s@,
            rule@,
            document@,
            base,
            place,
            0,
        ));
        while morton < count
            invariant
                morton <= count,
                count == cells(three_d, levels as nat),
                span == across(levels as nat),
                levels == rule.subtree_levels,
                three_d == rule.three_d,
                self.stats.wf(),
                self@ == (Progress {
                    stack: start.stack + parts_before(
                        s@,
                        rule@,
                        document@,
                        base,
                        place,
                        morton as int,
                    ),
                    ..start
                }),
            decreases count - morton,
        {
            if s.child_subtree_available(morton) {
                let next = next_place(rule, place, morton, span);
                let t = Task::Part {
                    rule: rule.duplicate(),
                    document: document.to_owned(),
                    base,
                    place: next,
                };
                proof {
                    jobs_push(self.stack@, t);
                }
                self.stack.push(t);
                assert(jobs(self.stack@) =~= start.stack + parts_before(
                    s@,
                    rule@,
                    document@,
                    base,
                    place,
                    morton + 1,
                ));
            }
            morton = morton + 1;
        }
    }

    fn take_part(&mut self, rule: Rule, document: String, base: u32, place: Place, s: Option<Subtree>)
        requires
            old(self).stats.wf(),
            s is Some ==> cells(rule.three_d, rule.subtree_levels as nat) <= u64::MAX,
        ensures
            final(self).stats.wf(),
            final(self)@ == with_part(
                old(self)@,
                rule@,
                document@,
                base,
                place,
                match s {
                    Some(t) => Some(t@),
                    None => None,
                },
            ),
    {
        let ghost start = self@;
        match s {
            None => {
                let path = path_of(&rule, document.as_str(), place);
                let message = cat2(path.as_str(), " is not a readable .subtree");
                self.stats.warn("subtree-unreadable", path, message);
                assert(self@ =~= with_part(start, rule@, document@, base, place, None));
            },
            Some(tree) => {
                self.add_tiles(&tree, &rule, base, place);
                self.push_parts(&tree, &rule, document.as_str(), base, place);
                assert(self@ =~= with_part(start, rule@, document@, base, place, Some(tree@)));
            },
        }
    }

    /// Takes the bytes of what was asked for.
    pub fn absorb(&mut self, bytes: &[u8]) -> (r: Result<(), Error>)
        requires
            old(self).stats.wf(),
            is_takeable(old(self)@, bytes@),
        ensures
            final(self).stats.wf(),
            match r {
                Ok(_) => absorbed(old(self)@, bytes@) == Ok::<Progress, Failure>(final(self)@),
                Err(e) => absorbed(old(self)@, bytes@) == Err::<Progress, Failure>(e@),
            },
    {
        let ghost start = self@;
        let mut waiting: Option<Task> = None;
        std::mem::swap(&mut waiting, &mut self.waiting);
        match waiting {
            Some(Task::Document { path, level, depth }) => {
                self.stats.count_read(bytes.len() as u64);
                assert(self@ =~= counted(start, bytes@.len()));
                match Json::read(bytes) {
                    Err(why) => Err(Error::manifest(path, cat2("not JSON: ", why.as_str()))),
                    Ok(json) => {
                        self.take_document(path, level, depth, &json);
                        Ok(())
                    },
                }
            },
            Some(Task::Part { rule, document, base, place }) => {
                self.stats.count_read(bytes.len() as u64);
                assert(self@ =~= counted(start, bytes@.len()));
                let s = Subtree::parse(bytes);
                self.take_part(rule, document, base, place, s);
                Ok(())
            },
            other => {
                self.waiting = other;
                assert(self@ =~= start);
                Ok(())
            },
        }
    }

    /// Takes the bytes of what was asked for, unless they are a subtree with more
    /// tiles than can be addressed: then the walk stays as it was.
    pub fn absorb_addressable(&mut self, bytes: &[u8]) -> (r: Option<Result<(), Error>>)
        requires
            old(self).stats.wf(),
        ensures
            final(self).stats.wf(),
            match r {
                None => !is_takeable(old(self)@, bytes@) && *final(self) == *old(self),
                Some(Ok(_)) => is_takeable(old(self)@, bytes@) && absorbed(old(self)@, bytes@)
                    == Ok::<Progress, Failure>(final(self)@),
                Some(Err(e)) => is_takeable(old(self)@, bytes@) && absorbed(old(self)@, bytes@)
                    == Err::<Progress, Failure>(e@),
            },
    {
        if !self.addressable() && Subtree::parse(bytes).is_some() {
            return None;
        }
        Some(self.absorb(bytes))
    }

    fn take_document(&mut self, path: String, level: u32, depth: u32, json: &Json)
        requires
            old(self).stats.wf(),
        ensures
            final(self).stats.wf(),
            final(self)@ == with_document(old(self)@, path@, level, depth, json.tree()),
    {
        let ghost start = self@;
        if let Some(root) = json.get("root") {
            let t = Task::Tile { tile: root.duplicate(), document: path, level, depth };
            proof {
                jobs_push(self.stack@, t);
            }
            self.stack.push(t);
        }
        assert(self@ =~= with_document(start, path@, level, depth, json.tree()));
    }
}

} // verus!
