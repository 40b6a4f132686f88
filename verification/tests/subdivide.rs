use voxelkloud::build::chunked::{spill_level, ChunkedBuild, SPILL_BYTES};
use voxelkloud::build::{
    partition, slot, stride_of, BuildOptions, Builder, BuiltNode, Slot, MAX_DEPTH,
};
use voxelkloud::double::Real;
use voxelkloud::octree::{child_index, OctreeKey};
use voxelkloud::record::{position, set_position, RecordLayout};

const EDGE: f64 = 128.0;
const SCALE: f64 = 0.01;

fn double(value: f64) -> Real {
    Real { bits: value.to_bits() }
}

fn options() -> BuildOptions {
    let mut o = BuildOptions::new();
    o.leaf_points = 1;
    o
}

/// One record per point, position only.
fn records(points: &[[f64; 3]]) -> Vec<u8> {
    let mut out = vec![0u8; points.len() * 12];
    for (i, p) in points.iter().enumerate() {
        set_position(&mut out[i * 12..i * 12 + 12], p.map(|v| (v / SCALE).round() as i32));
    }
    out
}

/// Where the points of a node fall in a cube that starts at the origin.
fn slots(records: &[u8], key: OctreeKey, span: u32) -> Vec<Slot> {
    let edge = EDGE / f64::from(1u32 << key.level);
    let min = [key.x, key.y, key.z].map(|v| edge * f64::from(v));
    let centre = min.map(|v| double(v + edge / 2.0));
    let cell = edge / f64::from(span);
    records
        .chunks_exact(12)
        .map(|record| {
            let p = position(record).map(|v| f64::from(v) * SCALE);
            let c: Vec<u32> = (0..3)
                .map(|a| (((p[a] - min[a]) / cell).max(0.0) as u32).min(span - 1))
                .collect();
            slot([c[0], c[1], c[2]], span, child_index(centre, p.map(double)))
        })
        .collect()
}

fn build_subtree(input: Vec<u8>, options: BuildOptions) -> Vec<BuiltNode> {
    let mut builder = Builder::new(12, options, None, OctreeKey::root(), input);
    let mut out = Vec::new();
    loop {
        let places = match builder.pending.last() {
            Some(next) if builder.splits() => slots(&next.records, next.key, options.span),
            _ => Vec::new(),
        };
        match builder.step(&places) {
            Some(node) => out.push(node),
            None => return out,
        }
    }
}

#[test]
fn every_point_lands_in_exactly_one_node() {
    let options = options();
    let mut points = Vec::new();
    for x in 0..40 {
        for y in 0..40 {
            for z in 0..4 {
                points.push([x as f64 * 0.4, y as f64 * 0.4, z as f64 * 0.4]);
            }
        }
    }
    let total = points.len();
    let nodes = build_subtree(records(&points), options);
    let counted: usize = nodes.iter().map(|n| n.point_count(12)).sum();
    assert_eq!(counted, total);
    assert!(nodes.len() > 1, "the input is denser than one node's grid");
    // The very records, not only as many.
    let mut all: Vec<Vec<u8>> = nodes
        .iter()
        .flat_map(|n| n.records.chunks_exact(12).map(|r| r.to_vec()))
        .collect();
    let mut input: Vec<Vec<u8>> = records(&points).chunks_exact(12).map(|r| r.to_vec()).collect();
    all.sort();
    input.sort();
    assert_eq!(all, input);
}

#[test]
fn a_node_holds_at_most_one_point_per_cell() {
    let options = options();
    let points: Vec<[f64; 3]> = (0..16).map(|i| [0.1 + i as f64 * 0.02, 0.1, 0.1]).collect();
    let input = records(&points);
    let places = slots(&input, OctreeKey::root(), options.span);
    let (kept, children) = partition(&input, OctreeKey::root(), 12, &options, &places);
    assert_eq!(kept.len() / 12, 1);
    assert_eq!(children.iter().map(|c| c.len() / 12).sum::<usize>(), 15);
}

#[test]
fn the_leaf_rule_stops_the_recursion_where_a_node_can_hold_everything() {
    let mut options = options();
    options.leaf_points = 500;
    let points: Vec<[f64; 3]> =
        (0..400).map(|i| [(i % 20) as f64 * 0.05, (i / 20) as f64 * 0.05, 0.0]).collect();
    let nodes = build_subtree(records(&points), options);
    assert_eq!(nodes.len(), 1, "the whole input fits in one node");
    assert_eq!(nodes[0].point_count(12), points.len());
}

#[test]
fn duplicate_points_stop_at_the_depth_limit_instead_of_recursing_forever() {
    let mut options = options();
    options.max_depth = 4;
    let points = vec![[5.0, 5.0, 5.0]; 100];
    let nodes = build_subtree(records(&points), options);
    let counted: usize = nodes.iter().map(|n| n.point_count(12)).sum();
    assert_eq!(counted, 100);
    assert_eq!(nodes.iter().map(|n| n.key.level).max(), Some(4));
}

#[test]
fn parents_come_before_their_children() {
    let points: Vec<[f64; 3]> =
        (0..200).map(|i| [f64::from(i % 10) * 0.05, f64::from(i / 10) * 0.05, 0.0]).collect();
    let nodes = build_subtree(records(&points), options());
    for (i, node) in nodes.iter().enumerate() {
        if let Some(parent) = node.key.parent() {
            assert!(nodes[..i].iter().any(|n| n.key == parent));
        }
    }
    assert_eq!(nodes[0].key, OctreeKey::root());
}

#[test]
fn a_level_to_stop_at_takes_its_input_whole() {
    let points = vec![[5.0, 5.0, 5.0]; 10];
    let mut builder = Builder::new(12, options(), Some(1), OctreeKey::root(), records(&points));
    let places = slots(&records(&points), OctreeKey::root(), 128);
    assert!(builder.splits());
    let root = builder.step(&places).unwrap();
    assert_eq!(root.point_count(12), 1);
    assert!(!builder.splits());
    let below = builder.step(&Vec::new()).unwrap();
    assert_eq!((below.key.level, below.point_count(12)), (1, 9));
    assert!(builder.step(&Vec::new()).is_none());
}

#[test]
fn no_points_are_no_nodes() {
    let mut builder = Builder::new(12, options(), None, OctreeKey::root(), Vec::new());
    assert!(!builder.splits());
    assert!(builder.step(&Vec::new()).is_none());
    assert_eq!(MAX_DEPTH, 21);
}

#[test]
fn the_cut_is_no_deeper_than_it_has_to_be() {
    assert_eq!(spill_level(1000, 2000), 0);
    assert_eq!(spill_level(1001, 2000), 1);
    assert_eq!(spill_level(8000, 2000), 1);
    assert_eq!(spill_level(8001, 2000), 2);
    assert_eq!(spill_level(1_000_000_000, 2000), 4);
    assert_eq!(spill_level(1, 0), 0);
}

#[test]
fn a_full_cell_is_handed_over_and_starts_again() {
    let mut build = ChunkedBuild::new(8000, 2000);
    assert_eq!(build.level(), 1);
    let (a, b) = (OctreeKey::root().child(1), OctreeKey::root().child(0));
    assert!(build.distribute(a, &[1, 2, 3]).is_none());
    assert!(build.distribute(b, &[4]).is_none());
    assert!(build.distribute(a, &[5]).is_none());
    let held: Vec<(OctreeKey, Vec<u8>, u64)> =
        build.cells.iter().map(|c| (c.key, c.pending.clone(), c.count)).collect();
    assert_eq!(held, vec![(b, vec![4], 1), (a, vec![1, 2, 3, 5], 2)]);

    let bytes = build.distribute(a, &vec![7u8; SPILL_BYTES]).unwrap();
    assert_eq!(bytes.len(), SPILL_BYTES + 4);
    assert_eq!(bytes[..5], [1, 2, 3, 5, 7]);
    assert!(build.cells[1].pending.is_empty());
    assert_eq!(build.cells[1].count, 3);
    assert_eq!(build.cells[0].pending, vec![4]);
}

#[test]
fn every_cell_of_a_grid_has_a_number_of_its_own() {
    let mut numbers: Vec<u32> = Vec::new();
    for x in 0..5 {
        for y in 0..5 {
            for z in 0..5 {
                numbers.push(slot([x, y, z], 5, 3).cell);
            }
        }
    }
    numbers.sort();
    assert_eq!(numbers, (0..125).collect::<Vec<u32>>());
    assert_eq!(slot([1, 2, 3], 128, 6), Slot { cell: 1 + 128 * (2 + 128 * 3), child: 6 });
    // A grid too fine for its cells to be told apart wraps round.
    assert_eq!(slot([0, 0, 1], 65_536, 0).cell, 0);
}

#[test]
fn a_layout_knows_its_stride() {
    let layout = RecordLayout::new(7, 3, Vec::new(), Vec::new()).expect("format 7");
    assert_eq!(stride_of(&layout), 39);
}
