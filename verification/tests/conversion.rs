//! Whole conversions, in memory: inputs are scanned, the points take the
//! canonical record, the octree is built, and what is written is read back.

use std::io::Cursor;

use e57::{
    CartesianCoordinate, E57Reader, E57Writer, PointCloud, Quaternion, Record, RecordDataType,
    RecordValue, Transform, Translation,
};
use laz::LasZipDecompressor;
use voxelkloud::attribute::{lay_out, Attribute, AttributeType};
use voxelkloud::bounds::Bounds;
use voxelkloud::build::chunked::{build_top, open_cell, ChunkedBuild};
use voxelkloud::build::{slot, BuildOptions, Builder, BuiltNode, Slot, MAX_DEPTH};
use voxelkloud::cloud::{CloudInfo, FormatId, HierarchyStats};
use voxelkloud::convert::{plan, Plan, Scan, Scanner};
use voxelkloud::crs::Crs;
use voxelkloud::double::Real;
use voxelkloud::e57::{
    describe, is_e57, measure, measure_batch, source_id, write_record, Decoded, E57Info,
    FileHeader, PointBatch, ReadReport, Reading, RecordHeader, RecordKind, RecordName, ScanHeader,
};
use voxelkloud::format::copc::CopcCloud;
use voxelkloud::format::e57_file::E57Cloud;
use voxelkloud::format::tileset_walk::Step;
use voxelkloud::format::{copc, e57_file, ept, las_file, potree, tileset, Cloud, Walk};
use voxelkloud::json::Json;
use voxelkloud::las::copc::{parse_page, Entry};
use voxelkloud::las::{read_evlrs, LasHeader};
use voxelkloud::octree::{child_index, OctreeKey};
use voxelkloud::optimize::{
    collect_nodes, plan as optimize_plan, rewrite_metadata, OptimizeOptions, Optimizer,
};
use voxelkloud::read::laszip_vlr;
use voxelkloud::record::{
    position, RecordConverter, RecordLayout, CLASSIFICATION, INTENSITY, POINT_SOURCE_ID, RGB,
};
use voxelkloud::warning::Warning;
use voxelkloud::write::copc::CopcWriter;
use voxelkloud::write::copc_pages::build_pages;
use voxelkloud::write::ept::{EptEncoding, EptWriter};
use voxelkloud::write::hierarchy::Written;
use voxelkloud::write::las_write::{write_vlr, OutHeader, OutVlr, HEADER_SIZE};
use voxelkloud::write::potree::{supported, PotreeEncoding, PotreeWriter};
use voxelkloud::write::tileset::{
    arrange, buffer, frame_glb, narrow_colors, tile_document, tile_parts, Geometry, Single,
    TilesetWriter,
};
use voxelkloud::write::WriteOptions;

fn double(value: f64) -> Real {
    Real { bits: value.to_bits() }
}

fn number(value: Real) -> f64 {
    f64::from_bits(value.bits)
}

fn reals(values: [f64; 3]) -> [Real; 3] {
    values.map(double)
}

fn numbers(values: [Real; 3]) -> [f64; 3] {
    values.map(number)
}

/// The cube an extent is indexed in.
fn indexing_cube(extent: &Bounds) -> Bounds {
    let (min, max) = (numbers(extent.min), numbers(extent.max));
    let edge = (0..3).map(|i| max[i] - min[i]).fold(f64::MIN, f64::max);
    Bounds::new(extent.min, reals(min.map(|v| v + edge)))
}

struct Grid {
    scale: [f64; 3],
    offset: [f64; 3],
}

impl Grid {
    fn index(&self, p: [f64; 3]) -> [i32; 3] {
        [0, 1, 2].map(|i| ((p[i] - self.offset[i]) / self.scale[i]).round() as i32)
    }

    fn place(&self, raw: [i32; 3]) -> [f64; 3] {
        [0, 1, 2].map(|i| f64::from(raw[i]) * self.scale[i] + self.offset[i])
    }
}

// ---------------------------------------------------------------------------
// Reading.

fn record_header(record: &Record) -> RecordHeader {
    let (kind, min, max) = match &record.data_type {
        RecordDataType::Single { min, max } => (
            RecordKind::Single,
            f64::from(min.unwrap_or(0.0)),
            f64::from(max.unwrap_or(0.0)),
        ),
        RecordDataType::Double { min, max } => {
            (RecordKind::Double, min.unwrap_or(0.0), max.unwrap_or(0.0))
        }
        RecordDataType::ScaledInteger { min, max, .. } => {
            (RecordKind::ScaledInteger { min: *min, max: *max }, *min as f64, *max as f64)
        }
        RecordDataType::Integer { min, max } => {
            (RecordKind::Integer { min: *min, max: *max }, *min as f64, *max as f64)
        }
    };
    let name = match &record.name {
        e57::RecordName::CartesianX => RecordName::CartesianX,
        e57::RecordName::CartesianY => RecordName::CartesianY,
        e57::RecordName::CartesianZ => RecordName::CartesianZ,
        e57::RecordName::CartesianInvalidState => RecordName::CartesianInvalidState,
        e57::RecordName::SphericalRange => RecordName::SphericalRange,
        e57::RecordName::SphericalAzimuth => RecordName::SphericalAzimuth,
        e57::RecordName::SphericalElevation => RecordName::SphericalElevation,
        e57::RecordName::Intensity => RecordName::Intensity,
        e57::RecordName::ColorRed => RecordName::ColorRed,
        e57::RecordName::ColorGreen => RecordName::ColorGreen,
        e57::RecordName::ColorBlue => RecordName::ColorBlue,
        other => panic!("{other:?} is in no file of these tests"),
    };
    RecordHeader { name, kind, min: double(min), max: double(max) }
}

fn scan_header(cloud: &PointCloud) -> ScanHeader {
    let rotated = cloud.transform.as_ref().is_some_and(|t| t.rotation.w.abs() < 0.999);
    let b = cloud.cartesian_bounds.as_ref();
    let low = [b.and_then(|b| b.x_min), b.and_then(|b| b.y_min), b.and_then(|b| b.z_min)];
    let high = [b.and_then(|b| b.x_max), b.and_then(|b| b.y_max), b.and_then(|b| b.z_max)];
    let posed = match (low, high) {
        ([Some(x0), Some(y0), Some(z0)], [Some(x1), Some(y1), Some(z1)]) => {
            Bounds::new(reals([x0, y0, z0]), reals([x1, y1, z1]))
        }
        _ => Bounds::empty(),
    };
    ScanHeader {
        name: cloud.name.clone(),
        guid: cloud.guid.clone(),
        records: cloud.records,
        has_color: cloud.has_color(),
        has_intensity: cloud.has_intensity(),
        has_cartesian: cloud.has_cartesian(),
        low: low.map(|v| v.map(double)),
        high: high.map(|v| v.map(double)),
        posed,
        rotated,
        vendor: cloud.sensor_vendor.clone(),
        model: cloud.sensor_model.clone(),
    }
}

fn widen(value: f32) -> u16 {
    (f64::from(value).clamp(0.0, 1.0) * 65535.0).round() as u16
}

/// Every point of an E57 file, in batches, and what the file says of itself.
fn read_e57(bytes: &[u8], batch: usize) -> (E57Info, Vec<PointBatch>, ReadReport) {
    let mut reader = E57Reader::new(Cursor::new(bytes)).expect("reads the header");
    let clouds = reader.pointclouds();
    let info = describe(FileHeader {
        guid: reader.guid().to_string(),
        library_version: reader.library_version().map(str::to_string),
        coordinate_metadata: reader.coordinate_metadata().map(str::to_string),
        scans: clouds.iter().map(scan_header).collect(),
        prototype: clouds
            .first()
            .map(|c| c.prototype.iter().map(record_header).collect())
            .unwrap_or_default(),
    });
    let mut reading = Reading::new(batch, info.has_color, info.has_intensity);
    let mut out = Vec::new();
    for (index, cloud) in clouds.iter().enumerate() {
        let mut points = reader.pointcloud_simple(cloud).expect("opens a scan");
        points.apply_pose(true);
        points.spherical_to_cartesian(true);
        points.normalize_color(true);
        points.normalize_intensity(true);
        points.intensity_to_color(false);
        for point in points {
            let point = point.expect("reads a point");
            let decoded = Decoded {
                position: match point.cartesian {
                    CartesianCoordinate::Valid { x, y, z } => Some(reals([x, y, z])),
                    _ => None,
                },
                color: point.color.map(|c| [c.red, c.green, c.blue].map(widen)),
                intensity: point.intensity.map(widen),
            };
            out.extend(reading.take(decoded, source_id(index)));
        }
    }
    let (rest, report) = reading.finish();
    out.extend(rest);
    (info, out, report)
}

fn open_e57(bytes: &[u8]) -> E57Cloud {
    assert!(is_e57(bytes));
    let (info, _, _) = read_e57(bytes, 64);
    let extent = info.extent.unwrap_or_else(Bounds::empty);
    let cube = indexing_cube(&extent);
    e57_file::summarise(info, cube, "an e57")
}

fn open_copc(bytes: &[u8]) -> CopcCloud {
    let (header, info) = copc::read_front(bytes).expect("a COPC file");
    let (c, h) = (numbers(info.center), number(info.half_size));
    let cube = Bounds::new(reals(c.map(|v| v - h)), reals(c.map(|v| v + h)));
    let mut summary =
        copc::summarise(&header, &info, cube, Some(bytes.len() as u64), "a copc").expect("opens");
    let at = header.evlr_offset as usize;
    let evlrs = copc::take_evlrs(&mut summary, &header, &bytes[at..]);
    CopcCloud { info: summary, copc: info, header, evlrs }
}

fn walk_copc(cloud: CopcCloud, bytes: &[u8]) -> HierarchyStats {
    let mut walk = match Cloud::Copc(cloud).hierarchy() {
        Ok(Walk::Copc(walk)) => walk,
        other => panic!("{other:?}"),
    };
    while let Some((offset, size)) = walk.next() {
        walk.absorb(&bytes[offset as usize..(offset + size) as usize]).expect("a page");
    }
    walk.stats
}

/// What a LAS file of any kind says of itself.
fn open_las(bytes: &[u8]) -> (LasHeader, CloudInfo) {
    if copc::read_front(bytes).is_ok() {
        let cloud = open_copc(bytes);
        return (cloud.header, cloud.info);
    }
    let header = LasHeader::read(bytes).expect("a LAS file");
    let cube = indexing_cube(&Bounds::new(header.min, header.max));
    let evlrs = if las_file::needs_evlrs(&header) {
        las_file::evlr_range(&header, bytes.len() as u64)
            .map(|(at, _)| read_evlrs(&bytes[at as usize..], header.evlr_count).0)
    } else {
        None
    };
    let size = Some(bytes.len() as u64);
    let cloud = las_file::open(header, cube, size, evlrs, "a las").expect("opens");
    (cloud.header, cloud.info)
}

/// The source records of a LAS file, unpacked where they are packed.
fn las_records(bytes: &[u8], header: &LasHeader) -> Vec<u8> {
    let start = header.offset_to_point_data as usize;
    let len = header.point_count as usize * header.point_size as usize;
    if !header.compressed {
        return bytes[start..start + len].to_vec();
    }
    let vlr = laszip_vlr(header, "a laz").expect("a laszip record");
    let mut source = Cursor::new(bytes);
    source.set_position(start as u64);
    let mut out = vec![0u8; len];
    let mut decoder = LasZipDecompressor::new(source, vlr).expect("starts");
    decoder.decompress_many(&mut out).expect("unpacks");
    out
}

/// The records of an input, converted to a layout at a quantum.
fn records(input: &[u8], layout: &RecordLayout, grid: &Grid) -> Vec<u8> {
    let mut out = Vec::new();
    if is_e57(input) {
        for batch in read_e57(input, 7).1 {
            for i in 0..batch.len() {
                let p = numbers([batch.x[i], batch.y[i], batch.z[i]]);
                write_record(layout, &batch, i, grid.index(p), &mut out);
            }
        }
        return out;
    }
    let header = LasHeader::read(input).expect("reads");
    let own = Grid { scale: numbers(header.scale), offset: numbers(header.offset) };
    let source = las_records(input, &header);
    let converter = RecordConverter::new(&header, layout.clone()).expect("converts");
    let places = source
        .chunks_exact(converter.source_stride())
        .map(|r| grid.index(own.place(position(r))))
        .collect();
    converter.convert_many(&source, &places, &mut out);
    out
}

fn scan(inputs: &[&[u8]]) -> Scan {
    let mut scanner = Scanner::begin(inputs.len()).expect("inputs");
    for input in inputs {
        if is_e57(input) {
            let (_, batches, report) = read_e57(input, 16);
            let mut extent = Bounds::empty();
            for batch in &batches {
                measure_batch(&mut extent, batch);
            }
            let measured = measure(extent, report).expect("measures");
            let cloud = open_e57(input);
            let (e57, info) = (&cloud.e57, &cloud.info);
            scanner.add_e57("in.e57", &e57.warnings, e57.has_color, &measured, &info.crs);
        } else {
            let (header, info) = open_las(input);
            scanner.add_las("in.las", &header, &info.crs).expect("scans");
        }
    }
    scanner.finish().expect("finishes")
}

// ---------------------------------------------------------------------------
// Building and writing.

fn slots(records: &[u8], key: OctreeKey, stride: usize, cube: &Bounds, span: u32, grid: &Grid) -> Vec<Slot> {
    let (low, high) = (numbers(cube.min), numbers(cube.max));
    let parts = f64::from(1u32 << key.level);
    let step = [0, 1, 2].map(|i| (high[i] - low[i]) / parts);
    let at = [key.x, key.y, key.z];
    let min = [0, 1, 2].map(|i| low[i] + step[i] * f64::from(at[i]));
    let centre = reals([0, 1, 2].map(|i| (min[i] + (min[i] + step[i])) * 0.5));
    records
        .chunks_exact(stride)
        .map(|record| {
            let p = grid.place(position(record));
            let c = [0, 1, 2].map(|i| {
                let raw = (p[i] - min[i]) / (step[i] / f64::from(span));
                if raw.is_finite() && raw > 0.0 {
                    (raw as u32).min(span - 1)
                } else {
                    0
                }
            });
            slot(c, span, child_index(centre, reals(p)))
        })
        .collect()
}

struct Built {
    nodes: Vec<BuiltNode>,
    options: WriteOptions,
    grid: Grid,
}

/// Everything up to the writer: the scan, the plan, the records and the tree.
fn build(inputs: &[&[u8]], span: u32, leaf_points: usize) -> Built {
    build_with(inputs, span, leaf_points, None)
}

/// Runs a build to its end.
fn run(mut builder: Builder, cube: &Bounds, grid: &Grid) -> Vec<BuiltNode> {
    let (stride, span) = (builder.stride, builder.options.span);
    let mut nodes = Vec::new();
    loop {
        let places = match builder.pending.last() {
            Some(next) if builder.splits() => {
                slots(&next.records, next.key, stride, cube, span, grid)
            }
            _ => Vec::new(),
        };
        match builder.step(&places) {
            Some(node) => nodes.push(node),
            None => return nodes,
        }
    }
}

/// A build through files, each of them bytes in memory.
fn out_of_core(
    all: &[u8],
    stride: usize,
    build: BuildOptions,
    budget: u64,
    cube: &Bounds,
    grid: &Grid,
) -> Vec<BuiltNode> {
    let mut chunked = ChunkedBuild::new(all.len() as u64, budget);
    assert!(chunked.level() > 0);
    let mut files: Vec<(OctreeKey, Vec<u8>)> = Vec::new();
    for record in all.chunks_exact(stride) {
        let mut key = OctreeKey::root();
        for _ in 0..chunked.level() {
            key = key.child(slots(record, key, stride, cube, build.span, grid)[0].child);
        }
        if let Some(bytes) = chunked.distribute(key, record) {
            files.push((key, bytes));
        }
    }
    let (mut top, mut nodes) = (Vec::new(), Vec::new());
    for cell in &chunked.cells {
        let mut records: Vec<u8> = Vec::new();
        for (_, bytes) in files.iter().filter(|f| f.0 == cell.key) {
            records.extend(bytes);
        }
        records.extend(&cell.pending);
        assert_eq!(records.len() as u64, cell.count * stride as u64);
        let places = slots(&records, cell.key, stride, cube, build.span, grid);
        let below = open_cell(stride, build, cell.key, records, &places, &mut top);
        nodes.extend(run(below, cube, grid));
    }
    nodes.extend(run(build_top(stride, build, chunked.level(), top), cube, grid));
    nodes
}

fn build_with(inputs: &[&[u8]], span: u32, leaf_points: usize, spill: Option<u64>) -> Built {
    let scan = scan(inputs);
    let plan: Plan = plan(&scan, span, leaf_points, spill.unwrap_or(1 << 30));
    assert_eq!(plan.spilled, spill.is_some());
    let grid = Grid { scale: numbers(scan.scale), offset: numbers(scan.extent.min) };
    let cube = indexing_cube(&scan.extent);
    let stride = plan.layout.stride();
    let mut all = Vec::new();
    for input in inputs {
        all.extend(records(input, &plan.layout, &grid));
    }
    assert_eq!(all.len() as u64, plan.expected_bytes);
    let build = BuildOptions {
        span: plan.span,
        max_depth: MAX_DEPTH,
        leaf_points: plan.leaf_points,
    };
    let nodes = match spill {
        None => {
            let builder = Builder::new(stride, build, None, OctreeKey::root(), all);
            run(builder, &cube, &grid)
        }
        Some(budget) => out_of_core(&all, stride, build, budget, &cube, &grid),
    };
    let edge = number(cube.max[0]) - number(cube.min[0]);
    let options = WriteOptions {
        layout: plan.layout,
        cube,
        extent: scan.extent,
        scale: reals(grid.scale),
        offset: reals(grid.offset),
        spacing: double(edge / f64::from(plan.span)),
        span: plan.span,
        has_gps_time: scan.any_gps_time,
        legacy_fields: scan.all_legacy,
        crs: scan.crs,
        projection_vlrs: scan.projection_vlrs,
        generator: "voxelkloud 0.1.0".to_string(),
        creation: (1, 2026),
    };
    Built { nodes, options, grid }
}

fn to_copc_with(inputs: &[&[u8]], span: u32, leaf_points: usize) -> Vec<u8> {
    copc_of(build(inputs, span, leaf_points))
}

fn copc_of(built: Built) -> Vec<u8> {
    let (low, high) = (numbers(built.options.cube.min), numbers(built.options.cube.max));
    let centre = reals([0, 1, 2].map(|i| (low[i] + high[i]) * 0.5));
    let half = double((high[0] - low[0]) * 0.5);
    let (mut writer, mut file) = CopcWriter::new(built.options).expect("starts");
    for node in &built.nodes {
        assert!(writer.can_code(&node.records));
        file.extend(writer.write_node(node.key, &node.records).expect("writes a node"));
    }
    let done = writer.finish(centre, half).expect("finishes");
    file.extend(&done.tail);
    for (at, bytes) in [&done.place, &done.info] {
        file[*at as usize..*at as usize + bytes.len()].copy_from_slice(bytes);
    }
    file[..done.header.len()].copy_from_slice(&done.header);
    assert_eq!(done.bytes, file.len() as u64);
    assert_eq!(writer.nodes.len(), built.nodes.len());
    file
}

fn to_copc(inputs: &[&[u8]]) -> Vec<u8> {
    to_copc_with(inputs, 128, 50_000)
}

// ---------------------------------------------------------------------------
// Points.

/// One point, reduced to what survives a conversion.
#[derive(PartialEq, Debug, Clone, Copy)]
struct Point {
    x: f64,
    y: f64,
    z: f64,
    intensity: u16,
    rgb: [u16; 3],
    source_id: u16,
}

fn u16_at(record: &[u8], at: usize) -> u16 {
    u16::from_le_bytes([record[at], record[at + 1]])
}

/// Every point of a converted file, in absolute coordinates.
fn read_points(bytes: &[u8]) -> Vec<Point> {
    let layout = RecordLayout::new(7, 0, Vec::new(), Vec::new()).expect("format 7");
    let header = LasHeader::read(bytes).expect("reads");
    let grid = Grid { scale: numbers(header.scale), offset: numbers(header.offset) };
    records(bytes, &layout, &grid)
        .chunks_exact(layout.stride())
        .map(|record| {
            let p = grid.place(position(record));
            Point {
                x: p[0],
                y: p[1],
                z: p[2],
                intensity: u16_at(record, INTENSITY),
                rgb: [0, 2, 4].map(|i| u16_at(record, RGB + i)),
                source_id: u16_at(record, POINT_SOURCE_ID),
            }
        })
        .collect()
}

fn sorted(mut points: Vec<Point>) -> Vec<Point> {
    points.sort_by(|a, b| {
        (a.x, a.y, a.z).partial_cmp(&(b.x, b.y, b.z)).unwrap_or(std::cmp::Ordering::Equal)
    });
    points
}

fn cartesian_f64() -> Vec<Record> {
    vec![Record::CARTESIAN_X_F64, Record::CARTESIAN_Y_F64, Record::CARTESIAN_Z_F64]
}

fn colour_records() -> Vec<Record> {
    [e57::RecordName::ColorRed, e57::RecordName::ColorGreen, e57::RecordName::ColorBlue]
        .into_iter()
        .map(|name| Record { name, data_type: RecordDataType::U8 })
        .collect()
}

fn xyz(x: f64, y: f64, z: f64) -> Vec<RecordValue> {
    vec![RecordValue::Double(x), RecordValue::Double(y), RecordValue::Double(z)]
}

fn widened(channel: u8) -> u16 {
    (f64::from(channel) / 255.0 * 65535.0).round() as u16
}

/// An E57 file of some scans, each with a pose.
fn e57_file_of(prototype: Vec<Record>, scans: Vec<(Option<Transform>, Vec<Vec<RecordValue>>)>) -> Vec<u8> {
    let mut file = Cursor::new(Vec::new());
    let mut writer = E57Writer::new(&mut file, "test-file-guid").expect("creates");
    for (index, (pose, points)) in scans.into_iter().enumerate() {
        let mut cloud = writer
            .add_pointcloud(&format!("scan-{index}"), prototype.clone())
            .expect("adds a scan");
        cloud.set_transform(pose);
        for point in points {
            cloud.add_point(point).expect("writes a point");
        }
        cloud.finalize().expect("finalises the scan");
    }
    writer.finalize().expect("finalises the file");
    drop(writer);
    file.into_inner()
}

/// One scan of a lattice, with colour, at a surveyed-looking origin.
fn write_lattice() -> (Vec<u8>, Vec<Point>) {
    let mut prototype = cartesian_f64();
    prototype.extend(colour_records());
    let mut points = Vec::new();
    let mut expected = Vec::new();
    for i in 0..10 {
        for j in 0..10 {
            let (x, y, z) = (
                500_000.0 + f64::from(i),
                4_300_000.0 + f64::from(j),
                100.0 + f64::from(i * j) / 10.0,
            );
            let (r, g, b) = ((i * 25) as u8, (j * 25) as u8, 255u8);
            let mut values = xyz(x, y, z);
            values.extend([r, g, b].map(|v| RecordValue::Integer(i64::from(v))));
            points.push(values);
            let rgb = [widened(r), widened(g), widened(b)];
            expected.push(Point { x, y, z, intensity: 0, rgb, source_id: 1 });
        }
    }
    (e57_file_of(prototype, vec![(None, points)]), expected)
}

#[test]
fn a_scan_converts_point_for_point() {
    let (input, expected) = write_lattice();
    let output = to_copc(&[&input]);
    let got = read_points(&output);
    assert_eq!(got.len(), expected.len());
    for (got, want) in sorted(got).into_iter().zip(sorted(expected)) {
        assert!((got.x - want.x).abs() <= 0.001, "{got:?} vs {want:?}");
        assert!((got.y - want.y).abs() <= 0.001, "{got:?} vs {want:?}");
        assert!((got.z - want.z).abs() <= 0.001, "{got:?} vs {want:?}");
        assert_eq!(got.rgb, want.rgb, "colour");
        assert_eq!(got.source_id, 1, "the first scan is source 1");
    }
}

#[test]
fn the_file_opens_as_an_e57_and_says_what_is_in_it() {
    let (input, _) = write_lattice();
    let cloud = open_e57(&input);
    let info = &cloud.info;
    assert_eq!(info.format, FormatId::E57);
    assert!(!info.format.is_indexed(), "an E57 carries no index");
    assert_eq!(info.point_count, 100);
    let names: Vec<&str> = info.attributes.iter().map(|a| a.name.as_str()).collect();
    assert_eq!(
        names,
        ["cartesianX", "cartesianY", "cartesianZ", "colorRed", "colorGreen", "colorBlue"]
    );
    assert_eq!(cloud.e57.scans.len(), 1);
    assert!(cloud.e57.has_color);
    assert!(!cloud.e57.has_intensity);
    assert!(cloud.e57.extent_exact);
    let extent = cloud.e57.extent.expect("declared bounds");
    assert!((number(extent.min[0]) - 500_000.0).abs() < 1e-6);
    assert!((number(extent.max[0]) - 500_009.0).abs() < 1e-6);
}

#[test]
fn a_pose_moves_the_points_and_the_declared_bounds_stop_being_exact() {
    // A quarter turn about Z, then a hundred metres east.
    let half = std::f64::consts::FRAC_PI_4;
    let pose = Transform {
        rotation: Quaternion { w: half.cos(), x: 0.0, y: 0.0, z: half.sin() },
        translation: Translation { x: 100.0, y: 0.0, z: 0.0 },
    };
    let points = vec![xyz(1.0, 0.0, 0.0), xyz(0.0, 2.0, 0.0), xyz(0.0, 0.0, 3.0)];
    let input = e57_file_of(cartesian_f64(), vec![(Some(pose), points)]);

    let cloud = open_e57(&input);
    assert!(
        !cloud.e57.extent_exact,
        "a rotated scan's own bounds are not the box its points occupy"
    );
    assert!(
        cloud
            .e57
            .warnings
            .iter()
            .chain(cloud.info.warnings.iter())
            .any(|w| w.code == "e57-bounds-posed"),
        "and the file says so"
    );

    let output = to_copc(&[&input]);
    let got = sorted(read_points(&output));
    assert_eq!(got.len(), 3);
    let moved = got
        .iter()
        .find(|p| (p.z - 0.0).abs() < 0.01 && (p.y - 1.0).abs() < 0.01)
        .expect("the rotated point");
    assert!((moved.x - 100.0).abs() < 0.01, "{moved:?}");
    let second =
        got.iter().find(|p| (p.x - 98.0).abs() < 0.01).expect("the second rotated point");
    assert!(second.y.abs() < 0.01, "{second:?}");
}

#[test]
fn spherical_records_arrive_cartesian() {
    let prototype = vec![
        Record::SPHERICAL_RANGE_F64,
        Record::SPHERICAL_AZIMUTH_F64,
        Record::SPHERICAL_ELEVATION_F64,
    ];
    let quarter = std::f64::consts::FRAC_PI_2;
    let points = vec![xyz(10.0, 0.0, 0.0), xyz(10.0, quarter, 0.0), xyz(10.0, 0.0, quarter)];
    let input = e57_file_of(prototype, vec![(None, points)]);

    let output = to_copc(&[&input]);
    let got = read_points(&output);
    assert_eq!(got.len(), 3);
    let near = |p: &Point, x: f64, y: f64, z: f64| {
        (p.x - x).abs() < 0.01 && (p.y - y).abs() < 0.01 && (p.z - z).abs() < 0.01
    };
    assert!(got.iter().any(|p| near(p, 10.0, 0.0, 0.0)), "{got:?}");
    assert!(got.iter().any(|p| near(p, 0.0, 10.0, 0.0)), "{got:?}");
    assert!(got.iter().any(|p| near(p, 0.0, 0.0, 10.0)), "{got:?}");
}

#[test]
fn points_with_no_position_are_dropped_rather_than_written_at_the_origin() {
    let mut prototype = cartesian_f64();
    prototype.push(Record::CARTESIAN_INVALID_STATE);
    let points = (0..10)
        .map(|i| {
            // Every third point is a no-return.
            let state = i64::from(i % 3 == 0) * 2;
            let mut values = xyz(f64::from(i), 0.0, 0.0);
            values.push(RecordValue::Integer(state));
            values
        })
        .collect();
    let input = e57_file_of(prototype, vec![(None, points)]);

    let report = scan(&[&input]);
    assert_eq!(report.point_count, 6, "four of the ten carry no position");
    assert!(
        report.warnings.iter().any(|w| w.code == "e57-invalid-points"),
        "and the conversion says so: {:?}",
        report.warnings
    );

    let output = to_copc(&[&input]);
    let got = read_points(&output);
    assert_eq!(got.len(), 6);
    assert!(
        !got.iter().any(|p| p.x == 0.0 && p.y == 0.0 && p.z == 0.0),
        "a dropped point must not reappear at the origin: {got:?}"
    );
}

#[test]
fn each_scan_keeps_its_place_as_a_point_source_id() {
    let scans = [0.0, 50.0]
        .into_iter()
        .map(|offset| {
            let points = (0..5).map(|i| xyz(offset + f64::from(i), 0.0, 0.0)).collect();
            (None, points)
        })
        .collect();
    let input = e57_file_of(cartesian_f64(), scans);
    let output = to_copc(&[&input]);
    let got = read_points(&output);
    assert_eq!(got.len(), 10);
    for point in &got {
        let expected = if point.x < 50.0 { 1 } else { 2 };
        assert_eq!(point.source_id, expected, "{point:?}");
    }
}

#[test]
fn intensity_stays_intensity() {
    let mut prototype = cartesian_f64();
    prototype.push(Record {
        name: e57::RecordName::Intensity,
        data_type: RecordDataType::UNIT_F32,
    });
    let points = (0..5)
        .map(|i| {
            let mut values = xyz(f64::from(i), 0.0, 0.0);
            values.push(RecordValue::Single(i as f32 / 4.0));
            values
        })
        .collect();
    let input = e57_file_of(prototype, vec![(None, points)]);

    let report = scan(&[&input]);
    assert!(
        !report.any_color,
        "a scan with intensity and no colour must not arrive pre-greyed"
    );

    let output = to_copc(&[&input]);
    assert_eq!(open_copc(&output).header.point_format, 6, "no colour lane was invented");

    let got = sorted(read_points(&output));
    assert_eq!(got.len(), 5);
    assert_eq!(got.first().expect("first").intensity, 0);
    assert_eq!(got.last().expect("last").intensity, 65535);
}

#[test]
fn an_e57_and_a_las_file_merge_into_one_cloud() {
    let (e57, expected) = write_lattice();
    let points = (0..10).map(|i| xyz(500_100.0 + f64::from(i), 4_300_100.0, 150.0)).collect();
    let far = e57_file_of(cartesian_f64(), vec![(None, points)]);
    let far_copc = to_copc(&[&far]);

    let output = to_copc(&[&e57, &far_copc]);
    let got = read_points(&output);
    assert_eq!(got.len(), expected.len() + 10);

    let bounds = open_copc(&output).info.tight_bounds;
    assert!((number(bounds.min[0]) - 500_000.0).abs() < 0.01, "{bounds:?}");
    assert!((number(bounds.max[0]) - 500_109.0).abs() < 0.01, "{bounds:?}");
    assert!(got.iter().any(|p| p.rgb == [u16::MAX; 3]), "the colourless half");
    assert!(got.iter().any(|p| p.rgb[2] == 65535 && p.rgb[0] < 65535), "the lattice");
}

/// A minimal LAS file with a projection declared in a GeoTIFF key directory.
fn las_with_geotiff(epsg: u16) -> Vec<u8> {
    let mut keys: Vec<u8> = Vec::new();
    for value in [1u16, 1, 0, 1, 3072, 0, 1, epsg] {
        keys.extend_from_slice(&value.to_le_bytes());
    }
    let vlr = OutVlr::new("LASF_Projection", 34735, "GeoTIFF key directory", keys);
    let point_size = 20u16;
    let header = OutHeader {
        point_format: 0,
        point_size,
        compressed: false,
        point_count: 3,
        scale: reals([0.01; 3]),
        offset: reals([0.0; 3]),
        min: reals([0.0, 0.0, 0.0]),
        max: reals([2.0, 2.0, 2.0]),
        offset_to_point_data: (HEADER_SIZE + vlr.size()) as u32,
        vlr_count: 1,
        evlr_offset: 0,
        evlr_count: 0,
        generator: "test".to_string(),
        wkt: false,
        creation: (1, 2026),
        points_by_return: [0; 15],
    };
    let mut bytes = header.to_bytes();
    write_vlr(&mut bytes, &vlr);
    for i in 0..3i32 {
        let mut record = vec![0u8; point_size as usize];
        for (axis, value) in [i * 100, i * 100, i * 100].iter().enumerate() {
            record[axis * 4..axis * 4 + 4].copy_from_slice(&value.to_le_bytes());
        }
        bytes.extend_from_slice(&record);
    }
    bytes
}

#[test]
fn a_projection_declared_in_geotiff_keys_survives_the_conversion() {
    let input = las_with_geotiff(26912);
    let (_, before) = open_las(&input);
    assert_eq!(
        before.crs.as_ref().and_then(|c| c.epsg),
        Some(26912),
        "the hand-written input declares the CRS"
    );
    let output = to_copc(&[&input]);
    let after = open_copc(&output);
    assert_eq!(
        after.info.crs.as_ref().and_then(|c| c.epsg),
        Some(26912),
        "the converted cloud kept its projection"
    );
    assert_eq!(after.info.point_count, 3);
}

// ---------------------------------------------------------------------------
// What holds of every conversion.

/// A LAS file of points with colour and time on a square.
fn las_square(across: i32) -> Vec<u8> {
    las_square_with(across, 0)
}

/// The same, with some more bytes behind every point.
fn las_square_with(across: i32, extra: u16) -> Vec<u8> {
    let header = OutHeader {
        point_format: 3,
        point_size: 34 + extra,
        compressed: false,
        point_count: (across * across) as u64,
        scale: reals([0.01; 3]),
        offset: reals([1000.0, 2000.0, 0.0]),
        min: reals([1000.0, 2000.0, 0.0]),
        max: reals([1000.0 + f64::from(across - 1) * 0.01, 2000.0 + f64::from(across - 1) * 0.01, 0.0]),
        offset_to_point_data: HEADER_SIZE as u32,
        vlr_count: 0,
        evlr_offset: 0,
        evlr_count: 0,
        generator: "test".to_string(),
        wkt: false,
        creation: (1, 2026),
        points_by_return: [0; 15],
    };
    let mut bytes = header.to_bytes();
    for i in 0..across {
        for j in 0..across {
            let mut record = vec![0u8; 34];
            record[0..4].copy_from_slice(&i.to_le_bytes());
            record[4..8].copy_from_slice(&j.to_le_bytes());
            record[12..14].copy_from_slice(&((i + j) as u16).to_le_bytes());
            record[14] = 0b0001_1011;
            record[15] = 2;
            record[16] = 0xf6;
            record[18..20].copy_from_slice(&7u16.to_le_bytes());
            record[20..28].copy_from_slice(&f64::from(j).to_le_bytes());
            record[28..30].copy_from_slice(&(i as u16).to_le_bytes());
            record.resize(34 + usize::from(extra), 9);
            bytes.extend(record);
        }
    }
    bytes
}

#[test]
fn a_copc_accounts_for_every_point_of_its_input() {
    let input = las_square(60);
    let output = to_copc_with(&[&input], 8, 100);
    let cloud = open_copc(&output);
    assert_eq!(cloud.info.point_count, 3600);
    assert_eq!(cloud.header.point_format, 7);
    let stats = walk_copc(cloud, &output);
    assert!(stats.nodes > 1);
    assert_eq!(stats.total_points(), 3600);
    assert!(stats.warnings.is_empty(), "{:?}", stats.warnings);
    assert_eq!(stats.depth as usize + 1, stats.nodes_by_level.len());

    let before = sorted(read_points(&input));
    let after = sorted(read_points(&output));
    assert_eq!(before.len(), after.len());
    for (a, b) in before.iter().zip(&after) {
        assert!((a.x - b.x).abs() < 0.005 && (a.y - b.y).abs() < 0.005, "{a:?} {b:?}");
        assert_eq!((a.intensity, a.rgb, a.source_id), (b.intensity, b.rgb, b.source_id));
    }
}

#[test]
fn spilling_to_disk_gives_the_same_cloud_as_holding_it_in_memory() {
    let input = las_square(60);
    let memory = copc_of(build(&[&input], 8, 20));
    let disk = copc_of(build_with(&[&input], 8, 20, Some(20_000)));
    let (a, b) = (sorted(read_points(&memory)), sorted(read_points(&disk)));
    assert_eq!(b.len(), 3600, "the spilled build lost points");
    assert_eq!(a, b, "the two builds hold different points");
}

#[test]
fn a_spilled_build_writes_a_hierarchy_that_reaches_every_point() {
    let input = las_square(60);
    // The survivors of the cells fit in one node, so that the nodes between it
    // and what is below the cells hold nothing.
    for leaf in [20, 2000] {
        let output = copc_of(build_with(&[&input], 8, leaf, Some(20_000)));
        let cloud = open_copc(&output);
        let stats = walk_copc(cloud, &output);
        assert_eq!(stats.total_points(), 3600, "the hierarchy reaches every point");
        assert!(stats.nodes_by_level[0] == 1, "there must be a root node");
        assert!(stats.warnings.is_empty());
    }
}

/// Plain JSON text of a document.
fn text(json: &Json) -> String {
    match json {
        Json::Null => "null".to_string(),
        Json::Bool(b) => b.to_string(),
        Json::Number(n) => match (n.unsigned, n.signed, n.real) {
            (Some(v), _, _) => v.to_string(),
            (_, Some(v), _) => v.to_string(),
            (_, _, Some(r)) => format!("{:?}", number(r)),
            _ => "null".to_string(),
        },
        Json::Text(s) => format!("{s:?}"),
        Json::Array(items) => {
            format!("[{}]", items.iter().map(text).collect::<Vec<_>>().join(","))
        }
        Json::Object(fields) => {
            let all: Vec<String> =
                fields.iter().map(|(k, v)| format!("{k:?}:{}", text(v))).collect();
            format!("{{{}}}", all.join(","))
        }
    }
}

/// An EPT, as the files it is made of.
fn to_ept(input: &[u8], span: u32, leaf: usize, encoding: EptEncoding) -> Vec<(String, Vec<u8>)> {
    let built = build(&[input], span, leaf);
    let mut writer = EptWriter::create(built.options, encoding);
    let mut files = Vec::new();
    let stride = writer.options.layout.stride();
    for node in &built.nodes {
        let mut extent = Bounds::empty();
        for record in node.records.chunks_exact(stride) {
            extent.grow(reals(built.grid.place(position(record))));
        }
        assert!(writer.can_code(&node.records));
        let written = writer.write_node(node.key, &node.records, extent).expect("writes");
        files.push((writer.node_path(node.key), written.expect("a node has points")));
    }
    for (path, page) in writer.hierarchy() {
        files.push((path, text(&page).into_bytes()));
    }
    files.push(("ept.json".to_string(), text(&writer.manifest()).into_bytes()));
    files
}

fn open_ept(files: &[(String, Vec<u8>)]) -> (ept::EptCloud, HierarchyStats) {
    let find = |name: &str| &files.iter().find(|f| f.0 == name).expect("a file").1;
    let cloud = ept::open_manifest(find("ept.json"), "ept.json", "an ept").expect("opens");
    let mut walk = cloud.hierarchy();
    while let Some(path) = walk.next() {
        walk.absorb(find(&path)).expect("a page");
    }
    (cloud, walk.stats)
}

#[test]
fn the_two_ept_builds_hold_the_same_nodes() {
    let input = las_square(60);
    let binary = to_ept(&input, 8, 100, EptEncoding::Binary);
    let laszip = to_ept(&input, 8, 100, EptEncoding::Laszip);
    let (a, b) = (open_ept(&binary), open_ept(&laszip));
    assert_eq!(a.0.data_type, "binary");
    assert_eq!(b.0.data_type, "laszip");
    let (a, b) = (a.1, b.1);
    assert_eq!(a.nodes, b.nodes);
    assert_eq!(a.depth, b.depth);
    assert_eq!(a.points_by_level, b.points_by_level);
    assert_eq!(a.total_points(), 3600);
}

#[test]
fn an_ept_node_is_a_whole_laz_file() {
    let input = las_square(20);
    let files = to_ept(&input, 8, 500, EptEncoding::Laszip);
    let (cloud, stats) = open_ept(&files);
    assert_eq!((cloud.info.point_count, stats.nodes), (400, 1));
    let path = cloud.node_path(OctreeKey::root());
    assert_eq!(path, "ept-data/0-0-0-0.laz");
    let node = &files.iter().find(|f| f.0 == path).expect("the root").1;
    assert_eq!(sorted(read_points(node)).len(), 400);
    let points = sorted(read_points(node));
    assert!((points[0].x - 1000.0).abs() < 0.005 && (points[0].y - 2000.0).abs() < 0.005);
    assert_eq!(points[399].rgb, [19, 0, 0]);
}

#[test]
fn a_copc_hierarchy_is_cut_into_pages() {
    // One node to a level down to the fourth, then all that is below it.
    let mut keys = vec![OctreeKey::root()];
    for _ in 0..4 {
        keys.push(keys[keys.len() - 1].child(7));
    }
    let cut = keys[4];
    for a in 0..8 {
        keys.push(cut.child(a));
        for b in 0..8 {
            keys.push(cut.child(a).child(b));
        }
    }
    let nodes: Vec<Written> = keys
        .iter()
        .enumerate()
        .map(|(i, k)| Written {
            key: *k,
            byte_offset: i as u64 * 10,
            byte_size: 10,
            points: i as u32,
        })
        .collect();
    let (bytes, (offset, size)) = build_pages(&nodes, 1000);
    let root = &bytes[(offset - 1000) as usize..(offset - 1000 + size) as usize];
    let root = parse_page(root, "the root page").expect("a page");
    let (mut points, mut pages, mut seen) = (0, 0, 0);
    for entry in &root {
        match *entry {
            Entry::Node { point_count, .. } => {
                points += point_count;
                seen += 1;
            }
            Entry::Page { key, offset, byte_size } => {
                assert_eq!((key, offset), (cut, 1000));
                pages += 1;
                let page = &bytes[..byte_size as usize];
                for entry in parse_page(page, "a page").expect("a page") {
                    if let Entry::Node { point_count, .. } = entry {
                        points += point_count;
                        seen += 1;
                    }
                }
            }
        }
    }
    assert_eq!((pages, seen), (1, keys.len()));
    assert_eq!(points, (0..keys.len() as u64).sum::<u64>());
}

#[test]
fn an_ept_hierarchy_is_cut_into_pages() {
    // Every point a node of its own: more nodes than one page holds.
    let input = las_square(60);
    let files = to_ept(&input, 2, 1, EptEncoding::Binary);
    let pages = files.iter().filter(|f| f.0.starts_with("ept-hierarchy/")).count();
    let (_, stats) = open_ept(&files);
    assert!(stats.nodes > 512, "{}", stats.nodes);
    assert!(pages > 1);
    assert_eq!(stats.hierarchy_requests as usize, pages);
    assert_eq!(stats.total_points(), 3600);
    assert!(stats.warnings.is_empty());
}

struct PotreeFiles {
    octree: Vec<u8>,
    hierarchy: Vec<u8>,
    metadata: Json,
    warnings: Vec<Warning>,
}

fn to_potree(input: &[u8], span: u32, leaf: usize, encoding: PotreeEncoding) -> PotreeFiles {
    let built = build(&[input], span, leaf);
    assert!(supported(&built.options, encoding));
    let mut writer = PotreeWriter::create_with(built.options, encoding);
    let mut octree = Vec::new();
    for node in &built.nodes {
        octree.extend(writer.write_node(node.key, &node.records).expect("writes"));
    }
    let (hierarchy, metadata, warnings) = writer.finish("cloud");
    PotreeFiles { octree, hierarchy, metadata, warnings }
}

fn open_potree(files: &PotreeFiles) -> potree::PotreeCloud {
    let manifest = text(&files.metadata).into_bytes();
    potree::open_manifest(&manifest, "metadata.json", files.hierarchy.clone(), "a potree")
        .expect("opens")
}

#[test]
fn a_potree_cloud_reads_back_as_it_was_written() {
    let input = las_square(60);
    for encoding in [PotreeEncoding::Default, PotreeEncoding::Brotli] {
        let files = to_potree(&input, 8, 100, encoding);
        assert!(files.warnings.is_empty());
        let cloud = open_potree(&files);
        assert_eq!(cloud.info.point_count, 3600);
        assert_eq!(cloud.metadata.encoding, encoding.name());
        assert_eq!(number(cloud.info.scale[0]), 0.01);
        let stats = cloud.hierarchy().expect("walks");
        assert_eq!(stats.total_points(), 3600);
        assert!(stats.nodes > 1);
        assert!(stats.warnings.is_empty(), "{:?}", stats.warnings);
        assert_eq!(stats.data_bytes, files.octree.len() as u64);
        let names: Vec<&str> = cloud.info.attributes.iter().map(|a| a.name.as_str()).collect();
        assert_eq!(names[..3], ["position", "intensity", "return number"]);
        assert!(names.contains(&"rgb"));
    }
}

/// Rewrites a cloud, and gives back its files.
fn optimize(files: &PotreeFiles, encoding: Option<PotreeEncoding>, drop: &[&str]) -> (PotreeFiles, Vec<String>) {
    let cloud = open_potree(files);
    let mut options = OptimizeOptions::new("in".to_string(), "out".to_string());
    options.encoding = encoding;
    options.drop = drop.iter().map(|s| s.to_string()).collect();
    let attributes = &cloud.info.attributes;
    let source = cloud.metadata.encoding.as_str();
    let work = optimize_plan(attributes, source, &options);
    assert!(voxelkloud::optimize::supported(attributes, source, &work));
    let mut optimizer = Optimizer::new(attributes, source, &work, options.quality);
    let mut octree = Vec::new();
    for node in collect_nodes(&cloud).expect("walks") {
        let at = node.byte_offset as usize;
        let payload = if optimizer.wants(&node) {
            files.octree[at..at + node.byte_size as usize].to_vec()
        } else {
            Vec::new()
        };
        octree.extend(optimizer.absorb(node, &payload).expect("re-encodes"));
    }
    let (hierarchy, first) = optimizer.hierarchy();
    let report = optimizer.report(&work, attributes, source);
    assert_eq!(report.points, 3600);
    assert_eq!(report.bytes_before, files.octree.len() as u64);
    assert_eq!(report.bytes_after, octree.len() as u64);
    let names: Vec<String> = work.keep.iter().map(|i| attributes[*i].name.clone()).collect();
    let metadata = rewrite_metadata(&files.metadata, &report.encoding_after, first, &names)
        .expect("an object");
    let codes = report.warnings.iter().map(|w| w.code.to_string()).collect();
    (PotreeFiles { octree, hierarchy, metadata, warnings: report.warnings }, codes)
}

#[test]
fn a_dropped_extra_dimension_is_never_silent() {
    let (plain, more) = (las_square(4), las_square_with(4, 2));
    for inputs in [[&plain, &more], [&more, &plain]] {
        let found = scan(&[inputs[0], inputs[1]]);
        assert_eq!((found.extra, found.extra_vlr.len()), (0, 0));
        let codes: Vec<&str> = found.warnings.iter().map(|w| w.code).collect();
        assert_eq!(codes, ["extra-bytes-dropped"]);
    }
    let same = scan(&[&more, &more]);
    assert_eq!(same.extra, 2);
    assert!(same.warnings.is_empty());
    assert!(scan(&[&plain, &plain]).warnings.is_empty());
}

#[test]
fn a_small_colour_is_no_obstacle_to_plain_records() {
    let mut attributes = vec![
        Attribute::new("position".to_string(), AttributeType::Int32, 3),
        Attribute::new("rgba".to_string(), AttributeType::Uint8, 4),
        Attribute::new("intensity".to_string(), AttributeType::Uint16, 1),
    ];
    lay_out(&mut attributes);
    let mut options = OptimizeOptions::new("in".to_string(), "out".to_string());
    options.drop = vec!["intensity".to_string()];
    let work = optimize_plan(&attributes, "DEFAULT", &options);
    assert!(voxelkloud::optimize::supported(&attributes, "DEFAULT", &work));
    let mut optimizer = Optimizer::new(&attributes, "DEFAULT", &work, 9);
    let payload: Vec<u8> = (0..36).collect();
    let node = potree::PotreeNodeRef {
        key: OctreeKey::root(),
        point_count: 2,
        byte_offset: 0,
        byte_size: 36,
    };
    let out = optimizer.absorb(node, &payload).expect("re-encodes");
    let want: Vec<u8> = (0..16).chain(18..34).collect();
    assert_eq!(out, want);
    // Four bytes are no colour that the coding takes.
    options.encoding = Some(PotreeEncoding::Brotli);
    let work = optimize_plan(&attributes, "DEFAULT", &options);
    assert!(!voxelkloud::optimize::supported(&attributes, "DEFAULT", &work));
    options.drop = vec!["rgba".to_string()];
    let work = optimize_plan(&attributes, "DEFAULT", &options);
    assert!(voxelkloud::optimize::supported(&attributes, "DEFAULT", &work));
}

#[test]
fn a_hierarchy_is_whole_records_and_its_chunks_lie_inside() {
    let start = to_potree(&las_square(60), 2, 1, PotreeEncoding::Default);
    let bytes = &start.hierarchy;
    assert_eq!(bytes.len() % 22, 0);
    let number = |b: &[u8]| u64::from_le_bytes(b.try_into().unwrap()) as usize;
    let mut proxies = 0;
    for record in bytes.chunks_exact(22).filter(|r| r[0] == 2) {
        let (at, size) = (number(&record[6..14]), number(&record[14..22]));
        assert_eq!((at % 22, size % 22), (0, 0));
        assert!(size >= 22 && at + size <= bytes.len());
        assert!(bytes[at] != 2);
        proxies += 1;
    }
    assert!(proxies > 0);
}

#[test]
fn the_two_encodings_are_exact_inverses() {
    let start = to_potree(&las_square(60), 8, 100, PotreeEncoding::Default);
    let (brotli, _) = optimize(&start, Some(PotreeEncoding::Brotli), &[]);
    let (back, _) = optimize(&brotli, Some(PotreeEncoding::Default), &[]);
    assert_eq!(start.octree.len(), back.octree.len(), "the round trip changed the size");
    assert_eq!(start.octree, back.octree, "the round trip changed the bytes");
    assert!(
        brotli.octree.len() < start.octree.len(),
        "BROTLI came out at {} against {}",
        brotli.octree.len(),
        start.octree.len()
    );
    // The writer of one encoding and the re-encoder to it agree.
    let direct = to_potree(&las_square(60), 8, 100, PotreeEncoding::Brotli);
    assert_eq!(direct.octree, brotli.octree);
}

#[test]
fn the_tree_is_untouched() {
    let start = to_potree(&las_square(60), 8, 100, PotreeEncoding::Brotli);
    let (out, _) = optimize(&start, Some(PotreeEncoding::Default), &[]);
    let before = open_potree(&start).hierarchy().expect("walks");
    let after = open_potree(&out).hierarchy().expect("walks");
    assert_eq!(before.nodes, after.nodes);
    assert_eq!(before.depth, after.depth);
    assert_eq!(before.points_by_level, after.points_by_level);
    assert_eq!(after.total_points(), 3600, "the rewritten hierarchy lost points");
}

#[test]
fn dropping_an_attribute_removes_exactly_that_attribute() {
    let start = to_potree(&las_square(60), 8, 100, PotreeEncoding::Brotli);
    let before = open_potree(&start);
    let names: Vec<String> = before.info.attributes.iter().map(|a| a.name.clone()).collect();
    assert!(names.iter().any(|n| n == "gps-time"), "the cloud carries gps-time");
    let (out, _) = optimize(&start, None, &["gps-time"]);
    let after = open_potree(&out);
    let left: Vec<String> = after.info.attributes.iter().map(|a| a.name.clone()).collect();
    let want: Vec<String> = names.into_iter().filter(|n| n != "gps-time").collect();
    assert_eq!(left, want, "exactly one attribute left");
    assert_eq!(after.metadata.encoding, "BROTLI");
    let (a, b) = (before.hierarchy().expect("walks"), after.hierarchy().expect("walks"));
    assert_eq!(a.points_by_level, b.points_by_level, "dropping a field moved a node");
}

#[test]
fn position_survives_a_request_to_drop_it() {
    let start = to_potree(&las_square(60), 8, 100, PotreeEncoding::Default);
    let (out, codes) = optimize(&start, None, &["position"]);
    assert!(codes.iter().any(|c| c == "position-kept"), "{codes:?}");
    assert_eq!(open_potree(&out).info.attributes[0].name, "position");
    assert_eq!(out.octree, start.octree);
}

#[test]
fn proxy_records_carry_the_point_count_of_the_node_they_stand_for() {
    let start = to_potree(&las_square(60), 2, 1, PotreeEncoding::Default);
    let (out, _) = optimize(&start, None, &[]);
    let bytes = &out.hierarchy;
    let mut proxies = 0;
    for record in bytes.chunks_exact(22) {
        if record[0] != 2 {
            continue;
        }
        proxies += 1;
        let at = u64::from_le_bytes(record[6..14].try_into().unwrap()) as usize;
        assert!(at + 22 <= bytes.len(), "a proxy points past the file");
        assert_eq!(record[2..6], bytes[at + 2..at + 6], "the proxy and its chunk disagree");
        assert!(record[2..6] != [0; 4], "a proxy for an empty node is not written");
    }
    assert!(proxies > 0, "the tree is deep enough to have proxies");
    assert_eq!(open_potree(&out).hierarchy().expect("walks").total_points(), 3600);
}

/// What survives of a point, in an order of its own.
fn facts(bytes: &[u8]) -> Vec<(i64, i64, i64, u16, u8, [u16; 3])> {
    let layout = RecordLayout::new(7, 0, Vec::new(), Vec::new()).expect("format 7");
    let header = LasHeader::read(bytes).expect("reads");
    let grid = Grid { scale: numbers(header.scale), offset: numbers(header.offset) };
    let mut out: Vec<_> = records(bytes, &layout, &grid)
        .chunks_exact(layout.stride())
        .map(|record| {
            let p = grid.place(position(record)).map(|v| (v / 0.01).round() as i64);
            let rgb = [0, 2, 4].map(|i| u16_at(record, RGB + i));
            (p[0], p[1], p[2], u16_at(record, INTENSITY), record[CLASSIFICATION], rgb)
        })
        .collect();
    out.sort();
    out
}

#[test]
fn a_converted_cloud_holds_exactly_the_points_that_went_in() {
    let input = las_square(60);
    let output = to_copc_with(&[&input], 8, 100);
    let (before, after) = (facts(&input), facts(&output));
    assert_eq!(before.len(), after.len(), "the cloud changed size");
    for (i, (a, b)) in before.iter().zip(&after).enumerate() {
        assert_eq!((a.0, a.1, a.2), (b.0, b.1, b.2), "point {i}: {a:?} became {b:?}");
        assert_eq!(a.3, b.3, "point {i} intensity");
        assert_eq!(a.4, b.4, "point {i} classification");
        assert_eq!(a.5, b.5, "point {i} colour");
    }
}

#[test]
fn the_index_accounts_for_every_point_in_all_three_formats() {
    let input = las_square(60);
    let nodes = build(&[&input], 8, 100).nodes.len() as u64;
    let check = |name: &str, info: &CloudInfo, stats: &HierarchyStats| {
        assert_eq!(info.point_count, 3600, "{name}: manifest count");
        assert_eq!(stats.total_points(), 3600, "{name}: the hierarchy lost or duplicated points");
        assert_eq!(stats.nodes, nodes, "{name}: node count");
        assert!(stats.warnings.is_empty(), "{name}: {:?}", stats.warnings);
    };
    let output = to_copc_with(&[&input], 8, 100);
    check("copc", &open_copc(&output).info, &walk_copc(open_copc(&output), &output));
    for encoding in [PotreeEncoding::Default, PotreeEncoding::Brotli] {
        let cloud = open_potree(&to_potree(&input, 8, 100, encoding));
        check(encoding.name(), &cloud.info, &cloud.hierarchy().expect("the hierarchy walks"));
    }
    for encoding in [EptEncoding::Binary, EptEncoding::Laszip] {
        let (cloud, stats) = open_ept(&to_ept(&input, 8, 100, encoding));
        check(encoding.name(), &cloud.info, &stats);
    }
}

#[test]
fn several_inputs_become_one_cloud() {
    let (a, b) = (las_square(30), las_square(40));
    let output = to_copc(&[&a, &b]);
    let cloud = open_copc(&output);
    assert_eq!(cloud.info.point_count, 900 + 1600);
    assert_eq!(walk_copc(cloud, &output).total_points(), 2500);
    let mut both = facts(&a);
    both.extend(facts(&b));
    both.sort();
    assert_eq!(facts(&output), both);
}

#[test]
fn a_copc_can_be_written_into_memory() {
    let input = las_square(60);
    let out = to_copc(&[&input]);
    assert_eq!(&out[0..4], b"LASF");
    assert_eq!(open_copc(&out).header.point_count, 3600);
    assert!(out.len() > 1000, "a file with 3,600 points is not 1 KB");
}

/// A tileset, as its manifest and its contents.
fn to_tileset(input: &[u8], span: u32, leaf: usize) -> (Json, Vec<(String, Vec<u8>)>) {
    let built = build(&[input], span, leaf);
    let cube = built.options.cube;
    let (low, high) = (numbers(cube.min), numbers(cube.max));
    let centre_of = |key: OctreeKey| {
        let edge = (high[0] - low[0]) / f64::from(1u32 << key.level);
        let at = [key.x, key.y, key.z];
        [0, 1, 2].map(|i| low[i] + edge * (f64::from(at[i]) + 0.5))
    };
    let single = |v: f64| Single { bits: (v as f32).to_bits() };
    let mut writer = TilesetWriter::create(built.options);
    let stride = writer.options.layout.stride();
    let mut files = Vec::new();
    for node in &built.nodes {
        let count = node.point_count(stride);
        let centre = centre_of(node.key);
        let points = node
            .records
            .chunks_exact(stride)
            .map(|record| {
                let p = built.grid.place(position(record));
                (single(p[0] - centre[0]), single(p[1] - centre[1]), single(p[2] - centre[2]))
            })
            .collect();
        let parts = tile_parts(&points, &node.records, &writer.options.layout);
        let corner = |t: (Single, Single, Single)| {
            [t.0, t.1, t.2].map(|s| double(f64::from(f32::from_bits(s.bits))))
        };
        let (min, max) = (corner(parts.0.min), corner(parts.0.max));
        assert_eq!(parts.0.positions, arrange(&points).positions);
        assert_eq!(parts.1, Some(narrow_colors(&node.records, stride, count)));
        assert_eq!(parts.2, buffer(&parts.0.positions, parts.1.as_ref()));
        let document = tile_document(count as u64, &parts, min, max);
        let glb = frame_glb(text(&document).into_bytes(), &parts.2);
        writer.write_node(node.key, count as u32, glb.len() as u64);
        files.push((writer.path(node.key), glb));
    }
    let geometry = writer
        .tiles()
        .into_iter()
        .map(|key| Geometry {
            half: [double((high[0] - low[0]) / f64::from(2u32 << key.level)); 3],
            centre: reals(centre_of(key)),
            spacing: double(1.0),
        })
        .collect();
    assert_eq!(writer.points, 3600);
    (writer.finish(&geometry, double(2.0)), files)
}

/// Every position that the contents of a tile and of those below it hold.
fn tile_points(tile: &Json, files: &[(String, Vec<u8>)], out: &mut Vec<(i64, i64, i64)>) {
    let m = tile.array_at("transform").expect("a transform");
    let c = [12, 13, 14].map(|i: usize| number(m[i].as_real().expect("a number")));
    if let Some(uri) = tile.get("content").and_then(|c| c.text_at("uri")) {
        let bytes = &files.iter().find(|f| f.0 == *uri).expect("the content file exists").1;
        let word = |at: usize| {
            u32::from_le_bytes([bytes[at], bytes[at + 1], bytes[at + 2], bytes[at + 3]])
        };
        let json_len = word(12) as usize;
        let json = Json::read(&bytes[20..20 + json_len]).expect("the JSON chunk");
        let accessor = &json.array_at("accessors").expect("accessors")[0];
        let count = accessor.unsigned_at("count").expect("a count") as usize;
        let start = 20 + json_len + 8;
        for i in 0..count {
            let float = |k: usize| f64::from(f32::from_bits(word(start + i * 12 + k * 4)));
            // Y-up to Z-up: (x, y, z) of the content is (x, -z, y) of the tile.
            let p = [float(0) + c[0], -float(2) + c[1], float(1) + c[2]];
            let q = p.map(|v| (v / 0.01).round() as i64);
            out.push((q[0], q[1], q[2]));
        }
    }
    for child in tile.array_at("children").into_iter().flatten() {
        tile_points(child, files, out);
    }
}

#[test]
fn writes_3d_tiles_that_round_trip_to_the_source_points() {
    let input = las_square(60);
    let (manifest, files) = to_tileset(&input, 8, 100);
    assert!(files.len() > 1, "the cloud was actually subdivided");
    let mut written = Vec::new();
    let manifest = Json::read(text(&manifest).as_bytes()).expect("valid JSON");
    tile_points(manifest.get("root").expect("a root"), &files, &mut written);
    assert_eq!(written.len(), 3600, "every point was written once");
    written.sort();
    let source: Vec<_> = facts(&input).into_iter().map(|p| (p.0, p.1, p.2)).collect();
    assert_eq!(written, source, "no point moved");
}

#[test]
fn times_the_codec_cannot_take_are_told_before_they_are_written() {
    let times = [1e8f64.to_bits(), 1e8f64.to_bits() + 1, (-1.0f64).to_bits()];
    let told = |options: WriteOptions, mut records: Vec<u8>, encoding: Option<EptEncoding>| {
        let stride = options.layout.stride();
        for (record, bits) in records.chunks_exact_mut(stride).zip(times) {
            record[22..30].copy_from_slice(&bits.to_le_bytes());
        }
        match encoding {
            None => CopcWriter::new(options).expect("starts").0.can_code(&records),
            Some(encoding) => EptWriter::create(options, encoding).can_code(&records),
        }
    };
    let square = las_square(2);
    let with = |encoding: Option<EptEncoding>| {
        let mut built = build(&[&square], 8, 100);
        let records = built.nodes.remove(0).records;
        assert!(built.nodes.is_empty());
        told(built.options, records, encoding)
    };
    assert!(!with(None));
    assert!(!with(Some(EptEncoding::Laszip)));
    assert!(with(Some(EptEncoding::Binary)));
}

#[test]
fn a_laszip_record_says_how_the_points_are_packed() {
    let copc = to_copc(&[&las_square(4)]);
    let mut header = LasHeader::read(&copc).expect("a LAS file");
    let record = header.laszip_record().expect("a laszip record").clone();
    let words = |at: usize| u16::from_le_bytes([record[at], record[at + 1]]);
    assert_eq!(record.len(), 34 + 2 * 6);
    assert_eq!((words(0), words(2), record[4], record[5], words(6)), (3, 0, 2, 2, 0));
    assert_eq!(record[8..16], [0, 0, 0, 0, 0xff, 0xff, 0xff, 0xff]);
    assert_eq!(record[16..32], [0xff; 16]);
    assert_eq!(words(32), 2);
    assert_eq!([34, 36, 38].map(words), [10, 30, 3]);
    assert_eq!([40, 42, 44].map(words), [11, 6, 3]);
    assert!(laszip_vlr(&header, "a.laz").is_ok());

    let files = to_ept(&las_square(4), 8, 500, EptEncoding::Laszip);
    let node = LasHeader::read(&files[0].1).expect("a LAS file");
    let fixed = node.laszip_record().expect("a laszip record");
    assert_eq!(fixed[12..16], 50_000u32.to_le_bytes());
    assert_eq!(fixed[16..], record[16..]);

    let mut fault = |data: &[u8]| {
        for vlr in &mut header.vlrs {
            if vlr.record_id == 22204 {
                vlr.data = data.to_vec();
            }
        }
        laszip_vlr(&header, "a.laz").err().map(|e| e.to_text())
    };
    let told = |why: &str| Some(format!("decode failed: a.laz: unreadable laszip VLR: {why}"));
    let with = |at: usize, byte: u8| {
        let mut data = record.clone();
        data[at] = byte;
        data
    };
    assert_eq!(fault(&with(0, 9)), told("Compressor type 9 is not valid"));
    assert_eq!(fault(&with(40, 5)), told("Item with type code: 5 is unknown"));
    assert_eq!(fault(&record[..45]), told("IoError: failed to fill whole buffer"));
    assert_eq!(fault(&[]), told("IoError: failed to fill whole buffer"));
    assert_eq!(fault(&record), None);
    header.vlrs.clear();
    let fault = laszip_vlr(&header, "a.laz").err().map(|e| e.to_text());
    assert_eq!(
        fault.as_deref(),
        Some(
            "not a LAZ file: the file is flagged compressed and carries no laszip VLR (user id \
             'laszip encoded')"
        ),
    );
}

#[test]
fn a_copc_walk_asks_for_each_page_once_from_the_last_to_the_first() {
    // Two ways down to the fourth level, with two levels below each of them, and
    // then, below one of those, another way down and two levels more.
    let mut keys = vec![OctreeKey::root()];
    let mut from = vec![(OctreeKey::root(), 0), (OctreeKey::root(), 7)];
    while let Some((start, side)) = from.pop() {
        let mut key = start;
        for _ in 0..4 {
            key = key.child(side);
            keys.push(key);
        }
        for a in 0..8 {
            keys.push(key.child(a));
            for b in 0..8 {
                keys.push(key.child(a).child(b));
            }
        }
        if start == OctreeKey::root() && side == 7 {
            from.push((key.child(3).child(3), 1));
        }
    }
    let nodes: Vec<Written> = keys
        .iter()
        .enumerate()
        .map(|(i, k)| Written {
            key: *k,
            byte_offset: i as u64 * 10,
            byte_size: 10,
            points: i as u32,
        })
        .collect();
    let base = 1000;
    let (bytes, (offset, size)) = build_pages(&nodes, base);
    let mut cloud = open_copc(&to_copc(&[&las_square(4)]));
    cloud.copc.root_hierarchy_offset = offset;
    cloud.copc.root_hierarchy_size = size;
    let mut walk = match Cloud::Copc(cloud).hierarchy() {
        Ok(Walk::Copc(walk)) => walk,
        other => panic!("{other:?}"),
    };
    let mut asked: Vec<(u64, u64)> = Vec::new();
    while let Some((offset, size)) = walk.next() {
        asked.push((offset, size));
        let at = (offset - base) as usize;
        walk.absorb(&bytes[at..at + size as usize]).expect("a page");
    }
    assert!(asked.len() > 3, "{asked:?}");
    // Each page ends where the one that was asked for before it starts.
    assert_eq!(asked[0].0 + asked[0].1, base + bytes.len() as u64);
    for pair in asked.windows(2) {
        assert_eq!(pair[1].0 + pair[1].1, pair[0].0);
    }
    assert_eq!(asked[asked.len() - 1].0, base);
    let stats = walk.stats;
    assert_eq!(stats.hierarchy_requests as usize, asked.len());
    assert_eq!(stats.hierarchy_bytes, bytes.len() as u64);
    assert_eq!(stats.nodes as usize, keys.len());
    assert_eq!(stats.total_points(), (0..keys.len() as u64).sum::<u64>());
    assert_eq!(stats.data_bytes, 10 * keys.len() as u64);
    assert!(stats.warnings.is_empty());
}

/// Whether numbers are what others are read as: the text of a double is read as
/// that double, or as one beside it.
fn read_as(a: &[Real], b: &[Real]) -> bool {
    a.len() == b.len() && a.iter().zip(b).all(|(a, b)| a.bits.abs_diff(b.bits) <= 1)
}

#[test]
fn an_ept_walk_counts_the_nodes_that_were_written() {
    let files = to_ept(&las_square(60), 2, 1, EptEncoding::Binary);
    let nodes = files.iter().filter(|f| f.0.starts_with("ept-data/")).count();
    let stats = open_ept(&files).1;
    assert_eq!(stats.nodes as usize, nodes);
    assert_eq!(stats.total_points(), 3600);
}

#[test]
fn a_tileset_walk_counts_the_tiles_that_were_written() {
    let (manifest, files) = to_tileset(&las_square(60), 8, 100);
    let bytes = text(&manifest).into_bytes();
    let sketch = tileset::open_manifest(&bytes, "tileset.json").expect("a tileset");
    assert_eq!(sketch.version, "1.1");
    assert_eq!(sketch.content_kinds, ["gltf"]);
    assert!(sketch.implicit.is_none());
    assert_eq!(number(sketch.geometric_error), 1.0);
    let cube = build(&[&las_square(60)], 8, 100).options.cube;
    let (low, high) = (numbers(cube.min), numbers(cube.max));
    match sketch.volume {
        tileset::Volume::Oriented(b) => {
            let half = (high[0] - low[0]) / 2.0;
            let want =
                [0.0, 0.0, 0.0, half, 0.0, 0.0, 0.0, half, 0.0, 0.0, 0.0, half].map(double);
            assert!(read_as(&b, &want));
        }
        other => panic!("{other:?}"),
    }
    let edge = high[0] - low[0];
    let centre = reals(low.map(|v| v + edge * 0.5));
    assert!(read_as(&sketch.transform[12..15], &centre));
    assert_eq!(sketch.transform[..3], [double(1.0), double(0.0), double(0.0)]);
    let cloud = tileset::summarise(sketch, cube, false, "tileset.json", "a tileset");
    let mut walk = cloud.hierarchy();
    let mut steps = 0;
    loop {
        match walk.step() {
            Step::Done => break,
            Step::Again => {}
            Step::Read(path) => {
                assert_eq!(path, "tileset.json");
                walk.absorb(&bytes).expect("absorbs");
            }
        }
        steps += 1;
    }
    // One step for the document, and one for each tile; every tile is a node here.
    assert_eq!(walk.stats.nodes as usize, files.len());
    assert_eq!(steps, 1 + files.len());
    assert_eq!(walk.stats.hierarchy_requests, 1);
    assert!(walk.stats.warnings.is_empty());
}

#[test]
fn an_ept_manifest_is_read_as_its_writer_wrote_it() {
    for encoding in [EptEncoding::Binary, EptEncoding::Laszip] {
        let mut options = build(&[&las_square(60)], 8, 100).options;
        options.crs = Some(Crs::from_epsg(26912));
        let mut writer = EptWriter::create(options, encoding);
        writer.points = 41;
        let json = text(&writer.manifest());
        let cloud = ept::open_manifest(json.as_bytes(), "ept.json", "an ept").expect("opens");
        let (info, options) = (&cloud.info, &writer.options);
        assert_eq!(cloud.data_type, encoding.name());
        assert_eq!(cloud.span, options.span);
        assert_eq!(info.version.as_deref(), Some("1.0.0"));
        assert_eq!(info.point_count, 41);
        assert!(read_as(&info.bounds.min, &options.cube.min));
        assert!(read_as(&info.bounds.max, &options.cube.max));
        assert!(read_as(&info.tight_bounds.min, &options.extent.min));
        assert!(read_as(&info.tight_bounds.max, &options.extent.max));
        assert!(read_as(&info.scale, &options.scale));
        assert!(read_as(&info.offset, &options.offset));
        let crs = info.crs.as_ref().expect("a projection");
        assert_eq!((crs.epsg, crs.vertical_epsg, crs.raw.as_str()), (Some(26912), None, "EPSG:26912"));
        let names: Vec<&str> = info.attributes.iter().map(|a| a.name.as_str()).collect();
        assert_eq!(names.len(), writer.schema.len());
        assert_eq!(names[3..6], ["intensity", "return number", "number of returns"]);
        let sizes: usize = writer.schema.iter().map(|f| f.size).sum();
        assert_eq!(info.record_bytes, Some(sizes));
        assert!(info.warnings.is_empty());
    }
}

#[test]
fn a_potree_manifest_is_read_as_its_writer_wrote_it() {
    for encoding in [PotreeEncoding::Default, PotreeEncoding::Brotli] {
        let mut options = build(&[&las_square(60)], 8, 100).options;
        options.crs = Some(Crs::from_epsg(26912));
        let nodes = build(&[&las_square(60)], 8, 100).nodes;
        let mut writer = PotreeWriter::create_with(options, encoding);
        for node in &nodes {
            writer.write_node(node.key, &node.records).expect("writes");
        }
        let o = &writer.options;
        let (cube, extent, scale, offset) = (o.cube, o.extent, o.scale, o.offset);
        let (spacing, depth) = (o.spacing, writer.depth);
        let (hierarchy, metadata, _) = writer.finish("cloud");
        let first = metadata.get("hierarchy").and_then(|h| h.unsigned_at("firstChunkSize"));
        let bytes = text(&metadata).into_bytes();
        let cloud = potree::open_manifest(&bytes, "metadata.json", hierarchy, "p").expect("opens");
        let (info, meta) = (&cloud.info, &cloud.metadata);
        assert_eq!((meta.version.as_str(), meta.name.as_str()), ("2.0", "cloud"));
        assert_eq!((Some(meta.first_chunk_size), meta.step_size), (first, 5));
        assert_eq!((meta.depth, meta.encoding.as_str()), (depth, encoding.name()));
        assert_eq!(info.point_count, 3600);
        assert!(read_as(&info.bounds.min, &cube.min) && read_as(&info.bounds.max, &cube.max));
        assert!(read_as(&info.tight_bounds.min, &extent.min));
        assert!(read_as(&info.tight_bounds.max, &extent.max));
        assert!(read_as(&info.scale, &scale) && read_as(&info.offset, &offset));
        assert!(read_as(&[info.spacing.expect("a spacing")], &[spacing]));
        assert_eq!(info.levels, Some(depth));
        assert_eq!(info.crs.as_ref().and_then(|c| c.epsg), Some(26912));
        let position = &info.attributes[0];
        assert_eq!((position.name.as_str(), position.num_elements), ("position", 3));
        assert!(read_as(&position.min, &extent.min));
        let rgb = info.attributes.iter().find(|a| a.name == "rgb").expect("a colour");
        assert_eq!(rgb.max, [double(65535.0); 3]);
        assert!(info.warnings.is_empty());
    }
}
