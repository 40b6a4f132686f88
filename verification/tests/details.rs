use voxelkloud::attribute::{lay_out, Attribute, AttributeRole, AttributeType};
use voxelkloud::bounds::Bounds;
use voxelkloud::cli::optimize::wanted_encoding;
use voxelkloud::cloud::{HierarchyStats, NodeInfo};
use voxelkloud::crs::Crs;
use voxelkloud::double::Real;
use voxelkloud::error::Error;
use voxelkloud::format::potree;
use voxelkloud::las::extra_bytes::parse_extra_bytes;
use voxelkloud::las::{fixed_str, read_evlrs};
use voxelkloud::octree::OctreeKey;
use voxelkloud::optimize::{collect_nodes, decode_node, encode_brotli, plan, OptimizeOptions};
use voxelkloud::record::{layout_attributes, type_size, RecordConverter, RecordLayout};
use voxelkloud::write::blocks::{Cell, Coding, Part};
use voxelkloud::write::las_write::{
    creation_from_unix_seconds, projection_vlrs, write_evlr, OutVlr,
};
use voxelkloud::write::potree::PotreeEncoding;

#[test]
fn text_that_is_not_utf8_is_read_with_stand_ins() {
    assert_eq!(fixed_str(b"ab\xffcd", 0, 5), "ab\u{fffd}cd");
    assert_eq!(fixed_str(b"LASF_Spec\0\0\0x", 0, 13), "LASF_Spec");
}

#[test]
fn what_was_asked_for_is_quoted_in_the_complaint() {
    match wanted_encoding(Some("gz\"ip")) {
        Err(Error::Unsupported(text)) => assert_eq!(
            text,
            "\"gz\\\"ip\" is not an encoding. Potree v2 has two: default and brotli."
        ),
        other => panic!("{other:?}"),
    }
}

#[test]
fn nodes_are_read_in_the_order_their_payloads_stand() {
    let text = r#"{"version":"2.0","name":"","points":3,
      "hierarchy":{"firstChunkSize":66,"stepSize":4,"depth":1},
      "offset":[0,0,0],"scale":[1,1,1],"spacing":1,"encoding":"DEFAULT",
      "boundingBox":{"min":[0,0,0],"max":[1,1,1]},
      "attributes":[{"name":"position","size":12,"numElements":3,"elementSize":4,"type":"int32","min":[0,0,0],"max":[1,1,1]}]}"#;
    let mut hierarchy = Vec::new();
    for (kind, mask, offset) in [(0u8, 3u8, 50u64), (1, 0, 90), (1, 0, 10)] {
        hierarchy.extend([kind, mask]);
        hierarchy.extend(1u32.to_le_bytes());
        hierarchy.extend(offset.to_le_bytes());
        hierarchy.extend(12u64.to_le_bytes());
    }
    let cloud = potree::open_manifest(text.as_bytes(), "m", hierarchy, "c").expect("opens");
    let offsets: Vec<u64> =
        collect_nodes(&cloud).expect("walks").iter().map(|n| n.byte_offset).collect();
    assert_eq!(offsets, vec![10, 50, 90]);
}

#[test]
fn dates_are_days_of_years() {
    assert_eq!(creation_from_unix_seconds(0), (1, 1970));
    assert_eq!(creation_from_unix_seconds(1_735_646_400), (366, 2024));
    assert_eq!(creation_from_unix_seconds(1_794_700_800), (319, 2026));
    assert_eq!(creation_from_unix_seconds(1_794_700_799), (318, 2026));
}

#[test]
fn an_extended_record_reads_back() {
    let mut bytes = Vec::new();
    let record = OutVlr::new("copc", 1000, "COPC hierarchy", vec![1, 2, 3]);
    write_evlr(&mut bytes, &record);
    assert_eq!(bytes.len() as u64, record.extended_size());
    let (list, whole) = read_evlrs(&bytes, 1);
    assert!(whole);
    assert_eq!((list[0].user_id.as_str(), list[0].record_id), ("copc", 1000));
    assert_eq!(list[0].data, vec![1, 2, 3]);
    assert!(list[0].extended && list[0].is("copc", 1000));
    assert!(!read_evlrs(&bytes, 2).1);
    // A list cut short gives the records before the cut.
    let first = bytes.len();
    write_evlr(&mut bytes, &OutVlr::new("other", 9, "more", vec![1, 2, 3]));
    assert_eq!(read_evlrs(&bytes, 2).0[1].data, [1, 2, 3]);
    assert!(read_evlrs(&bytes, 2).1);
    for len in first..bytes.len() {
        let (list, whole) = read_evlrs(&bytes[..len], 2);
        assert_eq!((list.len(), whole), (1, false));
        assert_eq!(list[0].data, record.data);
    }
}

#[test]
fn projections_go_out_as_they_came_in() {
    let (list, wkt) = projection_vlrs(&vec![(2112, b"WKT".to_vec()), (34735, vec![1])]);
    assert!(wkt);
    assert_eq!(list[0].data, b"WKT".to_vec());
    assert!(list.iter().all(|v| v.user_id == "LASF_Projection"));
}

#[test]
fn types_go_by_their_names() {
    let all = [
        AttributeType::Int8,
        AttributeType::Uint8,
        AttributeType::Int16,
        AttributeType::Uint16,
        AttributeType::Int32,
        AttributeType::Uint32,
        AttributeType::Int64,
        AttributeType::Uint64,
        AttributeType::Float,
        AttributeType::Double,
    ];
    for kind in all {
        assert_eq!(AttributeType::parse(kind.name()), Some(kind));
        assert_eq!(kind.size(), type_size(kind));
    }
    assert_eq!(AttributeType::parse("int128"), None);
    assert_eq!(AttributeRole::of("rgb"), Some(AttributeRole::Color));
    assert_eq!(AttributeRole::of("POSITION_CARTESIAN"), Some(AttributeRole::Position));
}

#[test]
fn attributes_follow_each_other_in_the_record() {
    let mut list = vec![
        Attribute::new("position".to_string(), AttributeType::Int32, 3),
        Attribute::new("intensity".to_string(), AttributeType::Uint16, 1),
        Attribute::new("rgb".to_string(), AttributeType::Uint16, 3),
    ];
    assert_eq!(lay_out(&mut list), 20);
    let places: Vec<usize> = list.iter().map(|a| a.byte_offset).collect();
    assert_eq!(places, vec![0, 12, 14]);
}

#[test]
fn position_is_the_one_attribute_that_is_never_dropped() {
    let mut list = vec![
        Attribute::new("position".to_string(), AttributeType::Int32, 3),
        Attribute::new("rgb".to_string(), AttributeType::Uint16, 3),
    ];
    lay_out(&mut list);
    let mut options = OptimizeOptions::new("a".to_string(), "b".to_string());
    options.drop = vec!["position".to_string(), "rgb".to_string(), "none".to_string()];
    let work = plan(&list, "BROTLI", &options);
    assert_eq!(work.keep, vec![0]);
    assert_eq!(work.dropped, vec!["rgb".to_string()]);
    assert!(matches!(work.target, PotreeEncoding::Brotli));
    assert!(work.warnings.iter().any(|w| w.code == "position-kept"));
}

#[test]
fn extra_dimensions_are_described_in_their_record() {
    let mut record = vec![0u8; 384];
    record[2] = 3;
    record[4..9].copy_from_slice(b"width");
    record[192 + 2] = 29;
    record[192 + 3] = 0;
    let fields = parse_extra_bytes(&record, 36);
    assert_eq!(fields.len(), 2);
    assert_eq!((fields[0].name.as_str(), fields[0].byte_offset), ("width", 36));
    assert_eq!(fields[0].kind, Some(AttributeType::Uint16));
    assert_eq!((fields[1].name.as_str(), fields[1].byte_offset), ("extra 1", 38));
    assert_eq!((fields[1].num_elements, fields[1].kind), (3, Some(AttributeType::Float)));
    assert_eq!(parse_extra_bytes(&record[..191], 36).len(), 0);
}

#[test]
fn a_modern_record_keeps_its_bytes() {
    let layout = RecordLayout::new(7, 0, Vec::new(), Vec::new()).expect("format 7");
    let converter = RecordConverter::from_parts(7, 36, layout).expect("converts");
    let source: Vec<u8> = (0..72).collect();
    let places = vec![[1, 2, 3], [-1, -2, -3]];
    let mut out = Vec::new();
    converter.convert_many(&source, &places, &mut out);
    assert_eq!(out.len(), 72);
    assert_eq!(out[12..36], source[12..36]);
    assert_eq!(out[48..72], source[48..72]);
    assert_eq!(out[36..40], (-1i32).to_le_bytes());
}

#[test]
fn a_legacy_record_is_widened() {
    let layout = RecordLayout::new(7, 0, Vec::new(), Vec::new()).expect("format 7");
    let converter = RecordConverter::from_parts(2, 26, layout).expect("converts");
    let mut source = vec![0u8; 26];
    // Return 3 of 3, a scan direction, an edge; class 2, synthetic; 10 degrees.
    source[14] = 0b1101_1011;
    source[15] = 0b0010_0010;
    source[16] = 10;
    source[20..26].copy_from_slice(&[1, 0, 2, 0, 3, 0]);
    let mut out = Vec::new();
    converter.convert_many(&source, &vec![[0, 0, 0]], &mut out);
    assert_eq!(out[14], 0x33);
    assert_eq!(out[16], 2);
    assert_eq!(out[15] & 0xc1, 0xc1);
    assert_eq!(out[18..20], 1667i16.to_le_bytes());
    assert_eq!(out[30..36], [1, 0, 2, 0, 3, 0]);
}

#[test]
fn the_canonical_record_lists_its_attributes() {
    let layout = RecordLayout::new(7, 0, Vec::new(), Vec::new()).expect("format 7");
    let zero = Real { bits: 0 };
    let list = layout_attributes(&layout, Bounds::new([zero; 3], [zero; 3]));
    assert!(list.iter().any(|a| a.name == "rgb"));
    assert_eq!(list[0].num_elements, 3);
}

#[test]
fn codes_of_reference_systems_are_positive() {
    let wkt = r#"PROJCS["none",AUTHORITY["EPSG","0"]]"#;
    assert_eq!(Crs::from_wkt(wkt).epsg, None);
    assert_eq!(Crs::from_wkt(&wkt.replace("\"0\"", "\"26912\"")).epsg, Some(26912));
    assert_eq!(Crs::from_string("epsg:4326").and_then(|c| c.epsg), Some(4326));
}

#[test]
fn a_tally_adds_up_level_by_level() {
    let mut stats = HierarchyStats::new();
    for (level, points) in [(0u32, 5u64), (2, 7), (2, 1)] {
        let key = OctreeKey::new(level, 0, 0, 0);
        stats.add(NodeInfo { key, point_count: points, byte_size: 3 });
    }
    assert_eq!(stats.points_by_level, vec![5, 0, 8]);
    assert_eq!(stats.nodes_by_level, vec![1, 0, 2]);
    assert_eq!((stats.nodes, stats.depth, stats.data_bytes), (3, 2, 9));
    assert_eq!(stats.total_points(), 13);
}

#[test]
fn the_quality_decides_the_stream_and_not_what_it_holds() {
    let count = 4000;
    let blocks: Vec<u8> = (0..count * 2).map(|i| (i * i / 7 % 61) as u8).collect();
    let cells = vec![Cell { coding: Coding::Plain, size: 2 }];
    let parts = vec![Part { cell: cells[0], start: 0 }];
    let mut streams = Vec::new();
    for quality in [0, 6, 11, 99] {
        let (stream, negative) = encode_brotli(&blocks, count, &parts, 2, quality).expect("packs");
        assert!(!negative && stream.len() < blocks.len());
        assert_eq!(decode_node(&stream, count, &cells, true).expect("unpacks"), blocks);
        streams.push(stream);
    }
    assert_ne!(streams[0], streams[1]);
    assert_ne!(streams[1], streams[2]);
    // The best there is stands for anything above it.
    assert_eq!(streams[2], streams[3]);
}
