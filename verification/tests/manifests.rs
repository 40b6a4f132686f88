use voxelkloud::cloud::FormatId;
use voxelkloud::crs::Crs;
use voxelkloud::error::Error;
use voxelkloud::format::ept::{ept_attribute_name, ept_type, parse_ept_key};
use voxelkloud::format::{
    ept, is_other_format, manifest_name, next_attempt, opening, potree, prefix_format, Opening,
};
use voxelkloud::json::Json;
use voxelkloud::las::copc::parse_page;
use voxelkloud::las::{LasError, LasHeader};
use voxelkloud::octree::OctreeKey;
use voxelkloud::write::hierarchy::{hierarchy_bytes, Written};

fn number(bits: u64) -> f64 {
    f64::from_bits(bits)
}

#[test]
fn documents_are_read_as_they_are_written() {
    let json = Json::read(br#"{"a":[1,-2,2.5],"b":"x","a":true,"c":null}"#).unwrap();
    // The last of two fields of one name is the one that counts.
    assert!(matches!(json.get("a"), Some(Json::Bool(true))));
    assert_eq!(json.text_at("b").map(String::as_str), Some("x"));
    assert!(matches!(json.get("c"), Some(Json::Null)));
    assert!(json.get("d").is_none());
    let list = Json::read(b"[1,-2,2.5,18446744073709551615]").unwrap();
    let items = list.as_array().unwrap();
    assert_eq!(items[0].as_unsigned(), Some(1));
    assert_eq!((items[1].as_unsigned(), items[1].as_signed()), (None, Some(-2)));
    assert_eq!(items[2].as_real().map(|r| number(r.bits)), Some(2.5));
    assert_eq!(items[0].as_real().map(|r| number(r.bits)), Some(1.0));
    assert_eq!(items[3].as_unsigned(), Some(u64::MAX));
    assert!(Json::read(b"{").is_err());
}

const POTREE: &str = r#"{
  "version": "2.0", "name": "n", "description": "", "points": 30, "projection": "EPSG:26912",
  "hierarchy": {"firstChunkSize": 66, "stepSize": 4, "depth": 1},
  "offset": [0,0,0], "scale": [0.01,0.01,0.01], "spacing": 1.5,
  "boundingBox": {"min": [0,0,0], "max": [8,8,8]},
  "encoding": "DEFAULT",
  "attributes": [
    {"name":"position","description":"","size":12,"numElements":3,"elementSize":4,"type":"int32","min":[0,0,0],"max":[4,4,4]},
    {"name":"rgb","description":"","size":6,"numElements":3,"elementSize":2,"type":"uint16","min":[0,0,0],"max":[9,9,9]}
  ]
}"#;

fn node(kind: u8, mask: u8, points: u32, offset: u64, size: u64) -> Vec<u8> {
    let mut out = vec![kind, mask];
    out.extend(points.to_le_bytes());
    out.extend(offset.to_le_bytes());
    out.extend(size.to_le_bytes());
    out
}

#[test]
fn a_potree_manifest_is_read_and_its_tree_walked() {
    let mut hierarchy = node(0, 0b1000_0001, 10, 0, 180);
    hierarchy.extend(node(1, 0, 15, 180, 270));
    hierarchy.extend(node(1, 0, 5, 450, 90));
    let cloud =
        potree::open_manifest(POTREE.as_bytes(), "metadata.json", hierarchy, "p").expect("opens");
    assert_eq!(cloud.info.format, FormatId::PotreeV2);
    assert_eq!(cloud.info.point_count, 30);
    assert_eq!(cloud.info.crs.as_ref().and_then(|c| c.epsg), Some(26912));
    assert_eq!(cloud.metadata.first_chunk_size, 66);
    assert_eq!(cloud.info.attributes[1].byte_offset, 12);
    assert_eq!(cloud.info.spacing.map(|r| number(r.bits)), Some(1.5));
    let stats = cloud.hierarchy().expect("walks");
    assert_eq!((stats.nodes, stats.depth, stats.total_points()), (3, 1, 30));
    let nodes = cloud.for_each_node().expect("walks");
    assert_eq!(nodes[1].key, OctreeKey::root().child(0));
    assert_eq!(nodes[2].key, OctreeKey::root().child(7));
    assert_eq!(nodes[2].byte_offset, 450);
}

#[test]
fn a_potree_manifest_that_is_not_one_is_refused() {
    let open = |text: &str| potree::open_manifest(text.as_bytes(), "m.json", Vec::new(), "p");
    assert!(open("{").is_err());
    assert!(open("[]").is_err());
    assert!(open(&POTREE.replace("\"attributes\"", "\"others\"")).is_err());
    assert!(open(&POTREE.replace("\"2.0\"", "\"1.8\"")).is_err());
}

#[test]
fn a_written_hierarchy_reads_back_node_for_node() {
    // Deep enough for chunks below the first.
    let mut written = Vec::new();
    let mut key = OctreeKey::root();
    for level in 0..9u32 {
        written.push(Written {
            key,
            byte_offset: u64::from(level) * 100,
            byte_size: 100,
            points: level + 1,
        });
        key = key.child((level % 8) as u8);
    }
    let (bytes, first) = hierarchy_bytes(&written);
    let text = POTREE
        .replace("\"firstChunkSize\": 66", &format!("\"firstChunkSize\": {first}"))
        .replace("\"points\": 30", "\"points\": 45");
    let cloud = potree::open_manifest(text.as_bytes(), "m.json", bytes, "p").expect("opens");
    let nodes = cloud.for_each_node().expect("walks");
    assert_eq!(nodes.len(), 9);
    for w in &written {
        let found = nodes.iter().find(|n| n.key == w.key).expect("a node");
        assert_eq!(
            (found.point_count, found.byte_offset, found.byte_size),
            (w.points, w.byte_offset, w.byte_size)
        );
    }
    let stats = cloud.hierarchy().expect("walks");
    assert_eq!((stats.nodes, stats.depth, stats.total_points()), (9, 8, 45));
}

const EPT: &str = r#"{
  "version":"1.0.0","dataType":"binary","hierarchyType":"json","points":30,"span":128,
  "bounds":[0,0,0,8,8,8],"boundsConforming":[1,1,1,7,7,7],
  "srs":{"authority":"EPSG","horizontal":"26912"},
  "schema":[
    {"name":"X","type":"signed","size":4,"scale":0.01,"offset":100},
    {"name":"Y","type":"signed","size":4,"scale":0.01,"offset":200},
    {"name":"Z","type":"signed","size":4,"scale":0.01,"offset":0},
    {"name":"Intensity","type":"unsigned","size":2}
  ]
}"#;

#[test]
fn an_ept_manifest_is_read_and_its_pages_walked() {
    let mut cloud = ept::open_manifest(EPT.as_bytes(), "ept.json", "e").expect("opens");
    assert!(cloud.info.spacing.is_none());
    cloud.set_spacing(cloud.info.offset[1]);
    assert_eq!(cloud.info.spacing.map(|r| number(r.bits)), Some(200.0));
    assert_eq!(cloud.info.format, FormatId::Ept);
    assert_eq!((cloud.info.point_count, cloud.span), (30, 128));
    assert_eq!(cloud.data_type, "binary");
    assert_eq!(number(cloud.info.offset[1].bits), 200.0);
    assert_eq!(cloud.info.crs.as_ref().and_then(|c| c.epsg), Some(26912));
    assert_eq!(cloud.node_path(OctreeKey::root()), "ept-data/0-0-0-0.bin");

    let mut walk = cloud.hierarchy();
    assert_eq!(walk.next().as_deref(), Some("ept-hierarchy/0-0-0-0.json"));
    walk.absorb(br#"{"0-0-0-0":10,"1-0-0-0":-1,"1-1-1-1":5}"#).expect("a page");
    assert_eq!(walk.next().as_deref(), Some("ept-hierarchy/1-0-0-0.json"));
    walk.absorb(br#"{"1-0-0-0":15}"#).expect("a page");
    assert!(walk.next().is_none());
    assert_eq!((walk.stats.nodes, walk.stats.total_points()), (3, 30));
    assert_eq!(walk.stats.hierarchy_requests, 2);
}

#[test]
fn ept_names_and_types() {
    assert_eq!(parse_ept_key("2-3-1-0"), Some(OctreeKey::new(2, 3, 1, 0)));
    assert_eq!(parse_ept_key("2-3-1"), None);
    assert_eq!(parse_ept_key("2-3-1-x"), None);
    assert!(ept_type("unsigned", 2).is_some() && ept_type("unsigned", 3).is_none());
    assert_eq!(ept_attribute_name("Intensity"), "intensity");
    let open = |text: &str| ept::open_manifest(text.as_bytes(), "ept.json", "e");
    assert!(open("{").is_err());
    assert!(open(&EPT.replace("\"schema\"", "\"other\"")).is_err());
}

#[test]
fn what_a_name_stands_for_is_decided_by_it() {
    assert!(matches!(opening("metadata.json"), Opening::Manifest(FormatId::PotreeV2)));
    assert!(matches!(opening("ept.json"), Opening::Manifest(FormatId::Ept)));
    assert!(matches!(opening("tileset.json"), Opening::Manifest(FormatId::Tiles3D)));
    assert!(matches!(opening("a.COPC.laz"), Opening::LasLike));
    assert!(matches!(opening("a.e57"), Opening::E57));
    assert!(matches!(opening("other.json"), Opening::AnyManifest));
    assert!(matches!(opening(""), Opening::Prefix));
    assert!(matches!(prefix_format(false, true, true, "d"), Ok(FormatId::Ept)));
    assert!(prefix_format(false, false, false, "d").is_err());
    assert!(is_other_format(&Error::not_format("COPC", String::new())));
    assert!(!is_other_format(&Error::Source(String::new())));
}

#[test]
fn a_header_that_is_not_one_is_refused() {
    assert!(matches!(LasHeader::read(b"LASF"), Err(LasError::Truncated { .. })));
    let bad = vec![0u8; 400];
    assert!(LasHeader::read(&bad).is_err());
}

#[test]
fn a_hierarchy_page_is_whole_entries() {
    let mut page = Vec::new();
    for value in [0i32, 0, 0, 0] {
        page.extend(value.to_le_bytes());
    }
    page.extend(500u64.to_le_bytes());
    page.extend(40i32.to_le_bytes());
    page.extend(7i32.to_le_bytes());
    assert_eq!(parse_page(&page, "root").expect("a page").len(), 1);
    assert!(parse_page(&page[..31], "root").is_err());
}

#[test]
fn projections_are_found_in_their_text() {
    let wkt = r#"COMPD_CS["a",PROJCS["b",GEOGCS["c",AUTHORITY["EPSG","4269"]],AUTHORITY["EPSG","26912"]],VERT_CS["d",AUTHORITY["EPSG","5703"]]]"#;
    let crs = Crs::from_wkt(wkt);
    assert_eq!((crs.epsg, crs.vertical_epsg), (Some(26912), Some(5703)));
    assert_eq!(crs.name.as_deref(), Some("a"));
    assert_eq!(Crs::from_string("EPSG:4978").and_then(|c| c.epsg), Some(4978));
    assert!(Crs::from_string("").is_none());
    assert_eq!(Crs::from_epsg(4978).epsg, Some(4978));
}

#[test]
fn another_json_document_is_tried_as_each_format_in_turn() {
    assert_eq!(next_attempt(0), Some(FormatId::PotreeV2));
    assert_eq!(next_attempt(1), Some(FormatId::Tiles3D));
    assert_eq!(next_attempt(2), Some(FormatId::Ept));
    assert_eq!(next_attempt(3), None);
    assert_eq!(manifest_name(FormatId::PotreeV2), Some("metadata.json"));
    assert_eq!(manifest_name(FormatId::Ept), Some("ept.json"));
    assert_eq!(manifest_name(FormatId::Tiles3D), Some("tileset.json"));
    assert_eq!(manifest_name(FormatId::E57), None);
}
