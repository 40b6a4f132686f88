use voxelkloud::bounds::Bounds;
use voxelkloud::cloud::{FormatId, HierarchyStats};
use voxelkloud::double::Real;
use voxelkloud::error::Error;
use voxelkloud::format::subtree::{morton_decode, Subtree};
use voxelkloud::format::tileset::{
    content_kind, fill_template, join, open_manifest, probe_path, summarise, TilesetCloud, Volume,
};
use voxelkloud::format::tileset_walk::Step;
use voxelkloud::json::Json;
use voxelkloud::octree::OctreeKey;
use voxelkloud::record::RecordLayout;
use voxelkloud::write::tileset::{
    arrange, buffer, frame_glb, gltf_document, narrow_colors, Content, Geometry, Single,
    TilesetWriter,
};
use voxelkloud::write::WriteOptions;

fn double(value: f64) -> Real {
    Real { bits: value.to_bits() }
}

fn number(value: Real) -> f64 {
    f64::from_bits(value.bits)
}

const SPHERE: &str = r#""boundingVolume":{"sphere":[0,0,0,10]},"geometricError":5"#;

fn document(root: &str) -> String {
    format!(r#"{{"asset":{{"version":"1.1"}},"geometricError":10,"root":{{{SPHERE}{root}}}}}"#)
}

fn open(text: &str, georeferenced: bool) -> TilesetCloud {
    let sketch = open_manifest(text.as_bytes(), "tileset.json").expect("a tileset");
    let bounds = Bounds::new([double(-10.0); 3], [double(10.0); 3]);
    summarise(sketch, bounds, georeferenced, "tileset.json", "a tileset")
}

type Files<'a> = &'a dyn Fn(&str) -> Option<Vec<u8>>;

fn walk(cloud: &TilesetCloud, files: Files) -> HierarchyStats {
    let mut walk = cloud.hierarchy();
    loop {
        match walk.step() {
            Step::Done => return walk.stats,
            Step::Again => {}
            Step::Read(path) => match files(&path) {
                Some(bytes) => {
                    assert!(walk.addressable());
                    walk.absorb(&bytes).expect("absorbs");
                }
                None => walk.missing(),
            },
        }
    }
}

fn tile(children: &[String]) -> String {
    if children.is_empty() {
        return format!(r#"{{{SPHERE},"content":{{"uri":"a.pnts"}}}}"#);
    }
    format!(r#"{{{SPHERE},"content":{{"uri":"a.pnts"}},"children":[{}]}}"#, children.join(","))
}

#[test]
fn walks_an_explicit_tree_to_the_same_shape_the_driver_sees() {
    // One tile, two below it, four below those, twelve, forty-eight.
    let leaves: Vec<String> = (0..4).map(|_| tile(&[])).collect();
    let third = tile(&leaves);
    let second = tile(&[third.clone(), third.clone(), third]);
    let first = tile(&[second.clone(), second]);
    let text = document(&format!(r#","children":[{first},{first}]"#));
    let stats = walk(&open(&text, false), &|path| {
        assert_eq!(path, "tileset.json");
        Some(text.clone().into_bytes())
    });
    assert_eq!(stats.nodes, 67);
    assert_eq!(stats.depth, 4);
    assert_eq!(stats.hierarchy_requests, 1, "one document, one read");
    assert_eq!(stats.nodes_by_level, vec![1, 2, 4, 12, 48]);
    assert_eq!(stats.hierarchy_bytes, text.len() as u64);
}

/// A subtree whose availability is given bit by bit.
fn subtree(tiles: &[usize], children: Option<&[usize]>) -> Vec<u8> {
    let mut binary = vec![0u8; 256];
    for bit in tiles {
        binary[bit / 8] |= 1 << (bit % 8);
    }
    for bit in children.unwrap_or(&[]) {
        binary[128 + bit / 8] |= 1 << (bit % 8);
    }
    let child = if children.is_some() { r#"{"bitstream":1}"# } else { r#"{"constant":0}"# };
    let json = format!(
        r#"{{"buffers":[{{"byteLength":256}}],"bufferViews":[{{"buffer":0,"byteOffset":0,"byteLength":128}},{{"buffer":0,"byteOffset":128,"byteLength":128}}],"tileAvailability":{{"bitstream":0}},"childSubtreeAvailability":{child}}}"#
    );
    framed(&json, &binary)
}

fn framed(json: &str, binary: &[u8]) -> Vec<u8> {
    let mut out = b"subt".to_vec();
    out.extend(1u32.to_le_bytes());
    out.extend((json.len() as u64).to_le_bytes());
    out.extend((binary.len() as u64).to_le_bytes());
    out.extend(json.as_bytes());
    out.extend(binary);
    out
}

fn implicit(scheme: &str, subtree_levels: u32, available: u32, template: &str) -> String {
    document(&format!(
        r#","implicitTiling":{{"subdivisionScheme":"{scheme}","subtreeLevels":{subtree_levels},"availableLevels":{available},"subtrees":{{"uri":"{template}"}}}}"#
    ))
}

#[test]
fn a_subtree_with_too_many_tiles_is_refused_only_where_it_can_be_read() {
    let text = implicit("OCTREE", 40, 41, "{level}.{x}.{y}.{z}.subtree");
    let cloud = open(&text, false);
    let mut walk = cloud.hierarchy();
    loop {
        match walk.step() {
            Step::Done => break,
            Step::Again => {}
            Step::Read(path) if path == "tileset.json" => {
                assert!(matches!(walk.absorb_addressable(text.as_bytes()), Some(Ok(()))));
            }
            Step::Read(_) => {
                assert!(!walk.addressable());
                assert!(walk.absorb_addressable(&subtree(&[0], None)).is_none());
                assert_eq!(walk.stats.hierarchy_requests, 1, "nothing was taken in");
                assert!(matches!(walk.absorb_addressable(b"no subtree"), Some(Ok(()))));
            }
        }
    }
    let codes: Vec<&str> = walk.stats.warnings.iter().map(|w| w.code).collect();
    assert_eq!(codes, ["subtree-unreadable"]);
    assert_eq!(walk.stats.hierarchy_requests, 2);
}

#[test]
fn walks_an_implicit_quadtree() {
    let text = implicit("QUADTREE", 3, 6, "subtrees/{level}.{x}.{y}.subtree");
    let cloud = open(&text, false);
    let rule = cloud.implicit.as_ref().expect("an implicit rule");
    assert_eq!(rule.scheme, "QUADTREE");
    assert_eq!(rule.subtree_levels, 3);
    assert_eq!(rule.available_levels, 6);
    assert_eq!(cloud.info.levels, Some(5));

    // Two of the four children everywhere: the first and the last.
    let tiles = [0, 1, 1 + 3, 5, 5 + 3, 5 + 12, 5 + 15];
    let below = [0, 3, 12, 15, 48, 51, 60, 63];
    let stats = walk(&cloud, &|path| match path {
        "tileset.json" => Some(text.clone().into_bytes()),
        "subtrees/0.0.0.subtree" => Some(subtree(&tiles, Some(&below))),
        _ => {
            // The first and the last child of all: x and y are the same.
            let parts: Vec<&str> = path.split('.').collect();
            assert_eq!((parts[0], parts[1]), ("subtrees/3", parts[2]), "{path}");
            Some(subtree(&tiles, None))
        }
    });
    assert_eq!(stats.nodes, 63);
    assert_eq!(stats.depth, 5);
    assert_eq!(stats.nodes_by_level, vec![1, 2, 4, 8, 16, 32]);
    assert_eq!(stats.hierarchy_requests, 10);
    assert!(stats.warnings.is_empty());
}

#[test]
fn walks_an_implicit_octree() {
    let text = implicit("OCTREE", 3, 6, "subtrees/{level}/{x}/{y}/{z}.subtree");
    let cloud = open(&text, false);
    assert_eq!(cloud.implicit.as_ref().unwrap().scheme, "OCTREE");
    let tiles = [0, 1, 9];
    let stats = walk(&cloud, &|path| match path {
        "tileset.json" => Some(text.clone().into_bytes()),
        "subtrees/0/0/0/0.subtree" => Some(subtree(&tiles, Some(&[0, 5]))),
        "subtrees/3/0/0/0.subtree" => Some(subtree(&tiles, None)),
        "subtrees/3/1/0/1.subtree" => Some(subtree(&tiles, None)),
        other => panic!("{other} is not in the tree"),
    });
    assert!(stats.nodes > 1, "the subtrees turned some tiles on");
    assert!(stats.depth >= 4);
    for (level, count) in stats.nodes_by_level.iter().enumerate() {
        assert!(*count > 0, "level {level} is empty");
    }
    assert_eq!(stats.nodes_by_level, vec![1, 1, 1, 2, 2, 2]);
}

#[test]
fn follows_an_external_tileset_and_resolves_against_the_right_document() {
    let top = document(
        r#","children":[{"content":{"uri":"a/one.json"}},{"content":{"uri":"tileset.json"}}]"#,
    );
    let one = document(r#","content":{"uri":"deep/two.json"}"#);
    let two = document(r#","children":[{"content":{"url":"b.pnts"}}]"#);
    let cloud = open(&top, false);
    let stats = walk(&cloud, &|path| match path {
        "tileset.json" => Some(top.clone().into_bytes()),
        "a/one.json" => Some(one.clone().into_bytes()),
        "a/deep/two.json" => Some(two.clone().into_bytes()),
        _ => None,
    });
    assert!(stats.hierarchy_requests >= 2, "the external one was read too");
    // The document that names itself is read once.
    assert_eq!(stats.hierarchy_requests, 3);
    assert!(stats.nodes >= 6);
    assert!(
        !stats.warnings.iter().any(|w| w.code == "external-tileset-missing"),
        "every named document was found: {:?}",
        stats.warnings
    );
}

fn only(path: &str, manifest: &str) -> Option<Vec<u8>> {
    if path == "tileset.json" {
        Some(manifest.as_bytes().to_vec())
    } else {
        None
    }
}

#[test]
fn what_is_named_and_not_there_is_said() {
    let top = document(r#","content":{"uri":"gone.json"}"#);
    let stats = walk(&open(&top, false), &|path| only(path, &top));
    assert_eq!(stats.nodes, 1);
    assert_eq!(stats.warnings[0].code, "external-tileset-missing");
    assert_eq!(stats.warnings[0].path, "gone.json");

    let rule = implicit("QUADTREE", 2, 2, "s/{level}.subtree");
    let missing = walk(&open(&rule, false), &|path| only(path, &rule));
    assert_eq!(missing.warnings[0].code, "subtree-missing");
    let broken = walk(&open(&rule, false), &|path| {
        Some(if path == "tileset.json" { rule.clone().into_bytes() } else { vec![0; 30] })
    });
    assert_eq!(broken.warnings[0].code, "subtree-unreadable");
}

#[test]
fn refuses_a_document_that_is_not_a_tileset() {
    let gltf = r#"{"asset":{"version":"2.0"},"scene":0,"nodes":[]}"#;
    let refused = |text: &str| match open_manifest(text.as_bytes(), "x.json") {
        Err(Error::NotFormat { format, detail }) => {
            assert_eq!(format, "3D Tiles");
            detail
        }
        other => panic!("{:?}", other.map(|s| s.version)),
    };
    assert_eq!(refused(gltf), "x.json has no root tile");
    assert_eq!(refused("[]"), "x.json is not a JSON object");
    assert_eq!(refused(r#"{"root":{}}"#), "x.json has no asset object");
    assert_eq!(
        refused(r#"{"asset":{},"root":{}}"#),
        "x.json's root tile declares no geometricError"
    );
    assert!(refused("{").starts_with("x.json is not JSON: "));
    let no_volume = r#"{"asset":{},"root":{"geometricError":1}}"#;
    assert!(matches!(
        open_manifest(no_volume.as_bytes(), "x.json"),
        Err(Error::Manifest { .. })
    ));
}

#[test]
fn a_tileset_says_what_it_holds() {
    let text = document(
        r#","content":{"uri":"a.pnts"},"children":[{"contents":[{"uri":"b.glb?v=1"},{"uri":"c.b3dm"}]},{"content":{"uri":"d.pnts"}}]"#,
    );
    let cloud = open(&text, true);
    assert_eq!(cloud.info.format, FormatId::Tiles3D);
    assert_eq!(cloud.info.version.as_deref(), Some("1.1"));
    assert_eq!(cloud.content_kinds[0], "pnts");
    assert_eq!(cloud.info.point_count, 0);
    assert!(cloud.info.warnings.iter().any(|w| w.code == "point-count-unknown"));
    assert!(cloud.georeferenced);
    assert_eq!(cloud.info.crs.as_ref().and_then(|c| c.epsg), Some(4978));
    assert!(open(&text, false).info.crs.is_none());
    assert_eq!(number(cloud.info.spacing.unwrap()), 5.0);
    assert_eq!(probe_path(Some(text.as_bytes()), "dir/tileset.json"), "dir/a.pnts");

    let old = text.replace("\"1.1\"", "\"9\"");
    let codes: Vec<&str> = open(&old, false).info.warnings.iter().map(|w| w.code).collect();
    assert_eq!(codes[0], "tileset-version-unknown");
}

#[test]
fn root_volumes_are_read_as_they_are_written() {
    let volume = |v: &str| {
        let text = format!(r#"{{"asset":{{}},"root":{{"geometricError":1,"boundingVolume":{v}}}}}"#);
        open_manifest(text.as_bytes(), "t.json").map(|s| s.volume)
    };
    match volume(r#"{"box":[1,2,3,4,0,0,0,5,0,0,0,6]}"#) {
        Ok(Volume::Oriented(v)) => assert_eq!(number(v[11]), 6.0),
        other => panic!("{other:?}"),
    }
    match volume(r#"{"region":[0.1,0.2,0.3,0.4,5,6]}"#) {
        Ok(Volume::Region(v)) => assert_eq!(number(v[5]), 6.0),
        other => panic!("{other:?}"),
    }
    assert!(volume(r#"{"sphere":[1,2,3]}"#).is_err());
}

#[test]
fn uris_resolve_against_the_document_that_names_them() {
    assert_eq!(join("tileset.json", "a/b.glb"), "a/b.glb");
    assert_eq!(join("a/b/c.json", "d.json"), "a/b/d.json");
    assert_eq!(
        fill_template("{level}/{x}/{y}/{z}.subtree", 3, 4, 5, 6, true),
        "3/4/5/6.subtree"
    );
    assert_eq!(content_kind("a.PNTS"), content_kind("a.pnts"));
    assert_eq!(content_kind("a.glb"), "gltf");
}

#[test]
fn codes_come_apart_into_coordinates() {
    assert_eq!(morton_decode(0b111_001, true, 2), (3, 2, 2));
    assert_eq!(morton_decode(0b11_01, false, 2), (3, 2, 0));
    assert_eq!(morton_decode(63, false, 3), (7, 7, 0));
}

#[test]
fn a_subtree_answers_for_its_tiles() {
    let s = Subtree::parse(&subtree(&[0, 4, 17], Some(&[9]))).expect("parses");
    assert!(s.tile_available(false, 0, 0));
    assert!(!s.tile_available(false, 1, 0));
    assert!(s.tile_available(false, 1, 3));
    assert!(s.tile_available(false, 2, 12));
    assert!(s.child_subtree_available(9) && !s.child_subtree_available(8));
    // Past the last bit nothing is there.
    assert!(!s.child_subtree_available(5000));
    assert!(Subtree::parse(b"subt").is_none());
    // Bits in another file are not read as no bits.
    let outside = r#"{"buffers":[{"uri":"x.bin"}],"tileAvailability":{"constant":1}}"#;
    assert!(Subtree::parse(&framed(outside, &[])).is_none());
    let all = Subtree::parse(&framed(r#"{"tileAvailability":{"constant":1}}"#, &[])).unwrap();
    assert!(all.tile_available(true, 4, 77) && !all.child_subtree_available(0));
}

fn options() -> WriteOptions {
    let cube = Bounds::new([double(0.0); 3], [double(8.0); 3]);
    WriteOptions {
        layout: RecordLayout::new(7, 0, Vec::new(), Vec::new()).expect("format 7"),
        cube,
        extent: cube,
        scale: [double(0.01); 3],
        offset: [double(0.0); 3],
        spacing: double(0.5),
        span: 16,
        has_gps_time: false,
        legacy_fields: false,
        crs: None,
        projection_vlrs: Vec::new(),
        generator: "test".to_string(),
        creation: (1, 2026),
    }
}

#[test]
fn the_tileset_it_writes_reads_back_as_a_tileset() {
    let mut writer = TilesetWriter::create(options());
    let deep = OctreeKey::root().child(3).child(5);
    // The node between them has no points of its own.
    writer.write_node(OctreeKey::root(), 10, 100);
    writer.write_node(deep, 4, 50);
    assert_eq!((writer.points, writer.depth, writer.bytes), (14, 2, 150));
    assert_eq!(writer.path(deep), format!("content/{}.glb", deep.ept_name()));
    let tiles = writer.tiles();
    assert_eq!(tiles, vec![OctreeKey::root(), OctreeKey::root().child(3), deep]);
    let geometry: Vec<Geometry> = tiles
        .iter()
        .map(|k| Geometry {
            half: [double(4.0); 3],
            centre: [double(f64::from(k.level)); 3],
            spacing: double(0.5),
        })
        .collect();
    let manifest = writer.finish(&geometry, double(1.0));
    assert_eq!(manifest.get("asset").unwrap().text_at("version").unwrap(), "1.1");
    assert_eq!(manifest.real_at("geometricError").map(number), Some(1.0));
    let root = manifest.get("root").unwrap();
    assert_eq!(root.text_at("refine").unwrap(), "ADD");
    assert_eq!(root.get("content").unwrap().text_at("uri").unwrap(), "content/0-0-0-0.glb");
    assert_eq!(root.real_at("geometricError").map(number), Some(0.5));
    let between = &root.array_at("children").unwrap()[0];
    assert!(between.get("content").is_none());
    let leaf = &between.array_at("children").unwrap()[0];
    assert_eq!(leaf.real_at("geometricError").map(number), Some(0.0));
    assert!(leaf.get("children").is_none());

    let sketch = voxelkloud::format::tileset::parse(&manifest, "tileset.json").expect("a tileset");
    assert_eq!(sketch.version, "1.1");
    assert_eq!(sketch.content_kinds, vec!["gltf".to_string()]);
    assert!(matches!(sketch.volume, Volume::Oriented(_)));
}

#[test]
fn a_glb_is_framed_in_two_padded_chunks() {
    let glb = frame_glb(b"{\"a\":1}".to_vec(), &vec![1, 2, 3, 4]);
    assert_eq!(&glb[0..4], b"glTF");
    assert_eq!(glb[4..8], 2u32.to_le_bytes());
    assert_eq!(glb[8..12], (glb.len() as u32).to_le_bytes());
    assert_eq!(glb[12..16], 8u32.to_le_bytes());
    assert_eq!(&glb[16..20], b"JSON");
    assert_eq!(&glb[20..28], b"{\"a\":1} ");
    assert_eq!(glb[28..32], 4u32.to_le_bytes());
    assert_eq!(&glb[32..36], b"BIN\0");
    assert_eq!(glb[36..], [1, 2, 3, 4]);
}

#[test]
fn points_are_turned_and_measured() {
    let single = |v: f32| Single { bits: v.to_bits() };
    let arranged = arrange(&vec![
        (single(1.0), single(2.0), single(3.0)),
        (single(-1.0), single(-4.0), single(0.5)),
    ]);
    // Up is the second axis of the content: y becomes the third, turned round.
    let floats: Vec<f32> = arranged
        .positions
        .chunks_exact(4)
        .map(|b| f32::from_le_bytes([b[0], b[1], b[2], b[3]]))
        .collect();
    assert_eq!(floats, [1.0, 3.0, -2.0, -1.0, 0.5, 4.0]);
    let corner = |t: (Single, Single, Single)| {
        [f32::from_bits(t.0.bits), f32::from_bits(t.1.bits), f32::from_bits(t.2.bits)]
    };
    assert_eq!(corner(arranged.min), [-1.0, 0.5, -2.0]);
    assert_eq!(corner(arranged.max), [1.0, 3.0, 4.0]);

    let mut record = vec![0u8; 36];
    record[30..36].copy_from_slice(&[0, 0xff, 1, 0x80, 0, 0]);
    let colors = narrow_colors(&record, 36, 1);
    assert_eq!(colors[..3], [0xff, 0x80, 0]);
    let binary = buffer(&arranged.positions, Some(&colors));
    assert_eq!(binary.len() % 4, 0);
    assert_eq!(binary[..24], arranged.positions[..]);

    let document = gltf_document(&Content {
        count: 2,
        position_bytes: 24,
        color_bytes: Some(colors.len() as u64),
        buffer_bytes: binary.len() as u64,
        min: [double(-1.0), double(0.5), double(-2.0)],
        max: [double(1.0), double(3.0), double(4.0)],
    });
    let accessors = document.array_at("accessors").unwrap();
    assert_eq!(accessors[0].unsigned_at("count"), Some(2));
    assert_eq!(accessors.len(), 2);
    let mesh = &document.array_at("meshes").unwrap()[0];
    let primitive = &mesh.array_at("primitives").unwrap()[0];
    assert_eq!(primitive.unsigned_at("mode"), Some(0));
    assert!(matches!(primitive.get("attributes"), Some(Json::Object(_))));
}
