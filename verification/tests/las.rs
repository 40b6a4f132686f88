use voxelkloud::double::Real;
use voxelkloud::las::point_format::{
    las_base_size, las_dimensions, las_format_has_color, las_format_has_gps_time, LasAccess,
};
use voxelkloud::las::LasHeader;
use voxelkloud::write::las_write::{OutHeader, HEADER_SIZE};

fn r(value: f64) -> Real {
    Real::new(value.to_bits())
}

fn bits(values: [Real; 3]) -> [u64; 3] {
    [values[0].bits, values[1].bits, values[2].bits]
}

#[test]
fn a_written_header_reads_back_the_same() {
    // The writer and the reader are the two halves of every offset in the
    // format. Holding them to each other is what makes a wrong constant fail
    // here rather than in somebody's file.
    let header = OutHeader {
        point_format: 7,
        point_size: 36,
        compressed: true,
        point_count: 10_653_336,
        scale: [r(0.01), r(0.01), r(0.001)],
        offset: [r(635577.79), r(848882.15), r(406.14)],
        min: [r(1.0), r(2.0), r(3.0)],
        max: [r(4.0), r(5.0), r(6.0)],
        offset_to_point_data: 375 + 54 + 160,
        vlr_count: 3,
        evlr_offset: 900_000,
        evlr_count: 1,
        generator: "voxelkloud 0.1.0".to_string(),
        wkt: true,
        creation: (200, 2026),
        points_by_return: [0; 15],
    };
    let mut bytes = header.to_bytes();
    // A header alone is a legal prefix; the reader tolerates the VLR
    // directory being absent.
    bytes.resize(HEADER_SIZE, 0);

    let read = LasHeader::read(&bytes).expect("reads");
    assert_eq!(read.version_major, 1);
    assert_eq!(read.version_minor, 4);
    assert_eq!(read.point_format, 7);
    assert!(read.compressed);
    assert_eq!(read.point_size, 36);
    assert_eq!(read.point_count, 10_653_336);
    assert_eq!(bits(read.scale), bits(header.scale));
    assert_eq!(bits(read.offset), bits(header.offset));
    assert_eq!(bits(read.min), bits(header.min));
    assert_eq!(bits(read.max), bits(header.max));
    assert_eq!(read.offset_to_point_data, header.offset_to_point_data);
    assert_eq!(read.vlr_count, 3);
    assert_eq!(read.evlr_offset, 900_000);
    assert_eq!(read.evlr_count, 1);
}

#[test]
fn the_legacy_point_count_is_zero_for_a_modern_format() {
    // Not a detail: a 1.4 file with a non-zero legacy count and a format-7
    // record is self-contradictory, and readers pick different halves.
    let header = OutHeader {
        point_format: 7,
        point_size: 36,
        compressed: false,
        point_count: 5,
        scale: [r(0.01); 3],
        offset: [r(0.0); 3],
        min: [r(0.0); 3],
        max: [r(1.0); 3],
        offset_to_point_data: 375,
        vlr_count: 0,
        evlr_offset: 0,
        evlr_count: 0,
        generator: String::new(),
        wkt: true,
        creation: (1, 2026),
        points_by_return: [0; 15],
    };
    let bytes = header.to_bytes();
    assert_eq!(u32::from_le_bytes(bytes[107..111].try_into().unwrap()), 0);
    assert_eq!(u64::from_le_bytes(bytes[247..255].try_into().unwrap()), 5);
}

/// The dimensions must exactly tile the base record, with no gap and no
/// overlap — a shifted offset is the failure that produces plausible
/// garbage rather than an error.
#[test]
fn dimensions_fit_the_base_record() {
    for format in 0..=10u8 {
        let dims = las_dimensions(format).unwrap();
        let base = las_base_size(format).unwrap();
        for d in &dims {
            let (at, size) = match d.access {
                LasAccess::Scalar { at } => (at, d.num_elements * d.kind.size()),
                LasAccess::Bits { at, .. } => (at, 1),
            };
            assert!(
                at + size <= base,
                "format {format}: {} runs past the {base}-byte record",
                d.name
            );
        }
    }
}

#[test]
fn colour_and_gps_tables_agree_with_the_dimensions() {
    for format in 0..=10u8 {
        let dims = las_dimensions(format).unwrap();
        let has_rgb = dims.iter().any(|d| d.name == "rgb");
        let has_gps = dims.iter().any(|d| d.name == "gps-time");
        assert_eq!(has_rgb, las_format_has_color(format), "format {format} colour");
        assert_eq!(has_gps, las_format_has_gps_time(format), "format {format} gps");
    }
}
