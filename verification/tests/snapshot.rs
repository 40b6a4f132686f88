use voxelkloud::cli::snapshot::{depth_key, keep_every, keeps, narrow_shift, Raster};

#[test]
fn byte_ranged_sources_are_not_shifted() {
    assert_eq!(narrow_shift(true, 255), 0);
    assert_eq!(narrow_shift(true, 200), 0);
    assert_eq!(narrow_shift(true, 1), 0);
}

#[test]
fn full_range_sources_are_shifted_to_bytes() {
    assert_eq!(narrow_shift(true, 256), 8);
    assert_eq!(narrow_shift(true, 65_535), 8);
}

/// The ramp path writes bytes already, so it must never be narrowed no
/// matter what the (unused) channel maximum happens to hold.
#[test]
fn the_elevation_ramp_is_never_shifted() {
    assert_eq!(narrow_shift(false, 0), 0);
    assert_eq!(narrow_shift(false, 65_535), 0);
}

/// An all-black cloud is legal and must not be mistaken for a byte-ranged
/// one in a way that changes the answer: both give 0, and 0 is right.
#[test]
fn a_black_cloud_is_left_alone() {
    assert_eq!(narrow_shift(true, 0), 0);
}

#[test]
fn depths_are_ordered_as_the_numbers_are() {
    let values = [f32::NEG_INFINITY, -3.5, -1e-40, -0.0, 0.0, 1e-40, 2.0, f32::INFINITY];
    for a in values {
        for b in values {
            let (ka, kb) = (depth_key(a.to_bits()).unwrap(), depth_key(b.to_bits()).unwrap());
            assert_eq!(ka > kb, a > b, "{a} {b}");
        }
    }
    assert_eq!(depth_key(f32::NAN.to_bits()), None);
    assert_eq!(depth_key((-f32::NAN).to_bits()), None);
}

#[test]
fn one_point_in_so_many_is_drawn() {
    assert_eq!(keep_every(1_000, 0), 1_000);
    assert_eq!(keep_every(3_000_000, 1_500_000), 2);
    assert_eq!(keep_every(10, 100), 1);
    assert!(!keeps(1, 2));
    assert!(keeps(2, 2));
    assert!(keeps(7, 1));
}

#[test]
fn the_nearest_point_wins_and_splats_are_clipped() {
    let mut r = Raster::new(16, true);
    r.plot(-1, -1, 1.0f32.to_bits(), [10, 20, 30]);
    r.plot(0, 0, 2.0f32.to_bits(), [40, 50, 60]);
    r.plot(1, 1, 0.5f32.to_bits(), [70, 80, 90]);
    r.plot(i64::MAX, 3, 9.0f32.to_bits(), [1, 1, 1]);
    let rgba = r.finish();
    assert_eq!(rgba.len(), 16 * 16 * 4);
    assert_eq!(rgba[0..4], [40, 50, 60, 255]);
    assert_eq!(rgba[(16 + 1) * 4..(16 + 1) * 4 + 4], [40, 50, 60, 255]);
    assert_eq!(rgba[(2 * 16 + 2) * 4..(2 * 16 + 2) * 4 + 4], [70, 80, 90, 255]);
    assert_eq!(rgba[3 * 4..3 * 4 + 4], [0, 0, 0, 0]);
}

#[test]
fn wide_channels_are_narrowed_together() {
    let mut r = Raster::new(1, true);
    r.plot(0, 0, 0, [0x1234, 0xff, 0xffff]);
    assert_eq!(r.finish()[0..4], [0x12, 0, 0xff, 255]);
}

#[test]
fn a_picture_becomes_a_png() {
    let mut r = Raster::new(16, false);
    r.plot(0, 0, 0, [1, 2, 3]);
    let png = r.encode().unwrap();
    assert_eq!(png[0..8], [0x89, b'P', b'N', b'G', 13, 10, 26, 10]);
    assert_eq!(png[12..24], *b"IHDR\0\0\0\x10\0\0\0\x10");
    assert_eq!(png[png.len() - 8..png.len() - 4], *b"IEND");
}
