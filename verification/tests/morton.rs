use voxelkloud::write::morton::{
    align24b, dealign24b, decode_color, decode_position, encode_color, encode_position, interleave,
};

#[test]
fn align_is_the_inverse_of_dealign_over_the_whole_domain() {
    for value in 0..=255u32 {
        assert_eq!(dealign24b(align24b(value)), value, "value {value}");
    }
}

#[test]
fn a_position_survives_the_round_trip() {
    // Including the 32-bit extremes: a coordinate above 2^27 is exactly the
    // case that has to be exercised.
    let cases = [
        [0u32, 0, 0],
        [1, 2, 3],
        [255, 256, 65535],
        [1 << 27, 0, 0],
        [u32::MAX, u32::MAX, u32::MAX],
        [0xdead_beef, 0x0bad_c0de, 0x1234_5678],
    ];
    for [x, y, z] in cases {
        let encoded = encode_position(x, y, z);
        assert_eq!(decode_position(&encoded), (x, y, z), "{x} {y} {z}");
    }
}

#[test]
fn a_colour_survives_the_round_trip() {
    for [r, g, b] in [
        [0u16, 0, 0],
        [255, 256, 65535],
        [1, 2, 3],
        [65535, 0, 32768],
    ] {
        let encoded = encode_color(r, g, b);
        assert_eq!(decode_color(&encoded), (r, g, b), "{r} {g} {b}");
    }
}

/// The bits actually land where the format says: component 0 in every third
/// bit starting at 0, component 1 at 1, component 2 at 2.
#[test]
fn the_interleave_is_every_third_bit() {
    let code = interleave(0xff, 0, 0);
    assert_eq!(code, 0x249249);
    assert_eq!(interleave(0, 0xff, 0), 0x249249 << 1);
    assert_eq!(interleave(0, 0, 0xff), 0x249249 << 2);
}
