use voxelkloud::record::output_format;

#[test]
fn the_output_format_widens_and_never_narrows() {
    assert_eq!(output_format(false, false), 6);
    assert_eq!(output_format(true, false), 7);
    assert_eq!(output_format(true, true), 8);
    assert_eq!(output_format(false, true), 8);
}
