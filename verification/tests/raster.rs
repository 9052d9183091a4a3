use wasm_blur::raster::clamped_position;

#[test]
fn taps_inside_the_row_are_not_moved() {
    assert_eq!(clamped_position(5, 0, 2, 10), 3);
    assert_eq!(clamped_position(5, 2, 2, 10), 5);
    assert_eq!(clamped_position(5, 4, 2, 10), 7);
}

#[test]
fn taps_before_the_row_read_its_first_position() {
    assert_eq!(clamped_position(0, 0, 1, 10), 0);
    assert_eq!(clamped_position(1, 0, 3, 10), 0);
    assert_eq!(clamped_position(3, 0, usize::MAX / 2, 10), 0);
}

#[test]
fn taps_after_the_row_read_its_last_position() {
    assert_eq!(clamped_position(9, 2, 1, 10), 9);
    assert_eq!(clamped_position(8, 6, 3, 10), 9);
    assert_eq!(clamped_position(0, usize::MAX, 0, 10), 9);
    assert_eq!(clamped_position(0, 5, 0, 1), 0);
}
