use wasm_blur::non_maximum_suppression::{non_maximum_suppression, MagnitudeField};

fn field(entries: &[(usize, i16)]) -> Vec<i16> {
    let mut v = vec![0i16; 25];
    for &(i, value) in entries {
        v[i] = value;
    }
    v
}

fn magnitudes(entries: &[(usize, u32)]) -> Vec<u32> {
    let mut v = vec![0u32; 25];
    for &(i, value) in entries {
        v[i] = value;
    }
    v
}

/// The L1 field of a gradient field: the magnitudes themselves.
fn l1(dx: &[i16], dy: &[i16], width: usize, height: usize) -> Vec<u32> {
    match non_maximum_suppression(dx, dy, width, height, false) {
        MagnitudeField::Lengths(lengths) => lengths,
        MagnitudeField::SquaredLengths(_) => panic!("an L1 field holds lengths"),
    }
}

/// The L2 field of a gradient field: the squares of the magnitudes.
fn l2_squares(dx: &[i16], dy: &[i16], width: usize, height: usize) -> Vec<u32> {
    match non_maximum_suppression(dx, dy, width, height, true) {
        MagnitudeField::SquaredLengths(squares) => squares,
        MagnitudeField::Lengths(_) => panic!("an L2 field holds squared lengths"),
    }
}

/// The L2 field of a gradient field as magnitudes.
fn l2(dx: &[i16], dy: &[i16], width: usize, height: usize) -> Vec<f64> {
    l2_squares(dx, dy, width, height).into_iter().map(|s| (s as f64).sqrt()).collect()
}

#[test]
fn horizontal_peak_survives_and_clears_its_sides() {
    let dx = field(&[(11, 3), (12, 10), (13, 4)]);
    let dy = field(&[]);
    assert_eq!(l1(&dx, &dy, 5, 5), magnitudes(&[(12, 10)]));
    // The peak keeps |dx| = 10 with the L2 norm too; the field holds its square.
    assert_eq!(l2_squares(&dx, &dy, 5, 5), magnitudes(&[(12, 100)]));
    let lengths = l2(&dx, &dy, 5, 5);
    assert_eq!(lengths[12], 10.0);
    assert_eq!(lengths[11], 0.0);
    assert_eq!(lengths[13], 0.0);
}

#[test]
fn three_four_five() {
    let dx = [0i16, 0, 0, 0, 3, 0, 0, 0, 0];
    let dy = [0i16, 0, 0, 0, 4, 0, 0, 0, 0];
    assert_eq!(
        non_maximum_suppression(&dx, &dy, 3, 3, true),
        MagnitudeField::SquaredLengths(vec![0, 0, 0, 0, 25, 0, 0, 0, 0])
    );
    assert_eq!(l2(&dx, &dy, 3, 3), vec![0.0, 0.0, 0.0, 0.0, 5.0, 0.0, 0.0, 0.0, 0.0]);
    assert_eq!(
        non_maximum_suppression(&dx, &dy, 3, 3, false),
        MagnitudeField::Lengths(vec![0, 0, 0, 0, 7, 0, 0, 0, 0])
    );
}

#[test]
fn field_tells_its_norm() {
    let field = non_maximum_suppression(&[1; 9], &[1; 9], 3, 3, true);
    assert!(field.is_squared());
    assert_eq!(field.keys(), &[0, 0, 0, 0, 2, 0, 0, 0, 0]);
    let field = non_maximum_suppression(&[1; 9], &[1; 9], 3, 3, false);
    assert!(!field.is_squared());
    assert_eq!(field.keys(), &[0, 0, 0, 0, 2, 0, 0, 0, 0]);
}

#[test]
fn vertical_gradient_looks_above_and_below() {
    let dx = field(&[(12, 1)]);
    let dy = field(&[(7, 5), (12, -9), (17, 9)]);
    // pixel 12 has magnitude 10, pixels 7 and 17 have 5 and 9; 17 loses to 12.
    assert_eq!(l1(&dx, &dy, 5, 5), magnitudes(&[(12, 10)]));
}

#[test]
fn diagonal_with_equal_signs_looks_top_right_and_bottom_left() {
    let dx = field(&[(12, 5), (8, 6), (16, 2)]);
    let dy = field(&[(12, 5), (8, 1), (16, 2)]);
    assert_eq!(
        l1(&dx, &dy, 5, 5),
        magnitudes(&[(8, 7), (12, 10)])
    );
}

#[test]
fn diagonal_with_opposite_signs_looks_top_left_and_bottom_right() {
    let dx = field(&[(12, 5), (6, 7), (18, 1)]);
    let dy = field(&[(12, -5), (6, -7), (18, -1)]);
    assert_eq!(l1(&dx, &dy, 5, 5), magnitudes(&[(6, 14)]));
}

#[test]
fn ties_survive() {
    let dx = field(&[(11, 4), (12, 4), (13, 4)]);
    let dy = field(&[]);
    assert_eq!(
        l1(&dx, &dy, 5, 5),
        magnitudes(&[(11, 4), (12, 4), (13, 4)])
    );
}

#[test]
fn sector_limits() {
    // 24142 / 10000 is the limit: |dy| = 24143 is vertical for |dx| = 10000,
    // |dy| = 24142 is not.
    let dx = field(&[(12, 10000), (7, 10000)]);
    let dy = field(&[(12, 24143), (7, 32767)]);
    // vertical: compared with pixel 7 (magnitude 42767) and loses
    assert_eq!(l1(&dx, &dy, 5, 5)[12], 0);
    let dy = field(&[(12, 24142), (7, 32767)]);
    // diagonal: compared with pixels 8 and 16 and survives
    assert_eq!(l1(&dx, &dy, 5, 5)[12], 34142);
}

#[test]
fn largest_gradient_fits() {
    let dx = field(&[(12, i16::MIN)]);
    let dy = field(&[(12, i16::MIN)]);
    // The largest length is sqrt(2) * 32768; the field holds its square, 2^31.
    assert_eq!(l2_squares(&dx, &dy, 5, 5)[12], 2147483648);
    assert_eq!(l2(&dx, &dy, 5, 5)[12], 2f64.sqrt() * 32768.0);
    assert_eq!(l1(&dx, &dy, 5, 5)[12], 65536);
}

#[test]
fn border_magnitudes_count_as_neighbours_but_are_cleared() {
    let dx = field(&[(10, 50), (11, 20)]);
    let dy = field(&[]);
    assert_eq!(l1(&dx, &dy, 5, 5), magnitudes(&[]));
}

#[test]
fn small_rasters_are_cleared() {
    assert_eq!(l2_squares(&[], &[], 0, 0), Vec::<u32>::new());
    assert_eq!(l1(&[5, 5, 5, 5], &[1, 1, 1, 1], 2, 2), vec![0; 4]);
}
