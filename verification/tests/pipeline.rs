use wasm_blur::canny::canny_edge_detector_full;
use wasm_blur::gaussian_blur::Kernel;

fn step_image() -> Vec<u8> {
    let mut image = Vec::new();
    for _y in 0..8 {
        for x in 0..8 {
            image.push(if x >= 4 { 200 } else { 20 });
        }
    }
    image
}

fn columns(set: &[usize], rows: std::ops::Range<usize>) -> Vec<u8> {
    let mut m = vec![0u8; 64];
    for y in rows {
        for &x in set {
            m[y * 8 + x] = 255;
        }
    }
    m
}

#[test]
fn vertical_step_edge() {
    let kernel = Kernel::from_weights(vec![16384, 32768, 16384]).unwrap();
    let edges =
        canny_edge_detector_full(&step_image(), 8, 8, 50, 100, &kernel, false, false, 3);
    assert_eq!(edges, columns(&[3, 4], 1..7));
}

#[test]
fn vertical_step_edge_dilated() {
    let kernel = Kernel::from_weights(vec![16384, 32768, 16384]).unwrap();
    let edges = canny_edge_detector_full(&step_image(), 8, 8, 50, 100, &kernel, false, true, 3);
    assert_eq!(edges, columns(&[2, 3, 4, 5], 0..8));
}

fn narrow_step() -> Vec<u8> {
    let mut image = Vec::new();
    for _y in 0..5 {
        image.extend_from_slice(&[0, 0, 0, 200, 200]);
    }
    image
}

fn set(indices: &[usize]) -> Vec<u8> {
    let mut m = vec![0u8; 25];
    for &i in indices {
        m[i] = 255;
    }
    m
}

fn narrow_edges(low: i32, high: i32, l2_gradient: bool) -> Vec<u8> {
    canny_edge_detector_full(
        &narrow_step(), 5, 5, low, high, &Kernel::identity(), l2_gradient, false, 1,
    )
}

#[test]
fn squared_thresholds_meet_the_length() {
    // The step has the gradient (200, 0): magnitude 200 with either norm.
    let step = set(&[7, 8, 12, 13, 17, 18]);
    assert_eq!(narrow_edges(10, 20, false), step);
    // With the L2 norm the thresholds become 100 and 400: 200 reaches no 400.
    assert_eq!(narrow_edges(10, 20, true), vec![0; 25]);
    // 14 squared is 196, 15 squared is 225.
    assert_eq!(narrow_edges(5, 14, true), step);
    assert_eq!(narrow_edges(10, 14, true), step);
    assert_eq!(narrow_edges(5, 15, true), vec![0; 25]);
    assert_eq!(narrow_edges(14, 15, true), vec![0; 25]);
}

#[test]
fn negative_thresholds() {
    // With the L1 norm every interior pixel reaches a negative threshold.
    assert_eq!(narrow_edges(-1, -1, false), set(&[6, 7, 8, 11, 12, 13, 16, 17, 18]));
    // With the L2 norm the threshold is squared first.
    assert_eq!(narrow_edges(-5, -14, true), set(&[7, 8, 12, 13, 17, 18]));
    assert_eq!(narrow_edges(-5, -15, true), vec![0; 25]);
}

#[test]
fn blurred_step_with_the_squared_norm() {
    let kernel = Kernel::from_weights(vec![16384, 32768, 16384]).unwrap();
    // The blurred step has the gradient (135, 0) on both sides of the edge.
    let at = canny_edge_detector_full(&step_image(), 8, 8, 50, 135, &kernel, false, false, 0);
    assert_eq!(at, columns(&[3, 4], 1..7));
    let above = canny_edge_detector_full(&step_image(), 8, 8, 50, 136, &kernel, false, false, 0);
    assert_eq!(above, vec![0; 64]);
    // 11 squared is 121, 12 squared is 144.
    let at = canny_edge_detector_full(&step_image(), 8, 8, 5, 11, &kernel, true, false, 0);
    assert_eq!(at, columns(&[3, 4], 1..7));
    let above = canny_edge_detector_full(&step_image(), 8, 8, 5, 12, &kernel, true, false, 0);
    assert_eq!(above, vec![0; 64]);
}

#[test]
fn largest_thresholds_do_not_overflow() {
    let kernel = Kernel::identity();
    for l2_gradient in [false, true] {
        for threshold in [i32::MAX, 46341, 65536] {
            let edges = canny_edge_detector_full(
                &step_image(), 8, 8, threshold, threshold, &kernel, l2_gradient, true, 3,
            );
            assert_eq!(edges, vec![0; 64]);
        }
    }
    let edges = canny_edge_detector_full(
        &step_image(), 8, 8, i32::MIN, i32::MIN, &kernel, true, false, 3,
    );
    assert_eq!(edges, vec![0; 64]);
}

#[test]
fn unblurred_step_edge() {
    let edges = canny_edge_detector_full(
        &step_image(), 8, 8, 50, 100, &Kernel::identity(), false, false, 0,
    );
    assert_eq!(edges, columns(&[3, 4], 1..7));
}

#[test]
fn flat_image_has_no_edges() {
    let kernel = Kernel::from_weights(vec![16384, 32768, 16384]).unwrap();
    let image = vec![90u8; 30];
    let edges = canny_edge_detector_full(&image, 6, 5, 0, 1, &kernel, true, true, 5);
    assert_eq!(edges, vec![0; 30]);
}

#[test]
fn empty_image_gives_empty_mask() {
    let edges =
        canny_edge_detector_full(&[], 0, 0, 1, 2, &Kernel::identity(), false, true, 3);
    assert_eq!(edges, Vec::<u8>::new());
}
