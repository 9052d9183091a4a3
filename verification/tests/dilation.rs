use wasm_blur::dilation::{dilate, dilate_fast};

fn mask(width: usize, height: usize, set: &[usize]) -> Vec<u8> {
    let mut m = vec![0u8; width * height];
    for &i in set {
        m[i] = 255;
    }
    m
}

#[test]
fn kernel_of_one_is_the_identity() {
    let m = mask(5, 5, &[0, 7, 12, 24]);
    assert_eq!(dilate(&m, 5, 5, 1), m);
    let shades: Vec<u8> = (0..30).map(|v| v * 8).collect();
    assert_eq!(dilate(&shades, 6, 5, 1), shades);
}

#[test]
fn kernel_of_three_grows_a_pixel_to_a_square() {
    let m = mask(5, 5, &[12]);
    assert_eq!(dilate(&m, 5, 5, 3), mask(5, 5, &[6, 7, 8, 11, 12, 13, 16, 17, 18]));
}

#[test]
fn even_kernel_reaches_further_back_than_forward() {
    let m = mask(5, 5, &[12]);
    assert_eq!(dilate(&m, 5, 5, 2), mask(5, 5, &[12, 13, 17, 18]));
}

#[test]
fn corner_pixel() {
    let m = mask(5, 5, &[0]);
    assert_eq!(dilate(&m, 5, 5, 3), mask(5, 5, &[0, 1, 5, 6]));
    assert_eq!(dilate(&m, 5, 5, 5), mask(5, 5, &[0, 1, 2, 5, 6, 7, 10, 11, 12]));
    assert_eq!(dilate(&m, 5, 5, 9), vec![255; 25]);
}

#[test]
fn kernel_larger_than_the_raster() {
    let m = mask(5, 3, &[7]);
    assert_eq!(dilate(&m, 5, 3, 7), vec![255; 15]);
    assert_eq!(dilate(&m, 5, 3, 1000), vec![255; 15]);
}

#[test]
fn empty_window_clears_the_mask() {
    let m = mask(3, 3, &[4]);
    assert_eq!(dilate(&m, 3, 3, 0), vec![0; 9]);
}

#[test]
fn empty_mask() {
    assert_eq!(dilate(&[], 0, 0, 3), Vec::<u8>::new());
    assert_eq!(dilate(&[], 4, 0, 3), Vec::<u8>::new());
}

#[test]
fn result_takes_in_the_mask() {
    let m = mask(8, 6, &[0, 9, 20, 33, 47]);
    for kernel_size in 1..8 {
        let grown = dilate(&m, 8, 6, kernel_size);
        for i in 0..m.len() {
            assert!(grown[i] >= m[i]);
            assert!(grown[i] == 0 || grown[i] == 255);
        }
    }
}

#[test]
fn banded_pass_writes_into_the_buffer() {
    let m = mask(5, 5, &[12]);
    let mut out = vec![7u8; 25];
    dilate_fast(&m, 5, 5, 3, &mut out);
    assert_eq!(out, mask(5, 5, &[6, 7, 8, 11, 12, 13, 16, 17, 18]));
}
