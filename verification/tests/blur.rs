use wasm_blur::blur;
use wasm_blur::gaussian_blur::{Kernel, FIXED_POINT_ONE};

fn kernel(weights: &[u32]) -> Kernel {
    Kernel::from_weights(weights.to_vec()).unwrap()
}

#[test]
fn one_tap_kernel_leaves_the_image() {
    let image: Vec<u8> = (0..=255).collect();
    assert_eq!(blur(&image, 16, 16, &Kernel::identity()), image);
    assert_eq!(blur(&image, 256, 1, &Kernel::identity()), image);
    assert_eq!(blur(&image, 1, 256, &kernel(&[65536])), image);
}

#[test]
fn three_tap_kernel_on_a_square() {
    let image = vec![0, 0, 0, 0, 0, 255, 255, 0, 0, 255, 255, 0, 0, 0, 0, 0];
    let blurred = blur(&image, 4, 4, &kernel(&[16384, 32768, 16384]));
    assert_eq!(
        blurred,
        vec![15, 47, 47, 15, 47, 143, 143, 47, 47, 143, 143, 47, 15, 47, 47, 15]
    );
}

#[test]
fn three_tap_kernel_on_a_ramp() {
    let image: Vec<u8> = (1..=25).map(|v| v * 10).collect();
    let blurred = blur(&image, 5, 5, &kernel(&[16384, 32768, 16384]));
    assert_eq!(
        blurred,
        vec![
            25, 32, 42, 52, 60, 62, 70, 80, 90, 97, 112, 120, 130, 140, 147, 162, 170, 180, 190,
            197, 200, 207, 217, 227, 235
        ]
    );
}

#[test]
fn three_tap_kernel_on_thin_images() {
    let k = kernel(&[16384, 32768, 16384]);
    assert_eq!(blur(&[100], 1, 1, &k), vec![100]);
    assert_eq!(blur(&[0, 255, 0], 1, 3, &k), vec![63, 127, 63]);
    assert_eq!(blur(&[0, 255, 0], 3, 1, &k), vec![63, 127, 63]);
    assert_eq!(blur(&[9, 200], 2, 1, &k), vec![56, 152]);
    assert_eq!(blur(&[9, 200], 1, 2, &k), vec![56, 152]);
}

#[test]
fn five_tap_kernel_on_a_square() {
    let image = vec![0, 0, 0, 0, 0, 255, 255, 0, 0, 255, 255, 0, 0, 0, 0, 0];
    let blurred = blur(&image, 4, 4, &kernel(&[1000, 20000, 30000, 10000, 4536]));
    assert_eq!(
        blurred,
        vec![12, 34, 43, 18, 34, 94, 118, 49, 43, 118, 148, 62, 18, 49, 62, 26]
    );
}

#[test]
fn normalised_kernel_keeps_a_flat_image() {
    let image = vec![77u8; 42];
    let blurred = blur(&image, 7, 6, &kernel(&[4096, 16384, 24576, 16384, 4096]));
    assert_eq!(blurred, image);
}

#[test]
fn heavy_kernel_saturates() {
    let image = vec![200u8; 4];
    let blurred = blur(&image, 2, 2, &kernel(&[65536, 65536, 65536]));
    assert_eq!(blurred, vec![255; 4]);
}

#[test]
fn kernel_wider_than_the_image() {
    let image = vec![10, 20];
    let blurred = blur(&image, 2, 1, &kernel(&[13107, 13107, 13108, 13107, 13107]));
    // taps of pixel 0 read 10, 10, 10, 20, 20; taps of pixel 1 read 10, 10, 20, 20, 20
    assert_eq!(blurred, vec![13, 16]);
}

#[test]
fn empty_image() {
    assert_eq!(blur(&[], 0, 0, &Kernel::identity()), Vec::<u8>::new());
    assert_eq!(blur(&[], 0, 5, &kernel(&[1, 2, 3])), Vec::<u8>::new());
}

#[test]
fn kernels_are_validated() {
    assert!(Kernel::from_weights(vec![]).is_none());
    assert!(Kernel::from_weights(vec![1, 2]).is_none());
    assert!(Kernel::from_weights(vec![32768, 32768, 0, 0]).is_none());
    assert!(Kernel::from_weights(vec![u32::MAX, 1, 0]).is_none());
    assert!(Kernel::from_weights(vec![u32::MAX, 0, 0]).is_some());
    assert!(Kernel::from_weights(vec![u32::MAX]).is_some());
    let k = Kernel::from_weights(vec![1, 65534, 1]).unwrap();
    assert_eq!(k.size(), 3);
    assert_eq!(k.weights(), &[1, 65534, 1]);
    assert_eq!(Kernel::identity().weights(), &[FIXED_POINT_ONE]);
    assert_eq!(Kernel::identity().size(), 1);
}

#[test]
fn cloned_kernel_blurs_alike() {
    let k = kernel(&[16384, 32768, 16384]);
    let copy = k.clone();
    assert_eq!(copy.weights(), k.weights());
    let image = vec![0, 0, 0, 0, 0, 255, 255, 0, 0, 255, 255, 0, 0, 0, 0, 0];
    assert_eq!(blur(&image, 4, 4, &copy), blur(&image, 4, 4, &k));
}

#[test]
fn largest_kernel_does_not_overflow() {
    let image = vec![255u8; 9];
    let blurred = blur(&image, 3, 3, &kernel(&[0, u32::MAX, 0]));
    assert_eq!(blurred, vec![255; 9]);
}
