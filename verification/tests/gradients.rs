use wasm_blur::gradient_calculation::calculate_gradients;

#[test]
fn gradients_of_a_ramp() {
    let image: Vec<u8> = (1..=25).map(|v| v * 10).collect();
    let field = calculate_gradients(&image, 5, 5);
    assert_eq!(field.len(), 50);
    for y in 0..5 {
        for x in 0..5 {
            let i = y * 5 + x;
            let interior = (1..4).contains(&x) && (1..4).contains(&y);
            assert_eq!(field[2 * i], if interior { 20 } else { 0 });
            assert_eq!(field[2 * i + 1], if interior { 100 } else { 0 });
        }
    }
}

#[test]
fn gradients_are_signed_differences() {
    let image = vec![1, 2, 4, 8, 3, 5, 9, 17, 6, 10, 18, 34, 0, 0, 0, 0];
    let field = calculate_gradients(&image, 4, 4);
    let mut expected = vec![0i16; 32];
    expected[10] = 6;
    expected[11] = 8;
    expected[12] = 12;
    expected[13] = 14;
    expected[18] = 12;
    expected[19] = -5;
    expected[20] = 24;
    expected[21] = -9;
    assert_eq!(field, expected);
}

#[test]
fn extreme_differences() {
    let image = vec![0, 255, 0, 255, 7, 0, 0, 0, 0];
    let field = calculate_gradients(&image, 3, 3);
    assert_eq!(field[8], -255);
    assert_eq!(field[9], -255);
}

#[test]
fn constant_image_has_no_gradient() {
    let image = vec![173u8; 63];
    let field = calculate_gradients(&image, 9, 7);
    assert_eq!(field, vec![0i16; 126]);
}

#[test]
fn rasters_too_small_for_an_interior() {
    assert_eq!(calculate_gradients(&[], 0, 0), Vec::<i16>::new());
    assert_eq!(calculate_gradients(&[], 3, 0), Vec::<i16>::new());
    assert_eq!(calculate_gradients(&[1, 200, 3], 3, 1), vec![0; 6]);
    assert_eq!(calculate_gradients(&[1, 200, 3, 4, 5, 6], 2, 3), vec![0; 12]);
}
