use wasm_blur::hysteresis::{
    edge_map_to_binary, hysteresis_thresholding, hysteresis_thresholding_binary, NON_EDGE, STRONG,
    WEAK,
};

#[test]
fn test_hysteresis_thresholding_basic() {
    let width = 5;
    let height = 5;
    let mut suppressed = vec![0; 25];

    suppressed[12] = 255; // centre pixel: strong edge
    suppressed[11] = 100; // left neighbour: weak edge
    suppressed[13] = 100; // right neighbour: weak edge
    suppressed[7] = 100; // top neighbour: weak edge
    suppressed[17] = 100; // bottom neighbour: weak edge

    let low_threshold = 75;
    let high_threshold = 200;

    let edge_map =
        hysteresis_thresholding(&suppressed, width, height, low_threshold, high_threshold);

    assert_eq!(edge_map[12], 2);

    assert_eq!(edge_map[11], 2);
    assert_eq!(edge_map[13], 2);
    assert_eq!(edge_map[7], 2);
    assert_eq!(edge_map[17], 2);

    assert_eq!(edge_map[0], 1);
    assert_eq!(edge_map[4], 1);
    assert_eq!(edge_map[20], 1);
    assert_eq!(edge_map[24], 1);
}

#[test]
fn test_edge_map_to_binary() {
    let edge_map = vec![0, 1, 2, 0, 1, 2];
    let binary = edge_map_to_binary(&edge_map);

    assert_eq!(binary, vec![0, 0, 255, 0, 0, 255]);
}

#[test]
fn test_hysteresis_thresholding_binary() {
    let width = 5;
    let height = 5;
    let mut suppressed = vec![0; 25];

    suppressed[12] = 255;
    suppressed[11] = 100;
    suppressed[13] = 100;

    let low_threshold = 75;
    let high_threshold = 200;

    let binary =
        hysteresis_thresholding_binary(&suppressed, width, height, low_threshold, high_threshold);

    assert_eq!(binary[12], 255);
    assert_eq!(binary[11], 255);
    assert_eq!(binary[13], 255);

    assert_eq!(binary[0], 0);
    assert_eq!(binary[1], 0);
    assert_eq!(binary[2], 0);
}

#[test]
fn tracked_mask_of_cross_pattern() {
    let mut suppressed = vec![0; 25];
    suppressed[12] = 255;
    suppressed[11] = 100;
    suppressed[13] = 100;
    suppressed[7] = 100;
    suppressed[17] = 100;

    let binary = hysteresis_thresholding_binary(&suppressed, 5, 5, 75, 200);

    let mut expected = vec![0u8; 25];
    for i in [7, 11, 12, 13, 17] {
        expected[i] = 255;
    }
    assert_eq!(binary, expected);
}

#[test]
fn seeds_in_the_interior_of_a_large_field() {
    let width = 100;
    let height = 100;
    let mut suppressed = vec![50; width * height];
    for i in (1001..2001).step_by(100) {
        suppressed[i] = 255;
    }

    let binary = hysteresis_thresholding_binary(&suppressed, width, height, 75, 200);

    let edge_count = binary.iter().filter(|&&x| x == 255).count();
    assert_eq!(edge_count, 10);
    assert_eq!(binary[1001], 255);
    assert_eq!(binary[1002], 0);
}

#[test]
fn test_performance_chunked_processing() {
    let width = 100;
    let height = 100;
    let mut suppressed = vec![50; width * height];

    for i in (1000..2000).step_by(100) {
        suppressed[i] = 255;
    }

    let low_threshold = 75;
    let high_threshold = 200;

    let binary =
        hysteresis_thresholding_binary(&suppressed, width, height, low_threshold, high_threshold);

    // Every strong magnitude lies in column 0, on the border, which seeds no edge.
    let edge_count = binary.iter().filter(|&&x| x == 255).count();
    assert_eq!(edge_count, 0);
}

#[test]
fn weak_pixels_without_a_seed_stay_weak() {
    let mut suppressed = vec![0; 25];
    suppressed[6] = 100;
    suppressed[7] = 100;
    suppressed[18] = 250;

    let edge_map = hysteresis_thresholding(&suppressed, 5, 5, 75, 200);

    assert_eq!(edge_map[6], WEAK);
    assert_eq!(edge_map[7], WEAK);
    assert_eq!(edge_map[18], STRONG);
    assert_eq!(edge_map[12], NON_EDGE);
    let binary = hysteresis_thresholding_binary(&suppressed, 5, 5, 75, 200);
    assert_eq!(binary[6], 0);
    assert_eq!(binary[7], 0);
    assert_eq!(binary[18], 255);
}

#[test]
fn edges_grow_along_a_chain_and_around_corners() {
    // 6 x 5 field; a chain of weak pixels leads away from one seed.
    let width = 6;
    let height = 5;
    let mut suppressed = vec![0; width * height];
    suppressed[7] = 200; // (1, 1): seed
    suppressed[14] = 80; // (2, 2): diagonal neighbour
    suppressed[21] = 80; // (3, 3)
    suppressed[22] = 80; // (4, 3)
    suppressed[10] = 80; // (4, 1): not connected

    let edge_map = hysteresis_thresholding(&suppressed, width, height, 80, 200);

    assert_eq!(edge_map[7], STRONG);
    assert_eq!(edge_map[14], STRONG);
    assert_eq!(edge_map[21], STRONG);
    assert_eq!(edge_map[22], STRONG);
    assert_eq!(edge_map[10], WEAK);
}

#[test]
fn thresholds_are_inclusive() {
    let mut suppressed = vec![0; 9];
    suppressed[4] = 200;
    assert_eq!(hysteresis_thresholding(&suppressed, 3, 3, 75, 200)[4], STRONG);
    assert_eq!(hysteresis_thresholding(&suppressed, 3, 3, 200, 201)[4], WEAK);
    assert_eq!(hysteresis_thresholding(&suppressed, 3, 3, 201, 202)[4], NON_EDGE);
}

#[test]
fn low_threshold_above_high_threshold() {
    let mut suppressed = vec![0; 25];
    suppressed[12] = 150;
    suppressed[13] = 120;

    let edge_map = hysteresis_thresholding(&suppressed, 5, 5, 200, 100);

    assert_eq!(edge_map[12], STRONG);
    assert_eq!(edge_map[13], STRONG);
    assert_eq!(edge_map[11], NON_EDGE);
}

#[test]
fn rasters_without_interior() {
    assert_eq!(hysteresis_thresholding(&[], 0, 0, 1, 2), Vec::<u8>::new());
    assert_eq!(hysteresis_thresholding(&[], 0, 7, 1, 2), Vec::<u8>::new());
    assert_eq!(hysteresis_thresholding(&[9, 9, 9, 9], 2, 2, 1, 2), vec![1, 1, 1, 1]);
    assert_eq!(hysteresis_thresholding(&[9, 9, 9, 9, 9, 9], 3, 2, 1, 2), vec![1; 6]);
    assert_eq!(hysteresis_thresholding_binary(&[9, 9, 9, 9, 9, 9], 2, 3, 1, 2), vec![0; 6]);
}

#[test]
fn threshold_above_every_magnitude() {
    let suppressed = vec![u32::MAX; 9];
    let edge_map = hysteresis_thresholding(&suppressed, 3, 3, 1 << 32, 1 << 40);
    assert_eq!(edge_map, vec![1; 9]);
    let edge_map = hysteresis_thresholding(&suppressed, 3, 3, 0, u32::MAX as u64);
    assert_eq!(edge_map[4], STRONG);
}

#[test]
fn binary_of_edge_map_is_the_direct_mask() {
    let width = 7;
    let height = 6;
    let mut suppressed = vec![0u32; width * height];
    for (i, value) in suppressed.iter_mut().enumerate() {
        *value = ((i * 37) % 101) as u32;
    }
    for (low, high) in [(10, 90), (50, 60), (0, 100), (80, 20), (101, 200)] {
        let edge_map = hysteresis_thresholding(&suppressed, width, height, low, high);
        let direct = hysteresis_thresholding_binary(&suppressed, width, height, low, high);
        assert_eq!(edge_map_to_binary(&edge_map), direct);
    }
}
