use wfc_engine::catalog::{ImageData, build_catalog};
use wfc_engine::stats::{BuildError, Rgba};

fn px(r: u8, g: u8, b: u8) -> Rgba {
    Rgba { r, g, b, a: 255 }
}

#[test]
fn uniform_image_gives_single_self_compatible_pattern() {
    let c = px(10, 20, 30);
    let img = ImageData::new(3, 3, vec![c; 9]).unwrap();
    let cat = build_catalog(&img, 3, false).unwrap();
    assert_eq!(cat.stats.n_patterns, 1);
    assert_eq!(cat.stats.weights, vec![9]);
    assert_eq!(cat.stats.colors, vec![c]);
    for d in 0..4 {
        assert!(cat.stats.compat[d][0][0]);
    }
}

#[test]
fn rotations_multiply_the_weight_sum() {
    let c = px(7, 7, 7);
    let img = ImageData::new(3, 3, vec![c; 9]).unwrap();
    let cat = build_catalog(&img, 3, true).unwrap();
    // a uniform image is invariant under all 8 transforms
    assert_eq!(cat.stats.n_patterns, 1);
    assert_eq!(cat.stats.weights, vec![72]);
}

#[test]
fn single_pixel_patterns_intern_each_color_once() {
    let a = px(1, 0, 0);
    let b = px(2, 0, 0);
    let img = ImageData::new(2, 1, vec![a, b]).unwrap();
    let cat = build_catalog(&img, 1, false).unwrap();
    assert_eq!(cat.stats.n_patterns, 2);
    assert_eq!(cat.stats.weights, vec![1, 1]);
    assert_eq!(cat.stats.colors, vec![a, b]);
    // with pattern size 1 the overlap region is empty, so every pair
    // is compatible in every direction
    for d in 0..4 {
        for i in 0..2 {
            for j in 0..2 {
                assert!(cat.stats.compat[d][i][j]);
            }
        }
    }
}

#[test]
fn repeated_colors_accumulate_frequency() {
    let a = px(1, 0, 0);
    let b = px(2, 0, 0);
    let img = ImageData::new(2, 2, vec![a, b, a, a]).unwrap();
    let cat = build_catalog(&img, 1, false).unwrap();
    assert_eq!(cat.stats.n_patterns, 2);
    assert_eq!(cat.stats.weights, vec![3, 1]);
}

#[test]
fn compatibility_table_is_symmetric_across_opposite_directions() {
    let pix: Vec<Rgba> = (0u8..16).map(|k| px(k, 2 * k, 3 * k)).collect();
    let img = ImageData::new(4, 4, pix).unwrap();
    let cat = build_catalog(&img, 2, true).unwrap();
    let n = cat.stats.n_patterns;
    let opp = [1, 0, 3, 2];
    for d in 0..4 {
        for a in 0..n {
            for b in 0..n {
                assert_eq!(cat.stats.compat[d][a][b], cat.stats.compat[opp[d]][b][a]);
            }
        }
    }
}

#[test]
fn two_by_two_blocks_overlap_as_expected() {
    let a = px(1, 0, 0);
    let b = px(2, 0, 0);
    let c = px(3, 0, 0);
    let d = px(4, 0, 0);
    let img = ImageData::new(2, 2, vec![a, b, c, d]).unwrap();
    let cat = build_catalog(&img, 2, false).unwrap();
    // the four wrapped offsets give four distinct blocks
    assert_eq!(cat.stats.n_patterns, 4);
    assert_eq!(cat.stats.weights, vec![1, 1, 1, 1]);
    // pattern 0 is [a b / c d], pattern 1 is [b a / d c]; the right
    // column of 0 equals the left column of 1, so 1 may sit right of 0
    assert!(cat.stats.compat[0][0][1]);
    // and symmetrically 0 may sit left of 1
    assert!(cat.stats.compat[1][1][0]);
    // but 0 may not sit to the right of itself (columns differ)
    assert!(!cat.stats.compat[0][0][0]);
}

#[test]
fn pattern_larger_than_image_is_rejected() {
    let img = ImageData::new(2, 2, vec![px(0, 0, 0); 4]).unwrap();
    assert!(matches!(build_catalog(&img, 3, false), Err(BuildError::PatternTooLarge)));
    assert!(matches!(build_catalog(&img, 0, false), Err(BuildError::PatternTooLarge)));
}

#[test]
fn empty_or_mismatched_images_are_rejected() {
    assert!(matches!(ImageData::new(0, 3, vec![]), Err(BuildError::EmptyImage)));
    assert!(matches!(ImageData::new(3, 0, vec![]), Err(BuildError::EmptyImage)));
    assert!(matches!(
        ImageData::new(2, 2, vec![px(0, 0, 0); 3]),
        Err(BuildError::EmptyImage)
    ));
}
