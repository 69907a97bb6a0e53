use wfc_engine::stats::{BuildError, GlobalStats, Rgba};

fn px(r: u8) -> Rgba {
    Rgba { r, g: 0, b: 0, a: 255 }
}

fn full_table(n: usize, v: bool) -> Vec<Vec<Vec<bool>>> {
    vec![vec![vec![v; n]; n]; 4]
}

#[test]
fn well_formed_statistics_are_accepted() {
    let s = GlobalStats::new(vec![1, 2], vec![px(0), px(1)], full_table(2, true)).unwrap();
    assert_eq!(s.n_patterns, 2);
    assert_eq!(s.weights, vec![1, 2]);
}

#[test]
fn zero_weight_is_rejected() {
    let r = GlobalStats::new(vec![1, 0], vec![px(0), px(1)], full_table(2, true));
    assert!(matches!(r, Err(BuildError::BadStats)));
}

#[test]
fn empty_pattern_set_is_rejected() {
    let r = GlobalStats::new(vec![], vec![], full_table(0, true));
    assert!(matches!(r, Err(BuildError::BadStats)));
}

#[test]
fn mismatched_shapes_are_rejected() {
    let r = GlobalStats::new(vec![1, 1], vec![px(0)], full_table(2, true));
    assert!(matches!(r, Err(BuildError::BadStats)));
    let mut t = full_table(2, true);
    t[3].pop();
    let r = GlobalStats::new(vec![1, 1], vec![px(0), px(1)], t);
    assert!(matches!(r, Err(BuildError::BadStats)));
}

#[test]
fn asymmetric_compatibility_is_rejected() {
    // right says 0-1 is allowed, but left denies the mirror pair
    let mut t = full_table(2, true);
    t[1][1][0] = false;
    let r = GlobalStats::new(vec![1, 1], vec![px(0), px(1)], t);
    assert!(matches!(r, Err(BuildError::BadStats)));
}

#[test]
fn weight_sum_overflow_is_rejected() {
    let r = GlobalStats::new(
        vec![u32::MAX, 1],
        vec![px(0), px(1)],
        full_table(2, true),
    );
    assert!(matches!(r, Err(BuildError::BadStats)));
}
