use wfc_engine::catalog::ImageData;
use wfc_engine::engine::{Observe, RunState, Wfc};
use wfc_engine::render::render;
use wfc_engine::rng::Rng;
use wfc_engine::stats::{BuildError, GlobalStats, Rgba};

fn px(r: u8) -> Rgba {
    Rgba { r, g: 0, b: 0, a: 255 }
}

/// Two mutually compatible patterns: every pair is allowed in every
/// direction.
fn all_compatible_stats(weights: Vec<u32>, colors: Vec<Rgba>) -> GlobalStats {
    let n = weights.len();
    let compat = vec![vec![vec![true; n]; n]; 4];
    GlobalStats::new(weights, colors, compat).unwrap()
}

/// Pattern 0 is compatible with itself everywhere; pattern 1 is
/// compatible with itself horizontally but with nothing vertically
/// (the deliberately uncompatible edge pattern).
fn contradictory_stats() -> GlobalStats {
    let horizontal = vec![vec![true, false], vec![false, true]];
    let vertical = vec![vec![true, false], vec![false, false]];
    let compat = vec![
        horizontal.clone(),
        horizontal,
        vertical.clone(),
        vertical,
    ];
    GlobalStats::new(vec![1, 12], vec![px(1), px(2)], compat).unwrap()
}

#[test]
fn degenerate_two_by_two_completes_in_exactly_four_cycles() {
    let stats = all_compatible_stats(vec![1, 1], vec![px(10), px(20)]);
    let mut e = Wfc::from_stats(stats, 2, 2, 5).unwrap();
    // four select+sample cycles, one per cell, with no contradictions
    for _ in 0..4 {
        assert_eq!(e.step(), Observe::Incomplete);
    }
    assert_eq!(e.step(), Observe::Complete);
    assert_eq!(e.contradictions, 0);
    assert_eq!(e.state, RunState::Complete);
    // four observations plus the call that found nothing left
    assert_eq!(e.steps, 5);

    // a reset starts a fresh run over the same statistics without
    // reseeding: the stream state has moved on
    let fresh = Rng::seeded(5);
    assert!((e.rng.x, e.rng.y, e.rng.z, e.rng.w) != (fresh.x, fresh.y, fresh.z, fresh.w));
    e.reset();
    assert_eq!(e.state, RunState::Running);
    for _ in 0..4 {
        assert_eq!(e.step(), Observe::Incomplete);
    }
    assert_eq!(e.step(), Observe::Complete);
    assert_eq!(e.contradictions, 0);
    assert_eq!(e.steps, 10);
}

#[test]
fn contradiction_is_recovered_internally_and_never_surfaced() {
    let stats = contradictory_stats();
    let mut e = Wfc::from_stats(stats, 2, 2, 7).unwrap();
    let mut steps = 0u32;
    while e.state == RunState::Running && steps < 10_000 {
        // step never returns an error: contradictions rebuild the wave
        let _ = e.step();
        steps += 1;
    }
    assert_eq!(e.state, RunState::Complete);
    // the heavy uncompatible pattern was picked at least once first
    assert!(e.contradictions >= 1);
    // the run can only have completed with the compatible pattern in
    // every cell, and the drawn state is fully consistent
    let out = render(&e.wave, &e.stats);
    assert_eq!(out, vec![px(1); 4]);
}

#[test]
fn identical_engines_stay_identical() {
    let s1 = all_compatible_stats(vec![2, 3, 4], vec![px(1), px(2), px(3)]);
    let s2 = all_compatible_stats(vec![2, 3, 4], vec![px(1), px(2), px(3)]);
    let mut a = Wfc::from_stats(s1, 4, 3, 99).unwrap();
    let mut b = Wfc::from_stats(s2, 4, 3, 99).unwrap();
    for _ in 0..40 {
        let ra = a.step();
        let rb = b.step();
        assert_eq!(ra, rb);
        assert_eq!(a.state, b.state);
        assert_eq!(a.contradictions, b.contradictions);
        assert_eq!((a.rng.x, a.rng.y, a.rng.z, a.rng.w), (b.rng.x, b.rng.y, b.rng.z, b.rng.w));
        assert_eq!(render(&a.wave, &a.stats), render(&b.wave, &b.stats));
    }
    assert_eq!(a.state, RunState::Complete);
}

#[test]
fn different_seeds_advance_the_stream_differently() {
    let mut r1 = Rng::seeded(1);
    let mut r2 = Rng::seeded(2);
    let v1: Vec<u32> = (0..8).map(|_| r1.next_u32()).collect();
    let v2: Vec<u32> = (0..8).map(|_| r2.next_u32()).collect();
    assert_ne!(v1, v2);
    let mut r3 = Rng::seeded(1);
    let v3: Vec<u32> = (0..8).map(|_| r3.next_u32()).collect();
    assert_eq!(v1, v3);
}

#[test]
fn completion_bound_is_proportional_to_cell_count() {
    // all-compatible patterns never propagate a removal, so each step
    // decides exactly one of the 9 cells and the 10th reports done
    let stats = all_compatible_stats(vec![1, 1], vec![px(0), px(9)]);
    let mut e = Wfc::from_stats(stats, 3, 3, 123).unwrap();
    for _ in 0..9 {
        assert_eq!(e.step(), Observe::Incomplete);
    }
    assert_eq!(e.step(), Observe::Complete);
}

#[test]
fn tick_reports_completion_and_stays_complete() {
    // one pattern: every cell is already decided, so the first step of
    // the first tick completes the run
    let stats = all_compatible_stats(vec![1], vec![px(42)]);
    let mut e = Wfc::from_stats(stats, 2, 2, 0).unwrap();
    assert!(e.tick());
    assert_eq!(e.state, RunState::Complete);
    // only the completing call counted as an observation step
    assert_eq!(e.steps, 1);
    let rng_before = (e.rng.x, e.rng.y, e.rng.z, e.rng.w);
    assert!(e.tick());
    assert!(e.tick());
    // complete is terminal and idempotent: nothing moved
    assert_eq!(rng_before, (e.rng.x, e.rng.y, e.rng.z, e.rng.w));
    assert_eq!(e.steps, 1);
}

#[test]
fn render_takes_the_weighted_average_of_candidates() {
    let stats = all_compatible_stats(vec![1, 3], vec![px(100), px(200)]);
    let e = Wfc::from_stats(stats, 2, 2, 0).unwrap();
    let out = render(&e.wave, &e.stats);
    assert_eq!(out.len(), 4);
    // (100*1 + 200*3) / 4 = 175, identically for every fresh cell
    for c in &out {
        assert_eq!(c.r, 175);
        assert_eq!(c.a, 255);
    }
    // recomputing on an unchanged wave yields identical output
    assert_eq!(out, render(&e.wave, &e.stats));
}

#[test]
fn bad_grid_sizes_are_rejected() {
    let s1 = all_compatible_stats(vec![1], vec![px(0)]);
    let s2 = all_compatible_stats(vec![1], vec![px(0)]);
    assert!(matches!(Wfc::from_stats(s1, 0, 4, 0), Err(BuildError::BadGridSize)));
    assert!(matches!(Wfc::from_stats(s2, 4, 0, 0), Err(BuildError::BadGridSize)));
}

#[test]
fn reset_is_usable_after_completion() {
    let stats = all_compatible_stats(vec![1], vec![px(3)]);
    let mut e = Wfc::from_stats(stats, 2, 2, 1).unwrap();
    assert!(e.tick());
    e.reset();
    assert_eq!(e.state, RunState::Running);
    assert!(e.tick());
}

#[test]
fn image_driven_run_completes_and_renders_the_color() {
    let c = px(77);
    let img = ImageData::new(4, 4, vec![c; 16]).unwrap();
    // a uniform image yields one self-compatible pattern, so the very
    // first step decides everything
    let mut e = Wfc::new(&img, 5, 4, 3, false).unwrap();
    assert!(e.tick());
    let out = render(&e.wave, &e.stats);
    assert_eq!(out, vec![c; 20]);
}

#[test]
fn image_driven_runs_are_reproducible_from_the_seed() {
    let pix: Vec<Rgba> = (0u8..36).map(|k| px(k % 5)).collect();
    let img = ImageData::new(6, 6, pix).unwrap();
    let mut a = Wfc::new(&img, 4, 4, 2024, true).unwrap();
    let mut b = Wfc::new(&img, 4, 4, 2024, true).unwrap();
    for _ in 0..60 {
        assert_eq!(a.step(), b.step());
        assert_eq!(render(&a.wave, &a.stats), render(&b.wave, &b.stats));
    }
}
