use wfc_engine::observe::{sample, select};
use wfc_engine::rng::Rng;
use wfc_engine::stats::{GlobalStats, Rgba};
use wfc_engine::wave::Wave;

fn px(r: u8) -> Rgba {
    Rgba { r, g: 0, b: 0, a: 255 }
}

fn all_compatible_stats(weights: Vec<u32>) -> GlobalStats {
    let n = weights.len();
    let colors = (0..n).map(|k| px(k as u8)).collect();
    let compat = vec![vec![vec![true; n]; n]; 4];
    GlobalStats::new(weights, colors, compat).unwrap()
}

#[test]
fn select_prefers_the_more_determined_cell() {
    let s = all_compatible_stats(vec![1, 1]);
    let mut w = Wave::new(2, 1, &s);
    w.collapse(0, 1, &s);
    // cell 0 is decided, so cell 1 is the only undecided cell and the
    // tie group has one member: the choice is forced
    let mut rng = Rng::seeded(0);
    assert_eq!(select(&w, &s, &mut rng), Some(1));
}

#[test]
fn select_reports_nothing_when_every_cell_is_decided() {
    let s = all_compatible_stats(vec![1]);
    let w = Wave::new(3, 2, &s);
    let mut rng = Rng::seeded(9);
    let before = (rng.x, rng.y, rng.z, rng.w);
    assert_eq!(select(&w, &s, &mut rng), None);
    // no cell was chosen, so the stream was not consumed
    assert_eq!(before, (rng.x, rng.y, rng.z, rng.w));
}

#[test]
fn sample_returns_a_candidate_and_is_deterministic() {
    let s = all_compatible_stats(vec![1, 3, 2]);
    let w = Wave::new(2, 2, &s);
    let mut r1 = Rng::seeded(31);
    let mut r2 = Rng::seeded(31);
    let p1 = sample(&w.cells[0].possible, &s, &mut r1);
    let p2 = sample(&w.cells[0].possible, &s, &mut r2);
    assert_eq!(p1, p2);
    assert!(p1 < 3);
    assert!(w.cells[0].possible[p1]);
}
