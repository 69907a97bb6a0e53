use vstd::prelude::*;
use crate::observe::{
    cell_wsum, lemma_wsum_extend, lemma_wsum_le_sum, lemma_wsum_member_lower, lemma_wsum_nonneg,
};
use crate::stats::{GlobalStats, Rgba, stats_wf, sum_weights};
use crate::wave::{Wave, cell_seq, cell_wf, count_true, lemma_count_true_pos, wave_alive, wave_wf};

verus! {

/// One channel of a color: 0 = red, 1 = green, 2 = blue, 3 = alpha.
pub open spec fn chan_of(c: Rgba, ch: int) -> u8 {
    if ch == 0 {
        c.r
    } else if ch == 1 {
        c.g
    } else if ch == 2 {
        c.b
    } else {
        c.a
    }
}

/// The weighted channel sum over the candidates among the first `k`
/// patterns: representative color channel times frequency weight.
pub open spec fn chan_wsum(cell: Seq<bool>, s: GlobalStats, ch: int, k: int) -> int
    decreases k,
{
    if k <= 0 {
        0
    } else {
        chan_wsum(cell, s, ch, k - 1) + if cell[k - 1] {
            chan_of(s.colors@[k - 1], ch) * s.weights@[k - 1]
        } else {
            0int
        }
    }
}

/// A weighted channel sum is non-negative and at most 255 times the
/// summed weight of the candidates.
pub proof fn lemma_chan_wsum_bounds(cell: Seq<bool>, s: GlobalStats, ch: int, k: int)
    requires
        0 <= k,
    ensures
        0 <= chan_wsum(cell, s, ch, k),
        chan_wsum(cell, s, ch, k) <= 255 * cell_wsum(cell, s.weights@, 0, k),
    decreases k,
{
    if k > 0 {
        lemma_chan_wsum_bounds(cell, s, ch, k - 1);
        lemma_wsum_extend(cell, s.weights@, 0, k - 1);
        if cell[k - 1] {
            assert(chan_of(s.colors@[k - 1], ch) * s.weights@[k - 1] <= 255 * s.weights@[k - 1])
                by (nonlinear_arith)
                requires
                    0 <= chan_of(s.colors@[k - 1], ch) <= 255,
                    s.weights@[k - 1] >= 0,
            ;
            assert(chan_of(s.colors@[k - 1], ch) * s.weights@[k - 1] >= 0) by (nonlinear_arith)
                requires
                    chan_of(s.colors@[k - 1], ch) >= 0,
                    s.weights@[k - 1] >= 0,
            ;
        }
    } else {
        assert(cell_wsum(cell, s.weights@, 0, 0) == 0);
    }
}

/// The weighted-average color of a candidate set: for each channel,
/// the weight-weighted sum of the candidates' representative colors,
/// divided by the summed weight.  One color per cell, whether the
/// cell is collapsed or still uncertain.  This is a pure function of
/// the candidate set, the frequency weights and the representative
/// colors and of nothing else.
pub open spec fn spec_avg_color(cell: Seq<bool>, s: GlobalStats) -> Rgba {
    let t = cell_wsum(cell, s.weights@, 0, s.n_patterns as int);
    Rgba {
        r: (chan_wsum(cell, s, 0, s.n_patterns as int) / t) as u8,
        g: (chan_wsum(cell, s, 1, s.n_patterns as int) / t) as u8,
        b: (chan_wsum(cell, s, 2, s.n_patterns as int) / t) as u8,
        a: (chan_wsum(cell, s, 3, s.n_patterns as int) / t) as u8,
    }
}

/// Recomputing the average color of an unchanged cell under unchanged
/// statistics yields an identical result: the color mapping depends on
/// the candidate set, the frequency weights and the representative
/// colors alone.
pub proof fn lemma_color_pure(c1: Seq<bool>, c2: Seq<bool>, s1: GlobalStats, s2: GlobalStats)
    requires
        c1 == c2,
        s1.weights == s2.weights,
        s1.colors == s2.colors,
        s1.n_patterns == s2.n_patterns,
    ensures
        spec_avg_color(c1, s1) == spec_avg_color(c2, s2),
{
    lemma_chan_eq(c1, s1, s2, 0, s1.n_patterns as int);
    lemma_chan_eq(c1, s1, s2, 1, s1.n_patterns as int);
    lemma_chan_eq(c1, s1, s2, 2, s1.n_patterns as int);
    lemma_chan_eq(c1, s1, s2, 3, s1.n_patterns as int);
}

/// Channel sums agree for statistics with the same weights and colors.
proof fn lemma_chan_eq(cell: Seq<bool>, s1: GlobalStats, s2: GlobalStats, ch: int, k: int)
    requires
        s1.weights == s2.weights,
        s1.colors == s2.colors,
    ensures
        chan_wsum(cell, s1, ch, k) == chan_wsum(cell, s2, ch, k),
    decreases k,
{
    if k > 0 {
        lemma_chan_eq(cell, s1, s2, ch, k - 1);
    }
}

/// The average color of one candidate set.
fn avg_color(cell: &Vec<bool>, s: &GlobalStats) -> (c: Rgba)
    requires
        stats_wf(*s),
        cell@.len() == s.n_patterns,
        count_true(cell@) >= 1,
    ensures
        c == spec_avg_color(cell@, *s),
{
    let np = s.n_patterns;
    let mut sr: u64 = 0;
    let mut sg: u64 = 0;
    let mut sb: u64 = 0;
    let mut sa: u64 = 0;
    let mut tw: u64 = 0;
    let mut p: usize = 0;
    while p < np
        invariant
            stats_wf(*s),
            np == s.n_patterns,
            cell@.len() == np,
            p <= np,
            tw == cell_wsum(cell@, s.weights@, 0, p as int),
            tw <= sum_weights(s.weights@, p as int),
            sr == chan_wsum(cell@, *s, 0, p as int),
            sg == chan_wsum(cell@, *s, 1, p as int),
            sb == chan_wsum(cell@, *s, 2, p as int),
            sa == chan_wsum(cell@, *s, 3, p as int),
        decreases np - p,
    {
        proof {
            lemma_wsum_extend(cell@, s.weights@, 0, p as int);
            crate::stats::lemma_sum_weights_mono(s.weights@, p as int + 1, np as int);
            lemma_chan_wsum_bounds(cell@, *s, 0, p as int + 1);
            lemma_chan_wsum_bounds(cell@, *s, 1, p as int + 1);
            lemma_chan_wsum_bounds(cell@, *s, 2, p as int + 1);
            lemma_chan_wsum_bounds(cell@, *s, 3, p as int + 1);
            lemma_wsum_le_sum(cell@, s.weights@, p as int + 1);
            lemma_sum_le_max(*s, p as int + 1);
        }
        if cell[p] {
            let wt = s.weights[p] as u64;
            let col = s.colors[p];
            sr = sr + (col.r as u64) * wt;
            sg = sg + (col.g as u64) * wt;
            sb = sb + (col.b as u64) * wt;
            sa = sa + (col.a as u64) * wt;
            tw = tw + wt;
        }
        p += 1;
    }
    proof {
        lemma_count_true_pos(cell@);
        let m = choose|m: int| 0 <= m < cell@.len() && #[trigger] cell@[m];
        lemma_wsum_member_lower(cell@, s.weights@, m, 0, np as int);
        lemma_chan_wsum_bounds(cell@, *s, 0, np as int);
        lemma_chan_wsum_bounds(cell@, *s, 1, np as int);
        lemma_chan_wsum_bounds(cell@, *s, 2, np as int);
        lemma_chan_wsum_bounds(cell@, *s, 3, np as int);
        lemma_div_le_255(sr as int, tw as int);
        lemma_div_le_255(sg as int, tw as int);
        lemma_div_le_255(sb as int, tw as int);
        lemma_div_le_255(sa as int, tw as int);
    }
    Rgba {
        r: (sr / tw) as u8,
        g: (sg / tw) as u8,
        b: (sb / tw) as u8,
        a: (sa / tw) as u8,
    }
}

/// A weighted channel sum divided by the (positive) total weight is a
/// valid channel value.
proof fn lemma_div_le_255(n: int, t: int)
    requires
        t >= 1,
        0 <= n <= 255 * t,
    ensures
        0 <= n / t <= 255,
{
    assert(0 <= n / t <= 255) by (nonlinear_arith)
        requires
            t >= 1,
            0 <= n <= 255 * t,
    ;
}

/// The total pattern weight bounds any prefix sum.
proof fn lemma_sum_le_max(s: GlobalStats, k: int)
    requires
        stats_wf(s),
        0 <= k <= s.n_patterns,
    ensures
        sum_weights(s.weights@, k) <= u32::MAX,
{
    crate::stats::lemma_sum_weights_mono(s.weights@, k, s.n_patterns as int);
}

/// The color of every cell of the wave, row-major: the weighted
/// average of each cell's remaining candidates.  The host scales the
/// grid onto its drawing surface and paints one solid rectangle per
/// cell; the engine owns no pixels.
pub fn render(w: &Wave, s: &GlobalStats) -> (out: Vec<Rgba>)
    requires
        stats_wf(*s),
        wave_wf(*w, *s),
        wave_alive(*w),
    ensures
        out@.len() == w.cells@.len(),
        forall|i: int|
            0 <= i < w.cells@.len() ==> #[trigger] out@[i] == spec_avg_color(cell_seq(*w, i), *s),
{
    let ncells = w.cells.len();
    let mut out: Vec<Rgba> = Vec::new();
    let mut i: usize = 0;
    while i < ncells
        invariant
            stats_wf(*s),
            wave_wf(*w, *s),
            wave_alive(*w),
            ncells == w.cells@.len(),
            i <= ncells,
            out@.len() == i,
            forall|k: int|
                0 <= k < i ==> #[trigger] out@[k] == spec_avg_color(cell_seq(*w, k), *s),
        decreases ncells - i,
    {
        proof {
            assert(cell_wf(w.cells@[i as int], s.n_patterns as int));
            assert(crate::wave::cell_count(*w, i as int) >= 1);
        }
        let c = avg_color(&w.cells[i].possible, s);
        out.push(c);
        i += 1;
    }
    out
}

} // verus!
