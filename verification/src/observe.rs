use vstd::prelude::*;
use crate::rng::{Rng, spec_rng_next, spec_rng_value};
use crate::stats::{
    GlobalStats, lemma_sum_weights_ge_len, lemma_sum_weights_mono, stats_wf, sum_weights,
};
use crate::wave::{Wave, cell_count, cell_seq, count_true, lemma_count_true_bounds,
    lemma_count_true_pos, wave_wf, cell_wf};

verus! {

/// The summed frequency weight of the candidates of `cell` with ids
/// in `[lo, hi)`.
pub open spec fn cell_wsum(cell: Seq<bool>, w: Seq<u32>, lo: int, hi: int) -> int
    decreases hi - lo,
{
    if lo >= hi {
        0
    } else {
        (if cell[lo] {
            w[lo] as int
        } else {
            0int
        }) + cell_wsum(cell, w, lo + 1, hi)
    }
}

/// Extending the range by one slot adds that slot's contribution.
pub proof fn lemma_wsum_extend(cell: Seq<bool>, w: Seq<u32>, lo: int, hi: int)
    requires
        lo <= hi,
    ensures
        cell_wsum(cell, w, lo, hi + 1) == cell_wsum(cell, w, lo, hi) + (if cell[hi] {
            w[hi] as int
        } else {
            0int
        }),
    decreases hi - lo,
{
    if lo < hi {
        lemma_wsum_extend(cell, w, lo + 1, hi);
        assert(cell_wsum(cell, w, lo, hi + 1) == (if cell[lo] {
            w[lo] as int
        } else {
            0int
        }) + cell_wsum(cell, w, lo + 1, hi + 1));
    } else {
        assert(cell_wsum(cell, w, lo + 1, hi + 1) == 0);
        assert(cell_wsum(cell, w, lo, hi + 1) == (if cell[lo] {
            w[lo] as int
        } else {
            0int
        }) + cell_wsum(cell, w, lo + 1, hi + 1));
    }
}

/// The weight of a candidate set is non-negative.
pub proof fn lemma_wsum_nonneg(cell: Seq<bool>, w: Seq<u32>, lo: int, hi: int)
    ensures
        cell_wsum(cell, w, lo, hi) >= 0,
    decreases hi - lo,
{
    if lo < hi {
        lemma_wsum_nonneg(cell, w, lo + 1, hi);
    }
}

/// A candidate set weighs at most the whole pattern set.
pub proof fn lemma_wsum_le_sum(cell: Seq<bool>, w: Seq<u32>, k: int)
    requires
        0 <= k,
    ensures
        cell_wsum(cell, w, 0, k) <= sum_weights(w, k),
    decreases k,
{
    if k > 0 {
        lemma_wsum_le_sum(cell, w, k - 1);
        lemma_wsum_extend(cell, w, 0, k - 1);
    }
}

/// A member's weight bounds the set's weight from below.
pub proof fn lemma_wsum_member_lower(cell: Seq<bool>, w: Seq<u32>, p: int, lo: int, hi: int)
    requires
        lo <= p < hi,
        cell[p],
    ensures
        cell_wsum(cell, w, lo, hi) >= w[p],
    decreases hi - lo,
{
    if lo == p {
        lemma_wsum_nonneg(cell, w, lo + 1, hi);
    } else {
        lemma_wsum_member_lower(cell, w, p, lo + 1, hi);
    }
}

/// The uncertainty key of a candidate set, ordered so that a smaller
/// key means a more determined cell: the candidate count, with the
/// summed candidate weight as tie-breaker.  This integer pair stands
/// in for the weighted entropy of the normalized frequency weights:
/// both orders agree that fewer remaining candidates means less
/// uncertainty, and the engine avoids floating point by design.
pub open spec fn spec_cell_key(cell: Seq<bool>, w: Seq<u32>, np: int) -> int {
    count_true(cell) * 0x1_0000_0000 + cell_wsum(cell, w, 0, np)
}

/// How many of the first `k` cells are undecided (more than one
/// candidate) and have uncertainty key `key`.
pub open spec fn matches_upto(w: Wave, s: GlobalStats, key: int, k: int) -> int
    decreases k,
{
    if k <= 0 {
        0
    } else {
        matches_upto(w, s, key, k - 1) + if cell_count(w, k - 1) > 1 && spec_cell_key(
            cell_seq(w, k - 1),
            s.weights@,
            s.n_patterns as int,
        ) == key {
            1int
        } else {
            0int
        }
    }
}

/// The candidate id picked by walking the candidates of `cell` in id
/// order and spending `r` units of weight: the first candidate whose
/// weight exceeds what is left of `r`.
pub open spec fn spec_weighted_pick(cell: Seq<bool>, w: Seq<u32>, idx: int, r: int, np: int) -> int
    decreases np - idx,
{
    if idx >= np {
        np
    } else if cell[idx] && r < w[idx] {
        idx
    } else if cell[idx] {
        spec_weighted_pick(cell, w, idx + 1, r - w[idx], np)
    } else {
        spec_weighted_pick(cell, w, idx + 1, r, np)
    }
}

/// The summed weight of a cell's candidates, bounded by the total
/// pattern weight.
fn cell_weight_sum(cell: &Vec<bool>, s: &GlobalStats) -> (t: u64)
    requires
        stats_wf(*s),
        cell@.len() == s.n_patterns,
    ensures
        t == cell_wsum(cell@, s.weights@, 0, s.n_patterns as int),
        t <= sum_weights(s.weights@, s.n_patterns as int),
{
    let np = s.n_patterns;
    let mut t: u64 = 0;
    let mut p: usize = 0;
    while p < np
        invariant
            stats_wf(*s),
            np == s.n_patterns,
            cell@.len() == np,
            p <= np,
            t == cell_wsum(cell@, s.weights@, 0, p as int),
            t <= sum_weights(s.weights@, p as int),
        decreases np - p,
    {
        proof {
            lemma_wsum_extend(cell@, s.weights@, 0, p as int);
            lemma_sum_weights_mono(s.weights@, p as int + 1, np as int);
        }
        if cell[p] {
            t = t + (s.weights[p] as u64);
        }
        p += 1;
    }
    t
}

/// The uncertainty key of one cell.
fn cell_key(cell: &Vec<bool>, count: usize, s: &GlobalStats) -> (k: u64)
    requires
        stats_wf(*s),
        cell@.len() == s.n_patterns,
        count == count_true(cell@),
    ensures
        k == spec_cell_key(cell@, s.weights@, s.n_patterns as int),
{
    let t = cell_weight_sum(cell, s);
    proof {
        lemma_count_true_bounds(cell@);
        lemma_sum_weights_ge_len(s.weights@, s.n_patterns as int);
        lemma_wsum_nonneg(cell@, s.weights@, 0, s.n_patterns as int);
    }
    (count as u64) * 0x1_0000_0000u64 + t
}

/// Choose the next cell to decide: among the cells with more than one
/// candidate, the one with the lowest uncertainty key, ties broken by
/// one draw from the shared random stream.  Returns nothing exactly
/// when every cell is decided (the run is complete); the stream is
/// consumed only when a cell is returned.
pub fn select(w: &Wave, s: &GlobalStats, rng: &mut Rng) -> (r: Option<usize>)
    requires
        stats_wf(*s),
        wave_wf(*w, *s),
    ensures
        match r {
            None => (forall|i: int| 0 <= i < w.cells@.len() ==> #[trigger] cell_count(*w, i) <= 1)
                && *final(rng) == *old(rng),
            Some(i) => {
                let key = spec_cell_key(cell_seq(*w, i as int), s.weights@, s.n_patterns as int);
                &&& i < w.cells@.len()
                &&& cell_count(*w, i as int) > 1
                &&& (forall|k: int|
                    0 <= k < w.cells@.len() && #[trigger] cell_count(*w, k) > 1 ==> key
                        <= spec_cell_key(cell_seq(*w, k), s.weights@, s.n_patterns as int))
                &&& matches_upto(*w, *s, key, i as int) == spec_rng_value(*old(rng)) as int
                    % matches_upto(*w, *s, key, w.cells@.len() as int)
                &&& *final(rng) == spec_rng_next(*old(rng))
            },
        },
{
    let ncells = w.cells.len();
    let np = s.n_patterns;
    // lowest key among undecided cells
    let mut found = false;
    let mut best: u64 = 0;
    let mut i: usize = 0;
    while i < ncells
        invariant
            stats_wf(*s),
            wave_wf(*w, *s),
            np == s.n_patterns,
            ncells == w.cells@.len(),
            i <= ncells,
            !found ==> (forall|k: int| 0 <= k < i ==> #[trigger] cell_count(*w, k) <= 1),
            found ==> (exists|k: int|
                0 <= k < i && #[trigger] cell_count(*w, k) > 1 && spec_cell_key(
                    cell_seq(*w, k),
                    s.weights@,
                    np as int,
                ) == best),
            found ==> (forall|k: int|
                0 <= k < i && #[trigger] cell_count(*w, k) > 1 ==> best <= spec_cell_key(
                    cell_seq(*w, k),
                    s.weights@,
                    np as int,
                )),
        decreases ncells - i,
    {
        proof {
            assert(cell_wf(w.cells@[i as int], np as int));
        }
        if w.cells[i].count > 1 {
            let k = cell_key(&w.cells[i].possible, w.cells[i].count, s);
            if !found || k < best {
                best = k;
                found = true;
                proof {
                    assert(cell_count(*w, i as int) > 1 && spec_cell_key(
                        cell_seq(*w, i as int),
                        s.weights@,
                        np as int,
                    ) == best);
                }
            }
        }
        i += 1;
    }
    if !found {
        return None;
    }
    // count the cells tied at the lowest key
    let mut ties: usize = 0;
    let mut i: usize = 0;
    while i < ncells
        invariant
            stats_wf(*s),
            wave_wf(*w, *s),
            np == s.n_patterns,
            ncells == w.cells@.len(),
            i <= ncells,
            ties == matches_upto(*w, *s, best as int, i as int),
            ties <= i,
            exists|k: int|
                0 <= k < ncells && #[trigger] cell_count(*w, k) > 1 && spec_cell_key(
                    cell_seq(*w, k),
                    s.weights@,
                    np as int,
                ) == best,
            forall|k: int|
                0 <= k < ncells && #[trigger] cell_count(*w, k) > 1 ==> best <= spec_cell_key(
                    cell_seq(*w, k),
                    s.weights@,
                    np as int,
                ),
        decreases ncells - i,
    {
        proof {
            assert(cell_wf(w.cells@[i as int], np as int));
        }
        if w.cells[i].count > 1 {
            let k = cell_key(&w.cells[i].possible, w.cells[i].count, s);
            if k == best {
                ties += 1;
            }
        }
        i += 1;
    }
    proof {
        let bk = choose|k: int|
            0 <= k < ncells && #[trigger] cell_count(*w, k) > 1 && spec_cell_key(
                cell_seq(*w, k),
                s.weights@,
                np as int,
            ) == best;
        lemma_matches_member(*w, *s, best as int, bk, ncells as int);
    }
    // pick the (r+1)-th tied cell with one draw from the stream
    let r = rng.next_below_usize(ties);
    let mut seen: usize = 0;
    let mut i: usize = 0;
    while i < ncells
        invariant
            stats_wf(*s),
            wave_wf(*w, *s),
            np == s.n_patterns,
            ncells == w.cells@.len(),
            i <= ncells,
            seen == matches_upto(*w, *s, best as int, i as int),
            seen <= r,
            r < ties,
            ties == matches_upto(*w, *s, best as int, ncells as int),
            (r as int) == spec_rng_value(*old(rng)) as int % (ties as int),
            *rng == spec_rng_next(*old(rng)),
            forall|k: int|
                0 <= k < ncells && #[trigger] cell_count(*w, k) > 1 ==> best <= spec_cell_key(
                    cell_seq(*w, k),
                    s.weights@,
                    np as int,
                ),
        decreases ncells - i,
    {
        proof {
            assert(cell_wf(w.cells@[i as int], np as int));
        }
        if w.cells[i].count > 1 {
            let k = cell_key(&w.cells[i].possible, w.cells[i].count, s);
            if k == best {
                if seen == r {
                    proof {
                        assert(cell_count(*w, i as int) > 1);
                        assert(spec_cell_key(cell_seq(*w, i as int), s.weights@, np as int)
                            == best);
                    }
                    return Some(i);
                }
                seen += 1;
            }
        }
        i += 1;
    }
    proof {
        assert(false);
    }
    None
}

/// A key that some prefix cell carries is counted at least once over
/// that prefix.
proof fn lemma_matches_member(w: Wave, s: GlobalStats, key: int, m: int, k: int)
    requires
        0 <= m < k,
        cell_count(w, m) > 1,
        spec_cell_key(cell_seq(w, m), s.weights@, s.n_patterns as int) == key,
    ensures
        matches_upto(w, s, key, k) >= 1,
        matches_upto(w, s, key, k) >= matches_upto(w, s, key, m),
    decreases k,
{
    if m == k - 1 {
        lemma_matches_nonneg(w, s, key, m);
    } else {
        lemma_matches_member(w, s, key, m, k - 1);
    }
}

/// The tie count never falls as the prefix grows.
proof fn lemma_matches_mono(w: Wave, s: GlobalStats, key: int, a: int, b: int)
    requires
        a <= b,
    ensures
        matches_upto(w, s, key, a) <= matches_upto(w, s, key, b),
    decreases b - a,
{
    if a < b {
        lemma_matches_mono(w, s, key, a, b - 1);
    }
}

/// Observation is deterministic: the contract of `select` pins the
/// chosen cell.  Any two undecided cells that both carry the minimal
/// uncertainty key and are preceded by the same number of cells tied
/// at their key are the same cell, so two runs over equal state and
/// equal draws observe the same cell.
pub proof fn lemma_select_deterministic(w: Wave, s: GlobalStats, i1: int, i2: int)
    requires
        0 <= i1 < w.cells@.len(),
        0 <= i2 < w.cells@.len(),
        cell_count(w, i1) > 1,
        cell_count(w, i2) > 1,
        forall|k: int|
            0 <= k < w.cells@.len() && #[trigger] cell_count(w, k) > 1 ==> spec_cell_key(
                cell_seq(w, i1),
                s.weights@,
                s.n_patterns as int,
            ) <= spec_cell_key(cell_seq(w, k), s.weights@, s.n_patterns as int),
        forall|k: int|
            0 <= k < w.cells@.len() && #[trigger] cell_count(w, k) > 1 ==> spec_cell_key(
                cell_seq(w, i2),
                s.weights@,
                s.n_patterns as int,
            ) <= spec_cell_key(cell_seq(w, k), s.weights@, s.n_patterns as int),
        matches_upto(w, s, spec_cell_key(cell_seq(w, i1), s.weights@, s.n_patterns as int), i1)
            == matches_upto(
            w,
            s,
            spec_cell_key(cell_seq(w, i2), s.weights@, s.n_patterns as int),
            i2,
        ),
    ensures
        i1 == i2,
{
    let key1 = spec_cell_key(cell_seq(w, i1), s.weights@, s.n_patterns as int);
    let key2 = spec_cell_key(cell_seq(w, i2), s.weights@, s.n_patterns as int);
    assert(key1 <= key2);
    assert(key2 <= key1);
    if i1 < i2 {
        assert(matches_upto(w, s, key1, i1 + 1) == matches_upto(w, s, key1, i1) + 1);
        lemma_matches_mono(w, s, key1, i1 + 1, i2);
        assert(false);
    }
    if i2 < i1 {
        assert(matches_upto(w, s, key1, i2 + 1) == matches_upto(w, s, key1, i2) + 1);
        lemma_matches_mono(w, s, key1, i2 + 1, i1);
        assert(false);
    }
}

/// Match counts are non-negative.
proof fn lemma_matches_nonneg(w: Wave, s: GlobalStats, key: int, k: int)
    ensures
        matches_upto(w, s, key, k) >= 0,
    decreases k,
{
    if k > 0 {
        lemma_matches_nonneg(w, s, key, k - 1);
    }
}

/// Sample one pattern for a chosen cell, with probability
/// proportional to each candidate's global frequency weight,
/// consuming one draw from the shared random stream.  The result is
/// always one of the cell's candidates and is pinned exactly by the
/// stream state: the draw spends its value along the candidates in id
/// order.
pub fn sample(cell: &Vec<bool>, s: &GlobalStats, rng: &mut Rng) -> (p: usize)
    requires
        stats_wf(*s),
        cell@.len() == s.n_patterns,
        count_true(cell@) >= 1,
    ensures
        p < s.n_patterns,
        cell@[p as int],
        p == spec_weighted_pick(
            cell@,
            s.weights@,
            0,
            spec_rng_value(*old(rng)) as int % cell_wsum(cell@, s.weights@, 0, s.n_patterns as int),
            s.n_patterns as int,
        ),
        *final(rng) == spec_rng_next(*old(rng)),
{
    let np = s.n_patterns;
    let t = cell_weight_sum(cell, s);
    proof {
        lemma_count_true_pos(cell@);
        let m = choose|m: int| 0 <= m < cell@.len() && #[trigger] cell@[m];
        lemma_wsum_member_lower(cell@, s.weights@, m, 0, np as int);
    }
    let draw = rng.next_below((t as u32)) as u64;
    let ghost r0 = draw as int;
    let mut rem = draw;
    let mut idx: usize = 0;
    while idx < np
        invariant
            stats_wf(*s),
            np == s.n_patterns,
            cell@.len() == np,
            idx <= np,
            (rem as int) < cell_wsum(cell@, s.weights@, idx as int, np as int),
            spec_weighted_pick(cell@, s.weights@, idx as int, rem as int, np as int)
                == spec_weighted_pick(cell@, s.weights@, 0, r0, np as int),
            r0 == spec_rng_value(*old(rng)) as int % cell_wsum(
                cell@,
                s.weights@,
                0,
                np as int,
            ),
            *rng == spec_rng_next(*old(rng)),
        decreases np - idx,
    {
        if cell[idx] {
            let wi = s.weights[idx];
            if rem < wi as u64 {
                return idx;
            }
            rem = rem - (wi as u64);
        }
        idx += 1;
    }
    proof {
        assert(cell_wsum(cell@, s.weights@, np as int, np as int) == 0);
        lemma_wsum_nonneg(cell@, s.weights@, np as int, np as int);
        assert(false);
    }
    0
}

} // verus!
