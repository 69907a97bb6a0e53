use vstd::prelude::*;

verus! {

/// One RGBA pixel.  All engine arithmetic on colors is exact integer
/// arithmetic on these four channels.
#[derive(Clone, Copy, PartialEq, Eq, Structural, Debug)]
pub struct Rgba {
    pub r: u8,
    pub g: u8,
    pub b: u8,
    pub a: u8,
}

/// An error reported at construction time.  Construction fails fast;
/// a contradiction during a run is never surfaced as an error.
#[derive(Clone, Copy, PartialEq, Eq, Structural, Debug)]
pub enum BuildError {
    /// The example image has no pixels, or its pixel buffer does not
    /// match its declared dimensions.
    EmptyImage,
    /// The pattern side length is zero or exceeds an image dimension.
    PatternTooLarge,
    /// A grid dimension is zero or the cell count exceeds the machine.
    BadGridSize,
    /// Directly supplied statistics are malformed (shape, zero weight,
    /// weight-sum overflow, or an asymmetric compatibility table).
    BadStats,
    /// The example image holds more windows than the frequency
    /// counters can tally (a machine limit, not a design one).
    ImageTooLarge,
}

/// The four cardinal directions, as indices into the compatibility
/// table: 0 = right (+x), 1 = left (-x), 2 = down (+y), 3 = up (-y).
pub open spec fn spec_opposite(d: int) -> int {
    if d == 0 {
        1
    } else if d == 1 {
        0
    } else if d == 2 {
        3
    } else {
        2
    }
}

/// The opposite of a direction index.
pub fn opposite(d: usize) -> (r: usize)
    requires
        d < 4,
    ensures
        r == spec_opposite(d as int),
        r < 4,
{
    if d == 0 {
        1
    } else if d == 1 {
        0
    } else if d == 2 {
        3
    } else {
        2
    }
}

/// Frequency and adjacency statistics derived once from the example
/// image (or supplied directly) and immutable for the engine's
/// lifetime.  `compat[d][a][b]` says that pattern `b` may sit adjacent
/// to pattern `a` in direction `d`.
pub struct GlobalStats {
    pub n_patterns: usize,
    /// How often each pattern occurred across the example image and
    /// its symmetry variants.  Every weight is at least 1.
    pub weights: Vec<u32>,
    /// One representative color per pattern (its center pixel).
    pub colors: Vec<Rgba>,
    /// `compat[d][a][b]`: pattern `b` may sit in direction `d` of `a`.
    pub compat: Vec<Vec<Vec<bool>>>,
}

/// Sum of the first `k` weights, as an unbounded integer.
pub open spec fn sum_weights(w: Seq<u32>, k: int) -> int
    decreases k,
{
    if k <= 0 {
        0
    } else {
        sum_weights(w, k - 1) + w[k - 1]
    }
}

/// The compatibility table entry for (direction, pattern, pattern).
pub open spec fn compat_at(s: GlobalStats, d: int, a: int, b: int) -> bool {
    s.compat@[d]@[a]@[b]
}

/// Well-formedness of the statistics: shapes agree, every weight is
/// positive, the total weight fits in 32 bits (so weighted draws and
/// color averages cannot overflow), and the table is symmetric across
/// opposite directions.
pub open spec fn stats_wf(s: GlobalStats) -> bool {
    &&& 1 <= s.n_patterns
    &&& s.weights@.len() == s.n_patterns
    &&& s.colors@.len() == s.n_patterns
    &&& s.compat@.len() == 4
    &&& (forall|d: int| 0 <= d < 4 ==> #[trigger] s.compat@[d]@.len() == s.n_patterns)
    &&& (forall|d: int, a: int|
        0 <= d < 4 && 0 <= a < s.n_patterns ==> #[trigger] s.compat@[d]@[a]@.len()
            == s.n_patterns)
    &&& (forall|p: int| 0 <= p < s.n_patterns ==> #[trigger] s.weights@[p] >= 1)
    &&& sum_weights(s.weights@, s.n_patterns as int) <= u32::MAX
    &&& (forall|d: int, a: int, b: int|
        0 <= d < 4 && 0 <= a < s.n_patterns && 0 <= b < s.n_patterns ==> #[trigger] compat_at(
            s,
            d,
            a,
            b,
        ) == compat_at(s, spec_opposite(d), b, a))
}

/// A prefix sum of weights never exceeds the full sum.
pub proof fn lemma_sum_weights_mono(w: Seq<u32>, j: int, k: int)
    requires
        0 <= j <= k,
    ensures
        sum_weights(w, j) <= sum_weights(w, k),
    decreases k,
{
    if j < k {
        lemma_sum_weights_mono(w, j, k - 1);
    }
}

/// Every single weight is bounded by the sum over any prefix that
/// contains it, provided weights are non-negative (they are, as u32).
pub proof fn lemma_sum_weights_nonneg(w: Seq<u32>, k: int)
    ensures
        0 <= sum_weights(w, k),
    decreases k,
{
    if k > 0 {
        lemma_sum_weights_nonneg(w, k - 1);
    }
}

/// Sums over a prefix agree when the entries agree there.
pub proof fn lemma_sum_weights_congruence(w1: Seq<u32>, w2: Seq<u32>, k: int)
    requires
        forall|i: int| 0 <= i < k ==> w1[i] == w2[i],
    ensures
        sum_weights(w1, k) == sum_weights(w2, k),
    decreases k,
{
    if k > 0 {
        lemma_sum_weights_congruence(w1, w2, k - 1);
    }
}

/// Changing one entry changes the sum by the difference.
pub proof fn lemma_sum_weights_update(w: Seq<u32>, i: int, v: u32, k: int)
    requires
        0 <= i < k <= w.len(),
    ensures
        sum_weights(w.update(i, v), k) == sum_weights(w, k) - w[i] + v,
    decreases k,
{
    if i == k - 1 {
        lemma_sum_weights_congruence(w.update(i, v), w, k - 1);
    } else {
        lemma_sum_weights_update(w, i, v, k - 1);
    }
}

/// Appending an entry extends the sum by it.
pub proof fn lemma_sum_weights_push(w: Seq<u32>, v: u32, k: int)
    requires
        0 <= k == w.len(),
    ensures
        sum_weights(w.push(v), k + 1) == sum_weights(w, k) + v,
{
    lemma_sum_weights_congruence(w.push(v), w, k);
}

/// With every weight at least 1, the sum dominates the count.
pub proof fn lemma_sum_weights_ge_len(w: Seq<u32>, k: int)
    requires
        forall|i: int| 0 <= i < k ==> #[trigger] w[i] >= 1,
    ensures
        sum_weights(w, k) >= k,
    decreases k,
{
    if k > 0 {
        lemma_sum_weights_ge_len(w, k - 1);
    }
}

/// One entry never exceeds the sum of a prefix that contains it.
pub proof fn lemma_single_le_sum(w: Seq<u32>, i: int, k: int)
    requires
        0 <= i < k,
    ensures
        w[i] <= sum_weights(w, k),
    decreases k,
{
    if i == k - 1 {
        lemma_sum_weights_nonneg(w, k - 1);
    } else {
        lemma_single_le_sum(w, i, k - 1);
    }
}

impl GlobalStats {
    /// Validate and adopt directly supplied statistics.
    ///
    /// Succeeds exactly when the supplied tables are well formed:
    /// at least one pattern, matching shapes, every weight positive,
    /// the total weight within 32 bits, and the compatibility table
    /// symmetric across opposite directions.
    pub fn new(weights: Vec<u32>, colors: Vec<Rgba>, compat: Vec<Vec<Vec<bool>>>) -> (r: Result<
        GlobalStats,
        BuildError,
    >)
        ensures
            r is Ok ==> {
                let s = r->Ok_0;
                &&& stats_wf(s)
                &&& s.weights == weights
                &&& s.colors == colors
                &&& s.compat == compat
                &&& s.n_patterns == weights@.len()
            },
            r is Err ==> !(exists|s: GlobalStats|
                stats_wf(s) && s.weights == weights && s.colors == colors && s.compat == compat
                    && s.n_patterns == weights@.len()),
    {
        let n = weights.len();
        if n == 0 || colors.len() != n || compat.len() != 4 {
            return Err(BuildError::BadStats);
        }
        // shape of the table
        let mut d: usize = 0;
        while d < 4
            invariant
                d <= 4,
                n == weights@.len(),
                colors@.len() == n,
                compat@.len() == 4,
                forall|dd: int| 0 <= dd < d ==> #[trigger] compat@[dd]@.len() == n,
                forall|dd: int, a: int|
                    0 <= dd < d && 0 <= a < n ==> #[trigger] compat@[dd]@[a]@.len() == n,
            decreases 4 - d,
        {
            if compat[d].len() != n {
                return Err(BuildError::BadStats);
            }
            let mut a: usize = 0;
            while a < n
                invariant
                    a <= n,
                    d < 4,
                    n == weights@.len(),
                    compat@.len() == 4,
                    compat@[d as int]@.len() == n,
                    forall|aa: int| 0 <= aa < a ==> #[trigger] compat@[d as int]@[aa]@.len() == n,
                decreases n - a,
            {
                if compat[d][a].len() != n {
                    return Err(BuildError::BadStats);
                }
                a += 1;
            }
            d += 1;
        }
        // positive weights and bounded total
        let mut total: u64 = 0;
        let mut p: usize = 0;
        while p < n
            invariant
                p <= n,
                n == weights@.len(),
                total == sum_weights(weights@, p as int),
                total <= u32::MAX,
                forall|q: int| 0 <= q < p ==> #[trigger] weights@[q] >= 1,
            decreases n - p,
        {
            let w = weights[p];
            if w == 0 {
                return Err(BuildError::BadStats);
            }
            if total + (w as u64) > (u32::MAX as u64) {
                proof {
                    lemma_sum_weights_mono(weights@, p as int + 1, n as int);
                }
                return Err(BuildError::BadStats);
            }
            total = total + (w as u64);
            p += 1;
        }
        // symmetry across opposite directions
        let mut d: usize = 0;
        while d < 4
            invariant
                d <= 4,
                n == weights@.len(),
                compat@.len() == 4,
                forall|dd: int| 0 <= dd < 4 ==> #[trigger] compat@[dd]@.len() == n,
                forall|dd: int, a: int|
                    0 <= dd < 4 && 0 <= a < n ==> #[trigger] compat@[dd]@[a]@.len() == n,
                forall|dd: int, a: int, b: int|
                    0 <= dd < d && 0 <= a < n && 0 <= b < n ==> #[trigger] compat@[dd]@[a]@[b]
                        == compat@[spec_opposite(dd)]@[b]@[a],
            decreases 4 - d,
        {
            let od = opposite(d);
            let mut a: usize = 0;
            while a < n
                invariant
                    a <= n,
                    d < 4,
                    od == spec_opposite(d as int),
                    n == weights@.len(),
                    compat@.len() == 4,
                    forall|dd: int| 0 <= dd < 4 ==> #[trigger] compat@[dd]@.len() == n,
                    forall|dd: int, aa: int|
                        0 <= dd < 4 && 0 <= aa < n ==> #[trigger] compat@[dd]@[aa]@.len() == n,
                    forall|aa: int, b: int|
                        0 <= aa < a && 0 <= b < n ==> #[trigger] compat@[d as int]@[aa]@[b]
                            == compat@[spec_opposite(d as int)]@[b]@[aa],
                decreases n - a,
            {
                let mut b: usize = 0;
                while b < n
                    invariant
                        b <= n,
                        a < n,
                        d < 4,
                        od == spec_opposite(d as int),
                        n == weights@.len(),
                        compat@.len() == 4,
                        forall|dd: int| 0 <= dd < 4 ==> #[trigger] compat@[dd]@.len() == n,
                        forall|dd: int, aa: int|
                            0 <= dd < 4 && 0 <= aa < n ==> #[trigger] compat@[dd]@[aa]@.len() == n,
                        forall|bb: int|
                            0 <= bb < b ==> #[trigger] compat@[d as int]@[a as int]@[bb]
                                == compat@[spec_opposite(d as int)]@[bb]@[a as int],
                    decreases n - b,
                {
                    if compat[d][a][b] != compat[od][b][a] {
                        proof {
                            assert forall|s: GlobalStats|
                                s.weights == weights && s.colors == colors && s.compat == compat
                                    && s.n_patterns == weights@.len() implies !stats_wf(s) by {
                                assert(compat_at(s, d as int, a as int, b as int) == compat@[
                                    d as int]@[a as int]@[b as int]);
                                assert(compat_at(s, spec_opposite(d as int), b as int, a as int)
                                    == compat@[spec_opposite(d as int)]@[b as int]@[a as int]);
                            }
                        }
                        return Err(BuildError::BadStats);
                    }
                    b += 1;
                }
                a += 1;
            }
            d += 1;
        }
        let s = GlobalStats { n_patterns: n, weights, colors, compat };
        proof {
            assert forall|dd: int, aa: int, bb: int|
                0 <= dd < 4 && 0 <= aa < n && 0 <= bb < n implies #[trigger] compat_at(
                s,
                dd,
                aa,
                bb,
            ) == compat_at(s, spec_opposite(dd), bb, aa) by {
                assert(s.compat@[dd]@[aa]@[bb] == s.compat@[spec_opposite(dd)]@[bb]@[aa]);
            }
        }
        Ok(s)
    }
}

/// Compatibility symmetry: for every pattern pair and direction, `b`
/// may sit in direction `d` of `a` exactly when `a` may sit in the
/// opposite direction of `b`.  This holds of every well-formed
/// statistics value the engine runs on.
pub proof fn lemma_compat_symmetric(s: GlobalStats, d: int, a: int, b: int)
    requires
        stats_wf(s),
        0 <= d < 4,
        0 <= a < s.n_patterns,
        0 <= b < s.n_patterns,
    ensures
        compat_at(s, d, a, b) == compat_at(s, spec_opposite(d), b, a),
{
}

} // verus!
