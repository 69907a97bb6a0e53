use vstd::prelude::*;
use crate::stats::{GlobalStats, compat_at, stats_wf};

verus! {

/// Propagation failed: some cell lost its last candidate.  The wave
/// is then inconsistent and must be discarded wholesale, never reused.
#[derive(Clone, Copy, PartialEq, Eq, Structural, Debug)]
pub enum PropagateError {
    Contradiction,
}

/// One grid position: the set of pattern ids still possible there,
/// as a membership vector, with its cached cardinality.
pub struct Cell {
    pub possible: Vec<bool>,
    pub count: usize,
}

/// How many entries of a membership vector are set.
pub open spec fn count_true(s: Seq<bool>) -> int
    decreases s.len(),
{
    if s.len() == 0 {
        0
    } else {
        count_true(s.drop_last()) + if s.last() {
            1int
        } else {
            0int
        }
    }
}

/// The cached cardinality is correct and the vector spans the
/// pattern ids.
pub open spec fn cell_wf(c: Cell, np: int) -> bool {
    &&& c.possible@.len() == np
    &&& c.count == count_true(c.possible@)
}

/// The grid of cells plus the queue of cells whose outgoing arcs may
/// still need revisiting.
#[verifier::ext_equal]
pub struct Wave {
    pub width: usize,
    pub height: usize,
    pub cells: Vec<Cell>,
    pub queue: Vec<usize>,
}

/// The candidate vector of cell `i`.
pub open spec fn cell_seq(w: Wave, i: int) -> Seq<bool> {
    w.cells@[i].possible@
}

/// The candidate count of cell `i`.
pub open spec fn cell_count(w: Wave, i: int) -> int {
    count_true(cell_seq(w, i))
}

/// Structural well-formedness against a statistics value.
pub open spec fn wave_wf(w: Wave, s: GlobalStats) -> bool {
    &&& 1 <= w.width
    &&& 1 <= w.height
    &&& w.cells@.len() == w.width * w.height
    &&& (forall|i: int| 0 <= i < w.cells@.len() ==> cell_wf(#[trigger] w.cells@[i], s.n_patterns as int))
    &&& (forall|k: int| 0 <= k < w.queue@.len() ==> #[trigger] w.queue@[k] < w.cells@.len())
}

/// Every cell still has a candidate.
pub open spec fn wave_alive(w: Wave) -> bool {
    forall|i: int| 0 <= i < w.cells@.len() ==> #[trigger] cell_count(w, i) >= 1
}

/// The neighbor of cell `i` in direction `d` (0 = right, 1 = left,
/// 2 = down, 3 = up), if it lies on the grid.  The grid does not wrap.
pub open spec fn spec_neighbor(width: int, height: int, i: int, d: int) -> Option<int> {
    let x = i % width;
    let y = i / width;
    if d == 0 {
        if x + 1 < width {
            Some(i + 1)
        } else {
            None
        }
    } else if d == 1 {
        if x >= 1 {
            Some(i - 1)
        } else {
            None
        }
    } else if d == 2 {
        if y + 1 < height {
            Some(i + width)
        } else {
            None
        }
    } else {
        if y >= 1 {
            Some(i - width)
        } else {
            None
        }
    }
}

/// Pattern `p` has support among the first `qm` candidate slots of
/// `cell` in direction `d`.
pub open spec fn supported_upto(s: GlobalStats, cell: Seq<bool>, d: int, p: int, qm: int) -> bool {
    exists|q: int| 0 <= q < qm && #[trigger] cell[q] && compat_at(s, d, q, p)
}

/// Pattern `p` has support in direction `d` from the candidate set
/// `cell`: some still-possible pattern there accepts `p` adjacent in
/// direction `d`.
pub open spec fn supported(s: GlobalStats, cell: Seq<bool>, d: int, p: int) -> bool {
    supported_upto(s, cell, d, p, s.n_patterns as int)
}

/// Extending the scanned prefix by one slot adds exactly that slot's
/// contribution.
pub proof fn lemma_supported_upto_step(s: GlobalStats, cell: Seq<bool>, d: int, p: int, q: int)
    requires
        0 <= q,
    ensures
        supported_upto(s, cell, d, p, q + 1) == (supported_upto(s, cell, d, p, q) || (cell[q]
            && compat_at(s, d, q, p))),
{
    if supported_upto(s, cell, d, p, q + 1) {
        let qq = choose|qq: int| 0 <= qq < q + 1 && #[trigger] cell[qq] && compat_at(s, d, qq, p);
        if qq < q {
            assert(supported_upto(s, cell, d, p, q));
        }
    }
    if supported_upto(s, cell, d, p, q) {
        let qq = choose|qq: int| 0 <= qq < q && #[trigger] cell[qq] && compat_at(s, d, qq, p);
        assert(cell[qq] && compat_at(s, d, qq, p) && 0 <= qq < q + 1);
    }
    if cell[q] && compat_at(s, d, q, p) {
        assert(supported_upto(s, cell, d, p, q + 1));
    }
}

/// The arc of cell `i` in direction `d` is consistent: every pattern
/// still possible at the neighbor has support from `i`'s candidates.
pub open spec fn arc_ok(s: GlobalStats, w: Wave, i: int, d: int) -> bool {
    match spec_neighbor(w.width as int, w.height as int, i, d) {
        Some(j) => forall|p: int|
            0 <= p < s.n_patterns && #[trigger] cell_seq(w, j)[p] ==> supported(
                s,
                cell_seq(w, i),
                d,
                p,
            ),
        None => true,
    }
}

/// Index `i` occurs in the queue.
pub open spec fn in_queue(q: Seq<usize>, i: int) -> bool {
    exists|k: int| 0 <= k < q.len() && #[trigger] q[k] as int == i
}

/// The candidate set of cell `i` is still the full pattern set.
pub open spec fn cell_full(w: Wave, i: int, np: int) -> bool {
    forall|p: int| 0 <= p < np ==> #[trigger] cell_seq(w, i)[p]
}

/// The propagation invariant: an arc may only be inconsistent if its
/// source cell is queued for processing or has never been restricted
/// (a freshly initialised wave is not arc-consistent; consistency is
/// restored outward from every restriction).
pub open spec fn wave_inv(s: GlobalStats, w: Wave) -> bool {
    forall|i: int, d: int|
        0 <= i < w.cells@.len() && 0 <= d < 4 ==> (in_queue(w.queue@, i) || #[trigger] arc_ok(
            s,
            w,
            i,
            d,
        ) || cell_full(w, i, s.n_patterns as int))
}

/// The propagation invariant, weakened while the arcs of cell `c` in
/// directions at and after `d` are being revisited.
pub open spec fn wave_inv_partial(s: GlobalStats, w: Wave, c: int, d: int) -> bool {
    forall|i: int, dd: int|
        0 <= i < w.cells@.len() && 0 <= dd < 4 ==> (in_queue(w.queue@, i) || #[trigger] arc_ok(
            s,
            w,
            i,
            dd,
        ) || cell_full(w, i, s.n_patterns as int) || (i == c && dd >= d))
}

/// Cell `i` of wave `a` has kept at most the candidates it has in
/// wave `b`.
pub open spec fn cell_subset(a: Wave, b: Wave, i: int) -> bool {
    forall|p: int|
        0 <= p < cell_seq(a, i).len() && #[trigger] cell_seq(a, i)[p] ==> cell_seq(b, i)[p]
}

/// Candidate sets only ever shrink: every cell of `a` holds a subset
/// of the candidates it holds in `b`.
pub open spec fn wave_subset(a: Wave, b: Wave) -> bool {
    forall|i: int| 0 <= i < a.cells@.len() ==> #[trigger] cell_subset(a, b, i)
}

/// The total candidate count over the first `k` cells.
pub open spec fn count_sum(cells: Seq<Cell>, k: int) -> int
    decreases k,
{
    if k <= 0 {
        0
    } else {
        count_sum(cells, k - 1) + count_true(cells[k - 1].possible@)
    }
}

/// The termination measure of propagation: total candidate count plus
/// pending queue length.  Each processed cell either shrinks some
/// neighbor (re-queueing it, but shrinking the total) or shortens the
/// queue, so the measure falls every iteration; this is why
/// propagation always terminates.
pub open spec fn wave_measure(w: Wave) -> int {
    count_sum(w.cells@, w.cells@.len() as int) + w.queue@.len()
}

/// The total candidate count is non-negative.
pub proof fn lemma_count_sum_nonneg(cells: Seq<Cell>, k: int)
    ensures
        count_sum(cells, k) >= 0,
    decreases k,
{
    if k > 0 {
        lemma_count_sum_nonneg(cells, k - 1);
        lemma_count_true_bounds(cells[k - 1].possible@);
    }
}

/// Changing the candidates of one cell changes the total by exactly
/// that cell's difference.
pub proof fn lemma_count_sum_one_changed(c1: Seq<Cell>, c2: Seq<Cell>, j: int, k: int)
    requires
        c1.len() == c2.len(),
        0 <= j < c1.len(),
        forall|i: int| 0 <= i < c1.len() && i != j ==> c1[i].possible@ == c2[i].possible@,
        0 <= k <= c1.len(),
    ensures
        count_sum(c2, k) == count_sum(c1, k) + (if j < k {
            count_true(c2[j].possible@) - count_true(c1[j].possible@)
        } else {
            0int
        }),
    decreases k,
{
    if k > 0 {
        lemma_count_sum_one_changed(c1, c2, j, k - 1);
    }
}

/// Restriction composes: when each cell of `a` keeps at most the
/// candidates it has in `b`, and likewise `b` against `c`, the same
/// holds of `a` against `c`.  Across the lifetime of one wave the
/// candidate sets therefore only ever shrink, however many collapse
/// and propagation steps run in between.
pub proof fn lemma_wave_subset_trans(a: Wave, b: Wave, c: Wave)
    requires
        a.cells@.len() == b.cells@.len(),
        forall|i: int| 0 <= i < a.cells@.len() ==> #[trigger] cell_seq(a, i).len() == cell_seq(b, i).len(),
        wave_subset(a, b),
        wave_subset(b, c),
    ensures
        wave_subset(a, c),
{
    assert forall|i: int| 0 <= i < a.cells@.len() implies #[trigger] cell_subset(a, c, i) by {
        assert(cell_subset(a, b, i));
        assert(cell_subset(b, c, i));
        assert forall|p: int|
            0 <= p < cell_seq(a, i).len() && #[trigger] cell_seq(a, i)[p] implies cell_seq(
            c,
            i,
        )[p] by {
            assert(cell_seq(b, i)[p]);
        }
    }
}

/// One pattern choice per cell respects adjacency in direction `d`:
/// wherever cell `i` has a neighbor, the patterns assigned to the two
/// cells are compatible in that direction.
pub open spec fn asn_edge_ok(
    s: GlobalStats,
    width: int,
    height: int,
    asn: Seq<int>,
    i: int,
    d: int,
) -> bool {
    match spec_neighbor(width, height, i, d) {
        Some(j) => compat_at(s, d, asn[i], asn[j]),
        None => true,
    }
}

/// A solution below the wave: one still-possible pattern per cell,
/// every adjacent pair compatible.
pub open spec fn assignment_ok(s: GlobalStats, w: Wave, asn: Seq<int>) -> bool {
    &&& asn.len() == w.cells@.len()
    &&& (forall|i: int| 0 <= i < asn.len() ==> 0 <= #[trigger] asn[i] < s.n_patterns)
    &&& (forall|i: int| 0 <= i < asn.len() ==> #[trigger] cell_seq(w, i)[asn[i]])
    &&& (forall|i: int, d: int|
        0 <= i < asn.len() && 0 <= d < 4 ==> #[trigger] asn_edge_ok(
            s,
            w.width as int,
            w.height as int,
            asn,
            i,
            d,
        ))
}

/// A membership vector with count zero has no member.
pub proof fn lemma_count_true_zero(s: Seq<bool>)
    requires
        count_true(s) == 0,
    ensures
        forall|p: int| 0 <= p < s.len() ==> !(#[trigger] s[p]),
    decreases s.len(),
{
    if s.len() > 0 {
        lemma_count_true_bounds(s.drop_last());
        lemma_count_true_zero(s.drop_last());
        assert forall|p: int| 0 <= p < s.len() implies !(#[trigger] s[p]) by {
            if p < s.len() - 1 {
                assert(!s.drop_last()[p]);
            }
        }
    }
}

/// A solution below `w1` is a solution below `w2` too when `w2` has
/// the same frame and still allows every assigned pattern.
pub proof fn lemma_assignment_transfer(s: GlobalStats, w1: Wave, w2: Wave, asn: Seq<int>)
    requires
        assignment_ok(s, w1, asn),
        w1.width == w2.width,
        w1.height == w2.height,
        w1.cells@.len() == w2.cells@.len(),
        forall|i: int| 0 <= i < asn.len() ==> #[trigger] cell_seq(w2, i)[asn[i]],
    ensures
        assignment_ok(s, w2, asn),
{
    assert forall|i: int, d: int| 0 <= i < asn.len() && 0 <= d < 4 implies #[trigger] asn_edge_ok(
        s,
        w2.width as int,
        w2.height as int,
        asn,
        i,
        d,
    ) by {
        assert(asn_edge_ok(s, w1.width as int, w1.height as int, asn, i, d));
    }
}

/// With every cell alive and spanning `np` patterns, the total
/// candidate count lies between the cell count and `np` times it.
pub proof fn lemma_count_sum_bounds(cells: Seq<Cell>, np: int, k: int)
    requires
        0 <= k <= cells.len(),
        forall|i: int| 0 <= i < cells.len() ==> cell_wf(#[trigger] cells[i], np),
        forall|i: int| 0 <= i < cells.len() ==> count_true(#[trigger] cells[i].possible@) >= 1,
    ensures
        k <= count_sum(cells, k) <= np * k,
    decreases k,
{
    if k > 0 {
        lemma_count_sum_bounds(cells, np, k - 1);
        lemma_count_true_bounds(cells[k - 1].possible@);
        assert(cell_wf(cells[k - 1], np));
        assert(count_true(cells[k - 1].possible@) <= np);
        assert(np * (k - 1) + np == np * k) by (nonlinear_arith);
    } else {
        assert(np * k == 0) by (nonlinear_arith)
            requires
                k == 0,
        ;
    }
}

/// Pointwise smaller cells give a smaller total.
pub proof fn lemma_count_sum_pointwise_le(c1: Seq<Cell>, c2: Seq<Cell>, k: int)
    requires
        c1.len() == c2.len(),
        0 <= k <= c1.len(),
        forall|i: int|
            0 <= i < c1.len() ==> count_true(#[trigger] c1[i].possible@) <= count_true(
                c2[i].possible@,
            ),
    ensures
        count_sum(c1, k) <= count_sum(c2, k),
    decreases k,
{
    if k > 0 {
        lemma_count_sum_pointwise_le(c1, c2, k - 1);
    }
}

/// Pointwise smaller cells with one strictly smaller give a strictly
/// smaller total.
pub proof fn lemma_count_sum_pointwise_lt(c1: Seq<Cell>, c2: Seq<Cell>, j: int, k: int)
    requires
        c1.len() == c2.len(),
        0 <= j < k <= c1.len(),
        forall|i: int|
            0 <= i < c1.len() ==> count_true(#[trigger] c1[i].possible@) <= count_true(
                c2[i].possible@,
            ),
        count_true(c1[j].possible@) < count_true(c2[j].possible@),
    ensures
        count_sum(c1, k) < count_sum(c2, k),
    decreases k,
{
    if j == k - 1 {
        lemma_count_sum_pointwise_le(c1, c2, k - 1);
    } else {
        lemma_count_sum_pointwise_lt(c1, c2, j, k - 1);
    }
}

/// A neighbor index, when there is one, lies on the grid and differs
/// from the cell itself.
pub proof fn lemma_neighbor_in_range(width: int, height: int, i: int, d: int)
    requires
        1 <= width,
        1 <= height,
        0 <= i < width * height,
        0 <= d < 4,
    ensures
        match spec_neighbor(width, height, i, d) {
            Some(j) => 0 <= j < width * height && j != i,
            None => true,
        },
{
    let x = i % width;
    let y = i / width;
    vstd::arithmetic::div_mod::lemma_fundamental_div_mod(i, width);
    vstd::arithmetic::div_mod::lemma_mod_bound(i, width);
    assert(0 <= y < height && (x + 1 < width ==> 0 <= i + 1 < width * height) && (y + 1 < height
        ==> 0 <= i + width < width * height) && (x >= 1 ==> 0 <= i - 1) && (y >= 1 ==> 0 <= i
        - width)) by (nonlinear_arith)
        requires
            i == width * y + x,
            0 <= x < width,
            0 <= i < width * height,
            1 <= width,
            1 <= height,
    ;
}

/// Appending an entry adds its value to the count.
pub proof fn lemma_count_true_push(s: Seq<bool>, v: bool)
    ensures
        count_true(s.push(v)) == count_true(s) + if v {
            1int
        } else {
            0int
        },
{
    assert(s.push(v).drop_last() =~= s);
    assert(s.push(v).last() == v);
}

/// Overwriting one entry changes the count by the difference.
pub proof fn lemma_count_true_update(s: Seq<bool>, i: int, v: bool)
    requires
        0 <= i < s.len(),
    ensures
        count_true(s.update(i, v)) == count_true(s) - (if s[i] {
            1int
        } else {
            0int
        }) + (if v {
            1int
        } else {
            0int
        }),
    decreases s.len(),
{
    if i == s.len() - 1 {
        assert(s.update(i, v).drop_last() =~= s.drop_last());
    } else {
        assert(s.update(i, v).drop_last() =~= s.drop_last().update(i, v));
        lemma_count_true_update(s.drop_last(), i, v);
    }
}

/// The count is bounded by the length.
pub proof fn lemma_count_true_bounds(s: Seq<bool>)
    ensures
        0 <= count_true(s) <= s.len(),
    decreases s.len(),
{
    if s.len() > 0 {
        lemma_count_true_bounds(s.drop_last());
    }
}

/// A set with a positive count has a member.
pub proof fn lemma_count_true_pos(s: Seq<bool>)
    requires
        count_true(s) >= 1,
    ensures
        exists|p: int| 0 <= p < s.len() && #[trigger] s[p],
    decreases s.len(),
{
    if s.last() {
        assert(s[s.len() - 1]);
    } else {
        lemma_count_true_pos(s.drop_last());
        let p = choose|p: int| 0 <= p < s.drop_last().len() && #[trigger] s.drop_last()[p];
        assert(s[p]);
    }
}

/// A subset never has the larger count: size is monotone under
/// restriction.  This is the sense in which a cell's candidate-set
/// size is non-increasing while its wave lives.
pub proof fn lemma_count_subset_le(a: Seq<bool>, b: Seq<bool>)
    requires
        a.len() == b.len(),
        forall|p: int| 0 <= p < a.len() && #[trigger] a[p] ==> b[p],
    ensures
        count_true(a) <= count_true(b),
    decreases a.len(),
{
    if a.len() > 0 {
        assert(a.last() ==> b.last()) by {
            if a.last() {
                assert(a[a.len() - 1]);
            }
        }
        assert forall|p: int| 0 <= p < a.drop_last().len() && #[trigger] a.drop_last()[p]
            implies b.drop_last()[p] by {
            assert(a[p]);
        }
        lemma_count_subset_le(a.drop_last(), b.drop_last());
    }
}

/// Queue membership survives appending.
pub proof fn lemma_in_queue_push(q: Seq<usize>, v: usize, i: int)
    requires
        in_queue(q, i),
    ensures
        in_queue(q.push(v), i),
{
    let k = choose|k: int| 0 <= k < q.len() && #[trigger] q[k] as int == i;
    assert(q.push(v)[k] as int == i);
}

/// An arc stays consistent when its source cell is unchanged and every
/// cell has at most its previous candidates: the target can only have
/// shrunk, and support needs the source alone.
pub proof fn lemma_arc_ok_preserved(s: GlobalStats, w1: Wave, w2: Wave, k: int, d: int)
    requires
        stats_wf(s),
        w1.width == w2.width,
        w1.height == w2.height,
        w1.cells@.len() == w2.cells@.len(),
        w2.cells@.len() == w2.width * w2.height,
        0 <= k < w2.cells@.len(),
        0 <= d < 4,
        forall|i: int|
            0 <= i < w2.cells@.len() ==> #[trigger] cell_seq(w2, i).len() == s.n_patterns,
        cell_seq(w2, k) == cell_seq(w1, k),
        forall|j: int| 0 <= j < w2.cells@.len() ==> #[trigger] cell_subset(w2, w1, j),
        arc_ok(s, w1, k, d),
    ensures
        arc_ok(s, w2, k, d),
{
    match spec_neighbor(w2.width as int, w2.height as int, k, d) {
        Some(j) => {
            lemma_neighbor_in_range(w2.width as int, w2.height as int, k, d);
            assert forall|p: int| 0 <= p < s.n_patterns && #[trigger] cell_seq(w2, j)[p]
                implies supported(s, cell_seq(w2, k), d, p) by {
                assert(cell_subset(w2, w1, j));
                assert(cell_seq(w1, j)[p]);
                assert(supported(s, cell_seq(w1, k), d, p));
            }
        },
        None => {},
    }
}

/// The neighbor of cell `i` in direction `d`, if it lies on the grid.
fn neighbor_of(width: usize, height: usize, i: usize, d: usize) -> (r: Option<usize>)
    requires
        1 <= width,
        1 <= height,
        i < width * height,
        width * height <= usize::MAX,
        d < 4,
    ensures
        r matches Some(j) ==> Some(j as int) == spec_neighbor(
            width as int,
            height as int,
            i as int,
            d as int,
        ) && j < width * height && j != i,
        r is None ==> spec_neighbor(width as int, height as int, i as int, d as int) is None,
{
    proof {
        lemma_neighbor_in_range(width as int, height as int, i as int, d as int);
        vstd::arithmetic::div_mod::lemma_mod_bound(i as int, width as int);
    }
    let x = i % width;
    let y = i / width;
    if d == 0 {
        if x + 1 < width {
            Some(i + 1)
        } else {
            None
        }
    } else if d == 1 {
        if x >= 1 {
            Some(i - 1)
        } else {
            None
        }
    } else if d == 2 {
        if y + 1 < height {
            Some(i + width)
        } else {
            None
        }
    } else {
        if y >= 1 {
            Some(i - width)
        } else {
            None
        }
    }
}

/// The union, over the candidates of `cell`, of the patterns each
/// accepts adjacent in direction `d`: the membership vector of
/// `supported`.
fn support_vec(s: &GlobalStats, cell: &Vec<bool>, d: usize) -> (sup: Vec<bool>)
    requires
        stats_wf(*s),
        cell@.len() == s.n_patterns,
        d < 4,
    ensures
        sup@.len() == s.n_patterns,
        forall|p: int|
            0 <= p < s.n_patterns ==> #[trigger] sup@[p] == supported(*s, cell@, d as int, p),
{
    let np = s.n_patterns;
    let mut sup: Vec<bool> = Vec::new();
    let mut k: usize = 0;
    while k < np
        invariant
            k <= np,
            sup@.len() == k,
            forall|p: int| 0 <= p < k ==> !(#[trigger] sup@[p]),
        decreases np - k,
    {
        sup.push(false);
        k += 1;
    }
    let mut q: usize = 0;
    while q < np
        invariant
            stats_wf(*s),
            np == s.n_patterns,
            cell@.len() == np,
            d < 4,
            q <= np,
            sup@.len() == np,
            forall|p: int|
                0 <= p < np ==> #[trigger] sup@[p] == supported_upto(*s, cell@, d as int, p, q as int),
        decreases np - q,
    {
        if cell[q] {
            let mut p: usize = 0;
            while p < np
                invariant
                    stats_wf(*s),
                    np == s.n_patterns,
                    cell@.len() == np,
                    d < 4,
                    q < np,
                    cell@[q as int],
                    p <= np,
                    sup@.len() == np,
                    forall|pp: int|
                        0 <= pp < p ==> #[trigger] sup@[pp] == (supported_upto(
                            *s,
                            cell@,
                            d as int,
                            pp,
                            q as int,
                        ) || compat_at(*s, d as int, q as int, pp)),
                    forall|pp: int|
                        p <= pp < np ==> #[trigger] sup@[pp] == supported_upto(
                            *s,
                            cell@,
                            d as int,
                            pp,
                            q as int,
                        ),
                decreases np - p,
            {
                if s.compat[d][q][p] {
                    sup[p] = true;
                }
                p += 1;
            }
            proof {
                assert forall|pp: int| 0 <= pp < np implies #[trigger] sup@[pp] == supported_upto(
                    *s,
                    cell@,
                    d as int,
                    pp,
                    q as int + 1,
                ) by {
                    lemma_supported_upto_step(*s, cell@, d as int, pp, q as int);
                }
            }
        } else {
            proof {
                assert forall|pp: int| 0 <= pp < np implies #[trigger] sup@[pp] == supported_upto(
                    *s,
                    cell@,
                    d as int,
                    pp,
                    q as int + 1,
                ) by {
                    lemma_supported_upto_step(*s, cell@, d as int, pp, q as int);
                }
            }
        }
        q += 1;
    }
    sup
}

impl Wave {
    /// A fresh wave: every cell's candidate set is the full pattern
    /// set and nothing is queued.
    pub fn new(width: usize, height: usize, s: &GlobalStats) -> (w: Wave)
        requires
            stats_wf(*s),
            1 <= width,
            1 <= height,
            width * height <= usize::MAX,
        ensures
            w.width == width,
            w.height == height,
            wave_wf(w, *s),
            wave_inv(*s, w),
            wave_alive(w),
            w.queue@.len() == 0,
            forall|i: int| 0 <= i < w.cells@.len() ==> #[trigger] cell_count(w, i) == s.n_patterns,
            forall|i: int|
                0 <= i < w.cells@.len() ==> cell_full(w, i, s.n_patterns as int),
    {
        let np = s.n_patterns;
        let ncells = width * height;
        let mut cells: Vec<Cell> = Vec::new();
        let mut i: usize = 0;
        while i < ncells
            invariant
                i <= ncells,
                cells@.len() == i,
                forall|k: int| 0 <= k < i ==> cell_wf(#[trigger] cells@[k], np as int),
                forall|k: int| 0 <= k < i ==> #[trigger] cells@[k].count == np,
                forall|k: int, p: int|
                    0 <= k < i && 0 <= p < np ==> #[trigger] cells@[k].possible@[p],
            decreases ncells - i,
        {
            let mut v: Vec<bool> = Vec::new();
            let mut p: usize = 0;
            while p < np
                invariant
                    p <= np,
                    v@.len() == p,
                    count_true(v@) == p,
                    forall|k: int| 0 <= k < p ==> #[trigger] v@[k],
                decreases np - p,
            {
                proof {
                    lemma_count_true_push(v@, true);
                }
                v.push(true);
                p += 1;
            }
            cells.push(Cell { possible: v, count: np });
            i += 1;
        }
        let w = Wave { width, height, cells, queue: Vec::new() };
        proof {
            assert forall|k: int| 0 <= k < w.cells@.len() implies #[trigger] cell_count(w, k)
                == s.n_patterns by {}
            assert forall|k: int, d: int| 0 <= k < w.cells@.len() && 0 <= d < 4 implies in_queue(
                w.queue@,
                k,
            ) || #[trigger] arc_ok(*s, w, k, d) || cell_full(w, k, s.n_patterns as int) by {}
        }
        w
    }

    /// Restrict cell `i` to the single candidate `p` and queue it for
    /// propagation.  The chosen pattern must still be possible there,
    /// so the cell's set only shrinks.
    pub fn collapse(&mut self, i: usize, p: usize, s: &GlobalStats)
        requires
            stats_wf(*s),
            wave_wf(*old(self), *s),
            wave_inv(*s, *old(self)),
            i < old(self).cells@.len(),
            p < s.n_patterns,
            cell_seq(*old(self), i as int)[p as int],
        ensures
            final(self).width == old(self).width,
            final(self).height == old(self).height,
            wave_wf(*final(self), *s),
            wave_inv(*s, *final(self)),
            wave_subset(*final(self), *old(self)),
            cell_count(*final(self), i as int) == 1,
            cell_seq(*final(self), i as int)[p as int],
            forall|q: int|
                0 <= q < s.n_patterns ==> (#[trigger] cell_seq(*final(self), i as int)[q] <==> q
                    == p),
            forall|k: int|
                0 <= k < old(self).cells@.len() && k != i ==> #[trigger] final(self).cells@[k]
                    == old(self).cells@[k],
            final(self).queue@ == old(self).queue@.push(i),
            forall|asn: Seq<int>|
                #[trigger] assignment_ok(*s, *old(self), asn) && asn[i as int] == p as int
                    ==> assignment_ok(*s, *final(self), asn),
    {
        let np = s.n_patterns;
        let mut v: Vec<bool> = Vec::new();
        let mut q: usize = 0;
        while q < np
            invariant
                q <= np,
                p < np,
                v@.len() == q,
                count_true(v@) == if q > p {
                    1int
                } else {
                    0int
                },
                forall|k: int| 0 <= k < q ==> (#[trigger] v@[k] <==> k == p),
            decreases np - q,
        {
            proof {
                lemma_count_true_push(v@, q == p);
            }
            v.push(q == p);
            q += 1;
        }
        self.cells[i] = Cell { possible: v, count: 1 };
        self.queue.push(i);
        proof {
            let w = *self;
            let wo = *old(self);
            assert(w.queue@[w.queue@.len() - 1] as int == i as int);
            assert(in_queue(w.queue@, i as int));
            assert forall|k: int| 0 <= k < w.cells@.len() implies cell_wf(
                #[trigger] w.cells@[k],
                np as int,
            ) by {}
            assert forall|k: int| 0 <= k < w.cells@.len() implies #[trigger] cell_subset(
                w,
                wo,
                k,
            ) by {}
            assert forall|k: int, d: int| 0 <= k < w.cells@.len() && 0 <= d < 4 implies in_queue(
                w.queue@,
                k,
            ) || #[trigger] arc_ok(*s, w, k, d) || cell_full(w, k, np as int) by {
                if k != i as int {
                    assert(in_queue(wo.queue@, k) || arc_ok(*s, wo, k, d) || cell_full(
                        wo,
                        k,
                        np as int,
                    ));
                    if in_queue(wo.queue@, k) {
                        let kk = choose|kk: int|
                            0 <= kk < wo.queue@.len() && #[trigger] wo.queue@[kk] as int == k;
                        assert(w.queue@[kk] as int == k);
                        assert(in_queue(w.queue@, k));
                    } else if arc_ok(*s, wo, k, d) {
                        // the source set is unchanged and the target can
                        // only have shrunk, so the arc stays consistent
                        match spec_neighbor(w.width as int, w.height as int, k, d) {
                            Some(j) => {
                                lemma_neighbor_in_range(
                                    w.width as int,
                                    w.height as int,
                                    k,
                                    d,
                                );
                                assert forall|pp: int|
                                    0 <= pp < s.n_patterns && #[trigger] cell_seq(w, j)[pp]
                                    implies supported(*s, cell_seq(w, k), d, pp) by {
                                    assert(cell_subset(w, wo, j));
                                    assert(cell_seq(wo, j)[pp]);
                                    assert(supported(*s, cell_seq(wo, k), d, pp));
                                    assert(cell_seq(wo, k) == cell_seq(w, k));
                                }
                                assert(arc_ok(*s, w, k, d));
                            },
                            None => {},
                        }
                    } else {
                        assert forall|pp: int| 0 <= pp < np implies #[trigger] cell_seq(w, k)[pp] by {
                            assert(cell_seq(wo, k)[pp]);
                        }
                        assert(cell_full(w, k, np as int));
                    }
                }
            }
            assert forall|asn: Seq<int>|
                #[trigger] assignment_ok(*s, wo, asn) && asn[i as int] == p as int
                implies assignment_ok(*s, w, asn) by {
                assert forall|k: int| 0 <= k < asn.len() implies #[trigger] cell_seq(w, k)[asn[k]] by {
                    if k == i as int {
                        assert(cell_seq(w, k)[p as int]);
                    } else {
                        assert(cell_seq(w, k) == cell_seq(wo, k));
                        assert(cell_seq(wo, k)[asn[k]]);
                    }
                }
                lemma_assignment_transfer(*s, wo, w, asn);
            }
        }
    }

    /// Run constraint propagation to a fixed point or to the first
    /// contradiction.  Cells are dequeued one by one; for each
    /// direction, the neighbor's candidate set is intersected with the
    /// union of patterns compatible with the cell's remaining
    /// candidates, and a neighbor that shrank is re-queued.  On
    /// success every arc is consistent (or its source was never
    /// restricted) and no cell is empty; on contradiction the wave is
    /// inconsistent and must be discarded, never reused.
    pub fn propagate(&mut self, s: &GlobalStats) -> (r: Result<(), PropagateError>)
        requires
            stats_wf(*s),
            wave_wf(*old(self), *s),
            wave_inv(*s, *old(self)),
            wave_alive(*old(self)),
        ensures
            final(self).width == old(self).width,
            final(self).height == old(self).height,
            final(self).cells@.len() == old(self).cells@.len(),
            wave_wf(*final(self), *s),
            wave_subset(*final(self), *old(self)),
            forall|i: int|
                0 <= i < old(self).cells@.len() ==> #[trigger] cell_count(*final(self), i)
                    <= cell_count(*old(self), i),
            r is Ok ==> final(self).queue@.len() == 0 && wave_inv(*s, *final(self)) && wave_alive(
                *final(self),
            ),
            r is Err ==> exists|i: int|
                0 <= i < final(self).cells@.len() && #[trigger] cell_count(*final(self), i) == 0,
            forall|asn: Seq<int>|
                #[trigger] assignment_ok(*s, *old(self), asn) ==> assignment_ok(
                    *s,
                    *final(self),
                    asn,
                ),
            r is Err ==> forall|asn: Seq<int>| !(#[trigger] assignment_ok(*s, *old(self), asn)),
    {
        let np = s.n_patterns;
        while self.queue.len() > 0
            invariant
                stats_wf(*s),
                np == s.n_patterns,
                self.width == old(self).width,
                self.height == old(self).height,
                self.cells@.len() == old(self).cells@.len(),
                wave_wf(*old(self), *s),
                wave_wf(*self, *s),
                wave_subset(*self, *old(self)),
                wave_alive(*self),
                wave_inv(*s, *self),
                forall|asn: Seq<int>|
                    #[trigger] assignment_ok(*s, *old(self), asn) ==> assignment_ok(
                        *s,
                        *self,
                        asn,
                    ),
            decreases wave_measure(*self),
        {
            let ghost wpre = *self;
            let copt = self.queue.pop();
            let c = match copt {
                Some(cc) => cc,
                None => {
                    proof {
                        assert(false);
                    }
                    return Ok(());
                },
            };
            proof {
                assert(self.cells@ == wpre.cells@);
                assert(c == wpre.queue@[wpre.queue@.len() - 1]);
                assert(c < self.cells@.len());
                assert forall|i: int|
                    0 <= i < self.cells@.len() implies #[trigger] cell_subset(
                    *self,
                    *old(self),
                    i,
                ) by {
                    assert(cell_subset(wpre, *old(self), i));
                    assert(cell_seq(*self, i) == cell_seq(wpre, i));
                }
                assert forall|i: int|
                    0 <= i < self.cells@.len() implies #[trigger] cell_count(*self, i) >= 1 by {
                    assert(cell_count(wpre, i) >= 1);
                    assert(cell_seq(*self, i) == cell_seq(wpre, i));
                }
                assert forall|asn: Seq<int>|
                    #[trigger] assignment_ok(*s, *old(self), asn) implies assignment_ok(
                    *s,
                    *self,
                    asn,
                ) by {
                    assert(assignment_ok(*s, wpre, asn));
                    assert forall|k: int|
                        0 <= k < asn.len() implies #[trigger] cell_seq(*self, k)[asn[k]] by {
                        assert(cell_seq(*self, k) == cell_seq(wpre, k));
                    }
                    lemma_assignment_transfer(*s, wpre, *self, asn);
                }
                assert forall|i: int, dd: int|
                    0 <= i < self.cells@.len() && 0 <= dd < 4 implies in_queue(self.queue@, i)
                    || #[trigger] arc_ok(*s, *self, i, dd) || cell_full(*self, i, np as int) || (i
                    == c && dd >= 0) by {
                    assert(in_queue(wpre.queue@, i) || arc_ok(*s, wpre, i, dd) || cell_full(
                        wpre,
                        i,
                        np as int,
                    ));
                    if in_queue(wpre.queue@, i) {
                        let k = choose|k: int|
                            0 <= k < wpre.queue@.len() && #[trigger] wpre.queue@[k] as int == i;
                        if k < wpre.queue@.len() - 1 {
                            assert(self.queue@[k] as int == i);
                            assert(in_queue(self.queue@, i));
                        } else {
                            assert(i == c);
                        }
                    } else if arc_ok(*s, wpre, i, dd) {
                        assert forall|ii: int|
                            0 <= ii < self.cells@.len() implies #[trigger] cell_seq(
                            *self,
                            ii,
                        ).len() == np by {
                            assert(cell_wf(self.cells@[ii], np as int));
                        }
                        assert forall|jj: int|
                            0 <= jj < self.cells@.len() implies #[trigger] cell_subset(
                            *self,
                            wpre,
                            jj,
                        ) by {
                            assert(cell_seq(*self, jj) == cell_seq(wpre, jj));
                        }
                        assert(cell_seq(*self, i) == cell_seq(wpre, i));
                        lemma_arc_ok_preserved(*s, wpre, *self, i, dd);
                    } else {
                        assert(cell_full(*self, i, np as int));
                    }
                }
            }
            let mut d: usize = 0;
            while d < 4
                invariant
                    stats_wf(*s),
                    np == s.n_patterns,
                    self.width == old(self).width,
                    self.height == old(self).height,
                    self.cells@.len() == old(self).cells@.len(),
                    wave_wf(*old(self), *s),
                    wave_wf(*self, *s),
                    wave_subset(*self, *old(self)),
                    wave_alive(*self),
                    c < self.cells@.len(),
                    d <= 4,
                    wave_inv_partial(*s, *self, c as int, d as int),
                    wave_measure(*self) <= wave_measure(wpre) - 1,
                    forall|asn: Seq<int>|
                        #[trigger] assignment_ok(*s, *old(self), asn) ==> assignment_ok(
                            *s,
                            *self,
                            asn,
                        ),
                decreases 4 - d,
            {
                let _cells_len = self.cells.len();
                match neighbor_of(self.width, self.height, c, d) {
                    None => {
                        proof {
                            assert(arc_ok(*s, *self, c as int, d as int));
                        }
                    },
                    Some(j) => {
                        let sup = support_vec(s, &self.cells[c].possible, d);
                        let ghost w0 = *self;
                        let ghost j0 = self.cells@[j as int];
                        let mut removed: usize = 0;
                        let mut p: usize = 0;
                        while p < np
                            invariant
                                stats_wf(*s),
                                np == s.n_patterns,
                                self.width == old(self).width,
                                self.height == old(self).height,
                                self.cells@.len() == old(self).cells@.len(),
                                self.cells@.len() == self.width * self.height,
                                wave_wf(*old(self), *s),
                                c < self.cells@.len(),
                                j < self.cells@.len(),
                                j != c,
                                d < 4,
                                Some(j as int) == spec_neighbor(
                                    self.width as int,
                                    self.height as int,
                                    c as int,
                                    d as int,
                                ),
                                w0.width == self.width,
                                w0.height == self.height,
                                w0.cells@.len() == self.cells@.len(),
                                wave_wf(w0, *s),
                                wave_alive(w0),
                                wave_inv_partial(*s, w0, c as int, d as int),
                                wave_measure(w0) <= wave_measure(wpre) - 1,
                                wave_subset(w0, *old(self)),
                                forall|asn: Seq<int>|
                                    #[trigger] assignment_ok(*s, *old(self), asn)
                                        ==> assignment_ok(*s, *self, asn),
                                self.queue@ == w0.queue@,
                                forall|k: int|
                                    0 <= k < self.cells@.len() && k != j
                                        ==> self.cells@[k] == w0.cells@[k],
                                j0 == w0.cells@[j as int],
                                cell_wf(j0, np as int),
                                p <= np,
                                removed <= p,
                                cell_seq(*self, j as int).len() == np,
                                self.cells@[j as int].count == j0.count,
                                forall|pp: int|
                                    p <= pp < np ==> #[trigger] cell_seq(*self, j as int)[pp]
                                        == j0.possible@[pp],
                                forall|pp: int|
                                    0 <= pp < p ==> #[trigger] cell_seq(*self, j as int)[pp] == (
                                    j0.possible@[pp] && sup@[pp]),
                                count_true(cell_seq(*self, j as int)) == count_true(j0.possible@)
                                    - removed,
                                removed == 0 ==> self.cells@ == w0.cells@,
                                wave_subset(*self, *old(self)),
                                sup@.len() == np,
                                forall|pp: int|
                                    0 <= pp < np ==> #[trigger] sup@[pp] == supported(
                                        *s,
                                        cell_seq(w0, c as int),
                                        d as int,
                                        pp,
                                    ),
                                cell_seq(*self, c as int) == cell_seq(w0, c as int),
                            decreases np - p,
                        {
                            if self.cells[j].possible[p] && !sup[p] {
                                proof {
                                    lemma_count_true_update(
                                        cell_seq(*self, j as int),
                                        p as int,
                                        false,
                                    );
                                }
                                let ghost wmid = *self;
                                self.cells[j].possible[p] = false;
                                removed += 1;
                                proof {
                                    assert(cell_seq(*self, j as int) =~= cell_seq(
                                        wmid,
                                        j as int,
                                    ).update(p as int, false));
                                    assert forall|k: int|
                                        0 <= k < self.cells@.len() implies #[trigger] cell_subset(
                                        *self,
                                        *old(self),
                                        k,
                                    ) by {
                                        if k == j as int {
                                            assert(cell_subset(wmid, *old(self), k));
                                            assert forall|pp: int|
                                                0 <= pp < cell_seq(*self, k).len()
                                                    && #[trigger] cell_seq(*self, k)[pp]
                                                implies cell_seq(*old(self), k)[pp] by {
                                                assert(cell_seq(wmid, k)[pp]);
                                            }
                                        } else {
                                            assert(cell_subset(wmid, *old(self), k));
                                            assert(cell_seq(*self, k) == cell_seq(wmid, k));
                                        }
                                    }
                                    // a pattern is only removed for want of support, so
                                    // no solution assigned it: every solution below the
                                    // incoming wave survives the removal
                                    assert forall|asn: Seq<int>|
                                        #[trigger] assignment_ok(*s, *old(self), asn)
                                        implies assignment_ok(*s, *self, asn) by {
                                        assert(assignment_ok(*s, wmid, asn));
                                        if asn[j as int] == p as int {
                                            assert(asn_edge_ok(
                                                *s,
                                                wmid.width as int,
                                                wmid.height as int,
                                                asn,
                                                c as int,
                                                d as int,
                                            ));
                                            assert(compat_at(
                                                *s,
                                                d as int,
                                                asn[c as int],
                                                p as int,
                                            ));
                                            assert(cell_seq(wmid, c as int)[asn[c as int]]);
                                            assert(cell_seq(wmid, c as int) == cell_seq(
                                                w0,
                                                c as int,
                                            ));
                                            assert(cell_seq(w0, c as int)[asn[c as int]]);
                                            assert(supported(
                                                *s,
                                                cell_seq(w0, c as int),
                                                d as int,
                                                p as int,
                                            ));
                                            assert(false);
                                        }
                                        assert forall|k: int|
                                            0 <= k < asn.len() implies #[trigger] cell_seq(
                                            *self,
                                            k,
                                        )[asn[k]] by {
                                            if k == j as int {
                                                assert(cell_seq(wmid, k)[asn[k]]);
                                                assert(asn[k] != p as int);
                                            } else {
                                                assert(cell_seq(*self, k) == cell_seq(wmid, k));
                                                assert(cell_seq(wmid, k)[asn[k]]);
                                            }
                                        }
                                        lemma_assignment_transfer(*s, wmid, *self, asn);
                                    }
                                }
                            }
                            p += 1;
                        }
                        if removed > 0 {
                            proof {
                                lemma_count_true_bounds(cell_seq(*self, j as int));
                            }
                            let cur_count = self.cells[j].count;
                            let newc = cur_count - removed;
                            let ghost wcnt = *self;
                            self.cells[j].count = newc;
                            proof {
                                assert(cell_seq(*self, j as int) == cell_seq(wcnt, j as int));
                                assert(cell_seq(*self, c as int) == cell_seq(wcnt, c as int));
                                assert forall|k: int|
                                    0 <= k < self.cells@.len() implies #[trigger] cell_subset(
                                    *self,
                                    *old(self),
                                    k,
                                ) by {
                                    assert(cell_subset(wcnt, *old(self), k));
                                    assert(cell_seq(*self, k) == cell_seq(wcnt, k));
                                }
                                assert forall|asn: Seq<int>|
                                    #[trigger] assignment_ok(*s, *old(self), asn)
                                    implies assignment_ok(*s, *self, asn) by {
                                    assert(assignment_ok(*s, wcnt, asn));
                                    assert forall|k: int|
                                        0 <= k < asn.len() implies #[trigger] cell_seq(
                                        *self,
                                        k,
                                    )[asn[k]] by {
                                        assert(cell_seq(*self, k) == cell_seq(wcnt, k));
                                    }
                                    lemma_assignment_transfer(*s, wcnt, *self, asn);
                                }
                            }
                            if newc == 0 {
                                proof {
                                    assert(cell_count(*self, j as int) == 0);
                                    assert forall|k: int|
                                        0 <= k < self.cells@.len() implies cell_wf(
                                        #[trigger] self.cells@[k],
                                        np as int,
                                    ) by {
                                        if k != j as int {
                                            assert(self.cells@[k] == w0.cells@[k]);
                                            assert(cell_wf(w0.cells@[k], np as int));
                                        }
                                    }
                                    assert forall|i: int|
                                        0 <= i < old(self).cells@.len()
                                        implies #[trigger] cell_count(*self, i) <= cell_count(
                                        *old(self),
                                        i,
                                    ) by {
                                        assert(cell_subset(*self, *old(self), i));
                                        lemma_count_subset_le(
                                            cell_seq(*self, i),
                                            cell_seq(*old(self), i),
                                        );
                                    }
                                    // the emptied cell admits no pattern, so no solution
                                    // existed below the incoming wave
                                    lemma_count_true_zero(cell_seq(*self, j as int));
                                    assert forall|asn: Seq<int>|
                                        !(#[trigger] assignment_ok(*s, *old(self), asn)) by {
                                        if assignment_ok(*s, *old(self), asn) {
                                            assert(assignment_ok(*s, *self, asn));
                                            assert(cell_seq(*self, j as int)[asn[j as int]]);
                                            assert(false);
                                        }
                                    }
                                }
                                return Err(PropagateError::Contradiction);
                            }
                            let ghost wq = *self;
                            self.queue.push(j);
                            proof {
                                let w2 = *self;
                                assert(w2.cells@ == wq.cells@);
                                assert forall|k: int|
                                    0 <= k < w2.cells@.len() implies #[trigger] cell_subset(
                                    w2,
                                    *old(self),
                                    k,
                                ) by {
                                    assert(cell_subset(wq, *old(self), k));
                                    assert(cell_seq(w2, k) == cell_seq(wq, k));
                                }
                                assert forall|asn: Seq<int>|
                                    #[trigger] assignment_ok(*s, *old(self), asn)
                                    implies assignment_ok(*s, w2, asn) by {
                                    assert(assignment_ok(*s, wq, asn));
                                    assert forall|k: int|
                                        0 <= k < asn.len() implies #[trigger] cell_seq(
                                        w2,
                                        k,
                                    )[asn[k]] by {
                                        assert(cell_seq(w2, k) == cell_seq(wq, k));
                                    }
                                    lemma_assignment_transfer(*s, wq, w2, asn);
                                }
                                assert(w2.queue@[w2.queue@.len() - 1] as int == j as int);
                                assert(in_queue(w2.queue@, j as int));
                                lemma_count_sum_one_changed(
                                    w0.cells@,
                                    w2.cells@,
                                    j as int,
                                    w2.cells@.len() as int,
                                );
                                assert(wave_measure(w2) <= wave_measure(w0) + 1 - removed);
                                assert forall|k: int|
                                    0 <= k < w2.cells@.len() implies cell_wf(
                                    #[trigger] w2.cells@[k],
                                    np as int,
                                ) by {
                                    if k != j as int {
                                        assert(w2.cells@[k] == w0.cells@[k]);
                                        assert(cell_wf(w0.cells@[k], np as int));
                                    }
                                }
                                assert forall|k: int|
                                    0 <= k < w2.cells@.len() implies #[trigger] cell_count(
                                    w2,
                                    k,
                                ) >= 1 by {
                                    if k == j as int {
                                        assert(cell_count(w2, k) == newc >= 1);
                                    } else {
                                        assert(w2.cells@[k] == w0.cells@[k]);
                                        assert(cell_count(w0, k) >= 1);
                                    }
                                }
                                assert forall|k: int|
                                    0 <= k < w2.cells@.len() implies #[trigger] cell_subset(
                                    w2,
                                    w0,
                                    k,
                                ) by {
                                    if k == j as int {
                                        assert forall|pp: int|
                                            0 <= pp < cell_seq(w2, k).len()
                                                && #[trigger] cell_seq(w2, k)[pp]
                                            implies cell_seq(w0, k)[pp] by {}
                                    } else {
                                        assert(cell_seq(w2, k) == cell_seq(w0, k));
                                    }
                                }
                                assert forall|ii: int|
                                    0 <= ii < w2.cells@.len() implies #[trigger] cell_seq(
                                    w2,
                                    ii,
                                ).len() == np by {
                                    assert(cell_wf(w2.cells@[ii], np as int));
                                }
                                assert forall|i: int, dd: int|
                                    0 <= i < w2.cells@.len() && 0 <= dd < 4 implies in_queue(
                                    w2.queue@,
                                    i,
                                ) || #[trigger] arc_ok(*s, w2, i, dd) || cell_full(
                                    w2,
                                    i,
                                    np as int,
                                ) || (i == c && dd >= d + 1) by {
                                    if i == c && dd == d {
                                        assert forall|pp: int|
                                            0 <= pp < np && #[trigger] cell_seq(w2, j as int)[pp]
                                            implies supported(
                                            *s,
                                            cell_seq(w2, c as int),
                                            d as int,
                                            pp,
                                        ) by {
                                            assert(sup@[pp]);
                                        }
                                        assert(arc_ok(*s, w2, i, dd));
                                    } else if !(i == c && dd >= d) {
                                        assert(in_queue(w0.queue@, i) || arc_ok(*s, w0, i, dd)
                                            || cell_full(w0, i, np as int));
                                        if in_queue(w0.queue@, i) {
                                            lemma_in_queue_push(w0.queue@, j, i);
                                        } else if arc_ok(*s, w0, i, dd) {
                                            if i == j as int {
                                                assert(in_queue(w2.queue@, i));
                                            } else {
                                                assert(cell_seq(w2, i) == cell_seq(w0, i));
                                                lemma_arc_ok_preserved(*s, w0, w2, i, dd);
                                            }
                                        } else {
                                            if i == j as int {
                                                assert(in_queue(w2.queue@, i));
                                            } else {
                                                assert(cell_seq(w2, i) == cell_seq(w0, i));
                                                assert forall|pp: int|
                                                    0 <= pp < np
                                                    implies #[trigger] cell_seq(w2, i)[pp] by {
                                                    assert(cell_seq(w0, i)[pp]);
                                                }
                                                assert(cell_full(w2, i, np as int));
                                            }
                                        }
                                    }
                                }
                            }
                        } else {
                            proof {
                                let w2 = *self;
                                assert(w2.cells@ == w0.cells@);
                                assert forall|k: int|
                                    0 <= k < w2.cells@.len() implies cell_wf(
                                    #[trigger] w2.cells@[k],
                                    np as int,
                                ) by {
                                    assert(w2.cells@[k] == w0.cells@[k]);
                                    assert(cell_wf(w0.cells@[k], np as int));
                                }
                                assert forall|ii: int|
                                    0 <= ii < w2.cells@.len() implies #[trigger] cell_seq(
                                    w2,
                                    ii,
                                ).len() == np by {
                                    assert(cell_wf(w2.cells@[ii], np as int));
                                }
                                assert forall|jj: int|
                                    0 <= jj < w2.cells@.len() implies #[trigger] cell_subset(
                                    w2,
                                    w0,
                                    jj,
                                ) by {
                                    assert(cell_seq(w2, jj) == cell_seq(w0, jj));
                                }
                                assert forall|pp: int|
                                    0 <= pp < np && #[trigger] cell_seq(w2, j as int)[pp]
                                    implies supported(*s, cell_seq(w2, c as int), d as int, pp) by {
                                    assert(sup@[pp]);
                                }
                                assert(arc_ok(*s, w2, c as int, d as int));
                                assert forall|k: int|
                                    0 <= k < w2.cells@.len() implies #[trigger] cell_count(
                                    w2,
                                    k,
                                ) >= 1 by {
                                    assert(cell_seq(w2, k) == cell_seq(w0, k));
                                    assert(cell_count(w0, k) >= 1);
                                }
                                assert forall|i: int, dd: int|
                                    0 <= i < w2.cells@.len() && 0 <= dd < 4 implies in_queue(
                                    w2.queue@,
                                    i,
                                ) || #[trigger] arc_ok(*s, w2, i, dd) || cell_full(
                                    w2,
                                    i,
                                    np as int,
                                ) || (i == c && dd >= d + 1) by {
                                    if !(i == c && dd >= d) {
                                        assert(in_queue(w0.queue@, i) || arc_ok(*s, w0, i, dd)
                                            || cell_full(w0, i, np as int));
                                        if arc_ok(*s, w0, i, dd) {
                                            assert(cell_seq(w2, i) == cell_seq(w0, i));
                                            lemma_arc_ok_preserved(*s, w0, w2, i, dd);
                                        } else if !in_queue(w0.queue@, i) {
                                            assert forall|pp: int|
                                                0 <= pp < np
                                                implies #[trigger] cell_seq(w2, i)[pp] by {
                                                assert(cell_seq(w0, i)[pp]);
                                            }
                                            assert(cell_full(w2, i, np as int));
                                        }
                                    }
                                }
                            }
                        }
                    },
                }
                d += 1;
            }
            proof {
                assert forall|i: int, dd: int|
                    0 <= i < self.cells@.len() && 0 <= dd < 4 implies in_queue(self.queue@, i)
                    || #[trigger] arc_ok(*s, *self, i, dd) || cell_full(*self, i, np as int) by {
                    assert(in_queue(self.queue@, i) || arc_ok(*s, *self, i, dd) || cell_full(
                        *self,
                        i,
                        np as int,
                    ) || (i == c && dd >= 4));
                }
                lemma_count_sum_nonneg(self.cells@, self.cells@.len() as int);
            }
        }
        proof {
            assert forall|i: int|
                0 <= i < old(self).cells@.len() implies #[trigger] cell_count(*final(self), i)
                    <= cell_count(*old(self), i) by {
                assert(cell_subset(*self, *old(self), i));
                lemma_count_subset_le(cell_seq(*self, i), cell_seq(*old(self), i));
            }
        }
        Ok(())
    }
}

} // verus!
