use vstd::prelude::*;
use crate::catalog::{ImageData, PatternCatalog, build_catalog, catalog_matches_image, catalog_wf, image_wf};
use crate::observe::{sample, select};
use crate::rng::{Rng, spec_rng_next, spec_rng_seeded};
use crate::stats::{BuildError, GlobalStats, stats_wf};
use crate::wave::{
    Wave, assignment_ok, cell_count, cell_seq, count_sum, count_true,
    lemma_count_sum_pointwise_le, lemma_count_sum_pointwise_lt, wave_alive, wave_inv, wave_wf,
};

verus! {

/// The run's externally visible state.  Complete is terminal and
/// idempotent; contradiction recovery is internal and never observed.
#[derive(Clone, Copy, PartialEq, Eq, Structural, Debug)]
pub enum RunState {
    Running,
    Complete,
}

/// What one step reports: whether the run is complete at its end.
#[derive(Clone, Copy, PartialEq, Eq, Structural, Debug)]
pub enum Observe {
    Incomplete,
    Complete,
}

/// The pattern side length of the engine's catalog.
pub const PATTERN_SIZE: usize = 3;

/// How many steps one tick executes before a redraw.
pub const STEPS_PER_TICK: usize = 4;

/// The generation engine: immutable global statistics, the current
/// wave (discarded wholesale on contradiction or reset, never
/// repaired), the single deterministic random stream, the run state,
/// and a tally of internal contradiction recoveries.
pub struct Wfc {
    pub stats: GlobalStats,
    pub wave: Wave,
    pub rng: Rng,
    pub state: RunState,
    pub contradictions: u64,
    /// How many observation steps have run (calls of `step` that
    /// found the run still Running).
    pub steps: u64,
}

/// The engine invariant: well-formed statistics, a structurally sound
/// wave over them whose propagation invariant holds, and no cell ever
/// left empty between steps.
pub open spec fn engine_wf(e: Wfc) -> bool {
    &&& stats_wf(e.stats)
    &&& wave_wf(e.wave, e.stats)
    &&& wave_inv(e.stats, e.wave)
    &&& wave_alive(e.wave)
}

/// The total candidate count of the engine's wave: the measure that
/// every successful, incomplete step strictly decreases.
pub open spec fn engine_count_sum(e: Wfc) -> int {
    count_sum(e.wave.cells@, e.wave.cells@.len() as int)
}

impl Wfc {
    /// Build an engine from validated statistics, a grid size and a
    /// seed.  Succeeds exactly when both grid dimensions are positive
    /// and the cell count fits the machine; the wave starts with every
    /// pattern possible everywhere and the stream starts at the seed.
    pub fn from_stats(stats: GlobalStats, width: u32, height: u32, seed: u32) -> (r: Result<
        Wfc,
        BuildError,
    >)
        requires
            stats_wf(stats),
        ensures
            match r {
                Ok(e) => {
                    &&& engine_wf(e)
                    &&& e.stats == stats
                    &&& e.wave.width == width
                    &&& e.wave.height == height
                    &&& e.rng == spec_rng_seeded(seed)
                    &&& e.state == RunState::Running
                    &&& e.contradictions == 0
                    &&& e.steps == 0
                    &&& (forall|i: int|
                        0 <= i < e.wave.cells@.len() ==> #[trigger] cell_count(e.wave, i)
                            == stats.n_patterns)
                    &&& (forall|i: int|
                        0 <= i < e.wave.cells@.len() ==> crate::wave::cell_full(
                            e.wave,
                            i,
                            stats.n_patterns as int,
                        ))
                    &&& e.wave.queue@.len() == 0
                    &&& 1 <= width && 1 <= height && width * height <= usize::MAX
                },
                Err(e) => (width < 1 || height < 1 || width * height > usize::MAX) && e
                    == BuildError::BadGridSize,
            },
    {
        if width == 0 || height == 0 {
            return Err(BuildError::BadGridSize);
        }
        proof {
            assert((width as int) * (height as int) <= 0xFFFF_FFFFint * 0xFFFF_FFFFint)
                by (nonlinear_arith)
                requires
                    (width as int) <= 0xFFFF_FFFFint,
                    (height as int) <= 0xFFFF_FFFFint,
            ;
        }
        let w64 = (width as u64) * (height as u64);
        if w64 > (usize::MAX as u64) {
            return Err(BuildError::BadGridSize);
        }
        let wave = Wave::new(width as usize, height as usize, &stats);
        Ok(
            Wfc {
                stats,
                wave,
                rng: Rng::seeded(seed),
                state: RunState::Running,
                contradictions: 0,
                steps: 0,
            },
        )
    }

    /// Build an engine from a decoded example image: extract the
    /// pattern catalog (side length `PATTERN_SIZE`, identity only or
    /// all 8 symmetry transforms) and start a run.  Fails fast exactly
    /// on a bad grid size, an image smaller than the pattern size, or
    /// an image with more windows than the counters can tally.
    pub fn new(img: &ImageData, width: u32, height: u32, seed: u32, rotate: bool) -> (r: Result<
        Wfc,
        BuildError,
    >)
        requires
            image_wf(*img),
        ensures
            r matches Ok(e) ==> engine_wf(e) && e.wave.width == width && e.wave.height == height
                && e.rng == spec_rng_seeded(seed) && e.state == RunState::Running
                && e.contradictions == 0 && e.steps == 0 && (forall|i: int|
                0 <= i < e.wave.cells@.len() ==> crate::wave::cell_full(
                    e.wave,
                    i,
                    e.stats.n_patterns as int,
                )) && (forall|i: int|
                0 <= i < e.wave.cells@.len() ==> #[trigger] cell_count(e.wave, i)
                    == e.stats.n_patterns) && e.wave.queue@.len() == 0,
            r matches Ok(e) ==> exists|c: PatternCatalog|
                catalog_wf(c) && c.n == PATTERN_SIZE && #[trigger] catalog_matches_image(
                    c,
                    *img,
                    rotate,
                ) && e.stats == c.stats,
            r is Ok <==> {
                let tc: int = if rotate {
                    8
                } else {
                    1
                };
                &&& PATTERN_SIZE <= img.width
                &&& PATTERN_SIZE <= img.height
                &&& img.width * img.height * tc <= u32::MAX
                &&& 1 <= width
                &&& 1 <= height
                &&& width * height <= usize::MAX
            },
    {
        let cat = build_catalog(img, PATTERN_SIZE, rotate)?;
        Self::from_stats(cat.stats, width, height, seed)
    }

    /// One observation step of the run's state machine:
    ///
    /// 1. If the run is complete, do nothing and report Complete.
    /// 2. Choose the most determined undecided cell; if none is left,
    ///    the run becomes Complete.
    /// 3. Otherwise sample one pattern for it, collapse the cell and
    ///    propagate.  A contradiction discards the wave and rebuilds a
    ///    fresh one of the same size (the stream is not reseeded and
    ///    keeps consuming where it left off); the run stays Running
    ///    and no error is surfaced.
    ///
    /// A successful incomplete step strictly shrinks the total
    /// candidate count, which is bounded below, so runs that avoid
    /// contradiction reach Complete within a bounded number of steps.
    pub fn step(&mut self) -> (r: Observe)
        requires
            engine_wf(*old(self)),
        ensures
            engine_wf(*final(self)),
            final(self).stats == old(self).stats,
            final(self).wave.width == old(self).wave.width,
            final(self).wave.height == old(self).wave.height,
            final(self).wave.cells@.len() == old(self).wave.cells@.len(),
            (r == Observe::Complete) == (final(self).state == RunState::Complete),
            old(self).state == RunState::Complete ==> *final(self) == *old(self),
            old(self).state == RunState::Running ==> final(self).steps != old(self).steps && (old(
                self,
            ).steps < u64::MAX ==> final(self).steps == old(self).steps + 1),
            old(self).state == RunState::Running && r == Observe::Complete ==> final(self).wave
                == old(self).wave && final(self).rng == old(self).rng && final(self).contradictions
                == old(self).contradictions && (forall|i: int|
                0 <= i < old(self).wave.cells@.len() ==> #[trigger] cell_count(old(self).wave, i)
                    <= 1),
            old(self).state == RunState::Running && r == Observe::Incomplete ==> {
                &&& final(self).state == RunState::Running
                &&& final(self).rng == spec_rng_next(spec_rng_next(old(self).rng))
                &&& (final(self).contradictions == old(self).contradictions ==> crate::wave::wave_subset(
                    final(self).wave,
                    old(self).wave,
                ) && engine_count_sum(*final(self)) < engine_count_sum(*old(self)))
                &&& (final(self).contradictions != old(self).contradictions ==> (old(
                    self,
                ).contradictions < u64::MAX ==> final(self).contradictions == old(
                    self,
                ).contradictions + 1) && (forall|i: int|
                    0 <= i < final(self).wave.cells@.len() ==> #[trigger] cell_count(
                        final(self).wave,
                        i,
                    ) == old(self).stats.n_patterns) && (exists|ci: int, cp: int|
                    0 <= ci < old(self).wave.cells@.len() && 0 <= cp < old(self).stats.n_patterns
                        && #[trigger] cell_seq(old(self).wave, ci)[cp] && cell_count(
                        old(self).wave,
                        ci,
                    ) > 1 && (forall|asn: Seq<int>|
                        #[trigger] assignment_ok(old(self).stats, old(self).wave, asn) ==> asn[ci]
                            != cp)))
            },
    {
        if self.state == RunState::Complete {
            return Observe::Complete;
        }
        if self.steps == u64::MAX {
            self.steps = 0;
        } else {
            self.steps = self.steps + 1;
        }
        match select(&self.wave, &self.stats, &mut self.rng) {
            None => {
                self.state = RunState::Complete;
                Observe::Complete
            },
            Some(i) => {
                let ghost w_before = self.wave;
                proof {
                    assert(crate::wave::cell_wf(
                        self.wave.cells@[i as int],
                        self.stats.n_patterns as int,
                    ));
                }
                let p = sample(&self.wave.cells[i].possible, &self.stats, &mut self.rng);
                proof {
                    assert(p < self.stats.n_patterns);
                    assert(cell_seq(self.wave, i as int)[p as int]);
                }
                self.wave.collapse(i, p, &self.stats);
                let ghost w_collapsed = self.wave;
                proof {
                    assert forall|k: int|
                        0 <= k < w_collapsed.cells@.len() implies count_true(
                        #[trigger] w_collapsed.cells@[k].possible@,
                    ) <= count_true(w_before.cells@[k].possible@) by {
                        if k != i as int {
                            assert(w_collapsed.cells@[k] == w_before.cells@[k]);
                        } else {
                            assert(cell_count(w_collapsed, k) == 1);
                            assert(cell_count(w_before, k) > 1);
                        }
                    }
                    lemma_count_sum_pointwise_lt(
                        w_collapsed.cells@,
                        w_before.cells@,
                        i as int,
                        w_before.cells@.len() as int,
                    );
                }
                let _cells_len = self.wave.cells.len();
                proof {
                    assert forall|k: int|
                        0 <= k < self.wave.cells@.len() implies #[trigger] cell_count(
                        self.wave,
                        k,
                    ) >= 1 by {
                        if k != i as int {
                            assert(self.wave.cells@[k] == w_before.cells@[k]);
                            assert(cell_count(w_before, k) >= 1);
                        }
                    }
                }
                match self.wave.propagate(&self.stats) {
                    Ok(()) => {
                        proof {
                            assert forall|k: int|
                                0 <= k < self.wave.cells@.len() implies count_true(
                                #[trigger] self.wave.cells@[k].possible@,
                            ) <= count_true(w_collapsed.cells@[k].possible@) by {
                                assert(cell_count(self.wave, k) <= cell_count(w_collapsed, k));
                            }
                            lemma_count_sum_pointwise_le(
                                self.wave.cells@,
                                w_collapsed.cells@,
                                w_collapsed.cells@.len() as int,
                            );
                            assert forall|k: int|
                                0 <= k < w_collapsed.cells@.len() implies count_true(
                                #[trigger] w_collapsed.cells@[k].possible@,
                            ) <= count_true(w_before.cells@[k].possible@) by {
                                if k != i as int {
                                    assert(w_collapsed.cells@[k] == w_before.cells@[k]);
                                }
                            }
                            assert forall|k: int|
                                0 <= k < self.wave.cells@.len()
                                implies #[trigger] crate::wave::cell_subset(
                                self.wave,
                                w_before,
                                k,
                            ) by {
                                assert(crate::wave::cell_subset(self.wave, w_collapsed, k));
                                assert(crate::wave::cell_subset(w_collapsed, w_before, k));
                                assert forall|pp: int|
                                    0 <= pp < cell_seq(self.wave, k).len() && #[trigger] cell_seq(
                                        self.wave,
                                        k,
                                    )[pp] implies cell_seq(w_before, k)[pp] by {
                                    assert(cell_seq(w_collapsed, k)[pp]);
                                }
                            }
                        }
                        Observe::Incomplete
                    },
                    Err(_) => {
                        proof {
                            // the contradiction certifies that collapsing the chosen
                            // cell to the sampled pattern admitted no solution, so no
                            // solution of the incoming wave made that choice
                            assert forall|asn: Seq<int>|
                                #[trigger] assignment_ok(self.stats, w_before, asn)
                                implies asn[i as int] != p as int by {
                                if asn[i as int] == p as int {
                                    assert(assignment_ok(self.stats, w_collapsed, asn));
                                    assert(false);
                                }
                            }
                            assert(cell_seq(w_before, i as int)[p as int]);
                            assert(cell_count(w_before, i as int) > 1);
                            assert(w_before == old(self).wave);
                            assert(self.stats == old(self).stats);
                        }
                        if self.contradictions == u64::MAX {
                            self.contradictions = 0;
                        } else {
                            self.contradictions = self.contradictions + 1;
                        }
                        let wd = self.wave.width;
                        let ht = self.wave.height;
                        self.wave = Wave::new(wd, ht, &self.stats);
                        Observe::Incomplete
                    },
                }
            },
        }
    }

    /// Discard the current wave and start a fresh run of the same
    /// size over the same statistics.  The random stream continues
    /// where it left off (it is not reseeded), so the new run need not
    /// repeat the previous one.  Usable at any time, including after
    /// Complete.
    pub fn reset(&mut self)
        requires
            engine_wf(*old(self)),
        ensures
            engine_wf(*final(self)),
            final(self).stats == old(self).stats,
            final(self).rng == old(self).rng,
            final(self).contradictions == old(self).contradictions,
            final(self).steps == old(self).steps,
            final(self).wave.width == old(self).wave.width,
            final(self).wave.height == old(self).wave.height,
            final(self).state == RunState::Running,
            final(self).wave.queue@.len() == 0,
            forall|i: int|
                0 <= i < final(self).wave.cells@.len() ==> #[trigger] cell_count(
                    final(self).wave,
                    i,
                ) == old(self).stats.n_patterns,
    {
        let _cells_len = self.wave.cells.len();
        let wd = self.wave.width;
        let ht = self.wave.height;
        self.wave = Wave::new(wd, ht, &self.stats);
        self.state = RunState::Running;
    }

    /// One externally driven tick: a fixed batch of steps.  Returns
    /// true exactly when the run state is Complete at the end of the
    /// call; once Complete, further ticks change nothing and keep
    /// returning true.
    pub fn tick(&mut self) -> (done: bool)
        requires
            engine_wf(*old(self)),
        ensures
            engine_wf(*final(self)),
            final(self).stats == old(self).stats,
            final(self).wave.width == old(self).wave.width,
            final(self).wave.height == old(self).wave.height,
            done == (final(self).state == RunState::Complete),
            old(self).state == RunState::Complete ==> *final(self) == *old(self),
            old(self).state == RunState::Running && old(self).contradictions + STEPS_PER_TICK
                < u64::MAX && final(self).state == RunState::Running
                && final(self).contradictions == old(self).contradictions ==> engine_count_sum(
                *final(self),
            ) < engine_count_sum(*old(self)),
            old(self).state == RunState::Running && old(self).steps + STEPS_PER_TICK < u64::MAX
                ==> old(self).steps + 1 <= final(self).steps <= old(self).steps + STEPS_PER_TICK
                && (final(self).state == RunState::Running ==> final(self).steps == old(
                self,
            ).steps + STEPS_PER_TICK),
    {
        let mut k: usize = 0;
        let mut finished = self.state == RunState::Complete;
        while k < STEPS_PER_TICK
            invariant
                engine_wf(*self),
                self.stats == old(self).stats,
                self.wave.width == old(self).wave.width,
                self.wave.height == old(self).wave.height,
                finished == (self.state == RunState::Complete),
                old(self).state == RunState::Complete ==> *self == *old(self),
                k <= STEPS_PER_TICK,
                old(self).contradictions <= self.contradictions <= old(self).contradictions + k
                    || old(self).contradictions + STEPS_PER_TICK >= u64::MAX,
                old(self).state == RunState::Running && old(self).contradictions + STEPS_PER_TICK
                    < u64::MAX && 1 <= k && self.state == RunState::Running
                    && self.contradictions == old(self).contradictions ==> engine_count_sum(
                    *self,
                ) < engine_count_sum(*old(self)),
                old(self).state == RunState::Running && old(self).steps + STEPS_PER_TICK
                    < u64::MAX ==> old(self).steps <= self.steps <= old(self).steps + k && (
                self.state == RunState::Running ==> self.steps == old(self).steps + k) && (1 <= k
                    ==> old(self).steps + 1 <= self.steps),
                k == 0 ==> *self == *old(self),
            decreases STEPS_PER_TICK - k,
        {
            let ghost pre = *self;
            let r = self.step();
            proof {
                if old(self).state == RunState::Running && old(self).contradictions
                    + STEPS_PER_TICK < u64::MAX && self.state == RunState::Running
                    && self.contradictions == old(self).contradictions {
                    assert(pre.state == RunState::Running);
                    assert(r == Observe::Incomplete);
                    assert(old(self).contradictions <= pre.contradictions <= old(
                        self,
                    ).contradictions + k);
                    if self.contradictions != pre.contradictions {
                        assert(pre.contradictions < u64::MAX);
                        assert(self.contradictions == pre.contradictions + 1);
                        assert(false);
                    }
                    assert(engine_count_sum(*self) < engine_count_sum(pre));
                    if k >= 1 {
                        assert(engine_count_sum(pre) < engine_count_sum(*old(self)));
                    } else {
                        assert(pre == *old(self));
                    }
                }
                if old(self).state == RunState::Running && old(self).steps + STEPS_PER_TICK
                    < u64::MAX {
                    if pre.state == RunState::Running {
                        assert(pre.steps < u64::MAX);
                        assert(self.steps == pre.steps + 1);
                    } else {
                        assert(*self == pre);
                    }
                }
            }
            finished = r == Observe::Complete;
            k += 1;
        }
        finished
    }
}

/// The progress bound behind termination: between steps the total
/// candidate count of a live engine lies between the cell count and
/// (pattern count) x (cell count).  Every incomplete step without a
/// contradiction strictly decreases it (see `step`), so a run that
/// avoids contradictions reaches Complete within a number of steps
/// proportional to the grid cell count.
pub proof fn lemma_engine_progress_bound(e: Wfc)
    requires
        engine_wf(e),
    ensures
        e.wave.cells@.len() <= engine_count_sum(e) <= e.stats.n_patterns
            * e.wave.cells@.len(),
{
    assert forall|i: int|
        0 <= i < e.wave.cells@.len() implies count_true(#[trigger] e.wave.cells@[i].possible@)
        >= 1 by {
        assert(cell_count(e.wave, i) >= 1);
    }
    crate::wave::lemma_count_sum_bounds(
        e.wave.cells@,
        e.stats.n_patterns as int,
        e.wave.cells@.len() as int,
    );
}

} // verus!
