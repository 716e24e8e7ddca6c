//! Operating points and limit cycles.

use vstd::prelude::*;

use crate::optim::anderson::OPT_HISTORY;
use crate::optim::linsolve::Backend;
use crate::scalar::{adds, lts, zeros, Scalar};
use crate::simulation::chain::{chain, lemma_chain_push};
use crate::simulation::reset::event_resets;
use crate::simulation::runtime::{Call, Runtime};
use crate::simulation::state::{
    add_capped, capped, Log, Outcome, RunStats, Simulation, SIM_PSS_ITERATIONS_MAX,
};
use crate::simulation::trackers::{is_nls_coef, nls_coef, raise, raised, ConvergenceTracker};

verus! {

/// A block was solved with residual `err`, which raises the largest.
pub open spec fn balanced_by<F: Scalar>(
    key: u64,
    t: F,
    dt: F,
    err: F,
    a: (Log<F>, F),
    b: (Log<F>, F),
) -> bool {
    &&& b.0 == a.0.push(Call::BlockActive(key, true)).push(Call::SolveBlock(key, t, dt, err))
    &&& raised(a.1, err, b.1)
}

/// One dynamic block is solved, if it takes part.
pub open spec fn balances_one<F: Scalar>(
    key: u64,
    t: F,
    dt: F,
    a: (Log<F>, F),
    b: (Log<F>, F),
) -> bool {
    ||| b == (a.0.push(Call::BlockActive(key, false)), a.1)
    ||| exists|err: F| #[trigger] balanced_by(key, t, dt, err, a, b)
}

/// The dynamic blocks are solved in order.
pub open spec fn balance_step<F: Scalar>(
    blocks: Seq<u64>,
    list: Seq<usize>,
    t: F,
    dt: F,
) -> spec_fn(int, (Log<F>, F), (Log<F>, F)) -> bool {
    |i: int, a: (Log<F>, F), b: (Log<F>, F)|
        balances_one(blocks[list[i] as int], t, dt, a, b)
}

/// The log, the residuals and the largest of them while a period is closed.
pub struct Closing<F> {
    pub log: Log<F>,
    pub tracker: ConvergenceTracker<F>,
    pub largest: F,
}

/// A block closed its period with residual `err`.
pub open spec fn closed_by<F: Scalar>(
    key: u64,
    at: usize,
    err: F,
    a: Closing<F>,
    b: Closing<F>,
) -> bool {
    &&& b.log == a.log.push(Call::BlockActive(key, true)).push(Call::ClosePeriod(key, err))
    &&& a.tracker.records(at, err, b.tracker)
    &&& raised(a.largest, err, b.largest)
}

/// A block that does not take part is passed over.
pub open spec fn skipped<F>(key: u64, a: Closing<F>) -> Closing<F> {
    Closing { log: a.log.push(Call::BlockActive(key, false)), ..a }
}

/// One dynamic block closes its period, if it takes part.
pub open spec fn closes_one<F: Scalar>(
    key: u64,
    at: usize,
    a: Closing<F>,
    b: Closing<F>,
) -> bool {
    ||| b == skipped(key, a)
    ||| exists|err: F| #[trigger] closed_by(key, at, err, a, b)
}

/// The dynamic blocks close their periods in order.
pub open spec fn close_step<F: Scalar>(blocks: Seq<u64>, list: Seq<usize>) -> spec_fn(
    int,
    Closing<F>,
    Closing<F>,
) -> bool {
    |i: int, a: Closing<F>, b: Closing<F>| closes_one(blocks[list[i] as int], list[i], a, b)
}

/// A recording block is reset; any other is only asked.
pub open spec fn record_step<F>(blocks: Seq<u64>) -> spec_fn(int, Log<F>, Log<F>) -> bool {
    |i: int, a: Log<F>, b: Log<F>|
        {
            ||| b == a.push(Call::IsRecorder(blocks[i], false))
            ||| b == a.push(Call::IsRecorder(blocks[i], true)).push(Call::ResetBlock(blocks[i]))
        }
}

/// The calls that start the shooting of the listed blocks.
pub open spec fn period_starts<F>(blocks: Seq<u64>, list: Seq<usize>) -> Log<F> {
    Seq::new(list.len(), |i: int| Call::StartPeriod(blocks[list[i] as int]))
}

/// `r` holds the counts and the times of two runs together.
pub open spec fn summed<F: Scalar>(a: RunStats<F>, b: RunStats<F>, r: RunStats<F>) -> bool {
    &&& r.total_steps == capped(a.total_steps, b.total_steps)
    &&& r.successful_steps == capped(a.successful_steps, b.successful_steps)
    &&& r.rejected_steps == capped(a.rejected_steps, b.rejected_steps)
    &&& r.total_evals == capped(a.total_evals, b.total_evals)
    &&& r.total_solver_its == capped(a.total_solver_its, b.total_solver_its)
    &&& adds(a.wall_time_secs, b.wall_time_secs, r.wall_time_secs)
    &&& r.outcome == a.outcome
}

/// The counts and the times of two runs together.
pub fn sum_counts<F: Scalar>(a: RunStats<F>, b: RunStats<F>) -> (r: RunStats<F>)
    ensures
        summed(a, b, r),
{
    RunStats {
        total_steps: add_capped(a.total_steps, b.total_steps),
        successful_steps: add_capped(a.successful_steps, b.successful_steps),
        rejected_steps: add_capped(a.rejected_steps, b.rejected_steps),
        total_evals: add_capped(a.total_evals, b.total_evals),
        total_solver_its: add_capped(a.total_solver_its, b.total_solver_its),
        wall_time_secs: a.wall_time_secs.plus(b.wall_time_secs),
        outcome: a.outcome,
    }
}

/// Whether the largest residual is below the threshold.
pub open spec fn quiet<F: Scalar>(largest: F, r: bool) -> bool {
    exists|tol: F| #[trigger] lts(largest, tol, r) && is_nls_coef(tol)
}

fn is_quiet<F: Scalar>(largest: F) -> (r: bool)
    ensures
        quiet(largest, r),
{
    let tol: F = nls_coef();
    let r: bool = largest.below(tol);
    assert(lts(largest, tol, r));
    r
}

/// The search for an operating point: the simulation, and whether its last pass was
/// quiet.
pub struct Settling<S> {
    pub sim: S,
    pub quiet: bool,
}

/// The search for a limit cycle: the simulation, the counts so far, and whether the
/// last period was quiet.
pub struct Shooting<S, F> {
    pub sim: S,
    pub counts: RunStats<F>,
    pub quiet: bool,
}

/// The simulations and values that one period of shooting passes through.
pub struct Shot<S, F> {
    pub ran: S,
    pub stats: RunStats<F>,
    pub cleared: S,
    pub closed: S,
    pub zero: F,
    pub largest: F,
}

/// The simulations and values that the search for an operating point passes through.
pub struct Search<S> {
    pub first: S,
    pub former: u64,
    pub asked: S,
    pub found: S,
    pub solver: u64,
    pub set: S,
    pub passes: int,
    pub settled: Settling<S>,
    pub sampled: S,
}

/// The simulations and values that the search for a limit cycle passes through.
pub struct Cycle<S, F> {
    pub first: S,
    pub former: u64,
    pub asked: S,
    pub found: S,
    pub solver: u64,
    pub set: S,
    pub primed: S,
    pub counts: RunStats<F>,
    pub periods: int,
    pub shot: Shooting<S, F>,
    pub recorders: S,
    pub rewound: S,
    pub ran: S,
    pub stats: RunStats<F>,
    pub total: RunStats<F>,
}

/// `v` was found to be above zero.
pub open spec fn positive<F: Scalar>(v: F) -> bool {
    exists|z: F| zeros(z) && #[trigger] lts(z, v, true)
}

impl<F: Scalar, B: Backend<F>, R: Runtime<F>> Simulation<F, B, R> {
    /// Back at the start, if asked.
    pub open spec fn reset_if(&self, reset: bool, after: Self) -> bool {
        if reset {
            exists|z: F| #[trigger] zeros(z) && self.was_reset(z, after)
        } else {
            after == *self
        }
    }

    fn maybe_reset(&mut self, reset: bool)
        requires
            old(self).well_formed(),
        ensures
            old(self).reset_if(reset, *final(self)),
            final(self).well_formed(),
            final(self).dt == old(self).dt,
            final(self).iterations_max == old(self).iterations_max,
            final(self).solver == old(self).solver,
    {
        if reset {
            let z: F = F::zero();
            assert(zeros(z));
            self.reset(z);
        }
    }

    /// `former` is the solver in charge: the one chosen, or where none was chosen, the
    /// one whose engine paces the stages, which is asked for.
    pub open spec fn in_charge(&self, former: u64, after: Self) -> bool {
        match self.solver {
            Some(s) => former == s && after == *self,
            None => {
                &&& after.log() == self.log().push(Call::EngineSolver(former))
                &&& after == (Simulation { driver: after.driver, ..*self })
            },
        }
    }

    fn solver_in_charge(&mut self) -> (former: u64)
        ensures
            old(self).in_charge(former, *final(self)),
            old(self).well_formed() ==> final(self).well_formed(),
    {
        match self.solver {
            Some(s) => s,
            None => self.driver.engine_solver(),
        }
    }

    /// All blocks have the engine of the solver that was in charge again, by way of
    /// `m`, and the choice of a solver is the one kept.
    pub open spec fn restored_by(
        &self,
        former: u64,
        kept: Option<u64>,
        m: Self,
        after: Self,
    ) -> bool {
        &&& self.solver_set(former, m)
        &&& after == (Simulation { solver: kept, ..m })
    }

    /// The solver that was in charge is so again, and the choice is the one kept.
    pub open spec fn restored(&self, former: u64, kept: Option<u64>, after: Self) -> bool {
        exists|m: Self| #[trigger] self.restored_by(former, kept, m, after)
    }

    fn restore_solver(&mut self, former: u64, kept: Option<u64>)
        requires
            old(self).well_formed(),
        ensures
            old(self).restored(former, kept, *final(self)),
            final(self).solver == kept,
            final(self).solve_tracker == old(self).solve_tracker,
            final(self).well_formed(),
    {
        self.set_solver(former);
        let ghost m = *self;
        self.solver = kept;
        assert(old(self).restored_by(former, kept, m, *self));
    }

    /// The dynamic blocks were solved once; `largest` is the largest residual.
    pub open spec fn balanced(&self, zero: F, after: Self, largest: F) -> bool {
        &&& zeros(zero)
        &&& chain(
            self.dyn_indices@.len() as int,
            balance_step(self.blocks@, self.dyn_indices@, self.time, self.dt),
            (self.log(), zero),
            (after.log(), largest),
        )
        &&& after == (Simulation { driver: after.driver, ..*self })
    }

    fn balance(&mut self) -> (largest: F)
        requires
            old(self).well_formed(),
        ensures
            exists|zero: F| #[trigger] old(self).balanced(zero, *final(self), largest),
            *final(self) == (Simulation { driver: final(self).driver, ..*old(self) }),
    {
        let zero: F = F::zero();
        let mut largest: F = zero;
        let t: F = self.time;
        let dt: F = self.dt;
        let ghost start = (self.log(), zero);
        let ghost step = balance_step(self.blocks@, self.dyn_indices@, t, dt);
        let mut i: usize = 0;
        while i < self.dyn_indices.len()
            invariant
                i <= self.dyn_indices@.len(),
                self.well_formed(),
                *self == (Simulation { driver: self.driver, ..*old(self) }),
                step == balance_step(self.blocks@, self.dyn_indices@, t, dt),
                chain(i as int, step, start, (self.log(), largest)),
            decreases self.dyn_indices@.len() - i,
        {
            let ghost a = (self.log(), largest);
            let key: u64 = self.blocks[self.dyn_indices[i]];
            if self.driver.block_active(key) {
                let err: F = self.driver.solve_block(key, t, dt);
                largest = raise(largest, err);
                assert(balanced_by(key, t, dt, err, a, (self.log(), largest)));
            }
            proof {
                let b = (self.log(), largest);
                assert(step(i as int, a, b));
                lemma_chain_push(i as int, step, start, a, b);
            }
            i += 1;
        }
        assert(old(self).balanced(zero, *self, largest));
        largest
    }

    /// One pass of the search: the system is evaluated, up to `m`, and the dynamic
    /// blocks are solved.
    pub open spec fn settles_with(
        a: Settling<Self>,
        m: Self,
        zero: F,
        largest: F,
        b: Settling<Self>,
    ) -> bool {
        &&& a.sim.updated(a.sim.time, m)
        &&& m.balanced(zero, b.sim, largest)
        &&& quiet(largest, b.quiet)
    }

    /// Passes of the search, until one is quiet.
    pub open spec fn settle_step() -> spec_fn(int, Settling<Self>, Settling<Self>) -> bool {
        |i: int, a: Settling<Self>, b: Settling<Self>|
            !a.quiet && exists|m: Self, zero: F, largest: F| #[trigger]
                Self::settles_with(a, m, zero, largest, b)
    }

    /// The search for an operating point, by way of `c`: a reset if asked, the
    /// solver for operating points, passes until one is quiet or their number is
    /// exhausted, a record, and the former solver again.
    pub open spec fn steady_with(&self, reset: bool, c: Search<Self>, after: Self) -> bool {
        &&& self.reset_if(reset, c.first)
        &&& c.first.in_charge(c.former, c.asked)
        &&& c.found.log() == c.asked.log().push(Call::SteadySolver(c.solver))
        &&& c.found == (Simulation { solver: None, driver: c.found.driver, ..c.asked })
        &&& c.found.solver_set(c.solver, c.set)
        &&& 0 <= c.passes <= self.iterations_max
        &&& chain(
            c.passes,
            Self::settle_step(),
            (Settling { sim: c.set, quiet: false }),
            c.settled,
        )
        &&& c.settled.quiet || c.passes == self.iterations_max
        &&& c.settled.sim.sampled(c.settled.sim.time, self.dt, c.sampled)
        &&& c.sampled.restored(c.former, self.solver, after)
    }

    /// Finds an operating point with the solver for them. The former solver is in charge
    /// again afterwards.
    pub fn steadystate(&mut self, reset: bool)
        requires
            old(self).well_formed(),
        ensures
            exists|c: Search<Self>| #[trigger] old(self).steady_with(reset, c, *final(self)),
            final(self).solver == old(self).solver,
            final(self).well_formed(),
    {
        self.maybe_reset(reset);
        let ghost first = *self;
        let kept: Option<u64> = self.solver;
        let former: u64 = self.solver_in_charge();
        let ghost asked = *self;
        self.solver = None;
        let solver: u64 = self.driver.steady_solver();
        let ghost found = *self;
        self.set_solver(solver);
        let ghost set = *self;
        let ghost start = Settling { sim: *self, quiet: false };
        let ghost step = Self::settle_step();
        let limit: usize = self.iterations_max;
        let mut quiet: bool = false;
        let mut i: usize = 0;
        while i < limit && !quiet
            invariant
                i <= limit,
                self.well_formed(),
                self.dt == old(self).dt,
                step == Self::settle_step(),
                chain(i as int, step, start, (Settling { sim: *self, quiet })),
            decreases limit - i,
        {
            let ghost a = Settling { sim: *self, quiet };
            let t: F = self.time;
            self.update(t);
            let ghost m = *self;
            let largest: F = self.balance();
            let ghost zero = choose|zero: F| #[trigger] m.balanced(zero, *self, largest);
            quiet = is_quiet(largest);
            proof {
                let b = Settling { sim: *self, quiet };
                assert(Self::settles_with(a, m, zero, largest, b));
                assert(step(i as int, a, b));
                lemma_chain_push(i as int, step, start, a, b);
            }
            i += 1;
        }
        let ghost settled = Settling { sim: *self, quiet };
        let t: F = self.time;
        let dt: F = self.dt;
        self.sample(t, dt);
        let ghost sampled = *self;
        self.restore_solver(former, kept);
        proof {
            let c = Search {
                first,
                former,
                asked,
                found,
                solver,
                set,
                passes: i as int,
                settled,
                sampled,
            };
            assert(old(self).steady_with(reset, c, *self));
        }
    }

    /// The dynamic blocks closed their periods, from a cleared tracker on.
    pub open spec fn period_closed(&self, zero: F, after: Self, largest: F) -> bool {
        &&& zeros(zero)
        &&& chain(
            self.dyn_indices@.len() as int,
            close_step::<F>(self.blocks@, self.dyn_indices@),
            (Closing { log: self.log(), tracker: self.solve_tracker, largest: zero }),
            (Closing { log: after.log(), tracker: after.solve_tracker, largest }),
        )
        &&& after == (Simulation {
            driver: after.driver,
            solve_tracker: after.solve_tracker,
            ..*self
        })
    }

    fn close_periods(&mut self) -> (largest: F)
        requires
            old(self).well_formed(),
        ensures
            exists|zero: F| #[trigger] old(self).period_closed(zero, *final(self), largest),
            final(self).well_formed(),
            *final(self) == (Simulation {
                driver: final(self).driver,
                solve_tracker: final(self).solve_tracker,
                ..*old(self)
            }),
    {
        let zero: F = F::zero();
        let mut largest: F = zero;
        let ghost start = Closing { log: self.log(), tracker: self.solve_tracker, largest: zero };
        let ghost step = close_step::<F>(self.blocks@, self.dyn_indices@);
        let mut i: usize = 0;
        while i < self.dyn_indices.len()
            invariant
                i <= self.dyn_indices@.len(),
                self.well_formed(),
                *self == (Simulation {
                    driver: self.driver,
                    solve_tracker: self.solve_tracker,
                    ..*old(self)
                }),
                step == close_step::<F>(self.blocks@, self.dyn_indices@),
                chain(
                    i as int,
                    step,
                    start,
                    (Closing { log: self.log(), tracker: self.solve_tracker, largest }),
                ),
            decreases self.dyn_indices@.len() - i,
        {
            let ghost a = Closing { log: self.log(), tracker: self.solve_tracker, largest };
            let at: usize = self.dyn_indices[i];
            let key: u64 = self.blocks[at];
            if self.driver.block_active(key) {
                let err: F = self.driver.close_period(key);
                self.solve_tracker.record(at, err);
                largest = raise(largest, err);
                assert(closed_by(
                    key,
                    at,
                    err,
                    a,
                    (Closing { log: self.log(), tracker: self.solve_tracker, largest }),
                ));
            }
            proof {
                let b = Closing { log: self.log(), tracker: self.solve_tracker, largest };
                assert(step(i as int, a, b));
                lemma_chain_push(i as int, step, start, a, b);
            }
            i += 1;
        }
        assert(old(self).period_closed(zero, *self, largest));
        largest
    }

    /// Time starts again; `list` are all events, which are reset, and so is the
    /// pacing engine.
    pub open spec fn rewound_with(&self, zero: F, list: Seq<u64>, m: Self, after: Self) -> bool {
        &&& zeros(zero)
        &&& (Simulation { time: zero, ..*self }).events_listed(list, m)
        &&& after.log() == (m.log() + event_resets::<F>(list)).push(Call::EngineReset)
        &&& after == (Simulation { driver: after.driver, ..m })
    }

    /// Time starts again, with all events and the pacing engine reset.
    pub open spec fn rewound(&self, after: Self) -> bool {
        exists|zero: F, list: Seq<u64>, m: Self| #[trigger]
            self.rewound_with(zero, list, m, after)
    }

    fn rewind(&mut self)
        requires
            old(self).well_formed(),
        ensures
            old(self).rewound(*final(self)),
            final(self).well_formed(),
            *final(self) == (Simulation {
                time: final(self).time,
                driver: final(self).driver,
                ..*old(self)
            }),
    {
        let zero: F = F::zero();
        self.time = zero;
        let list: Vec<u64> = self.list_events();
        let ghost m = *self;
        self.reset_events(&list);
        self.driver.engine_reset();
        assert(old(self).rewound_with(zero, list@, m, *self));
    }

    /// The recording blocks were reset.
    pub open spec fn recorders_reset(&self, after: Self) -> bool {
        &&& chain(
            self.blocks@.len() as int,
            record_step::<F>(self.blocks@),
            self.log(),
            after.log(),
        )
        &&& after == (Simulation { driver: after.driver, ..*self })
    }

    fn reset_recorders(&mut self)
        ensures
            old(self).recorders_reset(*final(self)),
    {
        let ghost start = self.log();
        let ghost step = record_step::<F>(self.blocks@);
        let mut i: usize = 0;
        while i < self.blocks.len()
            invariant
                i <= self.blocks@.len(),
                *self == (Simulation { driver: self.driver, ..*old(self) }),
                step == record_step::<F>(self.blocks@),
                chain(i as int, step, start, self.log()),
            decreases self.blocks@.len() - i,
        {
            let ghost a = self.log();
            let key: u64 = self.blocks[i];
            if self.driver.is_recorder(key) {
                self.driver.reset_block(key);
            }
            proof {
                assert(step(i as int, a, self.log()));
                lemma_chain_push(i as int, step, start, a, self.log());
            }
            i += 1;
        }
    }

    fn start_periods(&mut self)
        requires
            old(self).well_formed(),
        ensures
            final(self).log() == old(self).log() + period_starts::<F>(
                old(self).blocks@,
                old(self).dyn_indices@,
            ),
            *final(self) == (Simulation { driver: final(self).driver, ..*old(self) }),
    {
        let ghost start = self.log();
        let ghost all = period_starts::<F>(self.blocks@, self.dyn_indices@);
        let mut i: usize = 0;
        assert(start + all.take(0) =~= start);
        while i < self.dyn_indices.len()
            invariant
                i <= self.dyn_indices@.len(),
                self.well_formed(),
                all == period_starts::<F>(self.blocks@, self.dyn_indices@),
                self.log() == start + all.take(i as int),
                *self == (Simulation { driver: self.driver, ..*old(self) }),
            decreases self.dyn_indices@.len() - i,
        {
            self.driver.start_period(self.blocks[self.dyn_indices[i]]);
            proof {
                assert(all.take(i + 1) =~= all.take(i as int).push(all[i as int]));
                assert(self.log() =~= start + all.take(i + 1));
            }
            i += 1;
        }
        assert(all.take(i as int) =~= all);
    }

    /// Period `i` of the search: a run over the period, and the shooting update of
    /// every dynamic block. A quiet period ends the search; after any other, time
    /// starts again.
    pub open spec fn shoots_with(
        i: int,
        period: F,
        adaptive: bool,
        a: Shooting<Self, F>,
        s: Shot<Self, F>,
        b: Shooting<Self, F>,
    ) -> bool {
        &&& a.sim.ran(period, false, adaptive, s.ran, s.stats)
        &&& summed(a.counts, s.stats, b.counts)
        &&& s.cleared.solve_tracker.blank()
        &&& s.cleared.solve_tracker.iterations == s.ran.solve_tracker.iterations
        &&& s.cleared == (Simulation { solve_tracker: s.cleared.solve_tracker, ..s.ran })
        &&& s.cleared.period_closed(s.zero, s.closed, s.largest)
        &&& quiet(s.largest, b.quiet)
        &&& if b.quiet {
            &&& b.sim.solve_tracker.errors@ == s.closed.solve_tracker.errors@
            &&& b.sim.solve_tracker.max_error == s.closed.solve_tracker.max_error
            &&& b.sim.solve_tracker.iterations == i + 1
            &&& b.sim == (Simulation { solve_tracker: b.sim.solve_tracker, ..s.closed })
        } else {
            s.closed.rewound(b.sim)
        }
    }

    /// Periods of the search, until one is quiet.
    pub open spec fn shoot_step(period: F, adaptive: bool) -> spec_fn(
        int,
        Shooting<Self, F>,
        Shooting<Self, F>,
    ) -> bool {
        |i: int, a: Shooting<Self, F>, b: Shooting<Self, F>|
            !a.quiet && exists|s: Shot<Self, F>| #[trigger]
                Self::shoots_with(i, period, adaptive, a, s, b)
    }

    /// The search for a limit cycle, by way of `c`: a reset if asked, a solver that
    /// shoots, periods until one is quiet or their number is exhausted, then one more
    /// period that is recorded, and the former solver again.
    pub open spec fn cycle_with(
        &self,
        period: F,
        inner: u64,
        adaptive: bool,
        reset: bool,
        c: Cycle<Self, F>,
        after: Self,
        stats: RunStats<F>,
    ) -> bool {
        &&& self.reset_if(reset, c.first)
        &&& c.first.in_charge(c.former, c.asked)
        &&& c.found.log() == c.asked.log().push(
            Call::PeriodSolver(inner, period, OPT_HISTORY, c.solver),
        )
        &&& c.found == (Simulation { solver: None, driver: c.found.driver, ..c.asked })
        &&& c.found.solver_set(c.solver, c.set)
        &&& c.primed.log() == c.set.log() + period_starts::<F>(c.set.blocks@, c.set.dyn_indices@)
        &&& c.primed == (Simulation { driver: c.primed.driver, ..c.set })
        &&& c.counts.blank()
        &&& 0 <= c.periods <= SIM_PSS_ITERATIONS_MAX
        &&& chain(
            c.periods,
            Self::shoot_step(period, adaptive),
            (Shooting { sim: c.primed, counts: c.counts, quiet: false }),
            c.shot,
        )
        &&& c.shot.quiet || c.periods == SIM_PSS_ITERATIONS_MAX
        &&& c.shot.sim.recorders_reset(c.recorders)
        &&& c.recorders.rewound(c.rewound)
        &&& c.rewound.ran(period, false, adaptive, c.ran, c.stats)
        &&& c.ran.restored(c.former, self.solver, after)
        &&& summed(c.shot.counts, c.stats, c.total)
        &&& stats == (RunStats {
            outcome: (Outcome {
                converged: c.shot.quiet,
                max_residual: after.solve_tracker.max_error,
                ..c.counts.outcome
            }),
            ..c.total
        })
    }

    /// Finds the limit cycle of the given period by shooting, with `inner` as the
    /// solver within a period. The former solver is in charge again afterwards.
    pub fn periodic_steady_state(
        &mut self,
        period: F,
        inner: u64,
        adaptive: bool,
        reset: bool,
    ) -> (stats: RunStats<F>)
        requires
            old(self).well_formed(),
            positive(period),
        ensures
            exists|c: Cycle<Self, F>| #[trigger]
                old(self).cycle_with(period, inner, adaptive, reset, c, *final(self), stats),
            final(self).solver == old(self).solver,
            final(self).well_formed(),
    {
        self.maybe_reset(reset);
        let ghost first = *self;
        let kept: Option<u64> = self.solver;
        let former: u64 = self.solver_in_charge();
        let ghost asked = *self;
        self.solver = None;
        let solver: u64 = self.driver.period_solver(inner, period, OPT_HISTORY);
        let ghost found = *self;
        self.set_solver(solver);
        let ghost set = *self;
        self.start_periods();
        let ghost primed = *self;
        let blank: RunStats<F> = RunStats::default();
        let mut counts: RunStats<F> = blank;
        let ghost start = Shooting { sim: *self, counts, quiet: false };
        let ghost step = Self::shoot_step(period, adaptive);
        let mut quiet: bool = false;
        let mut i: usize = 0;
        while i < SIM_PSS_ITERATIONS_MAX && !quiet
            invariant
                i <= SIM_PSS_ITERATIONS_MAX,
                self.well_formed(),
                counts.outcome == blank.outcome,
                step == Self::shoot_step(period, adaptive),
                chain(i as int, step, start, (Shooting { sim: *self, counts, quiet })),
            decreases SIM_PSS_ITERATIONS_MAX - i,
        {
            let ghost a = Shooting { sim: *self, counts, quiet };
            let stats: RunStats<F> = self.run(period, false, adaptive);
            let ghost ran = *self;
            counts = sum_counts(counts, stats);
            self.solve_tracker.begin_iteration();
            let ghost cleared = *self;
            let largest: F = self.close_periods();
            let ghost closed = *self;
            let ghost zero = choose|zero: F| #[trigger]
                cleared.period_closed(zero, closed, largest);
            quiet = is_quiet(largest);
            if quiet {
                self.solve_tracker.iterations = i + 1;
            } else {
                self.rewind();
            }
            proof {
                let b = Shooting { sim: *self, counts, quiet };
                let s = Shot { ran, stats, cleared, closed, zero, largest };
                assert(Self::shoots_with(i as int, period, adaptive, a, s, b));
                assert(step(i as int, a, b));
                lemma_chain_push(i as int, step, start, a, b);
            }
            i += 1;
        }
        let ghost shot = Shooting { sim: *self, counts, quiet };
        self.reset_recorders();
        let ghost recorders = *self;
        self.rewind();
        let ghost rewound = *self;
        let last: RunStats<F> = self.run(period, false, adaptive);
        let ghost ran = *self;
        let total: RunStats<F> = sum_counts(counts, last);
        self.restore_solver(former, kept);
        let outcome: Outcome<F> = Outcome {
            converged: quiet,
            max_residual: self.solve_tracker.max_error,
            ..total.outcome
        };
        let stats: RunStats<F> = RunStats { outcome, ..total };
        proof {
            let c = Cycle {
                first,
                former,
                asked,
                found,
                solver,
                set,
                primed,
                counts: blank,
                periods: i as int,
                shot,
                recorders,
                rewound,
                ran,
                stats: last,
                total,
            };
            assert(old(self).cycle_with(period, inner, adaptive, reset, c, *self, stats));
        }
        stats
    }
}

} // verus!
