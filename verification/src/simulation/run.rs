//! Runs: from the initial evaluation, step by step, to the end.

use vstd::prelude::*;

use crate::expr::{evaluates, val, Num};
use crate::optim::linsolve::Backend;
use crate::scalar::{decodes, eqs, lts, muls, ones, zeros, Scalar};
use crate::simulation::chain::{chain, lemma_chain_push};
use crate::simulation::runtime::{Call, Runtime};
use crate::simulation::state::{add_capped, capped, Outcome, RunStats, Simulation};
use crate::simulation::timestep::{step_end, Progress};

verus! {

/// Bit pattern of the largest finite number, which bounds a step that has no other
/// bound.
pub const LARGEST_BITS: u64 = 0x7FEF_FFFF_FFFF_FFFF;

/// `d` is the step to rescale: the default one if there was no error and no
/// rescaling, else the last.
pub open spec fn nominal<F: Scalar>(dt: F, default: F, error: F, scale: F, d: F) -> bool {
    exists|z: F, still: bool| #[trigger]
        eqs(error, z, still) && zeros(z) && if still {
            exists|one: F, unit: bool| #[trigger]
                eqs(scale, one, unit) && ones(one) && d == if unit {
                    default
                } else {
                    dt
                }
        } else {
            d == dt
        }
}

/// `d` is the step up to the next event, if that is nearer than `full`.
pub open spec fn up_to_event<F: Scalar>(full: F, event: Option<F>, d: F) -> bool {
    match event {
        None => d == full,
        Some(e) => exists|nearer: bool| #[trigger]
            lts(e, full, nearer) && d == if nearer {
                e
            } else {
                full
            },
    }
}

/// `d` is the step up to the end of the run, if `full` would lead past it.
pub open spec fn up_to_end<F: Scalar>(time: F, full: F, end: F, d: F) -> bool {
    exists|reach: F, past: bool| #[trigger]
        lts(end, reach, past) && evaluates(step_end(time, full), reach) && if past {
            evaluates(val(end).minus(val(time)), d)
        } else {
            d == full
        }
}

/// `r` is `d`, or the bound that it exceeds.
pub open spec fn clamped<F: Scalar>(d: F, least: F, most: F, r: F) -> bool {
    exists|m: F, low: bool, high: bool| #[trigger]
        lts(d, least, low) && m == (if low {
            least
        } else {
            d
        }) && #[trigger] lts(most, m, high) && r == if high {
            most
        } else {
            m
        }
}

/// `d` brought between the bounds.
pub fn clamp<F: Scalar>(d: F, least: F, most: F) -> (r: F)
    ensures
        clamped(d, least, most, r),
{
    let low: bool = d.below(least);
    let m: F = if low {
        least
    } else {
        d
    };
    let high: bool = most.below(m);
    assert(lts(d, least, low) && lts(most, m, high));
    if high {
        most
    } else {
        m
    }
}

/// `most` is the largest step: the one that is set, or the largest number.
pub open spec fn largest_step<F: Scalar>(dt_max: Option<F>, most: F) -> bool {
    match dt_max {
        Some(m) => most == m,
        None => decodes(LARGEST_BITS, most),
    }
}

/// A run under way: the simulation, the step to make, and what is counted so far.
pub struct Running<S, F> {
    pub sim: S,
    pub dt: F,
    pub stats: RunStats<F>,
}

/// The simulations and values that a run passes through.
pub struct Course<S, F> {
    pub started: S,
    pub timed: S,
    pub asked: S,
    pub pace: bool,
    pub end: F,
    pub cleared: S,
    pub opened: S,
    pub blank: RunStats<F>,
    pub dt: F,
    pub counts: RunStats<F>,
    pub ran: S,
    pub wall: F,
}

/// The counts with those of one more step.
pub open spec fn counted<F>(s: RunStats<F>, q: Progress<F>) -> RunStats<F> {
    RunStats {
        total_steps: capped(s.total_steps, 1),
        successful_steps: if q.success {
            capped(s.successful_steps, 1)
        } else {
            s.successful_steps
        },
        rejected_steps: if q.success {
            s.rejected_steps
        } else {
            capped(s.rejected_steps, 1)
        },
        total_evals: capped(s.total_evals, q.evals),
        total_solver_its: capped(s.total_solver_its, q.its),
        wall_time_secs: s.wall_time_secs,
        outcome: s.outcome,
    }
}

/// Counts one more step.
pub fn count_step<F: Scalar>(s: RunStats<F>, q: Progress<F>) -> (r: RunStats<F>)
    ensures
        r == counted(s, q),
{
    RunStats {
        total_steps: add_capped(s.total_steps, 1),
        successful_steps: if q.success {
            add_capped(s.successful_steps, 1)
        } else {
            s.successful_steps
        },
        rejected_steps: if q.success {
            s.rejected_steps
        } else {
            add_capped(s.rejected_steps, 1)
        },
        total_evals: add_capped(s.total_evals, q.evals),
        total_solver_its: add_capped(s.total_solver_its, q.its),
        wall_time_secs: s.wall_time_secs,
        outcome: s.outcome,
    }
}

impl<F: Scalar, B: Backend<F>, R: Runtime<F>> Simulation<F, B, R> {
    /// The next step after one of `dt`, by way of the steps `d0` to `d3` and the
    /// estimate of the next event.
    pub open spec fn advanced_with(
        &self,
        dt: F,
        error: F,
        scale: F,
        end: F,
        event: Option<F>,
        d0: F,
        d1: F,
        d2: F,
        d3: F,
        most: F,
        after: Self,
        r: F,
    ) -> bool {
        &&& nominal(dt, self.dt, error, scale, d0)
        &&& muls(d0, scale, d1)
        &&& self.estimated(self.time, after, event)
        &&& up_to_event(d1, event, d2)
        &&& up_to_end(self.time, d2, end, d3)
        &&& largest_step(self.dt_max, most)
        &&& clamped(d3, self.dt_min, most, r)
    }

    /// The next step after one of `dt` with the given error and rescaling, in a run
    /// up to `end`.
    pub open spec fn advanced(
        &self,
        dt: F,
        error: F,
        scale: F,
        end: F,
        after: Self,
        r: F,
    ) -> bool {
        exists|event: Option<F>, d0: F, d1: F, d2: F, d3: F, most: F| #[trigger]
            self.advanced_with(dt, error, scale, end, event, d0, d1, d2, d3, most, after, r)
    }

    /// The next step: rescaled, not beyond the next event, not beyond the end, and
    /// between the bounds.
    pub fn advance_dt(&mut self, dt: F, error: F, scale: F, end: F) -> (r: F)
        requires
            old(self).well_formed(),
        ensures
            old(self).advanced(dt, error, scale, end, *final(self), r),
            *final(self) == (Simulation { driver: final(self).driver, ..*old(self) }),
    {
        let z: F = F::zero();
        let still: bool = error.same(z);
        let mut d0: F = dt;
        if still {
            let one: F = F::one();
            let unit: bool = scale.same(one);
            assert(eqs(scale, one, unit));
            if unit {
                d0 = self.dt;
            }
        }
        assert(eqs(error, z, still));
        assert(nominal(dt, self.dt, error, scale, d0));
        let d1: F = d0.times(scale);
        let time: F = self.time;
        let event: Option<F> = self.estimate_events(time);
        let mut d2: F = d1;
        if let Some(e) = event {
            let nearer: bool = e.below(d1);
            assert(lts(e, d1, nearer));
            if nearer {
                d2 = e;
            }
        }
        let reach: F = Num::of(time).plus(Num::of(d2)).value;
        let past: bool = end.below(reach);
        assert(lts(end, reach, past));
        let d3: F = if past {
            Num::of(end).minus(Num::of(time)).value
        } else {
            d2
        };
        let most: F = match self.dt_max {
            Some(m) => m,
            None => F::from_bits(LARGEST_BITS),
        };
        let r: F = clamp(d3, self.dt_min, most);
        assert(old(self).advanced_with(
            dt,
            error,
            scale,
            end,
            event,
            d0,
            d1,
            d2,
            d3,
            most,
            *self,
            r,
        ));
        r
    }

    /// One step of a run is made, with result `q`, up to `m`; then, if the engine
    /// adapts its step, the next one is found.
    pub open spec fn run_one(
        a: Running<Self, F>,
        end: F,
        adaptive: bool,
        m: Self,
        q: Progress<F>,
        b: Running<Self, F>,
    ) -> bool {
        &&& a.sim.timestepped(a.dt, adaptive, m, q)
        &&& b.stats == counted(a.stats, q)
        &&& if adaptive {
            m.advanced(a.dt, q.error, q.scale, end, b.sim, b.dt)
        } else {
            b.sim == m && b.dt == a.dt
        }
    }

    /// The run goes on: its target is not reached, it was not ended, and steps can
    /// still be counted.
    pub open spec fn goes_on(a: Running<Self, F>, target: F) -> bool {
        &&& lts(a.sim.time, target, true)
        &&& a.sim.active
        &&& a.stats.total_steps < usize::MAX
    }

    /// The run is over.
    pub open spec fn is_over(a: Running<Self, F>, target: F) -> bool {
        ||| lts(a.sim.time, target, false)
        ||| !a.sim.active
        ||| a.stats.total_steps == usize::MAX
    }

    /// Steps of a run that goes on.
    pub open spec fn run_step(target: F, end: F, adaptive: bool) -> spec_fn(
        int,
        Running<Self, F>,
        Running<Self, F>,
    ) -> bool {
        |i: int, a: Running<Self, F>, b: Running<Self, F>|
            Self::goes_on(a, target) && exists|m: Self, q: Progress<F>| #[trigger]
                Self::run_one(a, end, adaptive, m, q, b)
    }

    /// The run leads from `a` to `b` in `k` steps, and is then over.
    pub open spec fn run_in(
        a: Running<Self, F>,
        target: F,
        end: F,
        adaptive: bool,
        k: int,
        b: Running<Self, F>,
    ) -> bool {
        &&& 0 <= k
        &&& chain(k, Self::run_step(target, end, adaptive), a, b)
        &&& Self::is_over(b, target)
    }

    /// The run leads from `a` to `b`, where it is over.
    pub open spec fn runs(
        a: Running<Self, F>,
        target: F,
        end: F,
        adaptive: bool,
        b: Running<Self, F>,
    ) -> bool {
        exists|k: int| #[trigger] Self::run_in(a, target, end, adaptive, k, b)
    }

    /// The run as it stands.
    pub open spec fn running(&self, dt: F, stats: RunStats<F>) -> Running<Self, F> {
        Running { sim: *self, dt, stats }
    }

    /// Steps until the target is reached or the run is ended.
    pub(crate) fn run_steps(
        &mut self,
        target: F,
        end: F,
        adaptive: bool,
        dt: F,
        stats: RunStats<F>,
    ) -> (r: (F, RunStats<F>))
        requires
            old(self).well_formed(),
        ensures
            Self::runs(
                old(self).running(dt, stats),
                target,
                end,
                adaptive,
                final(self).running(r.0, r.1),
            ),
            final(self).well_formed(),
            final(self).dt == old(self).dt,
            final(self).dt_min == old(self).dt_min,
            final(self).dt_max == old(self).dt_max,
            final(self).iterations_max == old(self).iterations_max,
            final(self).solver == old(self).solver,
            final(self).run_dt == old(self).run_dt,
    {
        let ghost start = self.running(dt, stats);
        let ghost step = Self::run_step(target, end, adaptive);
        let ghost mut k: int = 0;
        let mut d: F = dt;
        let mut s: RunStats<F> = stats;
        while s.total_steps < usize::MAX
            invariant
                0 <= k,
                self.well_formed(),
                self.dt == old(self).dt,
                self.dt_min == old(self).dt_min,
                self.dt_max == old(self).dt_max,
                self.iterations_max == old(self).iterations_max,
                self.solver == old(self).solver,
                self.run_dt == old(self).run_dt,
                start == old(self).running(dt, stats),
                step == Self::run_step(target, end, adaptive),
                chain(k, step, start, self.running(d, s)),
            decreases usize::MAX - s.total_steps,
        {
            let before: bool = self.time.below(target);
            assert(lts(self.time, target, before));
            if !before || !self.active {
                assert(Self::run_in(start, target, end, adaptive, k, self.running(d, s)));
                return (d, s);
            }
            let ghost a = self.running(d, s);
            let q: Progress<F> = self.make_step(Some(d), adaptive);
            let ghost m = *self;
            s = count_step(s, q);
            if adaptive {
                d = self.advance_dt(d, q.error, q.scale, end);
            }
            proof {
                let b = self.running(d, s);
                assert(Self::run_one(a, end, adaptive, m, q, b));
                assert(step(k, a, b));
                lemma_chain_push(k, step, start, a, b);
                k = k + 1;
            }
        }
        assert(Self::run_in(start, target, end, adaptive, k, self.running(d, s)));
        (d, s)
    }

    /// A run is started, from the beginning if asked.
    pub open spec fn started(&self, reset: bool, after: Self) -> bool {
        let live = Simulation { active: true, ..*self };
        if reset {
            exists|z: F| #[trigger] zeros(z) && live.was_reset(z, after)
        } else {
            after == live
        }
    }

    pub(crate) fn start(&mut self, reset: bool)
        requires
            old(self).well_formed(),
        ensures
            old(self).started(reset, *final(self)),
            final(self).well_formed(),
            final(self).dt == old(self).dt,
            final(self).dt_min == old(self).dt_min,
            final(self).dt_max == old(self).dt_max,
            final(self).iterations_max == old(self).iterations_max,
            final(self).solver == old(self).solver,
            final(self).run_dt == old(self).run_dt,
    {
        self.active = true;
        if reset {
            let z: F = F::zero();
            self.reset(z);
            assert(zeros(z));
        }
    }

    /// The step is adapted, if that is asked for and the engine can.
    pub open spec fn paced(&self, adaptive: bool, after: Self, pace: bool) -> bool {
        &&& after.log() == if adaptive {
            self.log().push(Call::EngineAdaptive(pace))
        } else {
            self.log()
        }
        &&& !adaptive ==> !pace
        &&& after == (Simulation { driver: after.driver, ..*self })
    }

    pub(crate) fn pace(&mut self, adaptive: bool) -> (r: bool)
        ensures
            old(self).paced(adaptive, *final(self), r),
    {
        if adaptive {
            self.driver.engine_adaptive()
        } else {
            false
        }
    }

    /// The system is evaluated, up to `m`, the events of the start are resolved, up
    /// to `n`, and the blocks record.
    pub open spec fn opened_with(&self, dt: F, m: Self, n: Self, after: Self) -> bool {
        &&& self.updated(self.time, m)
        &&& m.initial_resolved(n)
        &&& n.sampled(self.time, dt, after)
    }

    /// The system is evaluated, the events of the start are resolved, and the blocks
    /// record.
    pub open spec fn opened(&self, dt: F, after: Self) -> bool {
        exists|m: Self, n: Self| #[trigger] self.opened_with(dt, m, n, after)
    }

    pub(crate) fn open_run(&mut self, dt: F)
        requires
            old(self).well_formed(),
        ensures
            old(self).opened(dt, *final(self)),
            final(self).well_formed(),
            old(self).same_but_evaluation(*final(self)),
    {
        let time: F = self.time;
        self.update(time);
        let ghost m = *self;
        self.resolve_initial_events();
        let ghost n = *self;
        self.sample(time, dt);
        assert(old(self).opened_with(dt, m, n, *self));
    }

    /// Nothing has gone wrong yet.
    pub open spec fn cleared(&self, after: Self) -> bool {
        after.outcome.clean() && after == (Simulation { outcome: after.outcome, ..*self })
    }

    /// A run over a duration, by way of the simulations and the values of `c`.
    pub open spec fn run_with(
        &self,
        duration: F,
        reset: bool,
        adaptive: bool,
        c: Course<Self, F>,
        after: Self,
        stats: RunStats<F>,
    ) -> bool {
        &&& self.started(reset, c.started)
        &&& c.timed.log() == c.started.log().push(Call::StartClock)
        &&& c.timed == (Simulation { driver: c.timed.driver, ..c.started })
        &&& c.timed.paced(adaptive, c.asked, c.pace)
        &&& evaluates(step_end(c.started.time, duration), c.end)
        &&& c.asked.cleared(c.cleared)
        &&& c.cleared.opened(self.dt, c.opened)
        &&& c.blank.blank()
        &&& Self::runs(
            c.opened.running(self.dt, c.blank),
            c.end,
            c.end,
            c.pace,
            c.ran.running(c.dt, c.counts),
        )
        &&& after.log() == c.ran.log().push(Call::WallElapsed(c.wall))
        &&& after == (Simulation { driver: after.driver, ..c.ran })
        &&& stats == (RunStats { wall_time_secs: c.wall, outcome: after.outcome, ..c.counts })
    }

    /// A run over a duration, with what it reports.
    pub open spec fn ran(
        &self,
        duration: F,
        reset: bool,
        adaptive: bool,
        after: Self,
        stats: RunStats<F>,
    ) -> bool {
        exists|c: Course<Self, F>| #[trigger]
            self.run_with(duration, reset, adaptive, c, after, stats)
    }

    /// Runs for a duration, from the beginning if asked; the step is adapted if
    /// asked and if the engine can. The clock runs from the start of the run to its end.
    pub fn run(&mut self, duration: F, reset: bool, adaptive: bool) -> (stats: RunStats<F>)
        requires
            old(self).well_formed(),
        ensures
            old(self).ran(duration, reset, adaptive, *final(self), stats),
            final(self).well_formed(),
            final(self).dt == old(self).dt,
            final(self).dt_min == old(self).dt_min,
            final(self).dt_max == old(self).dt_max,
            final(self).iterations_max == old(self).iterations_max,
            final(self).solver == old(self).solver,
            final(self).run_dt == old(self).run_dt,
    {
        self.start(reset);
        let ghost started = *self;
        self.driver.start_clock();
        let ghost timed = *self;
        let pace: bool = self.pace(adaptive);
        let ghost asked = *self;
        let end: F = Num::of(self.time).plus(Num::of(duration)).value;
        let blank: RunStats<F> = RunStats::default();
        let dt: F = self.dt;
        self.outcome = Outcome::new();
        let ghost cleared = *self;
        self.open_run(dt);
        let ghost opened = *self;
        let (last, counts) = self.run_steps(end, end, pace, dt, blank);
        let ghost ran = *self;
        let wall: F = self.driver.wall_elapsed();
        let stats: RunStats<F> = RunStats {
            wall_time_secs: wall,
            outcome: self.outcome,
            ..counts
        };
        proof {
            let c = Course {
                started,
                timed,
                asked,
                pace,
                end,
                cleared,
                opened,
                blank,
                dt: last,
                counts,
                ran,
                wall,
            };
            assert(old(self).run_with(duration, reset, adaptive, c, *self, stats));
        }
        stats
    }

    /// A run in chunks is begun: it is started, up to `m`, has its step set and its
    /// outcome cleared, up to `n`, and is opened.
    pub open spec fn begun_with(&self, reset: bool, m: Self, n: Self, after: Self) -> bool {
        &&& self.started(reset, m)
        &&& n.outcome.clean()
        &&& n == (Simulation { run_dt: self.dt, outcome: n.outcome, ..m })
        &&& n.opened(self.dt, after)
    }

    /// Begins a run in chunks. The duration does not matter to it.
    pub fn run_begin(&mut self, reset: bool, _duration: F)
        requires
            old(self).well_formed(),
        ensures
            exists|m: Self, n: Self| #[trigger] old(self).begun_with(reset, m, n, *final(self)),
            final(self).well_formed(),
            final(self).run_dt == old(self).dt,
    {
        self.start(reset);
        let ghost m = *self;
        self.run_dt = self.dt;
        self.outcome = Outcome::new();
        let ghost n = *self;
        let dt: F = self.dt;
        self.open_run(dt);
        assert(old(self).begun_with(reset, m, n, *self));
    }

    /// A chunk of a run up to `target`, in a run up to `end`: the pace is found, up
    /// to `asked`, steps are made, up to `m`, and the step is kept.
    pub open spec fn continued_with(
        &self,
        target: F,
        end: F,
        adaptive: bool,
        asked: Self,
        pace: bool,
        blank: RunStats<F>,
        counts: RunStats<F>,
        m: Self,
        after: Self,
        stats: RunStats<F>,
    ) -> bool {
        &&& self.paced(adaptive, asked, pace)
        &&& blank.blank()
        &&& Self::runs(
            asked.running(self.run_dt, blank),
            target,
            end,
            pace,
            m.running(after.run_dt, counts),
        )
        &&& after == (Simulation { run_dt: after.run_dt, ..m })
        &&& stats == (RunStats { outcome: after.outcome, ..counts })
    }

    /// A chunk of a run, with what it reports.
    pub open spec fn continued(
        &self,
        target: F,
        end: F,
        adaptive: bool,
        after: Self,
        stats: RunStats<F>,
    ) -> bool {
        exists|asked: Self, pace: bool, blank: RunStats<F>, counts: RunStats<F>, m: Self|
            #[trigger]
            self.continued_with(
                target,
                end,
                adaptive,
                asked,
                pace,
                blank,
                counts,
                m,
                after,
                stats,
            )
    }

    /// Goes on with a run in chunks, up to `target`; only `end` is hit exactly. The
    /// step carries over to the next chunk.
    pub fn run_until(&mut self, target: F, end: F, adaptive: bool) -> (stats: RunStats<F>)
        requires
            old(self).well_formed(),
        ensures
            old(self).continued(target, end, adaptive, *final(self), stats),
            final(self).well_formed(),
    {
        let pace: bool = self.pace(adaptive);
        let ghost asked = *self;
        let blank: RunStats<F> = RunStats::default();
        let dt: F = self.run_dt;
        let (last, counts) = self.run_steps(target, end, pace, dt, blank);
        let ghost m = *self;
        self.run_dt = last;
        let stats: RunStats<F> = RunStats { outcome: self.outcome, ..counts };
        assert(old(self).continued_with(
            target,
            end,
            adaptive,
            asked,
            pace,
            blank,
            counts,
            m,
            *self,
            stats,
        ));
        stats
    }

    /// Ends a run in chunks.
    pub fn run_end(&mut self)
        ensures
            *final(self) == *old(self),
    {
    }
}

} // verus!
