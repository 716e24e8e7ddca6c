//! One step of the simulation.

use vstd::prelude::*;

use crate::expr::{evaluates, lit, val, Num, Term};
use crate::optim::linsolve::Backend;
use crate::scalar::{les, ones, ratios, zeros, Scalar};
use crate::simulation::chain::{chain, lemma_chain_push};
use crate::simulation::events::Detected;
use crate::simulation::runtime::{Call, Runtime};
use crate::simulation::state::{add_capped, capped, Diagnostics, Log, Simulation};
use crate::simulation::trackers::StepTracker;
use crate::simulation::update::{failure_recorded, worst_of};

verus! {

/// Relative margin within which a step counts as one of the smallest size, as a
/// fraction.
pub const STEP_FLOOR_MARGIN_INVERSE: u64 = 1_000_000_000;

/// What a step has come to: whether it succeeded, its error, the rescaling asked
/// for, and the evaluations and passes that it took.
#[derive(Debug, Clone, Copy)]
pub struct Progress<F> {
    pub success: bool,
    pub error: F,
    pub scale: F,
    pub evals: usize,
    pub its: usize,
}

/// The stage is told to a block's engine, which predicts its solution if the stage
/// is implicit.
pub open spec fn synced<F>(key: u64, stage: usize, implicit: bool, dt: F, a: Log<F>) -> Log<F> {
    let told = a.push(Call::SetBlockStage(key, stage));
    if implicit {
        told.push(Call::PredictStage(key, dt))
    } else {
        told
    }
}

/// The stage is told to the engines of the dynamic blocks in order.
pub open spec fn sync_step<F>(
    blocks: Seq<u64>,
    list: Seq<usize>,
    stage: usize,
    implicit: bool,
    dt: F,
) -> spec_fn(int, Log<F>, Log<F>) -> bool {
    |i: int, a: Log<F>, b: Log<F>|
        b == synced(blocks[list[i] as int], stage, implicit, dt, a)
}

/// `scale` is what the tracker asks for: one if nothing.
pub open spec fn scale_of<F: Scalar>(tracker: StepTracker<F>, scale: F) -> bool {
    match tracker.min_scale {
        Some(s) => scale == s,
        None => ones(scale),
    }
}

/// End of a step: `time + dt`.
pub open spec fn step_end<F>(time: F, dt: F) -> Term<F> {
    val(time).plus(val(dt))
}

/// Bound below which a step counts as one of the smallest size:
/// `dt_min * (1 + margin)`.
pub open spec fn floor_bound<F>(dt_min: F) -> Term<F> {
    val(dt_min).times(lit(1, 1).plus(lit(1, STEP_FLOOR_MARGIN_INVERSE)))
}

/// The test whether a step of an adaptive engine is of the smallest size came out
/// as `r`.
pub open spec fn at_floor<F: Scalar>(adaptive: bool, dt: F, dt_min: F, r: bool) -> bool {
    if adaptive {
        exists|bound: F| #[trigger] les(dt, bound, r) && evaluates(floor_bound(dt_min), bound)
    } else {
        !r
    }
}

impl<F: Scalar, B: Backend<F>, R: Runtime<F>> Simulation<F, B, R> {
    /// A stage begins: its time is asked for, and the engines are told.
    pub open spec fn stage_begun(
        &self,
        stage: usize,
        dt: F,
        implicit: bool,
        t: F,
        after: Self,
    ) -> bool {
        &&& chain(
            self.dyn_indices@.len() as int,
            sync_step(self.blocks@, self.dyn_indices@, stage, implicit, dt),
            self.log().push(Call::StageTime(stage, self.time, dt, t)).push(Call::SetStage(stage)),
            after.log(),
        )
        &&& after == (Simulation { driver: after.driver, ..*self })
    }

    fn begin_stage(&mut self, stage: usize, dt: F, implicit: bool) -> (t: F)
        requires
            old(self).well_formed(),
        ensures
            old(self).stage_begun(stage, dt, implicit, t, *final(self)),
    {
        let time: F = self.time;
        let t: F = self.driver.stage_time(stage, time, dt);
        self.driver.set_stage(stage);
        let ghost start = self.log();
        let ghost step = sync_step::<F>(self.blocks@, self.dyn_indices@, stage, implicit, dt);
        let mut i: usize = 0;
        while i < self.dyn_indices.len()
            invariant
                i <= self.dyn_indices@.len(),
                self.well_formed(),
                *self == (Simulation { driver: self.driver, ..*old(self) }),
                step == sync_step::<F>(self.blocks@, self.dyn_indices@, stage, implicit, dt),
                chain(i as int, step, start, self.log()),
            decreases self.dyn_indices@.len() - i,
        {
            let ghost a = self.log();
            let key: u64 = self.blocks[self.dyn_indices[i]];
            self.driver.set_block_stage(key, stage);
            if implicit {
                self.driver.predict_stage(key, dt);
            }
            proof {
                assert(self.log() == synced(key, stage, implicit, dt, a));
                assert(step(i as int, a, self.log()));
                lemma_chain_push(i as int, step, start, a, self.log());
            }
            i += 1;
        }
        t
    }

    /// The implicit solve of a stage at `t` did not settle: `m` is the simulation
    /// after it. The failure is recorded, unless the step is to be taken back.
    pub open spec fn unsettled(&self, adaptive: bool, after: Self) -> bool {
        if adaptive {
            after == *self
        } else {
            &&& failure_recorded(self.solve_tracker, self.outcome, after.outcome)
            &&& after == (Simulation { outcome: after.outcome, ..*self })
        }
    }

    /// A stage is evaluated at `t`: by the implicit solve, whose result is `r`, or
    /// by one evaluation. `failed` tells that the step is to be taken back.
    pub open spec fn stage_solved(
        &self,
        t: F,
        dt: F,
        adaptive: bool,
        p: Progress<F>,
        m: Self,
        r: (bool, usize, usize),
        after: Self,
        q: Progress<F>,
        failed: bool,
    ) -> bool {
        &&& self.solved(t, dt, m, r)
        &&& if r.0 {
            after == m && !failed
        } else {
            m.unsettled(adaptive, after) && failed == adaptive
        }
        &&& q == (Progress { evals: capped(p.evals, r.1), its: capped(p.its, r.2), ..p })
    }

    /// A stage is evaluated at `t`.
    pub open spec fn stage_evaluated(
        &self,
        t: F,
        dt: F,
        adaptive: bool,
        implicit: bool,
        p: Progress<F>,
        after: Self,
        q: Progress<F>,
        failed: bool,
    ) -> bool {
        if implicit {
            exists|m: Self, r: (bool, usize, usize)| #[trigger]
                self.stage_solved(t, dt, adaptive, p, m, r, after, q, failed)
        } else {
            self.updated(t, after) && !failed && q == (Progress { evals: capped(p.evals, 1), ..p })
        }
    }

    fn evaluate_stage(
        &mut self,
        t: F,
        dt: F,
        adaptive: bool,
        implicit: bool,
        p: Progress<F>,
    ) -> (r: (Progress<F>, bool))
        requires
            old(self).well_formed(),
        ensures
            old(self).stage_evaluated(t, dt, adaptive, implicit, p, *final(self), r.0, r.1),
            final(self).well_formed(),
            old(self).same_setup(*final(self)),
    {
        if !implicit {
            self.update(t);
            return (Progress { evals: add_capped(p.evals, 1), ..p }, false);
        }
        let r: (bool, usize, usize) = self.solve(t, dt);
        let ghost m = *self;
        let q: Progress<F> = Progress {
            success: p.success,
            error: p.error,
            scale: p.scale,
            evals: add_capped(p.evals, r.1),
            its: add_capped(p.its, r.2),
        };
        let mut failed: bool = false;
        if !r.0 {
            if adaptive {
                failed = true;
            } else {
                let worst: Option<usize> = self.solve_tracker.worst();
                let residual: F = self.solve_tracker.max_error;
                self.record_failure(residual, worst);
                assert(worst_of(m.solve_tracker, worst));
                assert(failure_recorded(m.solve_tracker, m.outcome, self.outcome));
            }
            assert(m.unsettled(adaptive, *self));
        }
        assert(old(self).stage_solved(t, dt, adaptive, p, m, r, *self, q, failed));
        (q, failed)
    }

    /// A stage whose solve failed has the step taken back: the result is a failure
    /// that asks for half the step.
    pub open spec fn stage_abandoned(
        &self,
        p: Progress<F>,
        after: Self,
        q: Progress<F>,
    ) -> bool {
        &&& self.reverted(self.time, after)
        &&& !q.success
        &&& zeros(q.error)
        &&& ratios(1, 2, q.scale)
        &&& q.evals == capped(p.evals, 1)
        &&& q.its == p.its
    }

    /// The dynamic blocks make their steps, up to `m`. `early` tells that the step is
    /// taken back, as one that did not succeed.
    pub open spec fn stage_stepped(
        &self,
        t: F,
        dt: F,
        adaptive: bool,
        p: Progress<F>,
        m: Self,
        after: Self,
        q: Progress<F>,
        early: bool,
    ) -> bool {
        &&& self.blocks_stepped(t, dt, m)
        &&& q.success == m.step_tracker.success
        &&& q.error == m.step_tracker.max_error
        &&& scale_of(m.step_tracker, q.scale)
        &&& early == (adaptive && !q.success)
        &&& q.its == p.its
        &&& if early {
            m.reverted(m.time, after) && q.evals == capped(p.evals, 1)
        } else {
            after == m && q.evals == p.evals
        }
    }

    /// A stage that is evaluated, from `b` at `t` up to `e`, and whose steps are
    /// made, unless the step is taken back.
    pub open spec fn stage_with(
        &self,
        stage: usize,
        dt: F,
        adaptive: bool,
        implicit: bool,
        p: Progress<F>,
        t: F,
        b: Self,
        e: Self,
        r: Progress<F>,
        failed: bool,
        after: Self,
        q: Progress<F>,
        early: bool,
    ) -> bool {
        &&& self.stage_begun(stage, dt, implicit, t, b)
        &&& b.stage_evaluated(t, dt, adaptive, implicit, p, e, r, failed)
        &&& if failed {
            early && e.stage_abandoned(r, after, q)
        } else {
            exists|m: Self| #[trigger]
                e.stage_stepped(t, dt, adaptive, r, m, after, q, early)
        }
    }

    /// One stage of a step; `early` tells that the step is taken back in it.
    pub open spec fn stage_run(
        &self,
        stage: usize,
        dt: F,
        adaptive: bool,
        implicit: bool,
        p: Progress<F>,
        after: Self,
        q: Progress<F>,
        early: bool,
    ) -> bool {
        exists|t: F, b: Self, e: Self, r: Progress<F>, failed: bool| #[trigger]
            self.stage_with(
                stage,
                dt,
                adaptive,
                implicit,
                p,
                t,
                b,
                e,
                r,
                failed,
                after,
                q,
                early,
            )
    }

    /// Stages in which the step is not taken back.
    pub open spec fn stage_step(dt: F, adaptive: bool, implicit: bool) -> spec_fn(
        int,
        (Self, Progress<F>),
        (Self, Progress<F>),
    ) -> bool {
        |i: int, a: (Self, Progress<F>), b: (Self, Progress<F>)|
            a.0.stage_run(i as usize, dt, adaptive, implicit, a.1, b.0, b.1, false)
    }

    /// The step is taken back in stage `k`, which turns `m` into `after`.
    pub open spec fn stages_early(
        &self,
        dt: F,
        adaptive: bool,
        implicit: bool,
        p: Progress<F>,
        k: usize,
        m: (Self, Progress<F>),
        after: (Self, Progress<F>),
    ) -> bool {
        &&& chain(k as int, Self::stage_step(dt, adaptive, implicit), (*self, p), m)
        &&& m.0.stage_run(k, dt, adaptive, implicit, m.1, after.0, after.1, true)
    }

    /// The `count` stages of a step; `early` tells that the step is taken back in one
    /// of them.
    pub open spec fn stages_run(
        &self,
        count: usize,
        dt: F,
        adaptive: bool,
        implicit: bool,
        p: Progress<F>,
        after: Self,
        q: Progress<F>,
        early: bool,
    ) -> bool {
        if early {
            exists|k: usize, m: (Self, Progress<F>)| #[trigger]
                self.stages_early(dt, adaptive, implicit, p, k, m, (after, q)) && k < count
        } else {
            chain(
                count as int,
                Self::stage_step(dt, adaptive, implicit),
                (*self, p),
                (after, q),
            )
        }
    }

    fn run_stage(
        &mut self,
        stage: usize,
        dt: F,
        adaptive: bool,
        implicit: bool,
        p: Progress<F>,
    ) -> (r: (Progress<F>, bool))
        requires
            old(self).well_formed(),
        ensures
            old(self).stage_run(stage, dt, adaptive, implicit, p, *final(self), r.0, r.1),
            final(self).well_formed(),
            old(self).same_setup(*final(self)),
    {
        let t: F = self.begin_stage(stage, dt, implicit);
        let ghost b = *self;
        let (r, failed): (Progress<F>, bool) = self.evaluate_stage(t, dt, adaptive, implicit, p);
        let ghost e = *self;
        let time: F = self.time;
        if failed {
            self.revert(time);
            let q: Progress<F> = Progress {
                success: false,
                error: F::zero(),
                scale: F::ratio(1, 2),
                evals: add_capped(r.evals, 1),
                its: r.its,
            };
            proof {
                assert(e.stage_abandoned(r, *self, q));
                assert(old(self).stage_with(
                    stage,
                    dt,
                    adaptive,
                    implicit,
                    p,
                    t,
                    b,
                    e,
                    r,
                    failed,
                    *self,
                    q,
                    true,
                ));
            }
            return (q, true);
        }
        let (success, error, _scale): (bool, F, Option<F>) = self.step(t, dt);
        let ghost m = *self;
        let scale: F = self.step_tracker.scale();
        let early: bool = adaptive && !success;
        let mut evals: usize = r.evals;
        if early {
            self.revert(time);
            evals = add_capped(evals, 1);
        }
        let q: Progress<F> = Progress { success, error, scale, evals, its: r.its };
        proof {
            assert(e.stage_stepped(t, dt, adaptive, r, m, *self, q, early));
            assert(old(self).stage_with(
                stage,
                dt,
                adaptive,
                implicit,
                p,
                t,
                b,
                e,
                r,
                failed,
                *self,
                q,
                early,
            ));
        }
        (q, early)
    }

    fn run_stages(
        &mut self,
        count: usize,
        dt: F,
        adaptive: bool,
        implicit: bool,
        p: Progress<F>,
    ) -> (r: (Progress<F>, bool))
        requires
            old(self).well_formed(),
        ensures
            old(self).stages_run(count, dt, adaptive, implicit, p, *final(self), r.0, r.1),
            final(self).well_formed(),
            old(self).same_setup(*final(self)),
    {
        let ghost start = *self;
        let ghost step = Self::stage_step(dt, adaptive, implicit);
        let mut q: Progress<F> = p;
        let mut k: usize = 0;
        while k < count
            invariant
                k <= count,
                start == *old(self),
                self.well_formed(),
                start.same_setup(*self),
                step == Self::stage_step(dt, adaptive, implicit),
                chain(k as int, step, (start, p), (*self, q)),
            decreases count - k,
        {
            let ghost m = (*self, q);
            let (next, early): (Progress<F>, bool) = self.run_stage(
                k,
                dt,
                adaptive,
                implicit,
                q,
            );
            q = next;
            if early {
                assert(start.stages_early(dt, adaptive, implicit, p, k, m, (*self, q)));
                return (q, true);
            }
            proof {
                assert(step(k as int, m, (*self, q)));
                lemma_chain_push(k as int, step, (start, p), m, (*self, q));
            }
            k += 1;
        }
        (q, false)
    }

    /// The trackers are noted, if diagnostics are on.
    pub open spec fn diagnosed(&self, t: F, after: Self) -> bool {
        if self.diagnostics is None {
            after == *self
        } else {
            &&& after.diagnostics matches Some(d) && self.snapshot(t, d)
            &&& match (self.diagnostics_history, after.diagnostics_history) {
                (Some(a), Some(b)) => b@.len() == a@.len() + 1 && b@.drop_last() == a@
                    && self.snapshot(t, b@.last()),
                (None, None) => true,
                _ => false,
            }
            &&& after == (Simulation {
                diagnostics: after.diagnostics,
                diagnostics_history: after.diagnostics_history,
                ..*self
            })
        }
    }

    /// `d` holds what the trackers hold.
    pub open spec fn snapshot(&self, t: F, d: Diagnostics<F>) -> bool {
        &&& d.time == t
        &&& d.loops.errors@ == self.loop_tracker.errors@
        &&& d.loops.max_error == self.loop_tracker.max_error
        &&& d.loops.iterations == self.loop_tracker.iterations
        &&& d.solve.errors@ == self.solve_tracker.errors@
        &&& d.solve.max_error == self.solve_tracker.max_error
        &&& d.solve.iterations == self.solve_tracker.iterations
        &&& d.step == self.step_tracker
    }

    fn take_snapshot(&self, t: F) -> (d: Diagnostics<F>)
        ensures
            self.snapshot(t, d),
    {
        Diagnostics {
            time: t,
            loops: self.loop_tracker.copy(),
            solve: self.solve_tracker.copy(),
            step: self.step_tracker,
        }
    }

    fn update_diagnostics(&mut self, t: F)
        ensures
            old(self).diagnosed(t, *final(self)),
    {
        if self.diagnostics.is_none() {
            return;
        }
        let d: Diagnostics<F> = self.take_snapshot(t);
        let again: Diagnostics<F> = self.take_snapshot(t);
        self.diagnostics = Some(d);
        match self.diagnostics_history.take() {
            Some(mut history) => {
                let ghost before = history@;
                history.push(again);
                assert(history@.drop_last() =~= before);
                self.diagnostics_history = Some(history);
            },
            None => {},
        }
    }

    /// The end of a step that was not taken back in a stage: the system is evaluated
    /// at the end, up to `u`; events are handled, up to `v`; a request to stop is
    /// observed, in `w`; then the trackers are noted, up to `x`, the blocks record,
    /// and time goes on; unless the events had the step taken back.
    pub open spec fn step_finished(
        &self,
        dt: F,
        adaptive: bool,
        p: Progress<F>,
        t_end: F,
        keep: bool,
        u: Self,
        ratio: Option<F>,
        v: Self,
        stop: bool,
        w: Self,
        after: Self,
        q: Progress<F>,
    ) -> bool {
        &&& evaluates(step_end(self.time, dt), t_end)
        &&& self.updated(t_end, u)
        &&& at_floor(adaptive, dt, self.dt_min, keep)
        &&& match ratio {
            Some(fraction) => {
                &&& u.events_end(
                    t_end,
                    dt,
                    adaptive,
                    keep,
                    capped(p.evals, 1),
                    v,
                    ratio,
                    capped(p.evals, 1),
                )
                &&& v.stop_taken(stop, w)
                &&& after == w
                &&& q == (Progress {
                    success: false,
                    scale: fraction,
                    evals: capped(capped(p.evals, 1), 1),
                    ..p
                })
            },
            None => {
                &&& u.events_end(t_end, dt, adaptive, keep, capped(p.evals, 1), v, None, q.evals)
                &&& v.stop_taken(stop, w)
                &&& q == (Progress { evals: q.evals, ..p })
                &&& exists|x: Self, s: Self| #[trigger]
                    w.recorded(t_end, dt, x, s) && after == (Simulation { time: t_end, ..s })
            },
        }
    }

    /// The trackers are noted, up to `x`, and the blocks record, up to `s`.
    pub open spec fn recorded(&self, t: F, dt: F, x: Self, s: Self) -> bool {
        self.diagnosed(t, x) && x.sampled(t, dt, s)
    }
}

/// The simulation while a step is finished.
pub struct Finish<S, F> {
    pub t_end: F,
    /// The step is one of the smallest size.
    pub keep: bool,
    pub ratio: Option<F>,
    pub stop: bool,
    /// After the evaluation at the end, after the events, after observing a request
    /// to stop.
    pub u: S,
    pub v: S,
    pub w: S,
}

impl<F: Scalar, B: Backend<F>, R: Runtime<F>> Simulation<F, B, R> {
    /// A step that was not taken back in a stage is finished, by way of `f`.
    pub open spec fn finishes(
        &self,
        dt: F,
        adaptive: bool,
        p: Progress<F>,
        f: Finish<Self, F>,
        after: Self,
        q: Progress<F>,
    ) -> bool {
        self.step_finished(
            dt,
            adaptive,
            p,
            f.t_end,
            f.keep,
            f.u,
            f.ratio,
            f.v,
            f.stop,
            f.w,
            after,
            q,
        )
    }

    fn finish_step(&mut self, dt: F, adaptive: bool, p: Progress<F>) -> (q: Progress<F>)
        requires
            old(self).well_formed(),
        ensures
            exists|f: Finish<Self, F>| #[trigger]
                old(self).finishes(dt, adaptive, p, f, *final(self), q),
            final(self).well_formed(),
            final(self).blocks == old(self).blocks,
            final(self).iterations_max == old(self).iterations_max,
            old(self).same_settings(*final(self)),
    {
        let time: F = self.time;
        let t_end: F = Num::of(time).plus(Num::of(dt)).value;
        self.update(t_end);
        let ghost u = *self;
        let evals: usize = add_capped(p.evals, 1);
        let mut keep: bool = false;
        if adaptive {
            let bound: F = Num::of(self.dt_min).times(
                Num::fraction(1, 1).plus(Num::fraction(1, STEP_FLOOR_MARGIN_INVERSE)),
            ).value;
            keep = dt.at_most(bound);
            assert(les(dt, bound, keep));
        }
        assert(at_floor(adaptive, dt, old(self).dt_min, keep));
        let (ratio, total): (Option<F>, usize) = self.resolve_events(
            t_end,
            dt,
            adaptive,
            keep,
            evals,
        );
        let ghost v = *self;
        self.observe_stop();
        let ghost w = *self;
        let ghost stop = choose|stop: bool| #[trigger] v.stop_taken(stop, w);
        let ghost f = Finish { t_end, keep, ratio, stop, u, v, w };
        match ratio {
            Some(fraction) => {
                let q: Progress<F> = Progress {
                    success: false,
                    error: p.error,
                    scale: fraction,
                    evals: add_capped(evals, 1),
                    its: p.its,
                };
                proof {
                    lemma_retry_evals(u, t_end, dt, adaptive, keep, evals, v, fraction, total);
                    assert(old(self).finishes(dt, adaptive, p, f, *self, q));
                }
                q
            },
            None => {
                self.update_diagnostics(t_end);
                let ghost x = *self;
                self.sample(t_end, dt);
                let ghost s = *self;
                self.time = t_end;
                let q: Progress<F> = Progress {
                    success: p.success,
                    error: p.error,
                    scale: p.scale,
                    evals: total,
                    its: p.its,
                };
                proof {
                    assert(w.recorded(t_end, dt, x, s));
                    assert(old(self).finishes(dt, adaptive, p, f, *self, q));
                }
                q
            },
        }
    }

    /// `after` has the same components and settings.
    pub open spec fn same_settings(&self, after: Self) -> bool {
        &&& after.blocks == self.blocks
        &&& after.connections == self.connections
        &&& after.events == self.events
        &&& after.dt == self.dt
        &&& after.dt_min == self.dt_min
        &&& after.dt_max == self.dt_max
        &&& after.solver == self.solver
        &&& after.iterations_max == self.iterations_max
        &&& after.dyn_indices == self.dyn_indices
        &&& after.evt_indices == self.evt_indices
        &&& after.run_dt == self.run_dt
        &&& after.wct_trace == self.wct_trace
        &&& after.pending_ops == self.pending_ops
    }

    /// The pacing engine tells whether it is adaptive and implicit.
    pub open spec fn engine_asked(&self, adaptive: bool, implicit: bool, after: Self) -> bool {
        &&& after.log() == self.log().push(Call::EngineAdaptive(adaptive)).push(
            Call::EngineImplicit(implicit),
        )
        &&& after == (Simulation { driver: after.driver, ..*self })
    }

    /// The pacing engine tells the number of its stages.
    pub open spec fn stages_asked(&self, count: usize, after: Self) -> bool {
        &&& after.log() == self.log().push(Call::EngineStages(count))
        &&& after == (Simulation { driver: after.driver, ..*self })
    }

    /// The stages of a step are made, if there are dynamic blocks.
    pub open spec fn stages_done(
        &self,
        dt: F,
        adaptive: bool,
        implicit: bool,
        p: Progress<F>,
        after: Self,
        q: Progress<F>,
        early: bool,
    ) -> bool {
        if self.dyn_indices@.len() == 0 {
            after == *self && q == p && !early
        } else {
            exists|count: usize, m: Self| #[trigger]
                self.stages_asked(count, m) && m.stages_run(
                    count,
                    dt,
                    adaptive,
                    implicit,
                    p,
                    after,
                    q,
                    early,
                )
        }
    }
}

proof fn lemma_retry_evals<F: Scalar, B: Backend<F>, R: Runtime<F>>(
    u: Simulation<F, B, R>,
    t_end: F,
    dt: F,
    adaptive: bool,
    keep: bool,
    evals: usize,
    v: Simulation<F, B, R>,
    fraction: F,
    total: usize,
)
    requires
        u.events_end(t_end, dt, adaptive, keep, evals, v, Some(fraction), total),
    ensures
        total == evals,
{
    let (found, m) = choose|found: Seq<Detected<F>>, m: Simulation<F, B, R>| #[trigger]
        u.events_resolved(t_end, dt, adaptive, keep, found, m, v, Some(fraction)) && total
            == Simulation::<F, B, R>::resolve_evals(found, Some(fraction), evals);
}

/// A step has not come to anything yet.
pub open spec fn fresh_progress<F: Scalar>(p: Progress<F>) -> bool {
    p.success && zeros(p.error) && ones(p.scale) && p.evals == 0 && p.its == 0
}

/// The simulation while a step is made.
pub struct Making<S, F> {
    /// What the pacing engine told.
    pub adaptive: bool,
    pub implicit: bool,
    /// The step is to be adapted, and the engine can.
    pub both: bool,
    pub p0: Progress<F>,
    pub p: Progress<F>,
    /// The step was taken back in a stage.
    pub early: bool,
    /// After collecting changes, after applying them, with the watch started, after
    /// asking the engine, after keeping the state, after the stages, and before the watch
    /// is read.
    pub c: S,
    pub o: S,
    pub w: S,
    pub a: S,
    pub b: S,
    pub s: S,
    pub z: S,
}

impl<F: Scalar, B: Backend<F>, R: Runtime<F>> Simulation<F, B, R> {
    /// The watch is started, if steps are timed.
    pub open spec fn watched(&self, after: Self) -> bool {
        &&& after.log() == (match self.wct_trace {
            Some(_) => self.log().push(Call::StartWatch),
            None => self.log(),
        })
        &&& after == (Simulation { driver: after.driver, ..*self })
    }

    fn watch(&mut self)
        ensures
            old(self).watched(*final(self)),
    {
        if self.wct_trace.is_some() {
            self.driver.start_watch();
        }
    }

    /// The seconds that the step took are recorded, if steps are timed.
    pub open spec fn clocked(&self, after: Self) -> bool {
        match self.wct_trace {
            Some(trace) => {
                &&& after.wct_trace matches Some(now) && now@.len() == trace@.len() + 1
                    && now@.drop_last() == trace@ && after.log() == self.log().push(
                    Call::WatchElapsed(now@.last()),
                )
                &&& after == (Simulation {
                    driver: after.driver,
                    wct_trace: after.wct_trace,
                    ..*self
                })
            },
            None => after == *self,
        }
    }

    fn clock_step(&mut self)
        ensures
            old(self).clocked(*final(self)),
    {
        if let Some(mut trace) = self.wct_trace.take() {
            let took: F = self.driver.watch_elapsed();
            let ghost before = trace@;
            trace.push(took);
            assert(trace@.drop_last() =~= before);
            self.wct_trace = Some(trace);
        }
    }

    /// A step of `dt` is made, by way of `g`: changes are collected and applied, state is
    /// kept, the stages are made, and the step is finished unless a stage had it
    /// taken back. Where steps are timed, all but the changes is.
    pub open spec fn makes(
        &self,
        dt: F,
        adaptive: bool,
        g: Making<Self, F>,
        after: Self,
        q: Progress<F>,
    ) -> bool {
        &&& g.both == (adaptive && g.adaptive)
        &&& self.collected(g.c)
        &&& g.c.ops_done(g.o)
        &&& g.o.watched(g.w)
        &&& g.w.engine_asked(g.adaptive, g.implicit, g.a)
        &&& g.a.buffered(g.a.time, dt, g.b)
        &&& fresh_progress(g.p0)
        &&& g.b.stages_done(dt, g.both, g.implicit, g.p0, g.s, g.p, g.early)
        &&& if g.early {
            g.z == g.s && q == g.p
        } else {
            exists|f: Finish<Self, F>| #[trigger] g.s.finishes(dt, g.both, g.p, f, g.z, q)
        }
        &&& g.z.clocked(after)
    }

    /// One more step is timed, if steps are timed.
    pub open spec fn timed_once(&self, after: Self) -> bool {
        match self.wct_trace {
            Some(trace) => after.wct_trace is Some && after.wct_trace->0@.len() == trace@.len() + 1
                && after.wct_trace->0@.drop_last() == trace@,
            None => after.wct_trace is None,
        }
    }

    /// One step of `dt`, with the result `q`.
    #[verifier::opaque]
    pub open spec fn timestepped(&self, dt: F, adaptive: bool, after: Self, q: Progress<F>) -> bool {
        exists|g: Making<Self, F>| #[trigger] self.makes(dt, adaptive, g, after, q)
    }

    /// Makes one step, of the given size or of the default one.
    pub(crate) fn make_step(&mut self, dt: Option<F>, adaptive: bool) -> (q: Progress<F>)
        requires
            old(self).well_formed(),
        ensures
            old(self).timestepped(
                match dt {
                    Some(d) => d,
                    None => old(self).dt,
                },
                adaptive,
                *final(self),
                q,
            ),
            final(self).well_formed(),
            final(self).dt == old(self).dt,
            final(self).dt_min == old(self).dt_min,
            final(self).dt_max == old(self).dt_max,
            final(self).iterations_max == old(self).iterations_max,
            final(self).solver == old(self).solver,
            final(self).run_dt == old(self).run_dt,
            old(self).timed_once(*final(self)),
    {
        reveal(Simulation::timestepped);
        let size: F = match dt {
            Some(d) => d,
            None => self.dt,
        };
        self.apply_pending_ops();
        let ghost o = *self;
        let ghost c = choose|c: Self| #[trigger] old(self).collected(c) && c.ops_done(o);
        self.watch();
        let ghost w = *self;
        let engine_adaptive: bool = self.driver.engine_adaptive();
        let implicit: bool = self.driver.engine_implicit();
        let both: bool = adaptive && engine_adaptive;
        let ghost a = *self;
        let p0: Progress<F> = Progress {
            success: true,
            error: F::zero(),
            scale: F::one(),
            evals: 0,
            its: 0,
        };
        let time: F = self.time;
        self.buffer(time, size);
        let ghost b = *self;
        let mut p: Progress<F> = p0;
        let mut early: bool = false;
        if self.dyn_indices.len() > 0 {
            let count: usize = self.driver.engine_stages();
            let ghost m = *self;
            assert(b.stages_asked(count, m));
            let (next, back): (Progress<F>, bool) = self.run_stages(
                count,
                size,
                both,
                implicit,
                p,
            );
            p = next;
            early = back;
        }
        let ghost s = *self;
        let q: Progress<F> = if early {
            p
        } else {
            self.finish_step(size, both, p)
        };
        let ghost z = *self;
        self.clock_step();
        proof {
            let g = Making {
                adaptive: engine_adaptive,
                implicit,
                both,
                p0,
                p,
                early,
                c,
                o,
                w,
                a,
                b,
                s,
                z,
            };
            if !early {
                let f = choose|f: Finish<Self, F>| #[trigger] s.finishes(size, both, p, f, z, q);
                assert(g.s.finishes(size, g.both, g.p, f, g.z, q));
                assert(exists|f: Finish<Self, F>| #[trigger]
                    g.s.finishes(size, g.both, g.p, f, g.z, q));
            }
            assert(b.stages_done(size, both, implicit, p0, s, p, early));
            assert(old(self).makes(size, adaptive, g, *self, q));
        }
        q
    }

    /// Makes one step, of the given size or of the default one. Returns whether it
    /// succeeded, its error, the rescaling asked for, and the evaluations and passes
    /// that it took.
    pub fn timestep(&mut self, dt: Option<F>, adaptive: bool) -> (r: (bool, F, F, usize, usize))
        requires
            old(self).well_formed(),
        ensures
            old(self).timestepped(
                match dt {
                    Some(d) => d,
                    None => old(self).dt,
                },
                adaptive,
                *final(self),
                (Progress { success: r.0, error: r.1, scale: r.2, evals: r.3, its: r.4 }),
            ),
            final(self).well_formed(),
            final(self).dt == old(self).dt,
            final(self).dt_min == old(self).dt_min,
            final(self).dt_max == old(self).dt_max,
            final(self).iterations_max == old(self).iterations_max,
            final(self).solver == old(self).solver,
            final(self).run_dt == old(self).run_dt,
            old(self).timed_once(*final(self)),
    {
        let q: Progress<F> = self.make_step(dt, adaptive);
        (q.success, q.error, q.scale, q.evals, q.its)
    }
}

} // verus!
