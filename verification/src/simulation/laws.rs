//! Laws of steps and of runs.

use vstd::prelude::*;

use crate::expr::evaluates;
use crate::optim::linsolve::Backend;
use crate::scalar::{lts, Scalar};
use crate::simulation::chain::{chain, lemma_chain_keeps, link};
use crate::simulation::events::{all_close, at_crossings, Detected};
use crate::simulation::run::{counted, Course, Running};
use crate::simulation::runtime::Runtime;
use crate::simulation::state::{capped, RunStats, Simulation};
use crate::simulation::timestep::{step_end, Finish, Making, Progress};
use crate::simulation::trackers::ConvergenceTracker;
use crate::simulation::update::settles;

verus! {

impl<F: Scalar, B: Backend<F>, R: Runtime<F>> Simulation<F, B, R> {
    /// What happens within a step neither moves time nor mends a failure nor takes
    /// up a run that was ended.
    pub open spec fn holds_still(&self, after: Self) -> bool {
        &&& after.time == self.time
        &&& after.outcome.converged ==> self.outcome.converged
        &&& after.active ==> self.active
    }

    proof fn lemma_updated_holds(&self, t: F, after: Self)
        requires
            self.updated(t, after),
        ensures
            self.holds_still(after),
    {
        reveal(Simulation::updated);
        let m = if self.graph_dirty {
            choose|m: Self| #[trigger] self.assembles(m) && m.evaluated(t, after)
        } else {
            *self
        };
        assert(self.holds_still(m));
        assert(m.evaluated(t, after));
        assert(m.holds_still(after));
    }

    proof fn lemma_reverted_holds(&self, t: F, after: Self)
        requires
            self.reverted(t, after),
        ensures
            self.holds_still(after),
    {
        let (m, n) = choose|m: Self, n: Self| #[trigger] self.reverted_with(t, m, n, after);
        n.lemma_updated_holds(t, after);
    }

    proof fn lemma_events_hold(
        &self,
        t_end: F,
        dt: F,
        adaptive: bool,
        keep: bool,
        evals: usize,
        after: Self,
        r: Option<F>,
        total: usize,
    )
        requires
            self.events_end(t_end, dt, adaptive, keep, evals, after, r, total),
        ensures
            self.holds_still(after),
    {
        let (found, m) = choose|found: Seq<Detected<F>>, m: Self| #[trigger]
            self.events_resolved(t_end, dt, adaptive, keep, found, m, after, r) && total
                == Self::resolve_evals(found, r, evals);
        if found.len() > 0 {
            if adaptive && !keep && !all_close(found) {
                m.lemma_reverted_holds(m.time, after);
            } else {
                let n = choose|n: Self| #[trigger]
                    m.resolved_with(
                        found,
                        t_end,
                        dt,
                        at_crossings(adaptive, found),
                        n,
                        after,
                    );
                n.lemma_updated_holds(t_end, after);
            }
        }
    }

    /// The relation as a closure.
    pub open spec fn stillness() -> spec_fn(Self, Self) -> bool {
        |a: Self, b: Self| a.holds_still(b)
    }

    /// The relation on the simulation of a step in progress: an adapted step that goes
    /// on is a success so far.
    pub open spec fn stillness_of_first(adaptive: bool) -> spec_fn(
        (Self, Progress<F>),
        (Self, Progress<F>),
    ) -> bool {
        |a: (Self, Progress<F>), b: (Self, Progress<F>)|
            a.0.holds_still(b.0) && (adaptive && a.1.success ==> b.1.success)
    }

    proof fn lemma_solve_pass_holds(&self, t: F, dt: F, after: Self, settled: bool)
        requires
            self.solve_passes(t, dt, after, settled),
        ensures
            self.holds_still(after),
    {
        let (m, blank) = choose|
            m: Self,
            blank: ConvergenceTracker<F>,
        | #[trigger]
            self.solve_pass(t, dt, m, blank, after) && settles(
                after.solve_tracker,
                settled,
            );
        self.lemma_updated_holds(t, m);
    }

    proof fn lemma_solve_passes_hold(&self, t: F, dt: F, k: int, after: Self)
        requires
            chain(k, Self::solve_pass_step(t, dt), *self, after),
        ensures
            self.holds_still(after),
    {
        let step = Self::solve_pass_step(t, dt);
        let keeps = Self::stillness();
        assert forall|i: int, x: Self, y: Self|
            0 <= i < k && #[trigger] link(step, i, x, y) implies keeps(x, y) by {
            x.lemma_solve_pass_holds(t, dt, y, false);
        }
        lemma_chain_keeps(k, step, keeps, *self, after);
    }

    proof fn lemma_solved_holds(&self, t: F, dt: F, after: Self, r: (bool, usize, usize))
        requires
            self.solved(t, dt, after, r),
        ensures
            self.holds_still(after),
    {
        if exists|k: usize, m: Self, b: Self| #[trigger]
            self.solve_settles(t, dt, k, m, b) && r == (true, (k + 1) as usize, (k + 1) as usize)
                && after == b.passes_noted((k + 1) as usize) {
            let (k, m, b) = choose|k: usize, m: Self, b: Self| #[trigger]
                self.solve_settles(t, dt, k, m, b) && r == (
                    true,
                    (k + 1) as usize,
                    (k + 1) as usize,
                ) && after == b.passes_noted((k + 1) as usize);
            self.lemma_solve_passes_hold(t, dt, k as int, m);
            m.lemma_solve_pass_holds(t, dt, b, true);
        } else {
            let b = choose|b: Self| #[trigger]
                self.solve_gives_up(t, dt, b) && r == (
                    false,
                    self.iterations_max,
                    self.iterations_max,
                ) && after == b.passes_noted(self.iterations_max);
            self.lemma_solve_passes_hold(t, dt, self.iterations_max as int, b);
        }
    }

    proof fn lemma_stage_holds(
        &self,
        stage: usize,
        dt: F,
        adaptive: bool,
        implicit: bool,
        p: Progress<F>,
        after: Self,
        q: Progress<F>,
        early: bool,
    )
        requires
            self.stage_run(stage, dt, adaptive, implicit, p, after, q, early),
        ensures
            self.holds_still(after),
            early ==> adaptive && !q.success,
            adaptive && !early ==> q.success,
    {
        let (t, b, e, r, failed) = choose|
            t: F,
            b: Self,
            e: Self,
            r: Progress<F>,
            failed: bool,
        | #[trigger]
            self.stage_with(
                stage,
                dt,
                adaptive,
                implicit,
                p,
                t,
                b,
                e,
                r,
                failed,
                after,
                q,
                early,
            );
        if implicit {
            let (m, s) = choose|m: Self, s: (bool, usize, usize)| #[trigger]
                b.stage_solved(t, dt, adaptive, p, m, s, e, r, failed);
            b.lemma_solved_holds(t, dt, m, s);
        } else {
            b.lemma_updated_holds(t, e);
        }
        if failed {
            e.lemma_reverted_holds(e.time, after);
        } else {
            let m = choose|m: Self| #[trigger]
                e.stage_stepped(t, dt, adaptive, r, m, after, q, early);
            if early {
                m.lemma_reverted_holds(m.time, after);
            }
        }
    }

    proof fn lemma_stages_hold(
        &self,
        k: int,
        dt: F,
        adaptive: bool,
        implicit: bool,
        p: Progress<F>,
        after: (Self, Progress<F>),
    )
        requires
            chain(k, Self::stage_step(dt, adaptive, implicit), (*self, p), after),
        ensures
            self.holds_still(after.0),
            adaptive && p.success ==> after.1.success,
    {
        let step = Self::stage_step(dt, adaptive, implicit);
        let keeps = Self::stillness_of_first(adaptive);
        assert forall|i: int, x: (Self, Progress<F>), y: (Self, Progress<F>)|
            0 <= i < k && #[trigger] link(step, i, x, y) implies keeps(x, y) by {
            x.0.lemma_stage_holds(i as usize, dt, adaptive, implicit, x.1, y.0, y.1, false);
        }
        lemma_chain_keeps(k, step, keeps, (*self, p), after);
    }

    /// Whether a step moves time: one that is adapted moves it by exactly the step if
    /// it succeeded, and leaves it otherwise; any other step always moves it.
    pub open spec fn moves_time(&self, dt: F, adapted: bool, after: Self, q: Progress<F>) -> bool {
        if adapted && !q.success {
            after.time == self.time
        } else {
            evaluates(step_end(self.time, dt), after.time)
        }
    }

    /// An adapted step moves time if and only if it succeeded; any other step, one of
    /// an engine that cannot adapt among them, always moves it. A failure to converge
    /// stays on record, and a run that was ended stays ended.
    pub proof fn law_step_moves_time(&self, dt: F, adaptive: bool, after: Self, q: Progress<F>)
        requires
            self.timestepped(dt, adaptive, after, q),
        ensures
            exists|g: Making<Self, F>| #[trigger]
                self.makes(dt, adaptive, g, after, q) && self.moves_time(
                    dt,
                    adaptive && g.adaptive,
                    after,
                    q,
                ),
            !adaptive ==> self.moves_time(dt, false, after, q),
            after.outcome.converged ==> self.outcome.converged,
            after.active ==> self.active,
    {
        reveal(Simulation::timestepped);
        let g = choose|g: Making<Self, F>| #[trigger] self.makes(dt, adaptive, g, after, q);
        assert(self.holds_still(g.b));
        if g.b.dyn_indices@.len() > 0 {
            let (count, m) = choose|count: usize, m: Self| #[trigger]
                g.b.stages_asked(count, m) && m.stages_run(
                    count,
                    dt,
                    g.both,
                    g.implicit,
                    g.p0,
                    g.s,
                    g.p,
                    g.early,
                );
            if g.early {
                let (k, n) = choose|k: usize, n: (Self, Progress<F>)| #[trigger]
                    m.stages_early(dt, g.both, g.implicit, g.p0, k, n, (g.s, g.p)) && k < count;
                m.lemma_stages_hold(k as int, dt, g.both, g.implicit, g.p0, n);
                n.0.lemma_stage_holds(k, dt, g.both, g.implicit, n.1, g.s, g.p, true);
            } else {
                m.lemma_stages_hold(count as int, dt, g.both, g.implicit, g.p0, (g.s, g.p));
            }
        }
        assert(self.holds_still(g.s));
        if !g.early {
            let f = choose|f: Finish<Self, F>| #[trigger]
                g.s.finishes(dt, g.both, g.p, f, g.z, q);
            g.s.lemma_finish_holds(dt, g.both, g.p, f, g.z, q);
        }
    }

    proof fn lemma_finish_holds(
        &self,
        dt: F,
        adaptive: bool,
        p: Progress<F>,
        f: Finish<Self, F>,
        after: Self,
        q: Progress<F>,
    )
        requires
            self.finishes(dt, adaptive, p, f, after, q),
            adaptive ==> p.success,
        ensures
            self.moves_time(dt, adaptive, after, q),
            after.outcome.converged ==> self.outcome.converged,
            after.active ==> self.active,
    {
        self.lemma_updated_holds(f.t_end, f.u);
        match f.ratio {
            Some(_) => {
                f.u.lemma_events_hold(
                    f.t_end,
                    dt,
                    adaptive,
                    f.keep,
                    capped(p.evals, 1),
                    f.v,
                    f.ratio,
                    capped(p.evals, 1),
                );
            },
            None => {
                f.u.lemma_events_hold(
                    f.t_end,
                    dt,
                    adaptive,
                    f.keep,
                    capped(p.evals, 1),
                    f.v,
                    None,
                    q.evals,
                );
            },
        }
    }

    /// A step of the smallest size is never taken back on account of events: they
    /// are resolved instead, so the search for an event always ends.
    pub proof fn law_smallest_step_is_kept(
        &self,
        t_end: F,
        dt: F,
        adaptive: bool,
        evals: usize,
        after: Self,
        r: Option<F>,
        total: usize,
    )
        requires
            self.events_end(t_end, dt, adaptive, true, evals, after, r, total),
        ensures
            r is None,
    {
    }

    /// If events take a step back, nothing but their detection precedes that: no
    /// event is resolved.
    pub proof fn law_no_event_resolved_twice(
        &self,
        t_end: F,
        dt: F,
        adaptive: bool,
        keep: bool,
        evals: usize,
        after: Self,
        r: Option<F>,
        total: usize,
    )
        requires
            self.events_end(t_end, dt, adaptive, keep, evals, after, r, total),
            r is Some,
        ensures
            exists|found: Seq<Detected<F>>, m: Self| #[trigger]
                self.detected(t_end, m, found) && m.reverted(m.time, after),
    {
        let (found, m) = choose|found: Seq<Detected<F>>, m: Self| #[trigger]
            self.events_resolved(t_end, dt, adaptive, keep, found, m, after, r) && total
                == Self::resolve_evals(found, r, evals);
        assert(self.detected(t_end, m, found) && m.reverted(m.time, after));
    }

    /// The steps counted are those that succeeded and those that did not.
    pub open spec fn adds_up(stats: RunStats<F>) -> bool {
        stats.total_steps < usize::MAX ==> stats.total_steps == stats.successful_steps
            + stats.rejected_steps
    }

    /// The relation of a run's states: counts that add up go on adding up, failures
    /// stay, and an ended run stays ended.
    pub open spec fn goes_forward() -> spec_fn(Running<Self, F>, Running<Self, F>) -> bool {
        |a: Running<Self, F>, b: Running<Self, F>|
            {
                &&& Self::adds_up(a.stats) ==> Self::adds_up(b.stats)
                &&& b.sim.outcome.converged ==> a.sim.outcome.converged
                &&& b.sim.active ==> a.sim.active
            }
    }

    /// In what a run reports, the steps add up; the outcome is that of the
    /// simulation; and unless the run was ended or steps can no longer be counted,
    /// the end of the run was reached.
    pub proof fn law_run_reports(
        &self,
        duration: F,
        reset: bool,
        adaptive: bool,
        after: Self,
        stats: RunStats<F>,
    )
        requires
            self.ran(duration, reset, adaptive, after, stats),
        ensures
            Self::adds_up(stats),
            stats.outcome == after.outcome,
            after.active && stats.total_steps < usize::MAX ==> exists|c: Course<Self, F>| #[trigger]
                self.run_with(duration, reset, adaptive, c, after, stats) && lts(
                    after.time,
                    c.end,
                    false,
                ),
    {
        let c = choose|c: Course<Self, F>| #[trigger]
            self.run_with(duration, reset, adaptive, c, after, stats);
        let a = c.opened.running(self.dt, c.blank);
        let b = c.ran.running(c.dt, c.counts);
        let k = choose|k: int| #[trigger] Self::run_in(a, c.end, c.end, c.pace, k, b);
        Self::lemma_run_forward(a, c.end, c.end, c.pace, k, b);
        assert(Self::adds_up(a.stats));
    }

    proof fn lemma_run_forward(
        a: Running<Self, F>,
        target: F,
        end: F,
        adaptive: bool,
        k: int,
        b: Running<Self, F>,
    )
        requires
            chain(k, Self::run_step(target, end, adaptive), a, b),
        ensures
            Self::goes_forward()(a, b),
    {
        let step = Self::run_step(target, end, adaptive);
        let keeps = Self::goes_forward();
        assert forall|i: int, x: Running<Self, F>, y: Running<Self, F>|
            0 <= i < k && #[trigger] link(step, i, x, y) implies keeps(x, y) by {
            let (m, q) = choose|m: Self, q: Progress<F>| #[trigger]
                Self::run_one(x, end, adaptive, m, q, y);
            x.sim.law_step_moves_time(x.dt, adaptive, m, q);
            assert(y.stats == counted(x.stats, q));
        }
        lemma_chain_keeps(k, step, keeps, a, b);
    }

    /// A failure to converge during a run is in the outcome that the run leaves
    /// behind, and a run that was ended stays ended.
    pub proof fn law_failure_is_reported(
        a: Running<Self, F>,
        target: F,
        end: F,
        adaptive: bool,
        b: Running<Self, F>,
    )
        requires
            Self::runs(a, target, end, adaptive, b),
        ensures
            b.sim.outcome.converged ==> a.sim.outcome.converged,
            b.sim.active ==> a.sim.active,
    {
        let k = choose|k: int| #[trigger] Self::run_in(a, target, end, adaptive, k, b);
        Self::lemma_run_forward(a, target, end, adaptive, k, b);
    }

    /// A run that was ended makes no step.
    pub proof fn law_ended_run_makes_no_step(
        a: Running<Self, F>,
        target: F,
        end: F,
        adaptive: bool,
        b: Running<Self, F>,
    )
        requires
            Self::runs(a, target, end, adaptive, b),
            !a.sim.active,
        ensures
            b == a,
    {
        let k = choose|k: int| #[trigger] Self::run_in(a, target, end, adaptive, k, b);
        Self::lemma_ended(a, target, end, adaptive, k, b);
    }

    proof fn lemma_ended(
        a: Running<Self, F>,
        target: F,
        end: F,
        adaptive: bool,
        k: int,
        b: Running<Self, F>,
    )
        requires
            chain(k, Self::run_step(target, end, adaptive), a, b),
            !a.sim.active,
        ensures
            b == a,
        decreases k,
    {
        if k > 0 {
            let step = Self::run_step(target, end, adaptive);
            let m = choose|m: Running<Self, F>| #[trigger]
                link(step, k - 1, m, b) && chain(k - 1, step, a, m);
            Self::lemma_ended(a, target, end, adaptive, k - 1, m);
            assert(Self::goes_on(m, target));
        }
    }
}

} // verus!
