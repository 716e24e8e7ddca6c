//! One evaluation of the whole system at a point in time.

use vstd::prelude::*;

use crate::model::Level;
use crate::optim::booster::ConnectionBooster;
use crate::optim::linsolve::Backend;
use crate::scalar::{les, lts, Scalar};
use crate::seqs::copied;
use crate::simulation::chain::{chain, lemma_chain_push};
use crate::simulation::evaluate::{
    block_step, block_update, level_run, level_step, levels_run, loop_transfer_step,
    transfer_active, transfer_step, transferred,
};
use crate::simulation::runtime::{Call, Runtime, Schedule};
use crate::simulation::state::{Log, LoopBooster, Outcome, Simulation};
use crate::simulation::trackers::{is_nls_coef, nls_coef, worst_is, ConvergenceTracker};

verus! {

/// Accelerators and log while the loops are iterated, with the residuals of the
/// pass.
pub struct LoopState<F: Scalar, B: Backend<F>> {
    pub log: Log<F>,
    pub boosters: Seq<LoopBooster<F, B>>,
    pub tracker: ConvergenceTracker<F>,
}

/// An accelerator takes over the values of its source and forgets its history.
pub open spec fn booster_reset<F: Scalar, B: Backend<F>>(
    a: LoopBooster<F, B>,
    values: Seq<F>,
    b: LoopBooster<F, B>,
) -> bool {
    &&& b.conn == a.conn
    &&& b.booster.history@ == values
    &&& b.booster.accelerator.cleared()
    &&& a.booster.accelerator.keeps(b.booster.accelerator)
    &&& b.booster.atol == a.booster.atol
    &&& b.booster.rtol == a.booster.rtol
}

/// Accelerator `i` is reset.
pub open spec fn resets_one<F: Scalar, B: Backend<F>>(
    i: int,
    a: (Log<F>, Seq<LoopBooster<F, B>>),
    b: (Log<F>, Seq<LoopBooster<F, B>>),
) -> bool {
    exists|values: Seq<F>, lb: LoopBooster<F, B>| #[trigger]
        booster_reset(a.1[i], values, lb) && b == (
            a.0.push(Call::SourceValues(a.1[i].conn, values)),
            a.1.update(i, lb),
        )
}

/// The accelerators are reset in order.
pub open spec fn reset_step<F: Scalar, B: Backend<F>>() -> spec_fn(
    int,
    (Log<F>, Seq<LoopBooster<F, B>>),
    (Log<F>, Seq<LoopBooster<F, B>>),
) -> bool {
    |
        i: int,
        a: (Log<F>, Seq<LoopBooster<F, B>>),
        b: (Log<F>, Seq<LoopBooster<F, B>>),
    |
        resets_one(i, a, b)
}

/// The accelerator that takes a step in `n` dimensions: `a` itself, or `a` without
/// its history if that is of another width.
pub open spec fn starts_as<F: Scalar, B: Backend<F>>(
    a: ConnectionBooster<F, B>,
    n: int,
    s: ConnectionBooster<F, B>,
) -> bool {
    if a.accelerator.accepts(n) {
        s == a
    } else {
        &&& s.history == a.history
        &&& s.atol == a.atol
        &&& s.rtol == a.rtol
        &&& s.accelerator.cleared()
        &&& a.accelerator.keeps(s.accelerator)
    }
}

/// One accelerated transfer of the source's values, with residual `res`.
pub open spec fn boosted<F: Scalar, B: Backend<F>>(
    a: LoopBooster<F, B>,
    values: Seq<F>,
    s: ConnectionBooster<F, B>,
    from: Seq<F>,
    l2: F,
    b: LoopBooster<F, B>,
    res: F,
) -> bool {
    &&& b.conn == a.conn
    &&& starts_as(a.booster, values.len() as int, s)
    &&& s.updated_from(values, from, l2, b.booster, res)
}

/// The log and the accelerators after accelerator `i` became `lb`.
pub open spec fn boosted_log<F: Scalar, B: Backend<F>>(
    i: int,
    a: LoopState<F, B>,
    values: Seq<F>,
    lb: LoopBooster<F, B>,
) -> (Log<F>, Seq<LoopBooster<F, B>>) {
    (
        a.log.push(Call::SourceValues(a.boosters[i].conn, values)).push(
            Call::SetTargets(a.boosters[i].conn, lb.booster.history@),
        ),
        a.boosters.update(i, lb),
    )
}

/// Accelerator `i` transfers the values of its source to its targets, and its
/// residual is recorded.
pub open spec fn boosts_one<F: Scalar, B: Backend<F>>(
    i: int,
    a: LoopState<F, B>,
    b: LoopState<F, B>,
) -> bool {
    exists|
        values: Seq<F>,
        s: ConnectionBooster<F, B>,
        from: Seq<F>,
        l2: F,
        lb: LoopBooster<F, B>,
        res: F,
    | #[trigger]
        boosted(a.boosters[i], values, s, from, l2, lb, res) && (b.log, b.boosters) == boosted_log(
            i,
            a,
            values,
            lb,
        ) && a.tracker.records(i as usize, res, b.tracker)
}

/// The accelerators transfer in order.
pub open spec fn boost_step<F: Scalar, B: Backend<F>>() -> spec_fn(
    int,
    LoopState<F, B>,
    LoopState<F, B>,
) -> bool {
    |i: int, a: LoopState<F, B>, b: LoopState<F, B>| boosts_one(i, a, b)
}

/// One pass over the loops: all levels, up to the log `m`, then all accelerators,
/// from the blank tracker `blank` on.
pub open spec fn loop_pass<F: Scalar, B: Backend<F>>(
    blocks: Seq<u64>,
    conns: Seq<u64>,
    levels: Seq<Level>,
    t: F,
    a: LoopState<F, B>,
    m: LoopState<F, B>,
    b: LoopState<F, B>,
) -> bool {
    &&& levels_run(blocks, conns, levels, true, t, a.log, m.log)
    &&& m.boosters == a.boosters
    &&& m.tracker.blank()
    &&& m.tracker.iterations == a.tracker.iterations
    &&& chain(a.boosters.len() as int, boost_step::<F, B>(), m, b)
}

/// The test whether the residuals are small enough came out as `r`.
pub open spec fn settles<F: Scalar>(tracker: ConvergenceTracker<F>, r: bool) -> bool {
    exists|coef: F| #[trigger] les(tracker.max_error, coef, r) && is_nls_coef(coef)
}

/// One pass over the loops whose residuals are small enough or not.
pub open spec fn loop_passes<F: Scalar, B: Backend<F>>(
    blocks: Seq<u64>,
    conns: Seq<u64>,
    levels: Seq<Level>,
    t: F,
    a: LoopState<F, B>,
    b: LoopState<F, B>,
    settled: bool,
) -> bool {
    exists|m: LoopState<F, B>| #[trigger]
        loop_pass(blocks, conns, levels, t, a, m, b) && settles(b.tracker, settled)
}

/// Passes that do not settle.
pub open spec fn pass_step<F: Scalar, B: Backend<F>>(
    blocks: Seq<u64>,
    conns: Seq<u64>,
    levels: Seq<Level>,
    t: F,
) -> spec_fn(int, LoopState<F, B>, LoopState<F, B>) -> bool {
    |i: int, a: LoopState<F, B>, b: LoopState<F, B>|
        loop_passes(blocks, conns, levels, t, a, b, false)
}

/// The passes settle with pass number `k`, counted from one, which turns `m` into
/// `b`.
pub open spec fn settles_in<F: Scalar, B: Backend<F>>(
    blocks: Seq<u64>,
    conns: Seq<u64>,
    levels: Seq<Level>,
    t: F,
    k: int,
    a: LoopState<F, B>,
    m: LoopState<F, B>,
    b: LoopState<F, B>,
) -> bool {
    &&& chain(k - 1, pass_step(blocks, conns, levels, t), a, m)
    &&& loop_passes(blocks, conns, levels, t, m, b, true)
}

/// `b` is the outcome `a` with a residual that did not become small enough.
pub open spec fn nonconverged<F: Scalar>(
    a: Outcome<F>,
    residual: F,
    worst: Option<usize>,
    b: Outcome<F>,
) -> bool {
    exists|above: bool| #[trigger]
        lts(a.max_residual, residual, above) && b == if above {
            Outcome {
                converged: false,
                max_residual: residual,
                worst_block: worst,
                truncated_at: a.truncated_at,
            }
        } else {
            Outcome { converged: false, ..a }
        }
}

/// `worst` is the component with the largest residual.
pub open spec fn worst_of<F: Scalar>(tracker: ConvergenceTracker<F>, worst: Option<usize>) -> bool {
    if tracker.errors@.len() == 0 {
        worst is None
    } else {
        exists|w: (usize, F)|
            worst == Some(w.0) && worst_is(tracker.errors@, tracker.errors@.len() as int, w)
    }
}

/// The residuals of `tracker` did not become small enough: the outcome says so.
pub open spec fn failure_recorded<F: Scalar>(
    tracker: ConvergenceTracker<F>,
    a: Outcome<F>,
    b: Outcome<F>,
) -> bool {
    exists|worst: Option<usize>| #[trigger]
        nonconverged(a, tracker.max_error, worst, b) && worst_of(tracker, worst)
}

impl<F: Scalar, B: Backend<F>, R: Runtime<F>> Simulation<F, B, R> {
    /// Accelerators, log and residuals of the loops.
    pub open spec fn loop_state(&self) -> LoopState<F, B> {
        LoopState { log: self.log(), boosters: self.boosters@, tracker: self.loop_tracker }
    }

    fn run_level(&mut self, level: &Level, in_loop: bool, t: F)
        ensures
            exists|m: Log<F>| #[trigger]
                level_run(
                    old(self).blocks@,
                    old(self).connections@,
                    *level,
                    in_loop,
                    t,
                    old(self).log(),
                    m,
                    final(self).log(),
                ),
            *final(self) == (Simulation { driver: final(self).driver, ..*old(self) }),
    {
        let ghost start = self.log();
        let ghost step = block_step(self.blocks@, level.blocks@, t);
        let mut i: usize = 0;
        while i < level.blocks.len()
            invariant
                i <= level.blocks@.len(),
                *self == (Simulation { driver: self.driver, ..*old(self) }),
                step == block_step(self.blocks@, level.blocks@, t),
                chain(i as int, step, start, self.log()),
            decreases level.blocks@.len() - i,
        {
            let ghost a = self.log();
            let at: usize = level.blocks[i];
            if at < self.blocks.len() {
                let key: u64 = self.blocks[at];
                if self.driver.block_active(key) {
                    self.driver.update_block(key, t);
                }
            }
            proof {
                assert(block_update(self.blocks@, at, t, a, self.log()));
                assert(step(i as int, a, self.log()));
                lemma_chain_push(i as int, step, start, a, self.log());
            }
            i += 1;
        }
        let ghost m = self.log();
        let ghost follow = if in_loop {
            loop_transfer_step::<F>(self.connections@, level.connections@)
        } else {
            transfer_step::<F>(self.connections@, level.connections@)
        };
        let mut j: usize = 0;
        while j < level.connections.len()
            invariant
                j <= level.connections@.len(),
                *self == (Simulation { driver: self.driver, ..*old(self) }),
                follow == if in_loop {
                    loop_transfer_step::<F>(self.connections@, level.connections@)
                } else {
                    transfer_step::<F>(self.connections@, level.connections@)
                },
                chain(j as int, follow, m, self.log()),
            decreases level.connections@.len() - j,
        {
            let ghost a = self.log();
            let at: usize = level.connections[j];
            if at < self.connections.len() {
                let key: u64 = self.connections[at];
                if !in_loop {
                    self.driver.transfer(key);
                } else if self.driver.connection_active(key) {
                    self.driver.transfer(key);
                }
            }
            proof {
                if in_loop {
                    assert(transfer_active(self.connections@, at, a, self.log()));
                } else {
                    assert(self.log() == transferred(self.connections@, at, a));
                }
                assert(follow(j as int, a, self.log()));
                lemma_chain_push(j as int, follow, m, a, self.log());
            }
            j += 1;
        }
        assert(level_run(
            self.blocks@,
            self.connections@,
            *level,
            in_loop,
            t,
            start,
            m,
            self.log(),
        ));
    }

    fn run_levels(&mut self, levels: &Vec<Level>, in_loop: bool, t: F)
        ensures
            levels_run(
                old(self).blocks@,
                old(self).connections@,
                levels@,
                in_loop,
                t,
                old(self).log(),
                final(self).log(),
            ),
            *final(self) == (Simulation { driver: final(self).driver, ..*old(self) }),
    {
        let ghost start = self.log();
        let ghost step = level_step(self.blocks@, self.connections@, levels@, in_loop, t);
        let mut i: usize = 0;
        while i < levels.len()
            invariant
                i <= levels@.len(),
                *self == (Simulation { driver: self.driver, ..*old(self) }),
                step == level_step(self.blocks@, self.connections@, levels@, in_loop, t),
                chain(i as int, step, start, self.log()),
            decreases levels@.len() - i,
        {
            let ghost a = self.log();
            self.run_level(&levels[i], in_loop, t);
            proof {
                assert(step(i as int, a, self.log()));
                lemma_chain_push(i as int, step, start, a, self.log());
            }
            i += 1;
        }
    }

    fn reset_boosters(&mut self)
        requires
            old(self).boosters_intact(),
        ensures
            chain(
                old(self).boosters@.len() as int,
                reset_step::<F, B>(),
                (old(self).log(), old(self).boosters@),
                (final(self).log(), final(self).boosters@),
            ),
            final(self).boosters@.len() == old(self).boosters@.len(),
            final(self).boosters_intact(),
            *final(self) == (Simulation {
                boosters: final(self).boosters,
                driver: final(self).driver,
                ..*old(self)
            }),
    {
        let ghost start = (self.log(), self.boosters@);
        let ghost step = reset_step::<F, B>();
        let mut i: usize = 0;
        while i < self.boosters.len()
            invariant
                i <= self.boosters@.len(),
                self.boosters@.len() == old(self).boosters@.len(),
                self.boosters_intact(),
                *self == (Simulation { boosters: self.boosters, driver: self.driver, ..*old(self) }),
                step == reset_step::<F, B>(),
                chain(i as int, step, start, (self.log(), self.boosters@)),
            decreases self.boosters@.len() - i,
        {
            let ghost a = (self.log(), self.boosters@);
            let conn: u64 = self.boosters[i].conn;
            let values: Vec<F> = self.driver.source_values(conn);
            let lb: &mut LoopBooster<F, B> = &mut self.boosters[i];
            lb.booster.reset(&values);
            proof {
                let b = (self.log(), self.boosters@);
                assert(booster_reset(a.1[i as int], values@, self.boosters@[i as int]));
                assert(b.1 =~= a.1.update(i as int, self.boosters@[i as int]));
                assert(resets_one(i as int, a, b));
                assert(step(i as int, a, b));
                lemma_chain_push(i as int, step, start, a, b);
            }
            i += 1;
        }
    }

    fn step_boosters(&mut self)
        requires
            old(self).boosters_intact(),
        ensures
            chain(
                old(self).boosters@.len() as int,
                boost_step::<F, B>(),
                old(self).loop_state(),
                final(self).loop_state(),
            ),
            final(self).boosters@.len() == old(self).boosters@.len(),
            final(self).boosters_intact(),
            *final(self) == (Simulation {
                boosters: final(self).boosters,
                loop_tracker: final(self).loop_tracker,
                driver: final(self).driver,
                ..*old(self)
            }),
    {
        let ghost start = self.loop_state();
        let ghost step = boost_step::<F, B>();
        let mut i: usize = 0;
        while i < self.boosters.len()
            invariant
                i <= self.boosters@.len(),
                self.boosters@.len() == old(self).boosters@.len(),
                self.boosters_intact(),
                *self == (Simulation {
                    boosters: self.boosters,
                    loop_tracker: self.loop_tracker,
                    driver: self.driver,
                    ..*old(self)
                }),
                step == boost_step::<F, B>(),
                chain(i as int, step, start, self.loop_state()),
            decreases self.boosters@.len() - i,
        {
            let ghost a = self.loop_state();
            let conn: u64 = self.boosters[i].conn;
            let values: Vec<F> = self.driver.source_values(conn);
            let n: usize = values.len();
            let lb: &mut LoopBooster<F, B> = &mut self.boosters[i];
            let ghost first = lb.booster;
            if !lb.booster.accelerator.takes(n) {
                lb.booster.accelerator.reset();
            }
            let ghost s = lb.booster;
            let res: F = lb.booster.update(&values);
            let out: Vec<F> = copied(lb.booster.history.as_slice());
            self.driver.set_targets(conn, &out);
            self.loop_tracker.record(i, res);
            proof {
                let b = self.loop_state();
                let after = self.boosters@[i as int];
                assert(starts_as(first, n as int, s));
                let (from, l2) = choose|from: Seq<F>, l2: F| #[trigger]
                    s.updated_from(values@, from, l2, after.booster, res);
                assert(boosted(a.boosters[i as int], values@, s, from, l2, after, res));
                assert(b.boosters =~= a.boosters.update(i as int, after));
                assert((b.log, b.boosters) == boosted_log(i as int, a, values@, after));
                assert(boosts_one(i as int, a, b));
                assert(step(i as int, a, b));
                lemma_chain_push(i as int, step, start, a, b);
            }
            i += 1;
        }
    }

    pub(crate) fn record_failure(&mut self, residual: F, worst: Option<usize>)
        ensures
            nonconverged(old(self).outcome, residual, worst, final(self).outcome),
            *final(self) == (Simulation { outcome: final(self).outcome, ..*old(self) }),
    {
        let above: bool = self.outcome.max_residual.below(residual);
        assert(lts(self.outcome.max_residual, residual, above));
        self.outcome.converged = false;
        if above {
            self.outcome.max_residual = residual;
            self.outcome.worst_block = worst;
        }
    }

    /// The loops, which the levels list, settle with pass number `k`.
    pub open spec fn loops_settle(
        &self,
        levels: Seq<Level>,
        t: F,
        from: LoopState<F, B>,
        k: usize,
        m: LoopState<F, B>,
        b: LoopState<F, B>,
        after: Self,
    ) -> bool {
        &&& 1 <= k < self.iterations_max
        &&& settles_in(self.blocks@, self.connections@, levels, t, k as int, from, m, b)
        &&& after.loop_state() == (LoopState {
            tracker: ConvergenceTracker { iterations: k, ..b.tracker },
            ..b
        })
        &&& after.outcome == self.outcome
    }

    /// The loops, which the levels list, do not settle in the passes allowed.
    pub open spec fn loops_give_up(
        &self,
        levels: Seq<Level>,
        t: F,
        from: LoopState<F, B>,
        b: LoopState<F, B>,
        after: Self,
    ) -> bool {
        &&& gives_up(
            self.blocks@,
            self.connections@,
            levels,
            t,
            self.iterations_max as int,
            from,
            b,
        )
        &&& after.loop_state() == (LoopState {
            tracker: ConvergenceTracker { iterations: self.iterations_max, ..b.tracker },
            ..b
        })
        &&& failure_recorded(b.tracker, self.outcome, after.outcome)
    }

    /// The loops, which the levels list, are iterated from the state `from` on; the
    /// tracker and the outcome tell how that ended.
    pub open spec fn loops_end(&self, levels: Seq<Level>, t: F, from: LoopState<F, B>, after: Self) -> bool {
        ||| exists|k: usize, m: LoopState<F, B>, b: LoopState<F, B>| #[trigger]
            self.loops_settle(levels, t, from, k, m, b, after)
        ||| exists|b: LoopState<F, B>| #[trigger]
            self.loops_give_up(levels, t, from, b, after)
    }

    /// The algebraic loops are solved at `t`, by the levels of the schedule: the
    /// accelerators are reset, then passes follow until the residuals are small
    /// enough, or too many passes were made.
    pub open spec fn loops_run(&self, levels: Seq<Level>, t: F, after: Self) -> bool {
        &&& exists|from: LoopState<F, B>| #[trigger]
            loops_start(self.loop_state(), from) && self.loops_end(levels, t, from, after)
        &&& after == (Simulation {
            boosters: after.boosters,
            loop_tracker: after.loop_tracker,
            outcome: after.outcome,
            driver: after.driver,
            ..*self
        })
    }
}

/// The passes allowed by the limit, none of which settles, lead from `a` to `b`.
pub open spec fn gives_up<F: Scalar, B: Backend<F>>(
    blocks: Seq<u64>,
    conns: Seq<u64>,
    levels: Seq<Level>,
    t: F,
    limit: int,
    a: LoopState<F, B>,
    b: LoopState<F, B>,
) -> bool {
    chain(limit - 1, pass_step(blocks, conns, levels, t), a, b)
}

/// The accelerators are reset.
pub open spec fn loops_start<F: Scalar, B: Backend<F>>(
    a: LoopState<F, B>,
    b: LoopState<F, B>,
) -> bool {
    &&& chain(
        a.boosters.len() as int,
        reset_step::<F, B>(),
        (a.log, a.boosters),
        (b.log, b.boosters),
    )
    &&& b.tracker == a.tracker
}

impl<F: Scalar, B: Backend<F>, R: Runtime<F>> Simulation<F, B, R> {
    fn pass_loops(&mut self, levels: &Vec<Level>, t: F) -> (settled: bool)
        requires
            old(self).boosters_intact(),
        ensures
            loop_passes(
                old(self).blocks@,
                old(self).connections@,
                levels@,
                t,
                old(self).loop_state(),
                final(self).loop_state(),
                settled,
            ),
            final(self).boosters_intact(),
            *final(self) == (Simulation {
                boosters: final(self).boosters,
                loop_tracker: final(self).loop_tracker,
                driver: final(self).driver,
                ..*old(self)
            }),
    {
        let ghost a = self.loop_state();
        self.run_levels(levels, true, t);
        self.loop_tracker.begin_iteration();
        let ghost m = self.loop_state();
        self.step_boosters();
        let coef: F = nls_coef();
        let settled: bool = self.loop_tracker.converged(coef);
        proof {
            assert(les(self.loop_tracker.max_error, coef, settled));
            assert(settles(self.loop_tracker, settled));
            assert(loop_pass(
                self.blocks@,
                self.connections@,
                levels@,
                t,
                a,
                m,
                self.loop_state(),
            ));
        }
        settled
    }

    fn loops(&mut self, levels: &Vec<Level>, t: F)
        requires
            old(self).boosters_intact(),
        ensures
            old(self).loops_run(levels@, t, *final(self)),
            final(self).boosters_intact(),
    {
        self.reset_boosters();
        let ghost from = self.loop_state();
        assert(loops_start(old(self).loop_state(), from));
        let ghost step = pass_step::<F, B>(self.blocks@, self.connections@, levels@, t);
        let mut k: usize = 1;
        while k < self.iterations_max
            invariant
                1 <= k,
                k <= self.iterations_max || k == 1,
                self.boosters_intact(),
                *self == (Simulation {
                    boosters: self.boosters,
                    loop_tracker: self.loop_tracker,
                    driver: self.driver,
                    ..*old(self)
                }),
                loops_start(old(self).loop_state(), from),
                step == pass_step::<F, B>(self.blocks@, self.connections@, levels@, t),
                chain(k - 1, step, from, self.loop_state()),
            decreases self.iterations_max - k,
        {
            let ghost m = self.loop_state();
            let settled: bool = self.pass_loops(levels, t);
            let ghost b = self.loop_state();
            if settled {
                self.loop_tracker.iterations = k;
                proof {
                    assert(old(self).loops_settle(levels@, t, from, k, m, b, *self));
                    assert(old(self).loops_end(levels@, t, from, *self));
                }
                return;
            }
            proof {
                assert(step(k - 1, m, b));
                lemma_chain_push(k - 1, step, from, m, b);
            }
            k += 1;
        }
        let ghost b = self.loop_state();
        proof {
            assert(gives_up(
                self.blocks@,
                self.connections@,
                levels@,
                t,
                self.iterations_max as int,
                from,
                b,
            ));
        }
        self.loop_tracker.iterations = self.iterations_max;
        let worst: Option<usize> = self.loop_tracker.worst();
        let residual: F = self.loop_tracker.max_error;
        self.record_failure(residual, worst);
        proof {
            assert(worst_of(b.tracker, worst));
            assert(failure_recorded(b.tracker, old(self).outcome, self.outcome));
            assert(old(self).loops_give_up(levels@, t, from, b, *self));
            assert(old(self).loops_end(levels@, t, from, *self));
        }
    }

    /// The system is evaluated at `t` in an order that is known: the acyclic part,
    /// up to `m`, then the loops, if there are any.
    pub open spec fn evaluated_with(&self, graph: Schedule, t: F, m: Self, after: Self) -> bool {
        &&& levels_run(
            self.blocks@,
            self.connections@,
            graph.dag@,
            false,
            t,
            self.log(),
            m.log(),
        )
        &&& m == (Simulation { driver: m.driver, ..*self })
        &&& if graph.has_loops {
            m.loops_run(graph.loops@, t, after)
        } else {
            after == m
        }
    }

    /// The system is evaluated at `t`. Where the order could not be found, the run
    /// ends instead.
    pub open spec fn evaluated(&self, t: F, after: Self) -> bool {
        if self.assembly_error is Some {
            after == (Simulation { active: false, ..*self })
        } else {
            match self.graph {
                Some(g) => exists|m: Self| #[trigger] self.evaluated_with(g, t, m, after),
                None => after == *self,
            }
        }
    }

    /// The system is evaluated at `t`, after the order was found anew if it was out
    /// of date.
    #[verifier::opaque]
    pub open spec fn updated(&self, t: F, after: Self) -> bool {
        if self.graph_dirty {
            exists|m: Self| #[trigger] self.assembles(m) && m.evaluated(t, after)
        } else {
            self.evaluated(t, after)
        }
    }

    proof fn lemma_loops_ignore_graph(
        self,
        levels: Seq<Level>,
        t: F,
        end: Self,
        m: Self,
        after: Self,
    )
        requires
            self.loops_run(levels, t, end),
            m == (Simulation { graph: m.graph, ..self }),
            after == (Simulation { graph: m.graph, ..end }),
        ensures
            m.loops_run(levels, t, after),
    {
        let from = choose|from: LoopState<F, B>| #[trigger]
            loops_start(self.loop_state(), from) && self.loops_end(levels, t, from, end);
        assert(m.loop_state() == self.loop_state() && after.loop_state() == end.loop_state());
        assert(loops_start(m.loop_state(), from));
        if exists|k: usize, a: LoopState<F, B>, b: LoopState<F, B>| #[trigger]
            self.loops_settle(levels, t, from, k, a, b, end) {
            let (k, a, b) = choose|k: usize, a: LoopState<F, B>, b: LoopState<F, B>| #[trigger]
                self.loops_settle(levels, t, from, k, a, b, end);
            assert(m.loops_settle(levels, t, from, k, a, b, after));
        } else {
            let b = choose|b: LoopState<F, B>| #[trigger]
                self.loops_give_up(levels, t, from, b, end);
            assert(m.loops_give_up(levels, t, from, b, after));
        }
        assert(m.loops_end(levels, t, from, after));
    }

    fn evaluate(&mut self, t: F)
        requires
            old(self).boosters_intact(),
        ensures
            old(self).evaluated(t, *final(self)),
            final(self).boosters_intact(),
    {
        if self.assembly_error.is_some() {
            self.active = false;
            return;
        }
        let ghost start = *self;
        match self.graph.take() {
            Some(g) => {
                self.run_levels(&g.dag, false, t);
                let ghost bare = *self;
                let ghost m = Simulation { graph: Some(g), ..*self };
                if g.has_loops {
                    self.loops(&g.loops, t);
                }
                let ghost end = *self;
                self.graph = Some(g);
                proof {
                    if g.has_loops {
                        bare.lemma_loops_ignore_graph(g.loops@, t, end, m, *self);
                    }
                    assert(m == (Simulation { driver: m.driver, ..start }));
                    assert(start.evaluated_with(g, t, m, *self));
                }
            },
            None => {
                assert(*self == start);
            },
        }
    }

    /// Evaluates the system at `t`.
    pub fn update(&mut self, t: F)
        requires
            old(self).boosters_intact(),
        ensures
            old(self).updated(t, *final(self)),
            final(self).boosters_intact(),
            old(self).same_but_evaluation(*final(self)),
    {
        reveal(Simulation::updated);
        if self.graph_dirty {
            self.assemble_graph();
        }
        self.evaluate(t);
    }
}

} // verus!
