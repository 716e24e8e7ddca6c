//! What the stages of a step are made of: implicit solves, steps of the dynamic
//! blocks, and keeping and taking back their state.

use vstd::prelude::*;

use crate::optim::linsolve::Backend;
use crate::scalar::{les, Scalar};
use crate::seqs::copied;
use crate::simulation::chain::{chain, lemma_chain_push};
use crate::simulation::runtime::{Call, Runtime};
use crate::simulation::state::{Log, Simulation};
use crate::simulation::trackers::{nls_coef, ConvergenceTracker, StepTracker};
use crate::simulation::update::settles;

verus! {

/// A block that takes part is called; one that does not is passed over.
pub open spec fn active_call<F>(key: u64, call: Call<F>, a: Log<F>, b: Log<F>) -> bool {
    ||| b == a.push(Call::BlockActive(key, false))
    ||| b == a.push(Call::BlockActive(key, true)).push(call)
}

/// An event that takes part is called; one that does not is passed over.
pub open spec fn active_event<F>(key: u64, call: Call<F>, a: Log<F>, b: Log<F>) -> bool {
    ||| b == a.push(Call::EventActive(key, false))
    ||| b == a.push(Call::EventActive(key, true)).push(call)
}

/// The call made of block `key`.
pub enum Kind<F> {
    Revert,
    Sample(F, F),
    Buffer(F),
}

/// The call of a kind for a block.
pub open spec fn call_of<F>(kind: Kind<F>, key: u64) -> Call<F> {
    match kind {
        Kind::Revert => Call::RevertBlock(key),
        Kind::Sample(t, dt) => Call::SampleBlock(key, t, dt),
        Kind::Buffer(dt) => Call::BufferBlock(key, dt),
    }
}

/// The blocks at the listed positions are called in order, if they take part.
pub open spec fn listed_step<F>(blocks: Seq<u64>, list: Seq<usize>, kind: Kind<F>) -> spec_fn(
    int,
    Log<F>,
    Log<F>,
) -> bool {
    |i: int, a: Log<F>, b: Log<F>|
        active_call(blocks[list[i] as int], call_of(kind, blocks[list[i] as int]), a, b)
}

/// All blocks are called in order, if they take part.
pub open spec fn every_step<F>(blocks: Seq<u64>, kind: Kind<F>) -> spec_fn(
    int,
    Log<F>,
    Log<F>,
) -> bool {
    |i: int, a: Log<F>, b: Log<F>| active_call(blocks[i], call_of(kind, blocks[i]), a, b)
}

/// The log and the list of events after a block was asked for its events.
pub open spec fn listed_more<F>(
    key: u64,
    more: Seq<u64>,
    a: (Log<F>, Seq<u64>),
) -> (Log<F>, Seq<u64>) {
    (a.0.push(Call::BlockEvents(key, more)), a.1 + more)
}

/// The blocks with events are asked for them.
pub open spec fn event_list_step<F>(blocks: Seq<u64>, list: Seq<usize>) -> spec_fn(
    int,
    (Log<F>, Seq<u64>),
    (Log<F>, Seq<u64>),
) -> bool {
    |i: int, a: (Log<F>, Seq<u64>), b: (Log<F>, Seq<u64>)|
        exists|more: Seq<u64>| b == #[trigger] listed_more(blocks[list[i] as int], more, a)
}

/// The events are told to keep their state, if they take part.
pub open spec fn buffer_event_step<F>(events: Seq<u64>, t: F) -> spec_fn(
    int,
    Log<F>,
    Log<F>,
) -> bool {
    |i: int, a: Log<F>, b: Log<F>|
        active_event(events[i], Call::BufferEvent(events[i], t), a, b)
}

/// A block was solved with residual `err`, which was recorded.
pub open spec fn solved_by<F: Scalar>(
    key: u64,
    at: usize,
    t: F,
    dt: F,
    err: F,
    a: (Log<F>, ConvergenceTracker<F>),
    b: (Log<F>, ConvergenceTracker<F>),
) -> bool {
    &&& b.0 == a.0.push(Call::BlockActive(key, true)).push(Call::SolveBlock(key, t, dt, err))
    &&& a.1.records(at, err, b.1)
}

/// One dynamic block is solved, if it takes part.
pub open spec fn solves_one<F: Scalar>(
    key: u64,
    at: usize,
    t: F,
    dt: F,
    a: (Log<F>, ConvergenceTracker<F>),
    b: (Log<F>, ConvergenceTracker<F>),
) -> bool {
    ||| b == (a.0.push(Call::BlockActive(key, false)), a.1)
    ||| exists|err: F| #[trigger] solved_by(key, at, t, dt, err, a, b)
}

/// The dynamic blocks are solved in order.
pub open spec fn solve_step<F: Scalar>(blocks: Seq<u64>, list: Seq<usize>, t: F, dt: F) -> spec_fn(
    int,
    (Log<F>, ConvergenceTracker<F>),
    (Log<F>, ConvergenceTracker<F>),
) -> bool {
    |i: int, a: (Log<F>, ConvergenceTracker<F>), b: (Log<F>, ConvergenceTracker<F>)|
        solves_one(blocks[list[i] as int], list[i], t, dt, a, b)
}

/// A block made its step, and the result was recorded.
pub open spec fn stepped_by<F: Scalar>(
    key: u64,
    t: F,
    dt: F,
    result: (bool, F, Option<F>),
    a: (Log<F>, StepTracker<F>),
    b: (Log<F>, StepTracker<F>),
) -> bool {
    &&& b.0 == a.0.push(Call::BlockActive(key, true)).push(Call::StepBlock(key, t, dt, result))
    &&& a.1.records(result.0, result.1, result.2, b.1)
}

/// One dynamic block makes its step, if it takes part.
pub open spec fn steps_one<F: Scalar>(
    key: u64,
    t: F,
    dt: F,
    a: (Log<F>, StepTracker<F>),
    b: (Log<F>, StepTracker<F>),
) -> bool {
    ||| b == (a.0.push(Call::BlockActive(key, false)), a.1)
    ||| exists|result: (bool, F, Option<F>)| #[trigger] stepped_by(key, t, dt, result, a, b)
}

/// The dynamic blocks make their steps in order.
pub open spec fn step_step<F: Scalar>(blocks: Seq<u64>, list: Seq<usize>, t: F, dt: F) -> spec_fn(
    int,
    (Log<F>, StepTracker<F>),
    (Log<F>, StepTracker<F>),
) -> bool {
    |i: int, a: (Log<F>, StepTracker<F>), b: (Log<F>, StepTracker<F>)|
        steps_one(blocks[list[i] as int], t, dt, a, b)
}

impl<F: Scalar, B: Backend<F>, R: Runtime<F>> Simulation<F, B, R> {
    /// The blocks at the listed positions were called, if they take part.
    pub open spec fn listed_called(&self, list: Seq<usize>, kind: Kind<F>, after: Self) -> bool {
        &&& chain(
            list.len() as int,
            listed_step(self.blocks@, list, kind),
            self.log(),
            after.log(),
        )
        &&& after == (Simulation { driver: after.driver, ..*self })
    }

    fn revert_blocks(&mut self)
        requires
            old(self).well_formed(),
        ensures
            old(self).listed_called(old(self).dyn_indices@, Kind::Revert, *final(self)),
    {
        let ghost start = self.log();
        let ghost step = listed_step::<F>(self.blocks@, self.dyn_indices@, Kind::Revert);
        let mut i: usize = 0;
        while i < self.dyn_indices.len()
            invariant
                i <= self.dyn_indices@.len(),
                self.well_formed(),
                *self == (Simulation { driver: self.driver, ..*old(self) }),
                step == listed_step::<F>(self.blocks@, self.dyn_indices@, Kind::Revert),
                chain(i as int, step, start, self.log()),
            decreases self.dyn_indices@.len() - i,
        {
            let ghost a = self.log();
            let key: u64 = self.blocks[self.dyn_indices[i]];
            if self.driver.block_active(key) {
                self.driver.revert_block(key);
            }
            proof {
                assert(step(i as int, a, self.log()));
                lemma_chain_push(i as int, step, start, a, self.log());
            }
            i += 1;
        }
    }

    fn buffer_blocks(&mut self, dt: F)
        requires
            old(self).well_formed(),
        ensures
            old(self).listed_called(old(self).dyn_indices@, Kind::Buffer(dt), *final(self)),
    {
        let ghost start = self.log();
        let ghost step = listed_step::<F>(self.blocks@, self.dyn_indices@, Kind::Buffer(dt));
        let mut i: usize = 0;
        while i < self.dyn_indices.len()
            invariant
                i <= self.dyn_indices@.len(),
                self.well_formed(),
                *self == (Simulation { driver: self.driver, ..*old(self) }),
                step == listed_step::<F>(self.blocks@, self.dyn_indices@, Kind::Buffer(dt)),
                chain(i as int, step, start, self.log()),
            decreases self.dyn_indices@.len() - i,
        {
            let ghost a = self.log();
            let key: u64 = self.blocks[self.dyn_indices[i]];
            if self.driver.block_active(key) {
                self.driver.buffer_block(key, dt);
            }
            proof {
                assert(step(i as int, a, self.log()));
                lemma_chain_push(i as int, step, start, a, self.log());
            }
            i += 1;
        }
    }

    /// All blocks that take part record at `t`.
    pub open spec fn sampled(&self, t: F, dt: F, after: Self) -> bool {
        &&& chain(
            self.blocks@.len() as int,
            every_step(self.blocks@, Kind::Sample(t, dt)),
            self.log(),
            after.log(),
        )
        &&& after == (Simulation { driver: after.driver, ..*self })
    }

    /// Lets all blocks that take part record at `t`.
    pub fn sample(&mut self, t: F, dt: F)
        ensures
            old(self).sampled(t, dt, *final(self)),
    {
        let ghost start = self.log();
        let ghost step = every_step::<F>(self.blocks@, Kind::Sample(t, dt));
        let mut i: usize = 0;
        while i < self.blocks.len()
            invariant
                i <= self.blocks@.len(),
                *self == (Simulation { driver: self.driver, ..*old(self) }),
                step == every_step::<F>(self.blocks@, Kind::Sample(t, dt)),
                chain(i as int, step, start, self.log()),
            decreases self.blocks@.len() - i,
        {
            let ghost a = self.log();
            let key: u64 = self.blocks[i];
            if self.driver.block_active(key) {
                self.driver.sample_block(key, t, dt);
            }
            proof {
                assert(step(i as int, a, self.log()));
                lemma_chain_push(i as int, step, start, a, self.log());
            }
            i += 1;
        }
    }

    /// `list` are all events: those of the simulation, then those of its blocks, as
    /// they were asked.
    pub open spec fn events_listed(&self, list: Seq<u64>, after: Self) -> bool {
        &&& chain(
            self.evt_indices@.len() as int,
            event_list_step::<F>(self.blocks@, self.evt_indices@),
            (self.log(), self.events@),
            (after.log(), list),
        )
        &&& after == (Simulation { driver: after.driver, ..*self })
    }

    /// All events: those of the simulation, then those of its blocks.
    pub(crate) fn list_events(&mut self) -> (list: Vec<u64>)
        requires
            old(self).well_formed(),
        ensures
            old(self).events_listed(list@, *final(self)),
    {
        let ghost start = (self.log(), self.events@);
        let ghost step = event_list_step::<F>(self.blocks@, self.evt_indices@);
        let mut list: Vec<u64> = copied(self.events.as_slice());
        let mut i: usize = 0;
        while i < self.evt_indices.len()
            invariant
                i <= self.evt_indices@.len(),
                self.well_formed(),
                *self == (Simulation { driver: self.driver, ..*old(self) }),
                step == event_list_step::<F>(self.blocks@, self.evt_indices@),
                chain(i as int, step, start, (self.log(), list@)),
            decreases self.evt_indices@.len() - i,
        {
            let ghost a = (self.log(), list@);
            let key: u64 = self.blocks[self.evt_indices[i]];
            let more: Vec<u64> = self.driver.block_events(key);
            let mut j: usize = 0;
            let ghost part = list@;
            while j < more.len()
                invariant
                    j <= more@.len(),
                    list@ == part + more@.take(j as int),
                decreases more.len() - j,
            {
                list.push(more[j]);
                assert(more@.take(j + 1) =~= more@.take(j as int).push(more@[j as int]));
                j += 1;
            }
            proof {
                assert(more@.take(j as int) =~= more@);
                let b = (self.log(), list@);
                assert(b == listed_more(key, more@, a));
                assert(step(i as int, a, b));
                lemma_chain_push(i as int, step, start, a, b);
            }
            i += 1;
        }
        list
    }

    /// Events, the pacing engine and the dynamic blocks keep their state: `list` are
    /// the events, and `m`, `n` the simulation in between.
    pub open spec fn buffered_with(
        &self,
        t: F,
        dt: F,
        list: Seq<u64>,
        m: Self,
        n: Self,
        after: Self,
    ) -> bool {
        &&& self.events_listed(list, m)
        &&& chain(list.len() as int, buffer_event_step(list, t), m.log(), n.log())
        &&& n == (Simulation { driver: n.driver, ..m })
        &&& exists|e: Self| #[trigger]
            engine_buffered(n, dt, e) && e.listed_called(
                e.dyn_indices@,
                Kind::Buffer(dt),
                after,
            )
    }

    /// Events, the pacing engine and the dynamic blocks keep their state before a
    /// step.
    pub open spec fn buffered(&self, t: F, dt: F, after: Self) -> bool {
        exists|list: Seq<u64>, m: Self, n: Self| #[trigger]
            self.buffered_with(t, dt, list, m, n, after)
    }

    /// Lets events, the pacing engine and the dynamic blocks keep their state.
    pub(crate) fn buffer(&mut self, t: F, dt: F)
        requires
            old(self).well_formed(),
        ensures
            old(self).buffered(t, dt, *final(self)),
            *final(self) == (Simulation { driver: final(self).driver, ..*old(self) }),
    {
        let list: Vec<u64> = self.list_events();
        let ghost m = *self;
        let ghost step = buffer_event_step::<F>(list@, t);
        let mut i: usize = 0;
        while i < list.len()
            invariant
                i <= list@.len(),
                *self == (Simulation { driver: self.driver, ..m }),
                step == buffer_event_step::<F>(list@, t),
                chain(i as int, step, m.log(), self.log()),
            decreases list@.len() - i,
        {
            let ghost a = self.log();
            let key: u64 = list[i];
            if self.driver.event_active(key) {
                self.driver.buffer_event(key, t);
            }
            proof {
                assert(step(i as int, a, self.log()));
                lemma_chain_push(i as int, step, m.log(), a, self.log());
            }
            i += 1;
        }
        let ghost n = *self;
        self.driver.engine_buffer(dt);
        let ghost e = *self;
        assert(engine_buffered(n, dt, e));
        self.buffer_blocks(dt);
        assert(old(self).buffered_with(t, dt, list@, m, n, *self));
    }

    /// The step is taken back: the pacing engine, up to `m`, the dynamic blocks, up
    /// to `n`, then the system is evaluated at `t`.
    pub open spec fn reverted_with(&self, t: F, m: Self, n: Self, after: Self) -> bool {
        &&& m.log() == self.log().push(Call::EngineRevert)
        &&& m == (Simulation { driver: m.driver, ..*self })
        &&& m.listed_called(m.dyn_indices@, Kind::Revert, n)
        &&& n.updated(t, after)
    }

    /// The step is taken back, and the system is evaluated at `t`.
    pub open spec fn reverted(&self, t: F, after: Self) -> bool {
        exists|m: Self, n: Self| #[trigger] self.reverted_with(t, m, n, after)
    }

    /// Takes back the step and evaluates the system at `t`.
    pub(crate) fn revert(&mut self, t: F)
        requires
            old(self).well_formed(),
        ensures
            old(self).reverted(t, *final(self)),
            final(self).well_formed(),
            old(self).same_but_evaluation(*final(self)),
    {
        self.driver.engine_revert();
        let ghost m = *self;
        self.revert_blocks();
        let ghost n = *self;
        self.update(t);
        assert(old(self).reverted_with(t, m, n, *self));
    }

    /// One pass of the implicit solve: the system is evaluated, up to `m`; then the
    /// dynamic blocks are solved, from the tracker `blank` on.
    pub open spec fn solve_pass(
        &self,
        t: F,
        dt: F,
        m: Self,
        blank: ConvergenceTracker<F>,
        after: Self,
    ) -> bool {
        &&& self.updated(t, m)
        &&& blank.blank()
        &&& blank.iterations == m.solve_tracker.iterations
        &&& chain(
            m.dyn_indices@.len() as int,
            solve_step(m.blocks@, m.dyn_indices@, t, dt),
            (m.log(), blank),
            (after.log(), after.solve_tracker),
        )
        &&& after == (Simulation {
            solve_tracker: after.solve_tracker,
            driver: after.driver,
            ..m
        })
    }

    /// One pass of the implicit solve whose residuals are small enough or not.
    pub open spec fn solve_passes(&self, t: F, dt: F, after: Self, settled: bool) -> bool {
        exists|m: Self, blank: ConvergenceTracker<F>| #[trigger]
            self.solve_pass(t, dt, m, blank, after) && settles(after.solve_tracker, settled)
    }

    /// Passes that do not settle.
    pub open spec fn solve_pass_step(t: F, dt: F) -> spec_fn(int, Self, Self) -> bool {
        |i: int, a: Self, b: Self| a.solve_passes(t, dt, b, false)
    }

    /// The simulation with the number of passes noted.
    pub open spec fn passes_noted(self, k: usize) -> Self {
        Simulation {
            solve_tracker: ConvergenceTracker { iterations: k, ..self.solve_tracker },
            ..self
        }
    }

    /// The implicit solve settles after `k` passes that do not, in `b`.
    pub open spec fn solve_settles(&self, t: F, dt: F, k: usize, m: Self, b: Self) -> bool {
        &&& k < self.iterations_max
        &&& chain(k as int, Self::solve_pass_step(t, dt), *self, m)
        &&& m.solve_passes(t, dt, b, true)
    }

    /// The implicit solve does not settle in the passes allowed.
    pub open spec fn solve_gives_up(&self, t: F, dt: F, b: Self) -> bool {
        chain(self.iterations_max as int, Self::solve_pass_step(t, dt), *self, b)
    }

    /// The implicit solve of a stage at `t`: whether it settled, and how many
    /// evaluations and passes it took.
    pub open spec fn solved(&self, t: F, dt: F, after: Self, r: (bool, usize, usize)) -> bool {
        ||| exists|k: usize, m: Self, b: Self| #[trigger]
            self.solve_settles(t, dt, k, m, b) && r == (true, (k + 1) as usize, (k + 1) as usize)
                && after == b.passes_noted((k + 1) as usize)
        ||| exists|b: Self| #[trigger]
            self.solve_gives_up(t, dt, b) && r == (false, self.iterations_max, self.iterations_max)
                && after == b.passes_noted(self.iterations_max)
    }

    fn pass_solve(&mut self, t: F, dt: F) -> (settled: bool)
        requires
            old(self).well_formed(),
        ensures
            old(self).solve_passes(t, dt, *final(self), settled),
            final(self).well_formed(),
            old(self).same_setup(*final(self)),
            final(self).step_tracker == old(self).step_tracker,
    {
        self.update(t);
        let ghost m = *self;
        self.solve_tracker.begin_iteration();
        let ghost blank = self.solve_tracker;
        let ghost start = (self.log(), blank);
        let ghost step = solve_step::<F>(self.blocks@, self.dyn_indices@, t, dt);
        let mut i: usize = 0;
        while i < self.dyn_indices.len()
            invariant
                i <= self.dyn_indices@.len(),
                self.well_formed(),
                *self == (Simulation {
                    solve_tracker: self.solve_tracker,
                    driver: self.driver,
                    ..m
                }),
                step == solve_step::<F>(self.blocks@, self.dyn_indices@, t, dt),
                chain(i as int, step, start, (self.log(), self.solve_tracker)),
            decreases self.dyn_indices@.len() - i,
        {
            let ghost a = (self.log(), self.solve_tracker);
            let at: usize = self.dyn_indices[i];
            let key: u64 = self.blocks[at];
            if self.driver.block_active(key) {
                let err: F = self.driver.solve_block(key, t, dt);
                self.solve_tracker.record(at, err);
                assert(solved_by(key, at, t, dt, err, a, (self.log(), self.solve_tracker)));
            }
            proof {
                let b = (self.log(), self.solve_tracker);
                assert(solves_one(key, at, t, dt, a, b));
                assert(step(i as int, a, b));
                lemma_chain_push(i as int, step, start, a, b);
            }
            i += 1;
        }
        let coef: F = nls_coef();
        let settled: bool = self.solve_tracker.converged(coef);
        proof {
            assert(les(self.solve_tracker.max_error, coef, settled));
            assert(settles(self.solve_tracker, settled));
            assert(old(self).solve_pass(t, dt, m, blank, *self));
        }
        settled
    }

    /// The implicit solve of a stage at `t`: passes until the residuals are small
    /// enough, or too many passes were made.
    pub(crate) fn solve(&mut self, t: F, dt: F) -> (r: (bool, usize, usize))
        requires
            old(self).well_formed(),
        ensures
            old(self).solved(t, dt, *final(self), r),
            final(self).well_formed(),
            old(self).same_setup(*final(self)),
            final(self).step_tracker == old(self).step_tracker,
    {
        let ghost start = *self;
        let ghost step = Self::solve_pass_step(t, dt);
        let mut k: usize = 0;
        while k < self.iterations_max
            invariant
                k <= self.iterations_max,
                start == *old(self),
                self.well_formed(),
                start.same_setup(*self),
                self.step_tracker == start.step_tracker,
                step == Self::solve_pass_step(t, dt),
                chain(k as int, step, start, *self),
            decreases self.iterations_max - k,
        {
            let ghost m = *self;
            let settled: bool = self.pass_solve(t, dt);
            let ghost b = *self;
            if settled {
                self.solve_tracker.iterations = k + 1;
                assert(start.solve_settles(t, dt, k, m, b));
                assert(*self == b.passes_noted((k + 1) as usize));
                return (true, k + 1, k + 1);
            }
            proof {
                assert(step(k as int, m, b));
                lemma_chain_push(k as int, step, start, m, b);
            }
            k += 1;
        }
        let ghost b = *self;
        assert(start.solve_gives_up(t, dt, b));
        self.solve_tracker.iterations = self.iterations_max;
        (false, self.iterations_max, self.iterations_max)
    }

    /// The dynamic blocks make their steps at `t`, from the tracker `blank` on.
    pub open spec fn blocks_stepped(&self, t: F, dt: F, after: Self) -> bool {
        &&& exists|blank: StepTracker<F>| #[trigger]
            blank.blank() && chain(
                self.dyn_indices@.len() as int,
                step_step(self.blocks@, self.dyn_indices@, t, dt),
                (self.log(), blank),
                (after.log(), after.step_tracker),
            )
        &&& after == (Simulation {
            step_tracker: after.step_tracker,
            driver: after.driver,
            ..*self
        })
    }

    /// Lets the dynamic blocks make their steps. Returns whether all succeeded, the
    /// largest error and the smallest rescaling asked for.
    pub(crate) fn step(&mut self, t: F, dt: F) -> (r: (bool, F, Option<F>))
        requires
            old(self).well_formed(),
        ensures
            old(self).blocks_stepped(t, dt, *final(self)),
            r == (
                final(self).step_tracker.success,
                final(self).step_tracker.max_error,
                final(self).step_tracker.min_scale,
            ),
    {
        self.step_tracker.reset();
        let ghost blank = self.step_tracker;
        let ghost start = (self.log(), blank);
        let ghost step = step_step::<F>(self.blocks@, self.dyn_indices@, t, dt);
        let mut i: usize = 0;
        while i < self.dyn_indices.len()
            invariant
                i <= self.dyn_indices@.len(),
                self.well_formed(),
                *self == (Simulation {
                    step_tracker: self.step_tracker,
                    driver: self.driver,
                    ..*old(self)
                }),
                step == step_step::<F>(self.blocks@, self.dyn_indices@, t, dt),
                chain(i as int, step, start, (self.log(), self.step_tracker)),
            decreases self.dyn_indices@.len() - i,
        {
            let ghost a = (self.log(), self.step_tracker);
            let at: usize = self.dyn_indices[i];
            let key: u64 = self.blocks[at];
            if self.driver.block_active(key) {
                let result: (bool, F, Option<F>) = self.driver.step_block(key, t, dt);
                self.step_tracker.record(at, result.0, result.1, result.2);
                assert(stepped_by(key, t, dt, result, a, (self.log(), self.step_tracker)));
            }
            proof {
                let b = (self.log(), self.step_tracker);
                assert(steps_one(key, t, dt, a, b));
                assert(step(i as int, a, b));
                lemma_chain_push(i as int, step, start, a, b);
            }
            i += 1;
        }
        (self.step_tracker.success, self.step_tracker.max_error, self.step_tracker.min_scale)
    }
}

/// The pacing engine keeps its state.
pub open spec fn engine_buffered<F: Scalar, B: Backend<F>, R: Runtime<F>>(
    a: Simulation<F, B, R>,
    dt: F,
    b: Simulation<F, B, R>,
) -> bool {
    &&& b.log() == a.log().push(Call::EngineBuffer(dt))
    &&& b == (Simulation { driver: b.driver, ..a })
}

} // verus!
