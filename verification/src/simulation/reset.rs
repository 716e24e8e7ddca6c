//! Returning a simulation to its start, and changing its solver.

use vstd::prelude::*;

use crate::optim::linsolve::Backend;
use crate::scalar::Scalar;
use crate::seqs::copied;
use crate::simulation::chain::{chain, lemma_chain_push};
use crate::simulation::runtime::{Call, Runtime};
use crate::simulation::state::{positions_below, Diagnostics, Log, Simulation};

verus! {

/// The calls that reset all blocks.
pub open spec fn block_resets<F>(blocks: Seq<u64>) -> Log<F> {
    Seq::new(blocks.len(), |i: int| Call::ResetBlock(blocks[i]))
}

/// The calls that reset all events of a list.
pub open spec fn event_resets<F>(events: Seq<u64>) -> Log<F> {
    Seq::new(events.len(), |i: int| Call::ResetEvent(events[i]))
}

/// The calls that set the depth of the history of every block's optimizer.
pub open spec fn history_calls<F>(blocks: Seq<u64>, m: usize) -> Log<F> {
    Seq::new(blocks.len(), |i: int| Call::SetBlockHistory(blocks[i], m))
}

/// A block was given the engine of a solver and asked whether it has one.
pub open spec fn resolved_by<F>(
    key: u64,
    at: int,
    solver: u64,
    engine: bool,
    a: (Log<F>, Seq<usize>),
) -> (Log<F>, Seq<usize>) {
    (
        a.0.push(Call::SetBlockSolver(key, solver)).push(Call::HasEngine(key, engine)),
        if engine {
            a.1.push(at as usize)
        } else {
            a.1
        },
    )
}

/// The blocks are given the engine of a solver in order; those that have one then
/// are listed.
pub open spec fn solver_step<F>(blocks: Seq<u64>, solver: u64) -> spec_fn(
    int,
    (Log<F>, Seq<usize>),
    (Log<F>, Seq<usize>),
) -> bool {
    |i: int, a: (Log<F>, Seq<usize>), b: (Log<F>, Seq<usize>)|
        exists|engine: bool| b == #[trigger] resolved_by(blocks[i], i, solver, engine, a)
}

impl<F: Scalar, B: Backend<F>, R: Runtime<F>> Simulation<F, B, R> {
    /// Everything is back at its start, at the given time, and not evaluated yet.
    pub open spec fn back_at(&self, time: F, m: Self) -> bool {
        &&& m.log() == self.log().push(Call::EngineReset) + block_resets(self.blocks@)
            + event_resets(self.events@)
        &&& m.loop_tracker.blank() && m.loop_tracker.iterations == 0
        &&& m.solve_tracker.blank() && m.solve_tracker.iterations == 0
        &&& m.step_tracker.blank()
        &&& match self.diagnostics {
            Some(_) => m.diagnostics is Some && m.diagnostics->0.blank(),
            None => m.diagnostics is None,
        }
        &&& match self.diagnostics_history {
            Some(_) => m.diagnostics_history is Some && m.diagnostics_history->0@.len() == 0,
            None => m.diagnostics_history is None,
        }
        &&& m == (Simulation {
            active: true,
            time,
            loop_tracker: m.loop_tracker,
            solve_tracker: m.solve_tracker,
            step_tracker: m.step_tracker,
            diagnostics: m.diagnostics,
            diagnostics_history: m.diagnostics_history,
            driver: m.driver,
            ..*self
        })
    }

    /// Everything was brought back to its start and evaluated at the given time.
    pub open spec fn was_reset(&self, time: F, after: Self) -> bool {
        exists|m: Self| #[trigger] self.back_at(time, m) && m.updated(time, after)
    }

    fn reset_blocks(&mut self)
        ensures
            final(self).log() == old(self).log() + block_resets::<F>(old(self).blocks@),
            *final(self) == (Simulation { driver: final(self).driver, ..*old(self) }),
    {
        let ghost start = self.log();
        let ghost all = block_resets::<F>(self.blocks@);
        let mut i: usize = 0;
        assert(start + all.take(0) =~= start);
        while i < self.blocks.len()
            invariant
                i <= self.blocks@.len(),
                all == block_resets::<F>(self.blocks@),
                self.log() == start + all.take(i as int),
                *self == (Simulation { driver: self.driver, ..*old(self) }),
            decreases self.blocks@.len() - i,
        {
            self.driver.reset_block(self.blocks[i]);
            proof {
                assert(all.take(i + 1) =~= all.take(i as int).push(all[i as int]));
                assert(self.log() =~= start + all.take(i + 1));
            }
            i += 1;
        }
        assert(all.take(i as int) =~= all);
    }

    /// Resets the events of a list.
    pub(crate) fn reset_events(&mut self, list: &Vec<u64>)
        ensures
            final(self).log() == old(self).log() + event_resets::<F>(list@),
            *final(self) == (Simulation { driver: final(self).driver, ..*old(self) }),
    {
        let ghost start = self.log();
        let ghost all = event_resets::<F>(list@);
        let mut i: usize = 0;
        assert(start + all.take(0) =~= start);
        while i < list.len()
            invariant
                i <= list@.len(),
                all == event_resets::<F>(list@),
                self.log() == start + all.take(i as int),
                *self == (Simulation { driver: self.driver, ..*old(self) }),
            decreases list@.len() - i,
        {
            self.driver.reset_event(list[i]);
            proof {
                assert(all.take(i + 1) =~= all.take(i as int).push(all[i as int]));
                assert(self.log() =~= start + all.take(i + 1));
            }
            i += 1;
        }
        assert(all.take(i as int) =~= all);
    }

    /// Brings everything back to its start and evaluates the system at the given
    /// time.
    pub fn reset(&mut self, time: F)
        requires
            old(self).boosters_intact(),
        ensures
            old(self).was_reset(time, *final(self)),
            old(self).well_formed() ==> final(self).well_formed(),
            final(self).time == time,
            final(self).dt == old(self).dt,
            final(self).dt_min == old(self).dt_min,
            final(self).dt_max == old(self).dt_max,
            final(self).iterations_max == old(self).iterations_max,
            final(self).solver == old(self).solver,
            final(self).run_dt == old(self).run_dt,
    {
        self.active = true;
        self.time = time;
        self.driver.engine_reset();
        self.reset_blocks();
        let list: Vec<u64> = copied(self.events.as_slice());
        self.reset_events(&list);
        self.loop_tracker.reset();
        self.solve_tracker.reset();
        self.step_tracker.reset();
        if self.diagnostics.is_some() {
            self.diagnostics = Some(Diagnostics::new());
        }
        if self.diagnostics_history.is_some() {
            self.diagnostics_history = Some(Vec::new());
        }
        let ghost m = *self;
        assert(old(self).back_at(time, m));
        self.update(time);
    }

    /// All blocks were given the engine of a solver, which paces the stages from now
    /// on; the dynamic blocks are those that have an engine now.
    pub open spec fn solver_set(&self, solver: u64, after: Self) -> bool {
        &&& chain(
            self.blocks@.len() as int,
            solver_step::<F>(self.blocks@, solver),
            (self.log().push(Call::SetEngine(solver)), Seq::<usize>::empty()),
            (after.log(), after.dyn_indices@),
        )
        &&& after == (Simulation {
            solver: Some(solver),
            dyn_indices: after.dyn_indices,
            driver: after.driver,
            ..*self
        })
    }

    /// Changes the solver of all blocks.
    pub fn set_solver(&mut self, solver: u64)
        ensures
            old(self).solver_set(solver, *final(self)),
            old(self).well_formed() ==> final(self).well_formed(),
    {
        self.driver.set_engine(solver);
        self.solver = Some(solver);
        let mut list: Vec<usize> = Vec::new();
        let ghost start = (self.log(), Seq::<usize>::empty());
        let ghost step = solver_step::<F>(self.blocks@, solver);
        let mut i: usize = 0;
        assert(list@ =~= Seq::<usize>::empty());
        while i < self.blocks.len()
            invariant
                i <= self.blocks@.len(),
                positions_below(list@, i as int),
                *self == (Simulation { solver: Some(solver), driver: self.driver, ..*old(self) }),
                step == solver_step::<F>(self.blocks@, solver),
                chain(i as int, step, start, (self.log(), list@)),
            decreases self.blocks@.len() - i,
        {
            let ghost a = (self.log(), list@);
            let key: u64 = self.blocks[i];
            self.driver.set_block_solver(key, solver);
            let engine: bool = self.driver.has_engine(key);
            if engine {
                list.push(i);
            }
            proof {
                let b = (self.log(), list@);
                assert(b == resolved_by(key, i as int, solver, engine, a));
                assert(step(i as int, a, b));
                lemma_chain_push(i as int, step, start, a, b);
            }
            i += 1;
        }
        self.dyn_indices = list;
    }

    /// Sets the depth of the history of every optimizer.
    pub fn set_optimizer_history(&mut self, m: usize)
        ensures
            final(self).log() == old(self).log().push(Call::SetEngineHistory(m)) + history_calls::<
                F,
            >(old(self).blocks@, m),
            *final(self) == (Simulation { driver: final(self).driver, ..*old(self) }),
    {
        self.driver.set_engine_history(m);
        let ghost start = self.log();
        let ghost all = history_calls::<F>(self.blocks@, m);
        let mut i: usize = 0;
        assert(start + all.take(0) =~= start);
        while i < self.blocks.len()
            invariant
                i <= self.blocks@.len(),
                all == history_calls::<F>(self.blocks@, m),
                self.log() == start + all.take(i as int),
                *self == (Simulation { driver: self.driver, ..*old(self) }),
            decreases self.blocks@.len() - i,
        {
            self.driver.set_block_history(self.blocks[i], m);
            proof {
                assert(all.take(i + 1) =~= all.take(i as int).push(all[i as int]));
                assert(self.log() =~= start + all.take(i + 1));
            }
            i += 1;
        }
        assert(all.take(i as int) =~= all);
    }
}

} // verus!
