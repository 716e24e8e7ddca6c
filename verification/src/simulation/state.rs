//! The state of a simulation.

use vstd::prelude::*;

use crate::error::SimError;
use crate::optim::booster::ConnectionBooster;
use crate::optim::linsolve::Backend;
use crate::scalar::{zeros, Scalar};
use crate::simulation::runtime::{Call, Driver, Runtime, Schedule};
use crate::simulation::trackers::{ConvergenceTracker, StepTracker};

verus! {

/// Default step, as a fraction.
pub const SIM_TIMESTEP_NUM: u64 = 1;

pub const SIM_TIMESTEP_DEN: u64 = 100;

/// Inverse of the default smallest step.
pub const SIM_TIMESTEP_MIN_INVERSE: u64 = 10_000_000_000_000_000;

/// Default limit on the passes of implicit solves and of algebraic loops.
pub const SIM_ITERATIONS_MAX: usize = 200;

/// Limit on the periods of shooting for a limit cycle.
pub const SIM_PSS_ITERATIONS_MAX: usize = 50;

/// A change of the system that a callback asks for while a run is under way.
#[derive(Debug, Clone, Copy, PartialEq, Eq, Structural)]
pub enum PendingOp {
    AddBlock(u64),
    RemoveBlock(u64),
    AddConnection(u64),
    RemoveConnection(u64),
    AddEvent(u64),
    RemoveEvent(u64),
}

/// How a run turned out numerically.
#[derive(Debug, Clone, Copy)]
pub struct Outcome<F> {
    /// Whether every implicit solve and every algebraic loop converged.
    pub converged: bool,
    /// Largest residual of those that did not, and where it was.
    pub max_residual: F,
    pub worst_block: Option<usize>,
    /// Time at which the step floor ended a run. Runs go on at the floor, so that no run
    /// sets it.
    pub truncated_at: Option<F>,
}

/// What a run reports.
#[derive(Debug, Clone, Copy)]
pub struct RunStats<F> {
    pub total_steps: usize,
    pub successful_steps: usize,
    pub rejected_steps: usize,
    pub total_evals: usize,
    pub total_solver_its: usize,
    /// Seconds that the run took by the clock of the runtime.
    pub wall_time_secs: F,
    pub outcome: Outcome<F>,
}

impl<F: Scalar> Outcome<F> {
    /// Nothing went wrong.
    pub open spec fn clean(&self) -> bool {
        self.converged && zeros(self.max_residual) && self.worst_block is None
            && self.truncated_at is None
    }

    pub fn new() -> (r: Self)
        ensures
            r.clean(),
    {
        Outcome { converged: true, max_residual: F::zero(), worst_block: None, truncated_at: None }
    }
}

impl<F: Scalar> RunStats<F> {
    /// Nothing is counted, and nothing went wrong.
    pub open spec fn blank(&self) -> bool {
        self.total_steps == 0 && self.successful_steps == 0 && self.rejected_steps == 0
            && self.total_evals == 0 && self.total_solver_its == 0 && zeros(self.wall_time_secs)
            && self.outcome.clean()
    }
}

impl<F: Scalar> Default for RunStats<F> {
    fn default() -> (r: Self)
        ensures
            r.blank(),
    {
        RunStats {
            total_steps: 0,
            successful_steps: 0,
            rejected_steps: 0,
            total_evals: 0,
            total_solver_its: 0,
            wall_time_secs: F::zero(),
            outcome: Outcome::new(),
        }
    }
}

/// What the trackers held at the end of a step.
#[derive(Debug)]
pub struct Diagnostics<F> {
    pub time: F,
    pub loops: ConvergenceTracker<F>,
    pub solve: ConvergenceTracker<F>,
    pub step: StepTracker<F>,
}

impl<F: Scalar> Diagnostics<F> {
    /// Nothing is recorded.
    pub open spec fn blank(&self) -> bool {
        zeros(self.time) && self.loops.blank() && self.loops.iterations == 0 && self.solve.blank()
            && self.solve.iterations == 0 && self.step.blank()
    }

    pub fn new() -> (r: Self)
        ensures
            r.blank(),
    {
        Diagnostics {
            time: F::zero(),
            loops: ConvergenceTracker::new(),
            solve: ConvergenceTracker::new(),
            step: StepTracker::new(),
        }
    }
}

/// A connection that closes an algebraic loop, with its accelerator.
pub struct LoopBooster<F: Scalar, B: Backend<F>> {
    pub conn: u64,
    pub booster: ConnectionBooster<F, B>,
}

/// A simulation. Blocks, connections and events are known by their keys in the
/// runtime.
pub struct Simulation<F: Scalar, B: Backend<F>, R: Runtime<F>> {
    pub blocks: Vec<u64>,
    pub connections: Vec<u64>,
    pub events: Vec<u64>,
    pub dt: F,
    pub dt_min: F,
    pub dt_max: Option<F>,
    /// Solver that blocks are given.
    pub solver: Option<u64>,
    /// Order of evaluation; out of date where the flag says so.
    pub graph: Option<Schedule>,
    pub graph_dirty: bool,
    pub boosters: Vec<LoopBooster<F, B>>,
    pub iterations_max: usize,
    pub time: F,
    /// Positions of the blocks that have an engine.
    pub dyn_indices: Vec<usize>,
    /// Positions of the blocks that have events.
    pub evt_indices: Vec<usize>,
    pub active: bool,
    /// Why the order of evaluation could not be found.
    pub assembly_error: Option<SimError<F>>,
    /// Step of a run in chunks.
    pub run_dt: F,
    pub loop_tracker: ConvergenceTracker<F>,
    pub solve_tracker: ConvergenceTracker<F>,
    pub step_tracker: StepTracker<F>,
    pub outcome: Outcome<F>,
    pub diagnostics: Option<Diagnostics<F>>,
    pub diagnostics_history: Option<Vec<Diagnostics<F>>>,
    /// Seconds that each step took, if they are recorded.
    pub wct_trace: Option<Vec<F>>,
    pub pending_ops: Vec<PendingOp>,
    pub driver: Driver<F, R>,
}

/// The log of calls.
pub type Log<F> = Seq<Call<F>>;

/// Every position is one of `n`.
pub open spec fn positions_below(v: Seq<usize>, n: int) -> bool {
    forall|i: int| 0 <= i < v.len() ==> #[trigger] v[i] < n
}

/// The sum of two counts, or the largest count if that is exceeded.
pub open spec fn capped(a: usize, b: usize) -> usize {
    if a + b <= usize::MAX {
        (a + b) as usize
    } else {
        usize::MAX
    }
}

/// The sum of two counts, or the largest count if that is exceeded.
pub fn add_capped(a: usize, b: usize) -> (r: usize)
    ensures
        r == capped(a, b),
{
    if a <= usize::MAX - b {
        a + b
    } else {
        usize::MAX
    }
}

impl<F: Scalar, B: Backend<F>, R: Runtime<F>> Simulation<F, B, R> {
    /// The calls made so far.
    pub open spec fn log(&self) -> Log<F> {
        self.driver.log()
    }

    /// The lists of positions are those of blocks, and the accelerators are intact.
    pub open spec fn well_formed(&self) -> bool {
        &&& positions_below(self.dyn_indices@, self.blocks@.len() as int)
        &&& positions_below(self.evt_indices@, self.blocks@.len() as int)
        &&& self.boosters_intact()
    }

    /// All accelerators are intact.
    pub open spec fn boosters_intact(&self) -> bool {
        forall|i: int|
            0 <= i < self.boosters@.len() ==> (
            #[trigger] self.boosters@[i]).booster.accelerator.well_formed()
    }

    /// `after` has the same components and the same settings, at the same time.
    pub open spec fn same_setup(&self, after: Self) -> bool {
        &&& after.blocks == self.blocks
        &&& after.connections == self.connections
        &&& after.events == self.events
        &&& after.dt == self.dt
        &&& after.dt_min == self.dt_min
        &&& after.dt_max == self.dt_max
        &&& after.solver == self.solver
        &&& after.iterations_max == self.iterations_max
        &&& after.time == self.time
        &&& after.dyn_indices == self.dyn_indices
        &&& after.evt_indices == self.evt_indices
        &&& after.run_dt == self.run_dt
        &&& after.diagnostics == self.diagnostics
        &&& after.diagnostics_history == self.diagnostics_history
        &&& after.wct_trace == self.wct_trace
        &&& after.pending_ops == self.pending_ops
    }

    /// `after` differs at most in what evaluating the system changes: the order of
    /// evaluation, the loops, and whether the run goes on.
    pub open spec fn same_but_evaluation(&self, after: Self) -> bool {
        &&& self.same_setup(after)
        &&& after.solve_tracker == self.solve_tracker
        &&& after.step_tracker == self.step_tracker
    }

    /// `after` differs at most in the calls made.
    pub open spec fn same_but_log(&self, after: Self) -> bool {
        &&& self.same_but_evaluation(after)
        &&& after.graph == self.graph
        &&& after.graph_dirty == self.graph_dirty
        &&& after.boosters == self.boosters
        &&& after.active == self.active
        &&& after.assembly_error == self.assembly_error
        &&& after.loop_tracker == self.loop_tracker
        &&& after.outcome == self.outcome
    }

    pub fn is_active(&self) -> (r: bool)
        ensures
            r == self.active,
    {
        self.active
    }

    /// Ends the run at its next checkpoint.
    pub fn stop(&mut self)
        ensures
            !final(self).active,
            *final(self) == (Simulation { active: false, ..*old(self) }),
    {
        self.active = false;
    }

    /// Takes the reason why the order of evaluation could not be found.
    pub fn take_assembly_error(&mut self) -> (r: Option<SimError<F>>)
        ensures
            r == old(self).assembly_error,
            *final(self) == (Simulation { assembly_error: None, ..*old(self) }),
    {
        self.assembly_error.take()
    }

    pub fn has_loops(&self) -> (r: bool)
        ensures
            r == (match self.graph {
                Some(g) => g.has_loops,
                None => false,
            }),
    {
        match &self.graph {
            Some(g) => g.has_loops,
            None => false,
        }
    }

    /// Number of levels of the acyclic part.
    pub fn dag_depth(&self) -> (r: usize)
        ensures
            r == (match self.graph {
                Some(g) => g.dag@.len() as usize,
                None => 0usize,
            }),
    {
        match &self.graph {
            Some(g) => g.dag.len(),
            None => 0,
        }
    }

    /// Number of levels of the algebraic loops.
    pub fn loop_depth(&self) -> (r: usize)
        ensures
            r == (match self.graph {
                Some(g) => g.loops@.len() as usize,
                None => 0usize,
            }),
    {
        match &self.graph {
            Some(g) => g.loops.len(),
            None => 0,
        }
    }

    pub fn num_dynamic_blocks(&self) -> (r: usize)
        ensures
            r == self.dyn_indices@.len(),
    {
        self.dyn_indices.len()
    }

    /// Numeric outcome of the last run: convergence, largest residual, where it
    /// was, and the time of an early end.
    pub fn run_outcome(&self) -> (r: (bool, F, Option<usize>, Option<F>))
        ensures
            r == (
                self.outcome.converged,
                self.outcome.max_residual,
                self.outcome.worst_block,
                self.outcome.truncated_at,
            ),
    {
        (
            self.outcome.converged,
            self.outcome.max_residual,
            self.outcome.worst_block,
            self.outcome.truncated_at,
        )
    }

    /// The trackers at the end of the last step, if diagnostics are on.
    pub fn last_diagnostics(&self) -> (r: Option<&Diagnostics<F>>)
        ensures
            match r {
                Some(d) => self.diagnostics == Some(*d),
                None => self.diagnostics is None,
            },
    {
        self.diagnostics.as_ref()
    }
}

} // verus!
