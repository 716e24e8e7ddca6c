//! The components of a system behind a trait, and the log of its calls.

use vstd::prelude::*;

use crate::error::SimError;
use crate::model::{ConnModel, Level};
use crate::simulation::state::PendingOp;

verus! {

/// Direct feedthrough of a block: a row per output, a column per input.
#[derive(Debug)]
pub struct Feedthrough {
    pub n_in: usize,
    pub n_out: usize,
    pub mask: Vec<bool>,
}

/// A connection between single elements of two blocks, by their numbers.
#[derive(Debug, Clone, Copy, PartialEq, Eq, Structural)]
pub struct PortEdge {
    pub src: usize,
    pub out_port: usize,
    pub tgt: usize,
    pub in_port: usize,
}

/// The order of evaluation: levels of the acyclic part, levels of the algebraic
/// loops, and the connections that close loops.
#[derive(Debug)]
pub struct Schedule {
    pub dag: Vec<Level>,
    pub loops: Vec<Level>,
    pub closing: Vec<usize>,
    pub has_loops: bool,
}

/// Blocks, connections, events and engines of a running system, by their keys.
/// Nothing is promised about them.
pub trait Runtime<F>: Sized {
    /// Whether a block takes part.
    fn block_active(&self, block: u64) -> bool;

    /// Evaluates the equations of a block.
    fn update_block(&mut self, block: u64, t: F);

    /// One pass of a block's implicit solve; the weighed residual.
    fn solve_block(&mut self, block: u64, t: F, dt: F) -> F;

    /// One stage of a block's step: success, error and rescaling.
    fn step_block(&mut self, block: u64, t: F, dt: F) -> (bool, F, Option<F>);

    /// Takes back a block's step.
    fn revert_block(&mut self, block: u64);

    /// Lets a block record.
    fn sample_block(&mut self, block: u64, t: F, dt: F);

    /// Keeps a block's state for taking back.
    fn buffer_block(&mut self, block: u64, dt: F);

    /// Restores a block's initial state.
    fn reset_block(&mut self, block: u64);

    /// Clears a block's inputs.
    fn reset_inputs(&mut self, block: u64);

    /// Tells a block's engine the stage.
    fn set_block_stage(&mut self, block: u64, stage: usize);

    /// Predicts the solution of a block's implicit stage.
    fn predict_stage(&mut self, block: u64, dt: F);

    /// Gives a block the engine of a solver, if it has states.
    fn set_block_solver(&mut self, block: u64, solver: u64);

    /// Sets the depth of the history of a block's optimizer.
    fn set_block_history(&mut self, block: u64, depth: usize);

    /// Whether a block has an integration engine.
    fn has_engine(&self, block: u64) -> bool;

    /// Whether a block has events of its own.
    fn has_events(&self, block: u64) -> bool;

    /// Whether a block records.
    fn is_recorder(&self, block: u64) -> bool;

    /// Number of blocks and of states inside a block.
    fn block_size(&self, block: u64) -> (usize, usize);

    /// The events of a block.
    fn block_events(&self, block: u64) -> Vec<u64>;

    /// Widths of inputs and outputs, and direct feedthrough.
    fn port_shape(&self, block: u64) -> (usize, usize, Vec<bool>);

    /// Starts shooting from a block's current state.
    fn start_period(&mut self, block: u64);

    /// One shooting update at the end of a period; the weighed residual.
    fn close_period(&mut self, block: u64) -> F;

    /// Whether a connection takes part.
    fn connection_active(&self, conn: u64) -> bool;

    /// Transfers values along a connection.
    fn transfer(&mut self, conn: u64);

    /// Resolves the ports of a connection to element indices.
    fn resolve_ports(&mut self, conn: u64) -> Result<ConnModel, SimError<F>>;

    /// The values at the source of a connection.
    fn source_values(&self, conn: u64) -> Vec<F>;

    /// Sets the values at the targets of a connection.
    fn set_targets(&mut self, conn: u64, values: &Vec<F>);

    /// Whether an event takes part.
    fn event_active(&self, event: u64) -> bool;

    /// Time until an event, if that is known.
    fn estimate(&self, event: u64, t: F) -> Option<F>;

    /// Whether an event occurred in the step, whether it is close, and where.
    fn detect(&mut self, event: u64, t: F) -> (bool, bool, F);

    /// Performs the action of an event.
    fn resolve(&mut self, event: u64, t: F);

    /// Keeps the state of an event before a step.
    fn buffer_event(&mut self, event: u64, t: F);

    /// Restores the initial state of an event.
    fn reset_event(&mut self, event: u64);

    /// Makes a solver's engine the one that paces the stages.
    fn set_engine(&mut self, solver: u64);

    /// The solver whose engine paces the stages.
    fn engine_solver(&self) -> u64;

    /// Resets the pacing engine.
    fn engine_reset(&mut self);

    /// Takes back the step of the pacing engine.
    fn engine_revert(&mut self);

    /// Keeps the state of the pacing engine.
    fn engine_buffer(&mut self, dt: F);

    /// Whether the engine controls its step.
    fn engine_adaptive(&self) -> bool;

    /// Whether the engine's stages are implicit.
    fn engine_implicit(&self) -> bool;

    /// Number of stages of a step.
    fn engine_stages(&self) -> usize;

    /// Time of a stage.
    fn stage_time(&self, stage: usize, t: F, dt: F) -> F;

    /// Tells the pacing engine the stage.
    fn set_stage(&mut self, stage: usize);

    /// Sets the depth of the history of the pacing engine's optimizer.
    fn set_engine_history(&mut self, depth: usize);

    /// Absolute and relative tolerance of the engine.
    fn tolerances(&self) -> (F, F);

    /// Schedules the evaluation of a system.
    fn schedule(
        &mut self,
        specs: &Vec<(usize, usize, usize)>,
        shapes: &Vec<Feedthrough>,
        edges: &Vec<PortEdge>,
    ) -> Schedule;

    /// The solver for operating points.
    fn steady_solver(&self) -> u64;

    /// The solver of a simulation that names none.
    fn default_solver(&self) -> u64;

    /// A solver that shoots for a limit cycle of the given period, with the given
    /// depth of history.
    fn period_solver(&mut self, inner: u64, period: F, history: usize) -> u64;

    /// Hands over the changes that callbacks have asked for since the last time.
    fn take_changes(&mut self) -> Vec<PendingOp>;

    /// Reads and clears the request to stop.
    fn take_stop(&mut self) -> bool;

    /// Starts the clocks of a run.
    fn start_clock(&mut self);

    /// Whether the interval has passed since the last tick; a due tick restarts it.
    fn tick_due(&mut self, interval: F) -> bool;

    /// Seconds since the run began.
    fn wall_elapsed(&self) -> F;

    /// Starts the watch that times a step.
    fn start_watch(&mut self);

    /// Seconds since the watch was started.
    fn watch_elapsed(&self) -> F;

    /// Reports the progress of a run.
    fn report(&mut self, progress: F, success: bool, dt: F);

    /// Waits for a moment.
    fn pause(&mut self);
}

/// A call of the runtime: its arguments, then what it returned; or that the runtime
/// was lent.
pub enum Call<F> {
    BlockActive(u64, bool),
    UpdateBlock(u64, F),
    SolveBlock(u64, F, F, F),
    StepBlock(u64, F, F, (bool, F, Option<F>)),
    RevertBlock(u64),
    SampleBlock(u64, F, F),
    BufferBlock(u64, F),
    ResetBlock(u64),
    ResetInputs(u64),
    SetBlockStage(u64, usize),
    PredictStage(u64, F),
    SetBlockSolver(u64, u64),
    SetBlockHistory(u64, usize),
    HasEngine(u64, bool),
    HasEvents(u64, bool),
    IsRecorder(u64, bool),
    BlockSize(u64, (usize, usize)),
    BlockEvents(u64, Seq<u64>),
    PortShape(u64, (usize, usize, Seq<bool>)),
    StartPeriod(u64),
    ClosePeriod(u64, F),
    ConnectionActive(u64, bool),
    Transfer(u64),
    ResolvePorts(u64, Result<ConnModel, SimError<F>>),
    SourceValues(u64, Seq<F>),
    SetTargets(u64, Seq<F>),
    EventActive(u64, bool),
    Estimate(u64, F, Option<F>),
    Detect(u64, F, (bool, bool, F)),
    Resolve(u64, F),
    BufferEvent(u64, F),
    ResetEvent(u64),
    SetEngine(u64),
    EngineSolver(u64),
    EngineReset,
    EngineRevert,
    EngineBuffer(F),
    EngineAdaptive(bool),
    EngineImplicit(bool),
    EngineStages(usize),
    StageTime(usize, F, F, F),
    SetStage(usize),
    SetEngineHistory(usize),
    Tolerances((F, F)),
    Schedule(Seq<(usize, usize, usize)>, Seq<Feedthrough>, Seq<PortEdge>, Schedule),
    SteadySolver(u64),
    DefaultSolver(u64),
    PeriodSolver(u64, F, usize, u64),
    TakeChanges(Seq<PendingOp>),
    TakeStop(bool),
    StartClock,
    TickDue(F, bool),
    WallElapsed(F),
    StartWatch,
    WatchElapsed(F),
    Report(F, bool, F),
    Pause,
    Lend,
}

/// The runtime together with the log of the calls made so far. Both are private to
/// this module: a method of the driver makes one call of the runtime with the
/// arguments that it was given, hands back what came of it, and enters just that
/// in the log.
pub struct Driver<F, R: Runtime<F>> {
    runtime: R,
    log: Ghost<Seq<Call<F>>>,
}

impl<F: Copy, R: Runtime<F>> Driver<F, R> {
    pub fn new(runtime: R) -> (r: Self)
        ensures
            r.log() == Seq::<Call<F>>::empty(),
            r.system() == runtime,
    {
        Driver { runtime, log: Ghost(Seq::empty()) }
    }

    /// The calls made so far.
    pub closed spec fn log(&self) -> Seq<Call<F>> {
        self.log@
    }

    /// The runtime as the calls have left it.
    pub closed spec fn system(&self) -> R {
        self.runtime
    }

    /// The runtime, to look at.
    pub fn runtime(&self) -> (r: &R)
        ensures
            *r == self.system(),
    {
        &self.runtime
    }

    /// The runtime, to work on from outside. What is done to it there is not known,
    /// only that it was lent.
    pub fn lend(&mut self) -> (r: &mut R)
        ensures
            *r == old(self).system(),
            *final(r) == final(self).system(),
            final(self).log() == old(self).log().push(Call::Lend),
    {
        proof {
            self.log@ = self.log@.push(Call::Lend);
        }
        &mut self.runtime
    }

    pub fn block_active(&mut self, block: u64) -> (r: bool)
        ensures
            final(self).log() == old(self).log().push(Call::BlockActive(block, r)),
            call_ensures(R::block_active, (&old(self).system(), block), r),
            final(self).system() == old(self).system(),
    {
        let r: bool = self.runtime.block_active(block);
        proof {
            self.log@ = self.log@.push(Call::BlockActive(block, r));
        }
        r
    }

    pub fn update_block(&mut self, block: u64, t: F)
        ensures
            final(self).log() == old(self).log().push(Call::UpdateBlock(block, t)),
            exists|m: &mut R| #[trigger]
                call_ensures(R::update_block, (m, block, t), ())
                    && *m == old(self).system() && *final(m) == final(self).system(),
    {
        self.runtime.update_block(block, t);
        proof {
            self.log@ = self.log@.push(Call::UpdateBlock(block, t));
        }
    }

    pub fn solve_block(&mut self, block: u64, t: F, dt: F) -> (r: F)
        ensures
            final(self).log() == old(self).log().push(Call::SolveBlock(block, t, dt, r)),
            exists|m: &mut R| #[trigger]
                call_ensures(R::solve_block, (m, block, t, dt), r)
                    && *m == old(self).system() && *final(m) == final(self).system(),
    {
        let r: F = self.runtime.solve_block(block, t, dt);
        proof {
            self.log@ = self.log@.push(Call::SolveBlock(block, t, dt, r));
        }
        r
    }

    pub fn step_block(&mut self, block: u64, t: F, dt: F) -> (r: (bool, F, Option<F>))
        ensures
            final(self).log() == old(self).log().push(Call::StepBlock(block, t, dt, r)),
            exists|m: &mut R| #[trigger]
                call_ensures(R::step_block, (m, block, t, dt), r)
                    && *m == old(self).system() && *final(m) == final(self).system(),
    {
        let r: (bool, F, Option<F>) = self.runtime.step_block(block, t, dt);
        proof {
            self.log@ = self.log@.push(Call::StepBlock(block, t, dt, r));
        }
        r
    }

    pub fn revert_block(&mut self, block: u64)
        ensures
            final(self).log() == old(self).log().push(Call::RevertBlock(block)),
            exists|m: &mut R| #[trigger]
                call_ensures(R::revert_block, (m, block), ())
                    && *m == old(self).system() && *final(m) == final(self).system(),
    {
        self.runtime.revert_block(block);
        proof {
            self.log@ = self.log@.push(Call::RevertBlock(block));
        }
    }

    pub fn sample_block(&mut self, block: u64, t: F, dt: F)
        ensures
            final(self).log() == old(self).log().push(Call::SampleBlock(block, t, dt)),
            exists|m: &mut R| #[trigger]
                call_ensures(R::sample_block, (m, block, t, dt), ())
                    && *m == old(self).system() && *final(m) == final(self).system(),
    {
        self.runtime.sample_block(block, t, dt);
        proof {
            self.log@ = self.log@.push(Call::SampleBlock(block, t, dt));
        }
    }

    pub fn buffer_block(&mut self, block: u64, dt: F)
        ensures
            final(self).log() == old(self).log().push(Call::BufferBlock(block, dt)),
            exists|m: &mut R| #[trigger]
                call_ensures(R::buffer_block, (m, block, dt), ())
                    && *m == old(self).system() && *final(m) == final(self).system(),
    {
        self.runtime.buffer_block(block, dt);
        proof {
            self.log@ = self.log@.push(Call::BufferBlock(block, dt));
        }
    }

    pub fn reset_block(&mut self, block: u64)
        ensures
            final(self).log() == old(self).log().push(Call::ResetBlock(block)),
            exists|m: &mut R| #[trigger]
                call_ensures(R::reset_block, (m, block), ())
                    && *m == old(self).system() && *final(m) == final(self).system(),
    {
        self.runtime.reset_block(block);
        proof {
            self.log@ = self.log@.push(Call::ResetBlock(block));
        }
    }

    pub fn reset_inputs(&mut self, block: u64)
        ensures
            final(self).log() == old(self).log().push(Call::ResetInputs(block)),
            exists|m: &mut R| #[trigger]
                call_ensures(R::reset_inputs, (m, block), ())
                    && *m == old(self).system() && *final(m) == final(self).system(),
    {
        self.runtime.reset_inputs(block);
        proof {
            self.log@ = self.log@.push(Call::ResetInputs(block));
        }
    }

    pub fn set_block_stage(&mut self, block: u64, stage: usize)
        ensures
            final(self).log() == old(self).log().push(Call::SetBlockStage(block, stage)),
            exists|m: &mut R| #[trigger]
                call_ensures(R::set_block_stage, (m, block, stage), ())
                    && *m == old(self).system() && *final(m) == final(self).system(),
    {
        self.runtime.set_block_stage(block, stage);
        proof {
            self.log@ = self.log@.push(Call::SetBlockStage(block, stage));
        }
    }

    pub fn predict_stage(&mut self, block: u64, dt: F)
        ensures
            final(self).log() == old(self).log().push(Call::PredictStage(block, dt)),
            exists|m: &mut R| #[trigger]
                call_ensures(R::predict_stage, (m, block, dt), ())
                    && *m == old(self).system() && *final(m) == final(self).system(),
    {
        self.runtime.predict_stage(block, dt);
        proof {
            self.log@ = self.log@.push(Call::PredictStage(block, dt));
        }
    }

    pub fn set_block_solver(&mut self, block: u64, solver: u64)
        ensures
            final(self).log() == old(self).log().push(Call::SetBlockSolver(block, solver)),
            exists|m: &mut R| #[trigger]
                call_ensures(R::set_block_solver, (m, block, solver), ())
                    && *m == old(self).system() && *final(m) == final(self).system(),
    {
        self.runtime.set_block_solver(block, solver);
        proof {
            self.log@ = self.log@.push(Call::SetBlockSolver(block, solver));
        }
    }

    pub fn set_block_history(&mut self, block: u64, depth: usize)
        ensures
            final(self).log() == old(self).log().push(Call::SetBlockHistory(block, depth)),
            exists|m: &mut R| #[trigger]
                call_ensures(R::set_block_history, (m, block, depth), ())
                    && *m == old(self).system() && *final(m) == final(self).system(),
    {
        self.runtime.set_block_history(block, depth);
        proof {
            self.log@ = self.log@.push(Call::SetBlockHistory(block, depth));
        }
    }

    pub fn has_engine(&mut self, block: u64) -> (r: bool)
        ensures
            final(self).log() == old(self).log().push(Call::HasEngine(block, r)),
            call_ensures(R::has_engine, (&old(self).system(), block), r),
            final(self).system() == old(self).system(),
    {
        let r: bool = self.runtime.has_engine(block);
        proof {
            self.log@ = self.log@.push(Call::HasEngine(block, r));
        }
        r
    }

    pub fn has_events(&mut self, block: u64) -> (r: bool)
        ensures
            final(self).log() == old(self).log().push(Call::HasEvents(block, r)),
            call_ensures(R::has_events, (&old(self).system(), block), r),
            final(self).system() == old(self).system(),
    {
        let r: bool = self.runtime.has_events(block);
        proof {
            self.log@ = self.log@.push(Call::HasEvents(block, r));
        }
        r
    }

    pub fn is_recorder(&mut self, block: u64) -> (r: bool)
        ensures
            final(self).log() == old(self).log().push(Call::IsRecorder(block, r)),
            call_ensures(R::is_recorder, (&old(self).system(), block), r),
            final(self).system() == old(self).system(),
    {
        let r: bool = self.runtime.is_recorder(block);
        proof {
            self.log@ = self.log@.push(Call::IsRecorder(block, r));
        }
        r
    }

    pub fn block_size(&mut self, block: u64) -> (r: (usize, usize))
        ensures
            final(self).log() == old(self).log().push(Call::BlockSize(block, r)),
            call_ensures(R::block_size, (&old(self).system(), block), r),
            final(self).system() == old(self).system(),
    {
        let r: (usize, usize) = self.runtime.block_size(block);
        proof {
            self.log@ = self.log@.push(Call::BlockSize(block, r));
        }
        r
    }

    pub fn block_events(&mut self, block: u64) -> (r: Vec<u64>)
        ensures
            final(self).log() == old(self).log().push(Call::BlockEvents(block, r@)),
            call_ensures(R::block_events, (&old(self).system(), block), r),
            final(self).system() == old(self).system(),
    {
        let r: Vec<u64> = self.runtime.block_events(block);
        proof {
            self.log@ = self.log@.push(Call::BlockEvents(block, r@));
        }
        r
    }

    pub fn port_shape(&mut self, block: u64) -> (r: (usize, usize, Vec<bool>))
        ensures
            final(self).log() == old(self).log().push(Call::PortShape(block, (r.0, r.1, r.2@))),
            call_ensures(R::port_shape, (&old(self).system(), block), r),
            final(self).system() == old(self).system(),
    {
        let r: (usize, usize, Vec<bool>) = self.runtime.port_shape(block);
        proof {
            self.log@ = self.log@.push(Call::PortShape(block, (r.0, r.1, r.2@)));
        }
        r
    }

    pub fn start_period(&mut self, block: u64)
        ensures
            final(self).log() == old(self).log().push(Call::StartPeriod(block)),
            exists|m: &mut R| #[trigger]
                call_ensures(R::start_period, (m, block), ())
                    && *m == old(self).system() && *final(m) == final(self).system(),
    {
        self.runtime.start_period(block);
        proof {
            self.log@ = self.log@.push(Call::StartPeriod(block));
        }
    }

    pub fn close_period(&mut self, block: u64) -> (r: F)
        ensures
            final(self).log() == old(self).log().push(Call::ClosePeriod(block, r)),
            exists|m: &mut R| #[trigger]
                call_ensures(R::close_period, (m, block), r)
                    && *m == old(self).system() && *final(m) == final(self).system(),
    {
        let r: F = self.runtime.close_period(block);
        proof {
            self.log@ = self.log@.push(Call::ClosePeriod(block, r));
        }
        r
    }

    pub fn connection_active(&mut self, conn: u64) -> (r: bool)
        ensures
            final(self).log() == old(self).log().push(Call::ConnectionActive(conn, r)),
            call_ensures(R::connection_active, (&old(self).system(), conn), r),
            final(self).system() == old(self).system(),
    {
        let r: bool = self.runtime.connection_active(conn);
        proof {
            self.log@ = self.log@.push(Call::ConnectionActive(conn, r));
        }
        r
    }

    pub fn transfer(&mut self, conn: u64)
        ensures
            final(self).log() == old(self).log().push(Call::Transfer(conn)),
            exists|m: &mut R| #[trigger]
                call_ensures(R::transfer, (m, conn), ())
                    && *m == old(self).system() && *final(m) == final(self).system(),
    {
        self.runtime.transfer(conn);
        proof {
            self.log@ = self.log@.push(Call::Transfer(conn));
        }
    }

    pub fn resolve_ports(&mut self, conn: u64) -> (r: Result<ConnModel, SimError<F>>)
        ensures
            final(self).log() == old(self).log().push(Call::ResolvePorts(conn, r)),
            exists|m: &mut R| #[trigger]
                call_ensures(R::resolve_ports, (m, conn), r)
                    && *m == old(self).system() && *final(m) == final(self).system(),
    {
        let r: Result<ConnModel, SimError<F>> = self.runtime.resolve_ports(conn);
        proof {
            self.log@ = self.log@.push(Call::ResolvePorts(conn, r));
        }
        r
    }

    pub fn source_values(&mut self, conn: u64) -> (r: Vec<F>)
        ensures
            final(self).log() == old(self).log().push(Call::SourceValues(conn, r@)),
            call_ensures(R::source_values, (&old(self).system(), conn), r),
            final(self).system() == old(self).system(),
    {
        let r: Vec<F> = self.runtime.source_values(conn);
        proof {
            self.log@ = self.log@.push(Call::SourceValues(conn, r@));
        }
        r
    }

    pub fn set_targets(&mut self, conn: u64, values: &Vec<F>)
        ensures
            final(self).log() == old(self).log().push(Call::SetTargets(conn, values@)),
            exists|m: &mut R| #[trigger]
                call_ensures(R::set_targets, (m, conn, values), ())
                    && *m == old(self).system() && *final(m) == final(self).system(),
    {
        self.runtime.set_targets(conn, values);
        proof {
            self.log@ = self.log@.push(Call::SetTargets(conn, values@));
        }
    }

    pub fn event_active(&mut self, event: u64) -> (r: bool)
        ensures
            final(self).log() == old(self).log().push(Call::EventActive(event, r)),
            call_ensures(R::event_active, (&old(self).system(), event), r),
            final(self).system() == old(self).system(),
    {
        let r: bool = self.runtime.event_active(event);
        proof {
            self.log@ = self.log@.push(Call::EventActive(event, r));
        }
        r
    }

    pub fn estimate(&mut self, event: u64, t: F) -> (r: Option<F>)
        ensures
            final(self).log() == old(self).log().push(Call::Estimate(event, t, r)),
            call_ensures(R::estimate, (&old(self).system(), event, t), r),
            final(self).system() == old(self).system(),
    {
        let r: Option<F> = self.runtime.estimate(event, t);
        proof {
            self.log@ = self.log@.push(Call::Estimate(event, t, r));
        }
        r
    }

    pub fn detect(&mut self, event: u64, t: F) -> (r: (bool, bool, F))
        ensures
            final(self).log() == old(self).log().push(Call::Detect(event, t, r)),
            exists|m: &mut R| #[trigger]
                call_ensures(R::detect, (m, event, t), r)
                    && *m == old(self).system() && *final(m) == final(self).system(),
    {
        let r: (bool, bool, F) = self.runtime.detect(event, t);
        proof {
            self.log@ = self.log@.push(Call::Detect(event, t, r));
        }
        r
    }

    pub fn resolve(&mut self, event: u64, t: F)
        ensures
            final(self).log() == old(self).log().push(Call::Resolve(event, t)),
            exists|m: &mut R| #[trigger]
                call_ensures(R::resolve, (m, event, t), ())
                    && *m == old(self).system() && *final(m) == final(self).system(),
    {
        self.runtime.resolve(event, t);
        proof {
            self.log@ = self.log@.push(Call::Resolve(event, t));
        }
    }

    pub fn buffer_event(&mut self, event: u64, t: F)
        ensures
            final(self).log() == old(self).log().push(Call::BufferEvent(event, t)),
            exists|m: &mut R| #[trigger]
                call_ensures(R::buffer_event, (m, event, t), ())
                    && *m == old(self).system() && *final(m) == final(self).system(),
    {
        self.runtime.buffer_event(event, t);
        proof {
            self.log@ = self.log@.push(Call::BufferEvent(event, t));
        }
    }

    pub fn reset_event(&mut self, event: u64)
        ensures
            final(self).log() == old(self).log().push(Call::ResetEvent(event)),
            exists|m: &mut R| #[trigger]
                call_ensures(R::reset_event, (m, event), ())
                    && *m == old(self).system() && *final(m) == final(self).system(),
    {
        self.runtime.reset_event(event);
        proof {
            self.log@ = self.log@.push(Call::ResetEvent(event));
        }
    }

    pub fn set_engine(&mut self, solver: u64)
        ensures
            final(self).log() == old(self).log().push(Call::SetEngine(solver)),
            exists|m: &mut R| #[trigger]
                call_ensures(R::set_engine, (m, solver), ())
                    && *m == old(self).system() && *final(m) == final(self).system(),
    {
        self.runtime.set_engine(solver);
        proof {
            self.log@ = self.log@.push(Call::SetEngine(solver));
        }
    }

    pub fn engine_solver(&mut self) -> (r: u64)
        ensures
            final(self).log() == old(self).log().push(Call::EngineSolver(r)),
            call_ensures(R::engine_solver, (&old(self).system(),), r),
            final(self).system() == old(self).system(),
    {
        let r: u64 = self.runtime.engine_solver();
        proof {
            self.log@ = self.log@.push(Call::EngineSolver(r));
        }
        r
    }

    pub fn engine_reset(&mut self)
        ensures
            final(self).log() == old(self).log().push(Call::EngineReset),
            exists|m: &mut R| #[trigger]
                call_ensures(R::engine_reset, (m,), ())
                    && *m == old(self).system() && *final(m) == final(self).system(),
    {
        self.runtime.engine_reset();
        proof {
            self.log@ = self.log@.push(Call::EngineReset);
        }
    }

    pub fn engine_revert(&mut self)
        ensures
            final(self).log() == old(self).log().push(Call::EngineRevert),
            exists|m: &mut R| #[trigger]
                call_ensures(R::engine_revert, (m,), ())
                    && *m == old(self).system() && *final(m) == final(self).system(),
    {
        self.runtime.engine_revert();
        proof {
            self.log@ = self.log@.push(Call::EngineRevert);
        }
    }

    pub fn engine_buffer(&mut self, dt: F)
        ensures
            final(self).log() == old(self).log().push(Call::EngineBuffer(dt)),
            exists|m: &mut R| #[trigger]
                call_ensures(R::engine_buffer, (m, dt), ())
                    && *m == old(self).system() && *final(m) == final(self).system(),
    {
        self.runtime.engine_buffer(dt);
        proof {
            self.log@ = self.log@.push(Call::EngineBuffer(dt));
        }
    }

    pub fn engine_adaptive(&mut self) -> (r: bool)
        ensures
            final(self).log() == old(self).log().push(Call::EngineAdaptive(r)),
            call_ensures(R::engine_adaptive, (&old(self).system(),), r),
            final(self).system() == old(self).system(),
    {
        let r: bool = self.runtime.engine_adaptive();
        proof {
            self.log@ = self.log@.push(Call::EngineAdaptive(r));
        }
        r
    }

    pub fn engine_implicit(&mut self) -> (r: bool)
        ensures
            final(self).log() == old(self).log().push(Call::EngineImplicit(r)),
            call_ensures(R::engine_implicit, (&old(self).system(),), r),
            final(self).system() == old(self).system(),
    {
        let r: bool = self.runtime.engine_implicit();
        proof {
            self.log@ = self.log@.push(Call::EngineImplicit(r));
        }
        r
    }

    pub fn engine_stages(&mut self) -> (r: usize)
        ensures
            final(self).log() == old(self).log().push(Call::EngineStages(r)),
            call_ensures(R::engine_stages, (&old(self).system(),), r),
            final(self).system() == old(self).system(),
    {
        let r: usize = self.runtime.engine_stages();
        proof {
            self.log@ = self.log@.push(Call::EngineStages(r));
        }
        r
    }

    pub fn stage_time(&mut self, stage: usize, t: F, dt: F) -> (r: F)
        ensures
            final(self).log() == old(self).log().push(Call::StageTime(stage, t, dt, r)),
            call_ensures(R::stage_time, (&old(self).system(), stage, t, dt), r),
            final(self).system() == old(self).system(),
    {
        let r: F = self.runtime.stage_time(stage, t, dt);
        proof {
            self.log@ = self.log@.push(Call::StageTime(stage, t, dt, r));
        }
        r
    }

    pub fn set_stage(&mut self, stage: usize)
        ensures
            final(self).log() == old(self).log().push(Call::SetStage(stage)),
            exists|m: &mut R| #[trigger]
                call_ensures(R::set_stage, (m, stage), ())
                    && *m == old(self).system() && *final(m) == final(self).system(),
    {
        self.runtime.set_stage(stage);
        proof {
            self.log@ = self.log@.push(Call::SetStage(stage));
        }
    }

    pub fn set_engine_history(&mut self, depth: usize)
        ensures
            final(self).log() == old(self).log().push(Call::SetEngineHistory(depth)),
            exists|m: &mut R| #[trigger]
                call_ensures(R::set_engine_history, (m, depth), ())
                    && *m == old(self).system() && *final(m) == final(self).system(),
    {
        self.runtime.set_engine_history(depth);
        proof {
            self.log@ = self.log@.push(Call::SetEngineHistory(depth));
        }
    }

    pub fn tolerances(&mut self) -> (r: (F, F))
        ensures
            final(self).log() == old(self).log().push(Call::Tolerances(r)),
            call_ensures(R::tolerances, (&old(self).system(),), r),
            final(self).system() == old(self).system(),
    {
        let r: (F, F) = self.runtime.tolerances();
        proof {
            self.log@ = self.log@.push(Call::Tolerances(r));
        }
        r
    }

    pub fn schedule(
        &mut self,
        specs: &Vec<(usize, usize, usize)>,
        shapes: &Vec<Feedthrough>,
        edges: &Vec<PortEdge>,
    ) -> (r: Schedule)
        ensures
            final(self).log() == old(self).log().push(Call::Schedule(specs@, shapes@, edges@, r)),
            exists|m: &mut R| #[trigger]
                call_ensures(R::schedule, (m, specs, shapes, edges), r)
                    && *m == old(self).system() && *final(m) == final(self).system(),
    {
        let r: Schedule = self.runtime.schedule(specs, shapes, edges);
        proof {
            self.log@ = self.log@.push(Call::Schedule(specs@, shapes@, edges@, r));
        }
        r
    }

    pub fn steady_solver(&mut self) -> (r: u64)
        ensures
            final(self).log() == old(self).log().push(Call::SteadySolver(r)),
            call_ensures(R::steady_solver, (&old(self).system(),), r),
            final(self).system() == old(self).system(),
    {
        let r: u64 = self.runtime.steady_solver();
        proof {
            self.log@ = self.log@.push(Call::SteadySolver(r));
        }
        r
    }

    pub fn default_solver(&mut self) -> (r: u64)
        ensures
            final(self).log() == old(self).log().push(Call::DefaultSolver(r)),
            call_ensures(R::default_solver, (&old(self).system(),), r),
            final(self).system() == old(self).system(),
    {
        let r: u64 = self.runtime.default_solver();
        proof {
            self.log@ = self.log@.push(Call::DefaultSolver(r));
        }
        r
    }

    pub fn period_solver(&mut self, inner: u64, period: F, history: usize) -> (r: u64)
        ensures
            final(self).log() == old(self).log().push(Call::PeriodSolver(inner, period, history, r)),
            exists|m: &mut R| #[trigger]
                call_ensures(R::period_solver, (m, inner, period, history), r)
                    && *m == old(self).system() && *final(m) == final(self).system(),
    {
        let r: u64 = self.runtime.period_solver(inner, period, history);
        proof {
            self.log@ = self.log@.push(Call::PeriodSolver(inner, period, history, r));
        }
        r
    }

    pub fn take_changes(&mut self) -> (r: Vec<PendingOp>)
        ensures
            final(self).log() == old(self).log().push(Call::TakeChanges(r@)),
            exists|m: &mut R| #[trigger]
                call_ensures(R::take_changes, (m,), r)
                    && *m == old(self).system() && *final(m) == final(self).system(),
    {
        let r: Vec<PendingOp> = self.runtime.take_changes();
        proof {
            self.log@ = self.log@.push(Call::TakeChanges(r@));
        }
        r
    }

    pub fn take_stop(&mut self) -> (r: bool)
        ensures
            final(self).log() == old(self).log().push(Call::TakeStop(r)),
            exists|m: &mut R| #[trigger]
                call_ensures(R::take_stop, (m,), r)
                    && *m == old(self).system() && *final(m) == final(self).system(),
    {
        let r: bool = self.runtime.take_stop();
        proof {
            self.log@ = self.log@.push(Call::TakeStop(r));
        }
        r
    }

    pub fn start_clock(&mut self)
        ensures
            final(self).log() == old(self).log().push(Call::StartClock),
            exists|m: &mut R| #[trigger]
                call_ensures(R::start_clock, (m,), ())
                    && *m == old(self).system() && *final(m) == final(self).system(),
    {
        self.runtime.start_clock();
        proof {
            self.log@ = self.log@.push(Call::StartClock);
        }
    }

    pub fn tick_due(&mut self, interval: F) -> (r: bool)
        ensures
            final(self).log() == old(self).log().push(Call::TickDue(interval, r)),
            exists|m: &mut R| #[trigger]
                call_ensures(R::tick_due, (m, interval), r)
                    && *m == old(self).system() && *final(m) == final(self).system(),
    {
        let r: bool = self.runtime.tick_due(interval);
        proof {
            self.log@ = self.log@.push(Call::TickDue(interval, r));
        }
        r
    }

    pub fn wall_elapsed(&mut self) -> (r: F)
        ensures
            final(self).log() == old(self).log().push(Call::WallElapsed(r)),
            call_ensures(R::wall_elapsed, (&old(self).system(),), r),
            final(self).system() == old(self).system(),
    {
        let r: F = self.runtime.wall_elapsed();
        proof {
            self.log@ = self.log@.push(Call::WallElapsed(r));
        }
        r
    }

    pub fn start_watch(&mut self)
        ensures
            final(self).log() == old(self).log().push(Call::StartWatch),
            exists|m: &mut R| #[trigger]
                call_ensures(R::start_watch, (m,), ())
                    && *m == old(self).system() && *final(m) == final(self).system(),
    {
        self.runtime.start_watch();
        proof {
            self.log@ = self.log@.push(Call::StartWatch);
        }
    }

    pub fn watch_elapsed(&mut self) -> (r: F)
        ensures
            final(self).log() == old(self).log().push(Call::WatchElapsed(r)),
            call_ensures(R::watch_elapsed, (&old(self).system(),), r),
            final(self).system() == old(self).system(),
    {
        let r: F = self.runtime.watch_elapsed();
        proof {
            self.log@ = self.log@.push(Call::WatchElapsed(r));
        }
        r
    }

    pub fn report(&mut self, progress: F, success: bool, dt: F)
        ensures
            final(self).log() == old(self).log().push(Call::Report(progress, success, dt)),
            exists|m: &mut R| #[trigger]
                call_ensures(R::report, (m, progress, success, dt), ())
                    && *m == old(self).system() && *final(m) == final(self).system(),
    {
        self.runtime.report(progress, success, dt);
        proof {
            self.log@ = self.log@.push(Call::Report(progress, success, dt));
        }
    }

    pub fn pause(&mut self)
        ensures
            final(self).log() == old(self).log().push(Call::Pause),
            exists|m: &mut R| #[trigger]
                call_ensures(R::pause, (m,), ())
                    && *m == old(self).system() && *final(m) == final(self).system(),
    {
        self.runtime.pause();
        proof {
            self.log@ = self.log@.push(Call::Pause);
        }
    }
}

} // verus!
