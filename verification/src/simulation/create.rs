//! Making simulations.

use vstd::prelude::*;

use crate::optim::linsolve::Backend;
use crate::scalar::{ratios, zeros, Scalar};
use crate::simulation::chain::{chain, lemma_chain_push};
use crate::simulation::runtime::{Call, Driver, Runtime};
use crate::simulation::state::{
    Diagnostics, Log, Outcome, Simulation, SIM_ITERATIONS_MAX, SIM_TIMESTEP_DEN,
    SIM_TIMESTEP_MIN_INVERSE, SIM_TIMESTEP_NUM,
};
use crate::simulation::trackers::{ConvergenceTracker, StepTracker};

verus! {

/// The settings of a simulation.
#[derive(Debug, Clone, Copy)]
pub struct Settings<F> {
    pub dt: F,
    pub dt_min: F,
    pub dt_max: Option<F>,
    pub solver: Option<u64>,
    pub iterations_max: usize,
    pub diagnostics: bool,
}

impl<F: Scalar, B: Backend<F>, R: Runtime<F>> Simulation<F, B, R> {
    /// A simulation of nothing, with the given settings, after the calls of `log`.
    pub open spec fn hollow(&self, settings: Settings<F>, log: Log<F>) -> bool {
        &&& self.blocks@.len() == 0
        &&& self.connections@.len() == 0
        &&& self.events@.len() == 0
        &&& self.dt == settings.dt
        &&& self.dt_min == settings.dt_min
        &&& self.dt_max == settings.dt_max
        &&& self.solver == settings.solver
        &&& self.graph is None
        &&& !self.graph_dirty
        &&& self.boosters@.len() == 0
        &&& self.iterations_max == settings.iterations_max
        &&& zeros(self.time)
        &&& self.dyn_indices@.len() == 0
        &&& self.evt_indices@.len() == 0
        &&& self.active
        &&& self.assembly_error is None
        &&& self.run_dt == settings.dt
        &&& self.loop_tracker.blank() && self.loop_tracker.iterations == 0
        &&& self.solve_tracker.blank() && self.solve_tracker.iterations == 0
        &&& self.step_tracker.blank()
        &&& self.outcome.clean()
        &&& self.diagnostics is Some == settings.diagnostics
        &&& self.diagnostics is Some ==> self.diagnostics->0.blank()
        &&& self.diagnostics_history is None
        &&& self.wct_trace is None
        &&& self.pending_ops@.len() == 0
        &&& self.log() == log
    }

    fn empty(driver: Driver<F, R>, settings: Settings<F>) -> (r: Self)
        ensures
            r.hollow(settings, driver.log()),
            r.well_formed(),
            r.driver == driver,
    {
        Simulation {
            blocks: Vec::new(),
            connections: Vec::new(),
            events: Vec::new(),
            dt: settings.dt,
            dt_min: settings.dt_min,
            dt_max: settings.dt_max,
            solver: settings.solver,
            graph: None,
            graph_dirty: false,
            boosters: Vec::new(),
            iterations_max: settings.iterations_max,
            time: F::zero(),
            dyn_indices: Vec::new(),
            evt_indices: Vec::new(),
            active: true,
            assembly_error: None,
            run_dt: settings.dt,
            loop_tracker: ConvergenceTracker::new(),
            solve_tracker: ConvergenceTracker::new(),
            step_tracker: StepTracker::new(),
            outcome: Outcome::new(),
            diagnostics: if settings.diagnostics {
                Some(Diagnostics::new())
            } else {
                None
            },
            diagnostics_history: None,
            wct_trace: None,
            pending_ops: Vec::new(),
            driver,
        }
    }

    /// A block is added, unless it is there already.
    pub open spec fn accepts(&self, block: u64, after: Self) -> bool {
        if self.blocks@.contains(block) {
            after == *self
        } else {
            exists|engine: bool, events: bool| #[trigger]
                self.block_added(block, engine, events, after)
        }
    }

    /// The blocks of a list are added in order.
    pub open spec fn add_step(list: Seq<u64>) -> spec_fn(int, Self, Self) -> bool {
        |i: int, a: Self, b: Self| a.accepts(list[i], b)
    }

    /// Blocks are added to the hollow simulation, up to `m`, then connections and
    /// events, up to `n`, and the order of evaluation is found.
    pub open spec fn filled_with(
        &self,
        blocks: Seq<u64>,
        connections: Seq<u64>,
        events: Seq<u64>,
        m: Self,
        n: Self,
        after: Self,
    ) -> bool {
        &&& chain(blocks.len() as int, Self::add_step(blocks), *self, m)
        &&& n.connections@ == connections
        &&& n.events@ == events
        &&& n == (Simulation { connections: n.connections, events: n.events, ..m })
        &&& n.assembles(after)
    }

    /// A simulation of the given components with the given settings, made after the
    /// calls of `log`.
    pub open spec fn made_of(
        blocks: Seq<u64>,
        connections: Seq<u64>,
        events: Seq<u64>,
        settings: Settings<F>,
        log: Log<F>,
        after: Self,
    ) -> bool {
        exists|h: Self, m: Self, n: Self| #[trigger]
            h.filled_with(blocks, connections, events, m, n, after) && h.hollow(settings, log)
    }

    fn add_blocks(&mut self, blocks: &Vec<u64>)
        requires
            old(self).well_formed(),
        ensures
            chain(blocks@.len() as int, Self::add_step(blocks@), *old(self), *final(self)),
            final(self).well_formed(),
            final(self).connections == old(self).connections,
            final(self).events == old(self).events,
            final(self).graph == old(self).graph,
            old(self).graph is None ==> final(self).graph_dirty == old(self).graph_dirty,
    {
        let ghost step = Self::add_step(blocks@);
        let mut i: usize = 0;
        while i < blocks.len()
            invariant
                i <= blocks@.len(),
                self.well_formed(),
                self.connections == old(self).connections,
                self.events == old(self).events,
                self.graph == old(self).graph,
                old(self).graph is None ==> self.graph_dirty == old(self).graph_dirty,
                step == Self::add_step(blocks@),
                chain(i as int, step, *old(self), *self),
            decreases blocks@.len() - i,
        {
            let ghost a = *self;
            let _ = self.add_block(blocks[i]);
            proof {
                assert(a.accepts(blocks@[i as int], *self));
                assert(step(i as int, a, *self));
                lemma_chain_push(i as int, step, *old(self), a, *self);
            }
            i += 1;
        }
    }

    fn fill(&mut self, blocks: Vec<u64>, connections: Vec<u64>, events: Vec<u64>)
        requires
            old(self).well_formed(),
            old(self).graph is None,
            old(self).connections@.len() == 0,
            old(self).events@.len() == 0,
        ensures
            exists|m: Self, n: Self| #[trigger]
                old(self).filled_with(
                    blocks@,
                    connections@,
                    events@,
                    m,
                    n,
                    *final(self),
                ),
            final(self).well_formed(),
    {
        self.add_blocks(&blocks);
        let ghost m = *self;
        let ghost links = connections@;
        self.connections = connections;
        self.events = events;
        let ghost n = *self;
        self.assemble_graph();
        assert(old(self).filled_with(blocks@, links, events@, m, n, *self));
    }

    /// A simulation without a solver.
    pub fn new(
        blocks: Vec<u64>,
        connections: Vec<u64>,
        events: Vec<u64>,
        dt: F,
        dt_min: F,
        dt_max: Option<F>,
        iterations_max: usize,
        enable_diagnostics: bool,
        runtime: R,
    ) -> (r: Self)
        ensures
            Self::made_of(
                blocks@,
                connections@,
                events@,
                (Settings {
                    dt,
                    dt_min,
                    dt_max,
                    solver: None,
                    iterations_max,
                    diagnostics: enable_diagnostics,
                }),
                Seq::empty(),
                r,
            ),
            r.well_formed(),
    {
        let settings: Settings<F> = Settings {
            dt,
            dt_min,
            dt_max,
            solver: None,
            iterations_max,
            diagnostics: enable_diagnostics,
        };
        let mut r: Self = Self::empty(Driver::new(runtime), settings);
        r.fill(blocks, connections, events);
        r
    }

    /// A simulation with a solver, whose engine paces the stages.
    pub fn with_solver(
        blocks: Vec<u64>,
        connections: Vec<u64>,
        solver: u64,
        dt: F,
        runtime: R,
    ) -> (r: Self)
        ensures
            exists|least: F| #[trigger]
                ratios(1, SIM_TIMESTEP_MIN_INVERSE, least) && Self::made_of(
                    blocks@,
                    connections@,
                    Seq::empty(),
                    (Settings {
                        dt,
                        dt_min: least,
                        dt_max: None,
                        solver: Some(solver),
                        iterations_max: SIM_ITERATIONS_MAX,
                        diagnostics: false,
                    }),
                    seq![Call::SetEngine(solver)],
                    r,
                ),
            r.well_formed(),
    {
        let driver: Driver<F, R> = Driver::new(runtime);
        Self::with_driver(blocks, connections, solver, dt, driver)
    }

    pub(crate) fn with_driver(
        blocks: Vec<u64>,
        connections: Vec<u64>,
        solver: u64,
        dt: F,
        driver: Driver<F, R>,
    ) -> (r: Self)
        ensures
            exists|least: F| #[trigger]
                ratios(1, SIM_TIMESTEP_MIN_INVERSE, least) && Self::made_of(
                    blocks@,
                    connections@,
                    Seq::empty(),
                    (Settings {
                        dt,
                        dt_min: least,
                        dt_max: None,
                        solver: Some(solver),
                        iterations_max: SIM_ITERATIONS_MAX,
                        diagnostics: false,
                    }),
                    driver.log().push(Call::SetEngine(solver)),
                    r,
                ),
            r.well_formed(),
    {
        let mut driver: Driver<F, R> = driver;
        driver.set_engine(solver);
        let least: F = F::ratio(1, SIM_TIMESTEP_MIN_INVERSE);
        let settings: Settings<F> = Settings {
            dt,
            dt_min: least,
            dt_max: None,
            solver: Some(solver),
            iterations_max: SIM_ITERATIONS_MAX,
            diagnostics: false,
        };
        let mut r: Self = Self::empty(driver, settings);
        let events: Vec<u64> = Vec::new();
        assert(events@ =~= Seq::empty());
        r.fill(blocks, connections, events);
        assert(ratios(1, SIM_TIMESTEP_MIN_INVERSE, least));
        r
    }

    /// A simulation with a solver. Whether it logs does not matter to it.
    pub fn with_solver_and_logger(
        blocks: Vec<u64>,
        connections: Vec<u64>,
        solver: u64,
        dt: F,
        _log: bool,
        runtime: R,
    ) -> (r: Self)
        ensures
            exists|least: F| #[trigger]
                ratios(1, SIM_TIMESTEP_MIN_INVERSE, least) && Self::made_of(
                    blocks@,
                    connections@,
                    Seq::empty(),
                    (Settings {
                        dt,
                        dt_min: least,
                        dt_max: None,
                        solver: Some(solver),
                        iterations_max: SIM_ITERATIONS_MAX,
                        diagnostics: false,
                    }),
                    seq![Call::SetEngine(solver)],
                    r,
                ),
            r.well_formed(),
    {
        Self::with_solver(blocks, connections, solver, dt, runtime)
    }

    /// A simulation made with the default solver and the default step, by way of
    /// the solver, the step and the smallest step.
    pub open spec fn made_by_default(
        blocks: Seq<u64>,
        connections: Seq<u64>,
        solver: u64,
        dt: F,
        least: F,
        after: Self,
    ) -> bool {
        &&& ratios(SIM_TIMESTEP_NUM, SIM_TIMESTEP_DEN, dt)
        &&& ratios(1, SIM_TIMESTEP_MIN_INVERSE, least)
        &&& Self::made_of(
            blocks,
            connections,
            Seq::empty(),
            (Settings {
                dt,
                dt_min: least,
                dt_max: None,
                solver: Some(solver),
                iterations_max: SIM_ITERATIONS_MAX,
                diagnostics: false,
            }),
            seq![Call::DefaultSolver(solver)].push(Call::SetEngine(solver)),
            after,
        )
    }

    /// A simulation with the default solver and the default step.
    pub fn with_defaults(blocks: Vec<u64>, connections: Vec<u64>, runtime: R) -> (r: Self)
        ensures
            exists|solver: u64, dt: F, least: F| #[trigger]
                Self::made_by_default(blocks@, connections@, solver, dt, least, r),
            r.well_formed(),
    {
        let mut driver: Driver<F, R> = Driver::new(runtime);
        let solver: u64 = driver.default_solver();
        let dt: F = F::ratio(SIM_TIMESTEP_NUM, SIM_TIMESTEP_DEN);
        let ghost bs = blocks@;
        let ghost cs = connections@;
        assert(driver.log() =~= seq![Call::DefaultSolver(solver)]);
        let r: Self = Self::with_driver(blocks, connections, solver, dt, driver);
        proof {
            let least = choose|least: F| #[trigger]
                ratios(1, SIM_TIMESTEP_MIN_INVERSE, least) && Self::made_of(
                    bs,
                    cs,
                    Seq::empty(),
                    (Settings {
                        dt,
                        dt_min: least,
                        dt_max: None,
                        solver: Some(solver),
                        iterations_max: SIM_ITERATIONS_MAX,
                        diagnostics: false,
                    }),
                    driver.log().push(Call::SetEngine(solver)),
                    r,
                );
            assert(Self::made_by_default(bs, cs, solver, dt, least, r));
        }
        r
    }
}

} // verus!
