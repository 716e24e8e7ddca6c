//! A simulation from the arguments of a script.

use vstd::prelude::*;

use crate::front::arguments::{check_keywords, first_unknown, ArgumentError};
use crate::optim::linsolve::Backend;
use crate::scalar::{ratios, Scalar};
use crate::simulation::create::Settings;
use crate::simulation::reset::history_calls;
use crate::simulation::runtime::{Call, Driver, Runtime};
use crate::simulation::state::{
    Diagnostics, Log, Simulation, SIM_ITERATIONS_MAX, SIM_TIMESTEP_MIN_INVERSE,
};

verus! {

/// The settings of a simulation that a script can choose.
#[derive(Debug, Clone, Copy)]
pub struct Choices<F> {
    pub dt: F,
    pub dt_min: F,
    pub dt_max: Option<F>,
    /// The default solver if none.
    pub solver: Option<u64>,
    pub iterations_max: usize,
    pub diagnostics: bool,
    /// Depth of history of the optimizers, if it is not the default one.
    pub history: Option<usize>,
}

/// The calls that choose the solver `s`.
pub open spec fn choosing<F>(given: Option<u64>, s: u64) -> Log<F> {
    match given {
        Some(_) => seq![Call::SetEngine(s)],
        None => seq![Call::DefaultSolver(s), Call::SetEngine(s)],
    }
}

/// The simulation made of blocks and connections, by way of the solver `s` and the
/// smallest step that it is made with.
pub open spec fn wired<F: Scalar, B: Backend<F>, R: Runtime<F>>(
    blocks: Seq<u64>,
    connections: Seq<u64>,
    c: Choices<F>,
    s: u64,
    least: F,
    m: Simulation<F, B, R>,
) -> bool {
    &&& c.solver matches Some(g) ==> g == s
    &&& ratios(1, SIM_TIMESTEP_MIN_INVERSE, least)
    &&& Simulation::made_of(
        blocks,
        connections,
        Seq::empty(),
        (Settings {
            dt: c.dt,
            dt_min: least,
            dt_max: None,
            solver: Some(s),
            iterations_max: SIM_ITERATIONS_MAX,
            diagnostics: false,
        }),
        choosing(c.solver, s),
        m,
    )
}

/// The simulation `m` with the choices made and the events added.
pub open spec fn chosen<F: Scalar, B: Backend<F>, R: Runtime<F>>(
    m: Simulation<F, B, R>,
    c: Choices<F>,
    events: Seq<u64>,
    after: Simulation<F, B, R>,
) -> bool {
    &&& after.log() == (match c.history {
        Some(h) => m.log().push(Call::SetEngineHistory(h)) + history_calls::<F>(m.blocks@, h),
        None => m.log(),
    })
    &&& if c.diagnostics {
        after.diagnostics is Some && after.diagnostics->0.blank()
    } else {
        after.diagnostics == m.diagnostics
    }
    &&& after.events@ == m.events@ + events
    &&& after == (Simulation {
        dt_min: c.dt_min,
        dt_max: c.dt_max,
        iterations_max: c.iterations_max,
        diagnostics: after.diagnostics,
        events: after.events,
        driver: after.driver,
        ..m
    })
}

/// A simulation was made of its arguments.
pub open spec fn built<F: Scalar, B: Backend<F>, R: Runtime<F>>(
    blocks: Seq<u64>,
    connections: Seq<u64>,
    events: Seq<u64>,
    c: Choices<F>,
    after: Simulation<F, B, R>,
) -> bool {
    exists|s: u64, least: F, m: Simulation<F, B, R>| #[trigger]
        wired(blocks, connections, c, s, least, m) && chosen(m, c, events, after)
}

/// Makes a simulation, unless there is a keyword that is not known. Tells also
/// whether a retired keyword was given.
pub fn build_simulation<F: Scalar, B: Backend<F>, R: Runtime<F>>(
    blocks: Vec<u64>,
    connections: Vec<u64>,
    events: &Vec<u64>,
    c: Choices<F>,
    keywords: &Vec<&str>,
    runtime: R,
) -> (r: Result<(Simulation<F, B, R>, bool), ArgumentError>)
    ensures
        match r {
            Ok((sim, retired)) => {
                &&& forall|j: int| 0 <= j < keywords@.len() ==> (#[trigger] keywords@[j])@
                    == "tolerance_fpi"@
                &&& retired == (keywords@.len() > 0)
                &&& built(blocks@, connections@, events@, c, sim)
                &&& sim.well_formed()
            },
            Err(ArgumentError::UnexpectedKeyword(x)) => exists|k: int| #[trigger]
                first_unknown(keywords@, k) && x@ == keywords@[k]@,
            Err(_) => false,
        },
{
    let retired: bool = match check_keywords(keywords) {
        Ok(x) => x,
        Err(e) => {
            return Err(e);
        },
    };
    let ghost bs = blocks@;
    let ghost cs = connections@;
    let mut driver: Driver<F, R> = Driver::new(runtime);
    let s: u64 = match c.solver {
        Some(g) => g,
        None => driver.default_solver(),
    };
    let ghost before = driver.log();
    let mut sim: Simulation<F, B, R> = Simulation::with_driver(blocks, connections, s, c.dt, driver);
    let ghost m = sim;
    let ghost least = choose|least: F| #[trigger]
        ratios(1, SIM_TIMESTEP_MIN_INVERSE, least) && Simulation::<F, B, R>::made_of(
            bs,
            cs,
            Seq::empty(),
            (Settings {
                dt: c.dt,
                dt_min: least,
                dt_max: None,
                solver: Some(s),
                iterations_max: SIM_ITERATIONS_MAX,
                diagnostics: false,
            }),
            before.push(Call::SetEngine(s)),
            m,
        );
    assert(before.push(Call::SetEngine(s)) =~= choosing(c.solver, s));
    assert(wired(bs, cs, c, s, least, m));
    sim.dt_min = c.dt_min;
    sim.dt_max = c.dt_max;
    sim.iterations_max = c.iterations_max;
    if c.diagnostics {
        sim.diagnostics = Some(Diagnostics::new());
    }
    if let Some(h) = c.history {
        sim.set_optimizer_history(h);
    }
    let ghost ready = sim;
    assert(ready.events@ + events@.take(0) =~= ready.events@);
    let mut i: usize = 0;
    while i < events.len()
        invariant
            i <= events@.len(),
            sim.well_formed(),
            sim.events@ == ready.events@ + events@.take(i as int),
            sim == (Simulation { events: sim.events, ..ready }),
        decreases events@.len() - i,
    {
        sim.add_event(events[i]);
        assert(events@.take(i + 1) =~= events@.take(i as int).push(events@[i as int]));
        assert(sim.events@ =~= ready.events@ + events@.take(i + 1));
        i += 1;
    }
    assert(events@.take(i as int) =~= events@);
    assert(chosen(m, c, events@, sim));
    Ok((sim, retired))
}

} // verus!
