use std::collections::HashMap;

use faer::linalg::solvers::{PartialPivLu, SolveCore, Svd};
use faer::sparse::linalg::solvers::{Lu as SparseLu, SymbolicLu};
use faer::sparse::{SparseColMat, Triplet};
use faer::{Conj, Mat};

use fastsim::error::SimError;
use fastsim::front::construct::{build_simulation, Choices};
use fastsim::front::session::{
    adopt, attach_event, block_label, booster_label, finish_integration, outcome_warning,
    stats_entries, surface_run_errors, CallbackSignals, Change, Placed, RunError,
};
use fastsim::model::{ConnModel, Level, PortModel};
use fastsim::optim::linsolve::{Backend, Triplet as Entry};
use fastsim::scalar::{BinOp, CmpOp, ReduceOp, Scalar, UnaryOp};
use fastsim::simulation::graph::{assemble_graph_from, index_of};
use fastsim::simulation::run::clamp;
use fastsim::simulation::runtime::{Feedthrough, PortEdge, Runtime, Schedule};
use fastsim::simulation::signals::{
    clear_stop_requested, record_runtime_fault, request_stop, take_runtime_fault,
    take_stop_requested, RunSignals,
};
use fastsim::simulation::state::{PendingOp, Simulation};
use fastsim::simulation::trackers::{nls_coef, ConvergenceTracker, StepTracker};

/// Double-precision numbers.
#[derive(Debug, Clone, Copy, PartialEq)]
struct Real(f64);

impl Scalar for Real {
    fn zero() -> Self {
        Real(0.0)
    }

    fn one() -> Self {
        Real(1.0)
    }

    fn from_bits(bits: u64) -> Self {
        Real(f64::from_bits(bits))
    }

    fn ratio(num: u64, den: u64) -> Self {
        Real(num as f64 / den as f64)
    }

    fn from_count(n: usize) -> Self {
        Real(n as f64)
    }

    fn plus(self, rhs: Self) -> Self {
        Real(self.0 + rhs.0)
    }

    fn minus(self, rhs: Self) -> Self {
        Real(self.0 - rhs.0)
    }

    fn times(self, rhs: Self) -> Self {
        Real(self.0 * rhs.0)
    }

    fn over(self, rhs: Self) -> Self {
        Real(self.0 / rhs.0)
    }

    fn negated(self) -> Self {
        Real(-self.0)
    }

    fn fused(self, b: Self, c: Self) -> Self {
        Real(self.0.mul_add(b.0, c.0))
    }

    fn magnitude(self) -> Self {
        Real(self.0.abs())
    }

    fn root(self) -> Self {
        Real(self.0.sqrt())
    }

    fn larger(self, rhs: Self) -> Self {
        Real(self.0.max(rhs.0))
    }

    fn smaller(self, rhs: Self) -> Self {
        Real(self.0.min(rhs.0))
    }

    fn below(self, rhs: Self) -> bool {
        self.0 < rhs.0
    }

    fn at_most(self, rhs: Self) -> bool {
        self.0 <= rhs.0
    }

    fn same(self, rhs: Self) -> bool {
        self.0 == rhs.0
    }

    fn finite(self) -> bool {
        self.0.is_finite()
    }

    fn binary(op: BinOp, a: Self, b: Self) -> Self {
        Real(match op {
            BinOp::Add => a.0 + b.0,
            BinOp::Sub => a.0 - b.0,
            BinOp::Mul => a.0 * b.0,
            BinOp::Div => a.0 / b.0,
            BinOp::Pow => a.0.powf(b.0),
            BinOp::Mod => a.0 - b.0 * (a.0 / b.0).floor(),
            BinOp::Min => a.0.min(b.0),
            BinOp::Max => a.0.max(b.0),
            BinOp::Atan2 => a.0.atan2(b.0),
            BinOp::Hypot => a.0.hypot(b.0),
        })
    }

    fn unary(op: UnaryOp, a: Self) -> Self {
        Real(match op {
            UnaryOp::Neg => -a.0,
            UnaryOp::Sin => a.0.sin(),
            UnaryOp::Cos => a.0.cos(),
            UnaryOp::Tan => a.0.tan(),
            UnaryOp::Atan => a.0.atan(),
            UnaryOp::Sinh => a.0.sinh(),
            UnaryOp::Cosh => a.0.cosh(),
            UnaryOp::Tanh => a.0.tanh(),
            UnaryOp::Exp => a.0.exp(),
            UnaryOp::Log => a.0.ln(),
            UnaryOp::Log10 => a.0.log10(),
            UnaryOp::Abs => a.0.abs(),
            UnaryOp::Sqrt => a.0.sqrt(),
            UnaryOp::Sign => {
                if a.0 > 0.0 {
                    1.0
                } else if a.0 < 0.0 {
                    -1.0
                } else {
                    0.0
                }
            }
            UnaryOp::Floor => a.0.floor(),
            UnaryOp::Asin => a.0.asin(),
            UnaryOp::Acos => a.0.acos(),
            UnaryOp::Asinh => a.0.asinh(),
            UnaryOp::Acosh => a.0.acosh(),
            UnaryOp::Atanh => a.0.atanh(),
            UnaryOp::Ceil => a.0.ceil(),
            UnaryOp::Round => a.0.round(),
            UnaryOp::Trunc => a.0.trunc(),
            UnaryOp::Log2 => a.0.log2(),
            UnaryOp::Log1p => a.0.ln_1p(),
            UnaryOp::Expm1 => a.0.exp_m1(),
            UnaryOp::Cbrt => a.0.cbrt(),
            _ => unreachable!(),
        })
    }

    fn relation(op: CmpOp, a: Self, b: Self) -> Self {
        let holds = match op {
            CmpOp::Gt => a.0 > b.0,
            CmpOp::Ge => a.0 >= b.0,
            CmpOp::Lt => a.0 < b.0,
            CmpOp::Le => a.0 <= b.0,
            CmpOp::Eq => a.0 == b.0,
            CmpOp::Ne => a.0 != b.0,
        };
        Real(if holds { 1.0 } else { 0.0 })
    }

    fn identity(op: ReduceOp) -> Self {
        Real(match op {
            ReduceOp::Sum => 0.0,
            ReduceOp::Product => 1.0,
            ReduceOp::Min => f64::INFINITY,
            ReduceOp::Max => f64::NEG_INFINITY,
        })
    }

    fn combine(op: ReduceOp, acc: Self, v: Self) -> Self {
        Real(match op {
            ReduceOp::Sum => acc.0 + v.0,
            ReduceOp::Product => acc.0 * v.0,
            ReduceOp::Min => acc.0.min(v.0),
            ReduceOp::Max => acc.0.max(v.0),
        })
    }
}

fn reals(v: &[f64]) -> Vec<Real> {
    v.iter().map(|x| Real(*x)).collect()
}

fn floats(v: &[Real]) -> Vec<f64> {
    v.iter().map(|x| x.0).collect()
}

/// Factorizations of faer.
struct Faer;

impl Backend<Real> for Faer {
    type Dense = PartialPivLu<f64>;

    type Matrix = SparseColMat<usize, f64>;

    type Symbolic = SymbolicLu<usize>;

    type Sparse = SparseLu<usize, f64>;

    type Column = Mat<f64>;

    type Svd = Svd<f64>;

    fn dense_lu(a: &Vec<Real>, n: usize) -> Self::Dense {
        Mat::<f64>::from_fn(n, n, |i, j| a[i * n + j].0).partial_piv_lu()
    }

    fn sparse_matrix(entries: &Vec<Entry<Real>>, n: usize) -> Option<Self::Matrix> {
        let list: Vec<Triplet<usize, usize, f64>> =
            entries.iter().map(|e| Triplet::new(e.row, e.col, e.value.0)).collect();
        SparseColMat::try_new_from_triplets(n, n, &list).ok()
    }

    fn symbolic(m: &Self::Matrix) -> Option<Self::Symbolic> {
        SymbolicLu::try_new(m.symbolic()).ok()
    }

    fn sparse_lu(sym: &Self::Symbolic, m: &Self::Matrix) -> Option<Self::Sparse> {
        SparseLu::try_new_with_symbolic(sym.clone(), m.as_ref()).ok()
    }

    fn dense_solve(lu: &Self::Dense, rhs: &Vec<Real>) -> Self::Column {
        let mut b = Mat::<f64>::from_fn(rhs.len(), 1, |i, _| rhs[i].0);
        lu.solve_in_place_with_conj(Conj::No, b.as_mut());
        b
    }

    fn sparse_solve(lu: &Self::Sparse, rhs: &Vec<Real>) -> Self::Column {
        let mut b = Mat::<f64>::from_fn(rhs.len(), 1, |i, _| rhs[i].0);
        lu.solve_in_place_with_conj(Conj::No, b.as_mut());
        b
    }

    fn component(c: &Self::Column, i: usize) -> Real {
        Real(c[(i, 0)])
    }

    fn thin_svd(m: &Vec<Real>, rows: usize, cols: usize) -> Option<Self::Svd> {
        let a = Mat::<f64>::from_fn(rows, cols, |i, j| m[i * cols + j].0);
        Svd::new_thin(a.as_ref()).ok()
    }

    fn left(svd: &Self::Svd, i: usize, j: usize) -> Real {
        Real(svd.U()[(i, j)])
    }

    fn right(svd: &Self::Svd, i: usize, j: usize) -> Real {
        Real(svd.V()[(i, j)])
    }

    fn singular(svd: &Self::Svd, i: usize) -> Real {
        Real(svd.S().column_vector()[i])
    }
}

/// What a block of the test system computes.
enum Kind {
    Constant(f64),
    /// `y = gain * (sum of inputs)`.
    Gain(f64),
    /// `x' = rate * x + u`, `y = x`.
    Lag { rate: f64, start: f64 },
    Recorder(Vec<(f64, f64)>),
}

struct Part {
    kind: Kind,
    u: [f64; 2],
    y: f64,
    x: f64,
    kept: f64,
    period_start: f64,
    active: bool,
    events: Vec<u64>,
    solver: Option<u64>,
}

impl Part {
    fn new(kind: Kind) -> Self {
        let x = match kind {
            Kind::Lag { start, .. } => start,
            _ => 0.0,
        };
        Part {
            kind,
            u: [0.0; 2],
            y: 0.0,
            x,
            kept: x,
            period_start: x,
            active: true,
            events: vec![],
            solver: None,
        }
    }
}

/// An event with a guard on time.
struct Watch {
    guard: fn(f64) -> f64,
    tolerance: f64,
    before: f64,
    fired: usize,
    due: Option<f64>,
}

impl Watch {
    fn new(guard: fn(f64) -> f64, tolerance: f64) -> Self {
        Watch { guard, tolerance, before: 0.0, fired: 0, due: None }
    }
}

const EULER: u64 = 1;
const BACKWARD: u64 = 2;
const ADAPTIVE: u64 = 3;
const STEADY: u64 = 4;
const SHOOTING: u64 = 5;

/// A system of few blocks, integrated by Euler's methods.
#[derive(Default)]
struct Plant {
    parts: HashMap<u64, Part>,
    wires: HashMap<u64, (u64, u64, usize)>,
    bad_wires: Vec<u64>,
    watches: HashMap<u64, Watch>,
    solver: u64,
    stop_at: Option<f64>,
    stop: bool,
    ticks: usize,
    clock: f64,
    watch: f64,
    pace: f64,
    reports: Vec<(f64, bool, f64)>,
    history: usize,
    order: Vec<u64>,
    on_event: Option<PendingOp>,
    asked: Vec<PendingOp>,
}

impl Plant {
    fn with(mut self, key: u64, kind: Kind) -> Self {
        self.parts.insert(key, Part::new(kind));
        self
    }

    fn wired(mut self, key: u64, from: u64, to: u64, port: usize) -> Self {
        self.wires.insert(key, (from, to, port));
        self
    }

    fn watching(mut self, key: u64, watch: Watch) -> Self {
        self.watches.insert(key, watch);
        self
    }

    fn part(&mut self, block: u64) -> &mut Part {
        self.parts.get_mut(&block).unwrap()
    }

    fn state(&self, block: u64) -> f64 {
        self.parts[&block].x
    }

    fn recorded(&self, block: u64) -> Vec<(f64, f64)> {
        match &self.parts[&block].kind {
            Kind::Recorder(list) => list.clone(),
            _ => panic!("no recorder"),
        }
    }
}

impl Runtime<Real> for Plant {
    fn block_active(&self, block: u64) -> bool {
        self.parts[&block].active
    }

    fn update_block(&mut self, block: u64, t: Real) {
        if let Some(limit) = self.stop_at {
            if t.0 >= limit {
                self.stop = true;
            }
        }
        let p = self.part(block);
        p.y = match p.kind {
            Kind::Constant(v) => v,
            Kind::Gain(k) => k * (p.u[0] + p.u[1]),
            Kind::Lag { .. } => p.x,
            Kind::Recorder(_) => 0.0,
        };
    }

    fn solve_block(&mut self, block: u64, _t: Real, dt: Real) -> Real {
        let steady = self.solver == STEADY;
        let p = self.part(block);
        let rate = match p.kind {
            Kind::Lag { rate, .. } => rate,
            _ => 0.0,
        };
        let next = if steady {
            -p.u[0] / rate
        } else {
            (p.kept + dt.0 * p.u[0]) / (1.0 - dt.0 * rate)
        };
        let change = (next - p.x).abs();
        p.x = next;
        Real(change * 1e6)
    }

    fn step_block(&mut self, block: u64, _t: Real, dt: Real) -> (bool, Real, Option<Real>) {
        let explicit = self.solver == EULER || self.solver == ADAPTIVE || self.solver == SHOOTING;
        let adaptive = self.solver == ADAPTIVE;
        self.clock += self.pace;
        self.watch += self.pace;
        let p = self.part(block);
        if let Kind::Lag { rate, .. } = p.kind {
            if explicit {
                p.x = p.kept + dt.0 * (rate * p.kept + p.u[0]);
            }
        }
        if adaptive && dt.0 > 0.05 {
            return (false, Real(2.0), Some(Real(0.5)));
        }
        (true, Real(if adaptive { 0.5 } else { 0.0 }), None)
    }

    fn revert_block(&mut self, block: u64) {
        let p = self.part(block);
        p.x = p.kept;
    }

    fn sample_block(&mut self, block: u64, t: Real, _dt: Real) {
        let p = self.part(block);
        let u = p.u[0];
        if let Kind::Recorder(list) = &mut p.kind {
            list.push((t.0, u));
        }
    }

    fn buffer_block(&mut self, block: u64, _dt: Real) {
        let p = self.part(block);
        p.kept = p.x;
    }

    fn reset_block(&mut self, block: u64) {
        let p = self.part(block);
        match &mut p.kind {
            Kind::Lag { start, .. } => p.x = *start,
            Kind::Recorder(list) => list.clear(),
            _ => {}
        }
        p.u = [0.0; 2];
        p.y = 0.0;
    }

    fn reset_inputs(&mut self, block: u64) {
        self.part(block).u = [0.0; 2];
    }

    fn set_block_stage(&mut self, _block: u64, _stage: usize) {}

    fn predict_stage(&mut self, _block: u64, _dt: Real) {}

    fn set_block_solver(&mut self, block: u64, solver: u64) {
        self.part(block).solver = Some(solver);
    }

    fn set_block_history(&mut self, _block: u64, m: usize) {
        self.history = m;
    }

    fn has_engine(&self, block: u64) -> bool {
        matches!(self.parts[&block].kind, Kind::Lag { .. })
    }

    fn has_events(&self, block: u64) -> bool {
        !self.parts[&block].events.is_empty()
    }

    fn is_recorder(&self, block: u64) -> bool {
        matches!(self.parts[&block].kind, Kind::Recorder(_))
    }

    fn block_size(&self, block: u64) -> (usize, usize) {
        (1, if self.has_engine(block) { 1 } else { 0 })
    }

    fn block_events(&self, block: u64) -> Vec<u64> {
        self.parts[&block].events.clone()
    }

    fn port_shape(&self, block: u64) -> (usize, usize, Vec<bool>) {
        match self.parts[&block].kind {
            Kind::Constant(_) => (0, 1, vec![]),
            Kind::Gain(_) => (2, 1, vec![true, true]),
            Kind::Lag { .. } => (1, 1, vec![false]),
            Kind::Recorder(_) => (1, 0, vec![]),
        }
    }

    fn start_period(&mut self, block: u64) {
        let p = self.part(block);
        p.period_start = p.x;
    }

    fn close_period(&mut self, block: u64) -> Real {
        let p = self.part(block);
        let miss = (p.x - p.period_start).abs();
        p.period_start = p.x;
        Real(miss)
    }

    fn connection_active(&self, _conn: u64) -> bool {
        true
    }

    fn transfer(&mut self, conn: u64) {
        let (from, to, port) = self.wires[&conn];
        let y = self.parts[&from].y;
        self.part(to).u[port] = y;
    }

    fn resolve_ports(&mut self, conn: u64) -> Result<ConnModel, SimError<Real>> {
        if self.bad_wires.contains(&conn) {
            return Err(SimError::UnknownPort("nonexistent".to_string()));
        }
        let (from, to, port) = self.wires[&conn];
        Ok(ConnModel {
            source: PortModel { block: from, indices: vec![0] },
            targets: vec![PortModel { block: to, indices: vec![port] }],
        })
    }

    fn source_values(&self, conn: u64) -> Vec<Real> {
        vec![Real(self.parts[&self.wires[&conn].0].y)]
    }

    fn set_targets(&mut self, conn: u64, values: &Vec<Real>) {
        let (_, to, port) = self.wires[&conn];
        self.part(to).u[port] = values[0].0;
    }

    fn event_active(&self, _event: u64) -> bool {
        true
    }

    fn estimate(&self, event: u64, t: Real) -> Option<Real> {
        self.watches[&event].due.map(|due| Real(due - t.0))
    }

    fn detect(&mut self, event: u64, t: Real) -> (bool, bool, Real) {
        let w = &self.watches[&event];
        if let Some(due) = w.due {
            let hit = w.fired == 0 && t.0 >= due - w.tolerance;
            return (hit, hit, Real(1.0));
        }
        let now = (w.guard)(t.0);
        let crossed = w.before * now < 0.0;
        (crossed, crossed && now.abs() < w.tolerance, Real(w.before.abs() / (w.before - now).abs()))
    }

    fn resolve(&mut self, event: u64, t: Real) {
        let w = self.watches.get_mut(&event).unwrap();
        w.fired += 1;
        w.before = (w.guard)(t.0);
        self.order.push(event);
        self.asked.extend(self.on_event);
    }

    fn buffer_event(&mut self, event: u64, t: Real) {
        let w = self.watches.get_mut(&event).unwrap();
        w.before = (w.guard)(t.0);
    }

    fn reset_event(&mut self, event: u64) {
        let w = self.watches.get_mut(&event).unwrap();
        w.fired = 0;
        w.before = 0.0;
    }

    fn set_engine(&mut self, solver: u64) {
        self.solver = solver;
    }

    fn engine_solver(&self) -> u64 {
        self.solver
    }

    fn engine_reset(&mut self) {}

    fn engine_revert(&mut self) {}

    fn engine_buffer(&mut self, _dt: Real) {}

    fn engine_adaptive(&self) -> bool {
        self.solver == ADAPTIVE
    }

    fn engine_implicit(&self) -> bool {
        self.solver == BACKWARD
    }

    fn engine_stages(&self) -> usize {
        1
    }

    fn stage_time(&self, _stage: usize, t: Real, dt: Real) -> Real {
        if self.solver == BACKWARD {
            Real(t.0 + dt.0)
        } else {
            t
        }
    }

    fn set_stage(&mut self, _stage: usize) {}

    fn set_engine_history(&mut self, m: usize) {
        self.history = m;
    }

    fn tolerances(&self) -> (Real, Real) {
        (Real(1e-9), Real(1e-9))
    }

    fn schedule(
        &mut self,
        specs: &Vec<(usize, usize, usize)>,
        shapes: &Vec<Feedthrough>,
        _edges: &Vec<PortEdge>,
    ) -> Schedule {
        let direct = |i: usize| shapes[i].mask.iter().any(|m| *m);
        let leaving =
            |i: usize| specs.iter().filter(|s| s.0 == i).map(|s| s.2).collect::<Vec<usize>>();
        let mut placed = vec![false; shapes.len()];
        let mut dag: Vec<Level> = vec![];
        loop {
            let ready: Vec<usize> = (0..shapes.len())
                .filter(|i| !placed[*i])
                .filter(|i| !direct(*i) || specs.iter().all(|s| s.1 != *i || placed[s.0]))
                .collect();
            if ready.is_empty() {
                break;
            }
            for i in &ready {
                placed[*i] = true;
            }
            let connections = ready.iter().flat_map(|i| leaving(*i)).collect();
            dag.push(Level { blocks: ready, connections });
        }
        let rest: Vec<usize> = (0..shapes.len()).filter(|i| !placed[*i]).collect();
        let closing: Vec<usize> = specs
            .iter()
            .filter(|s| rest.contains(&s.0) && rest.contains(&s.1) && s.1 <= s.0)
            .map(|s| s.2)
            .collect();
        let loops: Vec<Level> = rest
            .iter()
            .map(|i| Level {
                blocks: vec![*i],
                connections: leaving(*i).into_iter().filter(|c| !closing.contains(c)).collect(),
            })
            .collect();
        let has_loops = !rest.is_empty();
        Schedule { dag, loops, closing, has_loops }
    }

    fn steady_solver(&self) -> u64 {
        STEADY
    }

    fn default_solver(&self) -> u64 {
        EULER
    }

    fn period_solver(&mut self, _inner: u64, _period: Real, history: usize) -> u64 {
        self.history = history;
        SHOOTING
    }

    fn take_changes(&mut self) -> Vec<PendingOp> {
        std::mem::take(&mut self.asked)
    }

    fn take_stop(&mut self) -> bool {
        let stop = self.stop;
        self.stop = false;
        if stop {
            self.stop_at = None;
        }
        stop
    }

    fn start_clock(&mut self) {
        self.clock = 0.0;
    }

    fn tick_due(&mut self, _interval: Real) -> bool {
        self.ticks += 1;
        self.ticks % 10 == 0
    }

    fn wall_elapsed(&self) -> Real {
        Real(self.clock)
    }

    fn start_watch(&mut self) {
        self.watch = 0.0;
    }

    fn watch_elapsed(&self) -> Real {
        Real(self.watch)
    }

    fn report(&mut self, progress: Real, success: bool, dt: Real) {
        self.reports.push((progress.0, success, dt.0));
    }

    fn pause(&mut self) {
        self.clock += 0.0625;
    }
}

type Sim = Simulation<Real, Faer, Plant>;

fn empty() -> Sim {
    Simulation::with_defaults(vec![], vec![], Plant::default())
}

/// A constant input to a lag, and a recorder of its output.
fn lag(rate: f64, input: f64, start: f64) -> Sim {
    let plant = Plant::default()
        .with(1, Kind::Constant(input))
        .with(2, Kind::Lag { rate, start })
        .with(3, Kind::Recorder(vec![]))
        .wired(10, 1, 2, 0)
        .wired(11, 2, 3, 0);
    Simulation::with_defaults(vec![1, 2, 3], vec![10, 11], plant)
}

#[test]
fn test_simulation_empty() {
    let sim = empty();
    assert_eq!(sim.time, Real(0.0));
    assert!(sim.blocks.is_empty());
    assert!(sim.connections.is_empty());
}

#[test]
fn test_simulation_size() {
    let mut sim = empty();
    assert_eq!(sim.size(), (0, 0));
}

#[test]
fn test_simulation_run_empty() {
    let mut sim = empty();
    let stats = sim.run(Real(1.0), false, false);
    assert!(stats.total_steps > 0);
    assert!((sim.time.0 - 1.0).abs() < 0.02);
}

#[test]
fn test_simulation_stop() {
    let mut sim = empty();
    assert!(sim.is_active());
    sim.stop();
    assert!(!sim.is_active());
}

#[test]
fn bad_port_alias_surfaces_cleanly_without_panic() {
    let mut plant = Plant::default()
        .with(1, Kind::Constant(1.0))
        .with(2, Kind::Recorder(vec![]))
        .wired(10, 1, 2, 0);
    plant.bad_wires.push(10);
    let mut sim: Sim = Simulation::with_defaults(vec![1, 2], vec![10], plant);
    sim.run(Real(0.1), false, false);
    assert!(sim.take_assembly_error().is_some(), "bad alias must surface as an assembly error");
}

#[test]
fn test_event_livelock_force_resolves_at_dt_min() {
    let plant = Plant::default()
        .with(1, Kind::Constant(1.0))
        .with(2, Kind::Recorder(vec![]))
        .wired(10, 1, 2, 0)
        .watching(20, Watch::new(|t| if t < 1.0 { -1.0 } else { 1.0 }, 1e-9));
    let mut sim: Sim = Simulation::with_defaults(vec![1, 2], vec![10], plant);
    sim.add_event(20);
    sim.set_solver(ADAPTIVE);
    sim.dt = Real(0.1);
    sim.dt_min = Real(0.02);

    sim.run_begin(true, Real(2.0));
    let end_time = 2.0;
    let mut dt = sim.dt;
    let is_adaptive = sim.driver.runtime().engine_adaptive();
    assert!(is_adaptive, "test requires an adaptive engine");
    let mut steps = 0usize;
    const MAX_STEPS: usize = 100_000;
    while sim.time.0 < end_time {
        let (_ok, err, scale, _e, _i) = sim.timestep(Some(dt), is_adaptive);
        dt = sim.advance_dt(dt, err, scale, Real(end_time));
        steps += 1;
        assert!(
            steps < MAX_STEPS,
            "event localization livelocked (no time progress) at t={}",
            sim.time.0
        );
    }
    assert!(sim.driver.runtime().watches[&20].fired >= 1, "steep guard event never resolved");
    assert!(
        (sim.time.0 - end_time).abs() < 0.15,
        "run did not reach end_time, stuck at t={}",
        sim.time.0
    );
}

#[test]
fn test_simulation_reset() {
    let mut sim = empty();
    sim.run(Real(1.0), false, false);
    assert!(sim.time.0 > 0.0);
    sim.reset(Real(0.0));
    assert_eq!(sim.time, Real(0.0));
}

#[test]
fn test_convergence_tracker_integration() {
    let mut ct: ConvergenceTracker<Real> = ConvergenceTracker::new();
    ct.begin_iteration();
    ct.record(0, Real(1e-11));
    assert!(ct.converged(nls_coef()));
}

#[test]
fn test_step_tracker_integration() {
    let mut st: StepTracker<Real> = StepTracker::new();
    st.record(0, true, Real(0.0), None);
    assert!(st.success);
    assert_eq!(st.scale(), Real(1.0));
}

#[test]
fn trackers_keep_the_worst() {
    let mut ct: ConvergenceTracker<Real> = ConvergenceTracker::new();
    ct.begin_iteration();
    ct.record(4, Real(0.5));
    ct.record(7, Real(2.0));
    ct.record(9, Real(1.0));
    assert_eq!(ct.max_error, Real(2.0));
    assert_eq!(ct.worst(), Some(7));
    assert!(!ct.converged(Real(1.0)));
    assert!(ct.converged(Real(2.0)));
    ct.reset();
    assert_eq!(ct.worst(), None);

    let mut st: StepTracker<Real> = StepTracker::new();
    st.record(0, true, Real(0.1), Some(Real(0.9)));
    st.record(1, false, Real(1.5), Some(Real(0.4)));
    st.record(2, true, Real(0.2), Some(Real(3.0)));
    assert!(!st.success);
    assert_eq!(st.max_error, Real(1.5));
    assert_eq!(st.scale(), Real(0.4));
}

#[test]
fn euler_run_of_a_lag() {
    let mut sim = lag(-1.0, 0.0, 1.0);
    let stats = sim.run(Real(1.0), true, false);
    let x = sim.driver.runtime().state(2);
    assert!((x - 0.99f64.powi(stats.total_steps as i32)).abs() < 1e-12);
    assert_eq!(stats.total_steps, stats.successful_steps);
    assert_eq!(stats.rejected_steps, 0);
    assert!(stats.outcome.converged);
    assert!((sim.time.0 - 1.0).abs() < 0.011);
    let seen = sim.driver.runtime().recorded(3);
    assert_eq!(seen[0], (0.0, 1.0));
    assert_eq!(seen.len(), stats.total_steps + 1);
}

#[test]
fn implicit_run_of_a_lag() {
    let mut sim = lag(-1.0, 0.0, 1.0);
    sim.set_solver(BACKWARD);
    let stats = sim.run(Real(0.5), true, false);
    let x = sim.driver.runtime().state(2);
    assert!((x - 1.01f64.powi(-(stats.total_steps as i32))).abs() < 1e-12);
    assert!(stats.total_solver_its >= stats.total_steps);
}

#[test]
fn rejected_steps_are_taken_back() {
    let mut sim = lag(-1.0, 0.0, 1.0);
    sim.set_solver(ADAPTIVE);
    sim.dt = Real(0.2);
    let stats = sim.run(Real(1.0), true, true);
    assert!(stats.rejected_steps > 0);
    assert_eq!(stats.total_steps, stats.successful_steps + stats.rejected_steps);
    assert!((sim.time.0 - 1.0).abs() < 1e-12);
}

#[test]
fn algebraic_loop_is_solved() {
    // y = 0.5 * (1 + y) has the solution 1.
    let plant = Plant::default()
        .with(1, Kind::Constant(1.0))
        .with(2, Kind::Gain(0.5))
        .with(3, Kind::Recorder(vec![]))
        .wired(10, 1, 2, 0)
        .wired(11, 2, 2, 1)
        .wired(12, 2, 3, 0);
    let mut sim: Sim = Simulation::with_defaults(vec![1, 2, 3], vec![10, 11, 12], plant);
    assert!(sim.has_loops());
    assert_eq!(sim.boosters.len(), 1);
    let stats = sim.run(Real(0.05), true, false);
    assert!(stats.outcome.converged);
    let y = sim.driver.runtime().parts[&2].y;
    assert!((y - 1.0).abs() < 1e-6, "y={y}");
}

#[test]
fn unsolvable_loop_is_reported() {
    // y = 1 + y has no solution.
    let plant = Plant::default()
        .with(1, Kind::Constant(1.0))
        .with(2, Kind::Gain(1.0))
        .wired(10, 1, 2, 0)
        .wired(11, 2, 2, 1);
    let mut sim: Sim = Simulation::with_defaults(vec![1, 2], vec![10, 11], plant);
    sim.iterations_max = 5;
    sim.run_begin(true, Real(0.02));
    let stats = sim.run_until(Real(0.02), Real(0.02), false);
    sim.run_end();
    assert!(!stats.outcome.converged);
    assert_eq!(stats.outcome.truncated_at, None);
    assert_eq!(stats.outcome.worst_block, Some(0));
    let (residual, at) = outcome_warning(&stats).unwrap().residual.unwrap();
    assert_eq!(residual, stats.outcome.max_residual);
    assert_eq!(at, Some(0));
}

#[test]
fn operating_point() {
    let mut sim = lag(-2.0, 3.0, 0.0);
    sim.steadystate(true);
    assert!((sim.driver.runtime().state(2) - 1.5).abs() < 1e-12);
    assert_eq!(sim.solver, Some(EULER));
    assert_eq!(sim.driver.runtime().solver, EULER);
}

#[test]
fn search_reinstates_the_engine_of_a_simulation_without_solver() {
    let plain = || -> Sim {
        let mut plant = Plant::default()
            .with(1, Kind::Constant(2.0))
            .with(2, Kind::Lag { rate: -1.0, start: 0.0 })
            .wired(10, 1, 2, 0);
        plant.solver = BACKWARD;
        Simulation::new(
            vec![1, 2],
            vec![10],
            vec![],
            Real(0.01),
            Real(1e-12),
            None,
            200,
            false,
            plant,
        )
    };
    let mut sim = plain();
    assert_eq!(sim.solver, None);
    let engine = sim.driver.runtime().solver;
    assert_ne!(engine, STEADY);
    sim.steadystate(true);
    assert!((sim.driver.runtime().state(2) - 2.0).abs() < 1e-12);
    assert_eq!(sim.solver, None);
    assert_eq!(sim.driver.runtime().solver, engine);
    assert_eq!(sim.driver.runtime().parts[&2].solver, Some(engine));
    let mut sim = plain();
    let stats = sim.periodic_steady_state(Real(5.0), EULER, false, true);
    assert!(stats.outcome.converged);
    assert_eq!(sim.solver, None);
    assert_eq!(sim.driver.runtime().solver, engine);
    assert_eq!(sim.driver.runtime().parts[&2].solver, Some(engine));
}

#[test]
fn limit_cycle() {
    let mut sim = lag(-1.0, 2.0, 0.0);
    let stats = sim.periodic_steady_state(Real(5.0), EULER, false, true);
    assert!(stats.outcome.converged);
    assert!((sim.driver.runtime().state(2) - 2.0).abs() < 1e-3);
    assert!(sim.driver.runtime().history > 0);
    assert_eq!(sim.solver, Some(EULER));
    assert!(stats.total_steps > 1000);
}

#[test]
fn chunks_of_a_run_go_on_where_the_last_ended() {
    let mut sim = lag(-1.0, 0.0, 1.0);
    sim.run_begin(true, Real(1.0));
    let first = sim.run_until(Real(0.5), Real(1.0), false);
    assert!(sim.time.0 >= 0.5);
    let second = sim.run_until(Real(1.0), Real(1.0), false);
    sim.run_end();
    let mut whole = lag(-1.0, 0.0, 1.0);
    let stats = whole.run(Real(1.0), true, false);
    assert_eq!(first.total_steps + second.total_steps, stats.total_steps);
    assert_eq!(sim.driver.runtime().state(2), whole.driver.runtime().state(2));
}

#[test]
fn stopped_run_makes_no_step() {
    let mut sim = lag(-1.0, 0.0, 1.0);
    sim.run_begin(true, Real(1.0));
    sim.stop();
    let stats = sim.run_until(Real(1.0), Real(1.0), false);
    assert_eq!(stats.total_steps, 0);
    assert_eq!(sim.time, Real(0.0));
}

#[test]
fn request_to_stop_ends_a_run() {
    let mut sim = lag(-1.0, 0.0, 1.0);
    sim.driver.lend().stop_at = Some(0.3);
    sim.run(Real(1.0), true, false);
    assert!(sim.time.0 >= 0.3 && sim.time.0 < 0.35, "t={}", sim.time.0);
    assert!(!sim.is_active());
}

#[test]
fn known_events_are_hit() {
    let mut plant = Plant::default().with(1, Kind::Lag { rate: -1.0, start: 1.0 });
    let mut watch = Watch::new(|_t| 0.0, 1e-12);
    watch.due = Some(0.133);
    plant.watches.insert(20, watch);
    let mut sim: Sim = Simulation::with_defaults(vec![1], vec![], plant);
    sim.add_event(20);
    sim.set_solver(ADAPTIVE);
    sim.run(Real(0.5), true, true);
    assert_eq!(sim.driver.runtime().watches[&20].fired, 1);
}

#[test]
fn smallest_step_bounds_the_next() {
    let mut sim = empty();
    sim.dt_min = Real(0.02);
    let dt = sim.advance_dt(Real(0.1), Real(0.5), Real(0.001), Real(10.0));
    assert_eq!(dt, Real(0.02));
    sim.dt_max = Some(Real(0.3));
    let dt = sim.advance_dt(Real(0.1), Real(0.5), Real(8.0), Real(10.0));
    assert_eq!(dt, Real(0.3));
    assert_eq!(clamp(Real(2.0), Real(0.0), Real(1.0)), Real(1.0));
}

#[test]
fn streaming_reports_the_end() {
    let mut sim = lag(-1.0, 0.0, 1.0);
    sim.run_streaming(Real(0.5), true, false, Real(10.0));
    let reports = &sim.driver.runtime().reports;
    assert!(reports.len() > 2);
    assert!(reports.windows(2).all(|w| w[0].0 <= w[1].0));
    let (progress, success, _) = reports[reports.len() - 1];
    assert_eq!(progress, 1.0);
    assert!(success);
}

#[test]
fn streams_open_with_a_clear_outcome() {
    let plant = Plant::default()
        .with(1, Kind::Constant(1.0))
        .with(2, Kind::Gain(1.0))
        .wired(10, 1, 2, 0)
        .wired(11, 2, 2, 1);
    let mut sim: Sim = Simulation::with_defaults(vec![1, 2], vec![10, 11], plant);
    sim.iterations_max = 5;
    sim.run(Real(0.02), true, false);
    assert!(!sim.outcome.converged);
    // A run of no duration leaves the outcome as it was opened.
    sim.remove_connection(11);
    sim.run_streaming(Real(0.0), true, false, Real(10.0));
    assert!(sim.outcome.converged);
    assert_eq!(sim.outcome.worst_block, None);
    let mut again = lag(-1.0, 0.0, 1.0);
    again.outcome.converged = false;
    again.run_realtime(Real(0.1), true, false, Real(10.0), Real(2.0));
    assert!(again.outcome.converged);
}

#[test]
fn adapted_steps_move_time_if_they_succeed() {
    let mut sim = lag(-1.0, 0.0, 1.0);
    sim.set_solver(ADAPTIVE);
    let (success, _, _, _, _) = sim.timestep(Some(Real(0.1)), true);
    assert!(!success);
    assert_eq!(sim.time, Real(0.0));
    let (success, _, _, _, _) = sim.timestep(Some(Real(0.03125)), true);
    assert!(success);
    assert_eq!(sim.time, Real(0.03125));
    // A step that is not adapted moves time whatever the engine says.
    let (success, _, _, _, _) = sim.timestep(Some(Real(0.125)), false);
    assert!(!success);
    assert_eq!(sim.time, Real(0.15625));
}

#[test]
fn realtime_waits_for_the_clock() {
    let mut sim = lag(-1.0, 0.0, 1.0);
    sim.run_realtime(Real(0.5), true, false, Real(10.0), Real(2.0));
    assert!(sim.time.0 >= 0.5);
    assert!(sim.driver.runtime().clock >= 0.2);
    let reports = &sim.driver.runtime().reports;
    assert_eq!(reports[reports.len() - 1].0, 1.0);
}

#[test]
fn topology_changes_are_checked() {
    let mut sim = lag(-1.0, 0.0, 1.0);
    assert!(matches!(sim.add_block(1), Err(SimError::DuplicateBlock)));
    assert!(matches!(sim.remove_block(99), Err(SimError::BlockNotFound)));
    assert!(matches!(sim.remove_connection(99), Err(SimError::ConnectionNotFound)));
    assert!(matches!(sim.remove_event(99), Err(SimError::EventNotFound)));
    assert!(sim.contains_block(2));
    assert_eq!(sim.num_dynamic_blocks(), 1);
    assert_eq!(sim.size(), (3, 1));
    sim.remove_connection(11).unwrap();
    sim.remove_block(3).unwrap();
    assert_eq!(sim.blocks, vec![1, 2]);
    assert!(sim.graph_dirty);
    sim.driver.lend().parts.insert(4, Part::new(Kind::Gain(1.0)));
    sim.add_block(4).unwrap();
    assert_eq!(sim.driver.runtime().parts[&4].solver, Some(EULER));
    sim.driver.lend().wires.insert(12, (2, 4, 0));
    sim.add_connection(12);
    sim.run(Real(0.02), true, false);
    assert!(!sim.graph_dirty);
}

#[test]
fn changes_during_a_run_wait_for_the_next_step() {
    let mut sim = lag(-1.0, 0.0, 1.0);
    sim.run_begin(true, Real(1.0));
    sim.change(true, Change::RemoveConnection, &vec![11]).unwrap();
    sim.change(true, Change::RemoveBlock, &vec![3]).unwrap();
    assert_eq!(
        sim.pending_ops,
        vec![PendingOp::RemoveConnection(11), PendingOp::RemoveBlock(3)]
    );
    assert_eq!(sim.blocks, vec![1, 2, 3]);
    sim.timestep(None, false);
    assert!(sim.pending_ops.is_empty());
    assert_eq!(sim.blocks, vec![1, 2]);
    assert_eq!(sim.connections, vec![10]);
    assert!(sim.change(false, Change::AddBlock, &vec![1]).is_err());
    assert!(sim.change(false, Change::RemoveEvent, &vec![77]).is_err());
    assert!(sim.contains_connection(10));
    assert!(!sim.contains_connection(11));
}

#[test]
fn changes_asked_for_by_an_event_are_made_at_the_next_step() {
    let mut plant = Plant::default()
        .with(1, Kind::Constant(1.0))
        .with(2, Kind::Lag { rate: -1.0, start: 0.0 })
        .wired(10, 1, 2, 0);
    let mut watch = Watch::new(|_t| 0.0, 1e-12);
    watch.due = Some(0.02);
    plant.watches.insert(20, watch);
    plant.on_event = Some(PendingOp::RemoveConnection(10));
    let mut sim: Sim = Simulation::with_defaults(vec![1, 2], vec![10], plant);
    sim.add_event(20);
    sim.timestep(Some(Real(0.01)), false);
    assert_eq!(sim.driver.runtime().watches[&20].fired, 0);
    sim.timestep(Some(Real(0.01)), false);
    assert_eq!(sim.driver.runtime().watches[&20].fired, 1);
    assert_eq!(sim.connections, vec![10]);
    sim.timestep(Some(Real(0.01)), false);
    assert!(sim.connections.is_empty());
    assert!(sim.pending_ops.is_empty());
}

#[test]
fn signals_are_read_once() {
    let mut s: RunSignals<Real> = RunSignals::new();
    assert!(!take_stop_requested(&mut s));
    request_stop(&mut s);
    assert!(take_stop_requested(&mut s));
    assert!(!take_stop_requested(&mut s));
    record_runtime_fault(&mut s, SimError::Runtime("first".to_string()));
    record_runtime_fault(&mut s, SimError::Runtime("second".to_string()));
    assert!(s.stop_requested);
    match take_runtime_fault(&mut s) {
        Some(SimError::Runtime(m)) => assert_eq!(m, "first"),
        other => panic!("unexpected {other:?}"),
    }
    assert!(take_runtime_fault(&mut s).is_none());
    clear_stop_requested(&mut s);
    assert!(!s.stop_requested);
}

#[test]
fn errors_of_a_run_surface_in_order() {
    let mut sim = empty();
    let mut calls: CallbackSignals<Real, &str> = CallbackSignals::new();
    assert!(surface_run_errors(&mut sim, &mut calls).is_ok());
    calls.report_callback_error(true, "stop");
    assert!(calls.pending.is_none());
    calls.report_callback_error(false, "oops");
    calls.report_callback_error(false, "again");
    assert!(calls.signals.stop_requested);
    sim.assembly_error = Some(SimError::UnknownPort("p".to_string()));
    assert!(matches!(
        surface_run_errors(&mut sim, &mut calls),
        Err(RunError::Simulation(SimError::UnknownPort(_)))
    ));
    record_runtime_fault(&mut calls.signals, SimError::Runtime("bad".to_string()));
    assert!(matches!(
        surface_run_errors(&mut sim, &mut calls),
        Err(RunError::Simulation(SimError::Runtime(_)))
    ));
    match surface_run_errors(&mut sim, &mut calls) {
        Err(RunError::Callback(e)) => assert_eq!(e, "oops"),
        other => panic!("unexpected {other:?}"),
    }
    assert!(surface_run_errors(&mut sim, &mut calls).is_ok());
    calls.reset_run_signals();
    assert!(!calls.signals.stop_requested);
}

#[test]
fn diagnostics_are_kept_when_asked_for() {
    let plant = Plant::default().with(1, Kind::Lag { rate: -1.0, start: 1.0 });
    let mut sim: Sim = Simulation::new(
        vec![1],
        vec![],
        vec![],
        Real(0.01),
        Real(1e-16),
        None,
        200,
        true,
        plant,
    );
    assert_eq!(sim.solver, None);
    sim.set_solver(EULER);
    sim.run(Real(0.05), true, false);
    let last = sim.last_diagnostics().expect("diagnostics");
    assert!((last.time.0 - sim.time.0).abs() < 1e-12);
    assert!(last.step.success);

    let mut quiet = lag(-1.0, 0.0, 1.0);
    quiet.run(Real(0.05), true, false);
    assert!(quiet.last_diagnostics().is_none());
}

#[test]
fn connections_become_edges_between_ports() {
    let conns = vec![ConnModel {
        source: PortModel { block: 7, indices: vec![0, 1] },
        targets: vec![
            PortModel { block: 8, indices: vec![2, 3] },
            PortModel { block: 99, indices: vec![0, 1] },
        ],
    }];
    let (specs, edges) = assemble_graph_from(&vec![7, 8], &conns);
    assert_eq!(specs, vec![(0, 1, 0)]);
    assert_eq!(
        edges,
        vec![
            PortEdge { src: 0, out_port: 0, tgt: 1, in_port: 2 },
            PortEdge { src: 0, out_port: 1, tgt: 1, in_port: 3 },
        ]
    );
    assert_eq!(index_of(&vec![7, 8], 8), Some(1));
    assert_eq!(index_of(&vec![7, 8], 9), None);
}

#[test]
fn optimizer_history_reaches_the_engine() {
    let mut sim = lag(-1.0, 0.0, 1.0);
    sim.set_optimizer_history(7);
    assert_eq!(sim.driver.runtime().history, 7);
}

fn choices() -> Choices<Real> {
    Choices {
        dt: Real(0.02),
        dt_min: Real(1e-12),
        dt_max: Some(Real(0.5)),
        solver: None,
        iterations_max: 17,
        diagnostics: true,
        history: Some(3),
    }
}

#[test]
fn chosen_settings_are_taken_over() {
    let plant = Plant::default()
        .with(1, Kind::Lag { rate: -1.0, start: 1.0 })
        .watching(20, Watch::new(|_t| 1.0, 1e-9));
    let (sim, retired): (Sim, bool) =
        build_simulation(vec![1], vec![], &vec![20], choices(), &vec![], plant).unwrap();
    assert!(!retired);
    assert_eq!(sim.dt, Real(0.02));
    assert_eq!(sim.dt_min, Real(1e-12));
    assert_eq!(sim.dt_max, Some(Real(0.5)));
    assert_eq!(sim.iterations_max, 17);
    assert_eq!(sim.solver, Some(EULER));
    assert_eq!(sim.events, vec![20]);
    assert!(sim.diagnostics.is_some());
    assert_eq!(sim.driver.runtime().history, 3);
}

#[test]
fn keywords_are_checked() {
    let built: Result<(Sim, bool), _> = build_simulation(
        vec![],
        vec![],
        &vec![],
        choices(),
        &vec!["tolerance_fpi"],
        Plant::default(),
    );
    assert!(built.unwrap().1);
    let built: Result<(Sim, bool), _> =
        build_simulation(vec![], vec![], &vec![], choices(), &vec!["colour"], Plant::default());
    assert!(built.is_err());
}

#[test]
fn statistics_have_names() {
    let mut sim = lag(-1.0, 0.0, 1.0);
    let stats = sim.run(Real(0.1), true, false);
    let entries = stats_entries(&stats, true);
    let value = |name: &str| entries.iter().find(|e| e.name == name).unwrap().value.0;
    assert_eq!(value("total_steps"), stats.total_steps as f64);
    assert_eq!(value("converged"), 1.0);
    assert!(value("truncated_at").is_nan());
    assert!(outcome_warning(&stats).is_none());
}

#[test]
fn labels_name_blocks_and_accelerators() {
    let labels = vec!["plant".to_string()];
    assert_eq!(block_label(&labels, 0), "plant");
    assert_eq!(block_label(&labels, 12), "Block_12");
    assert_eq!(booster_label(3), "Booster_3");
}

#[test]
fn attached_events_are_not_doubled() {
    let mut events = vec![4];
    attach_event(&mut events, 5);
    attach_event(&mut events, 5);
    attach_event(&mut events, 4);
    assert_eq!(events, vec![4, 5]);
}

#[test]
fn adopted_behaviour_keeps_its_place() {
    let mut this = Placed { behaviour: "old", inputs: 1, outputs: 2, engine: 3 };
    let mut fresh = Placed { behaviour: "new", inputs: 4, outputs: 5, engine: 6 };
    adopt(&mut this, &mut fresh);
    assert_eq!(this.behaviour, "new");
    assert_eq!((this.inputs, this.outputs, this.engine), (1, 2, 3));
    assert_eq!(fresh.behaviour, "old");
    assert_eq!((fresh.inputs, fresh.outputs, fresh.engine), (4, 5, 6));
}

#[test]
fn events_of_a_step_act_in_order_of_time() {
    let plant = Plant::default()
        .with(1, Kind::Lag { rate: -1.0, start: 1.0 })
        .watching(20, Watch::new(|t| t - 0.018, 1.0))
        .watching(21, Watch::new(|t| t - 0.012, 1.0));
    let mut sim: Sim = Simulation::with_defaults(vec![1], vec![], plant);
    sim.add_event(20);
    sim.add_event(21);
    sim.run(Real(0.05), true, false);
    assert_eq!(sim.driver.runtime().order, vec![21, 20]);
}

#[test]
fn runs_and_steps_are_timed() {
    let mut sim = lag(-1.0, 0.0, 1.0);
    sim.driver.lend().pace = 0.25;
    assert!(sim.take_wct_trace().is_empty());
    sim.timestep(None, false);
    assert!(sim.wct_trace.is_none());
    sim.enable_wct_trace();
    let stats = sim.run(Real(0.05), true, false);
    assert!(stats.total_steps >= 5);
    assert_eq!(stats.wall_time_secs.0, 0.25 * stats.total_steps as f64);
    let entries = stats_entries(&stats, true);
    assert_eq!(entries[9].name, "runtime_ms");
    assert_eq!(entries[9].value.0, 250.0 * stats.total_steps as f64);
    assert_eq!(stats_entries(&stats, false).len(), 9);
    assert_eq!(sim.take_wct_trace(), vec![Real(0.25); stats.total_steps]);
    sim.timestep(None, false);
    assert_eq!(sim.take_wct_trace(), vec![Real(0.25)]);
    assert_eq!(sim.wct_trace, Some(vec![]));
    sim.run_begin(false, Real(0.05));
    let end = Real(sim.time.0 + 0.05);
    let part = sim.run_until(end, end, false);
    assert_eq!(part.wall_time_secs.0, 0.0);
    let mut sim = lag(-1.0, 0.0, 1.0);
    sim.set_solver(ADAPTIVE);
    sim.dt = Real(0.2);
    sim.enable_wct_trace();
    let stats = sim.run(Real(1.0), true, true);
    assert!(stats.rejected_steps > 0);
    assert_eq!(sim.take_wct_trace().len(), stats.total_steps);
}

#[test]
fn periods_of_shooting_are_timed_together() {
    let mut sim = lag(-1.0, 2.0, 0.0);
    sim.driver.lend().pace = 0.25;
    let stats = sim.periodic_steady_state(Real(0.1), EULER, false, true);
    assert_eq!(stats.wall_time_secs.0, 0.25 * stats.total_steps as f64);
}

#[test]
fn integrations_end_with_an_error_or_with_rows() {
    let states = vec![vec![Real(1.0), Real(2.0)], vec![Real(3.0), Real(4.0)]];
    let times = vec![Real(0.0), Real(0.5)];
    let mut calls: CallbackSignals<Real, &str> = CallbackSignals::new();
    let (t, x) = finish_integration(&mut calls, times.clone(), &states, 2).unwrap();
    assert_eq!(t, times);
    assert_eq!(x, vec![Real(1.0), Real(2.0), Real(3.0), Real(4.0)]);
    calls.report_callback_error(false, "overflow");
    calls.report_callback_error(false, "later");
    assert_eq!(finish_integration(&mut calls, times.clone(), &states, 2), Err("overflow"));
    assert!(finish_integration(&mut calls, times, &vec![], 2).unwrap().1.is_empty());
}

#[test]
fn connections_with_an_end_outside_add_nothing() {
    let wire = |from: u64, to: &[u64]| ConnModel {
        source: PortModel { block: from, indices: vec![0] },
        targets: to.iter().map(|&b| PortModel { block: b, indices: vec![0] }).collect(),
    };
    let blocks = vec![7, 8, 9];
    let (specs, edges) = assemble_graph_from(&blocks, &vec![wire(7, &[8]), wire(8, &[9])]);
    assert_eq!(specs, vec![(0, 1, 0), (1, 2, 1)]);
    let with = vec![wire(7, &[8]), wire(99, &[8]), wire(8, &[9])];
    let (shifted, same) = assemble_graph_from(&blocks, &with);
    assert_eq!(shifted, vec![(0, 1, 0), (1, 2, 2)]);
    assert_eq!(same, edges);
    let with = vec![wire(7, &[8]), wire(8, &[9]), wire(8, &[98, 99])];
    assert_eq!(assemble_graph_from(&blocks, &with), (specs.clone(), edges));
    let with = vec![wire(7, &[99, 8]), wire(8, &[9])];
    assert_eq!(assemble_graph_from(&blocks, &with).0, specs);
}
