use fastsim::ir::builder::{
    build_from_ops, map_role, region_from_graph, region_from_graph_mem, split_port, GraphDecode,
    LeafOps, RegionRole, RoleFlags,
};
use fastsim::ir::eval::{eval_region, lut1d, EvalCtx, EvalError};
use fastsim::ir::graph::{
    DirSpec, DiscreteResolved, EventKindSpec, EventSpec, Graph, InputSignature, MemSpec,
    MemTarget, Node, RegionGraph, Slot, SlotKind,
};
use fastsim::ir::schema::{
    Block, BlockId, BlockRole, Child, ConnectionId, Direction, EventId, EventKind, ExternId,
    NodeId, Op, ParamValue, Region, ScheduleTimes, StateId, SubsystemId, Write,
};
use fastsim::ir::scope::{
    block_ops_to_ir_block, elems_of, module_from_sim, module_from_subsystem, opaque_block,
    opaque_event, sorted_unique, subsystem_to_ir,
};
use fastsim::model::{
    BlockModel, ConnModel, CrossDir, EventDescriptor, GraphAnalysis, Level, LoopModel, Operator,
    PortModel, ScopeModel,
};
use fastsim::scheduling::{scope_graph, InterfaceNode, Scheduler};
use fastsim::simulation::graph::{assemble_graph_from, unmanaged_blocks};
use fastsim::simulation::runtime::{Feedthrough, PortEdge};
use fastsim::scalar::{BinOp, CmpOp, ReduceOp, Scalar, UnaryOp};

/// Double-precision numbers.
#[derive(Debug, Clone, Copy, PartialEq)]
struct Real(f64);

impl Scalar for Real {
    fn zero() -> Self {
        Real(0.0)
    }

    fn one() -> Self {
        Real(1.0)
    }

    fn from_bits(bits: u64) -> Self {
        Real(f64::from_bits(bits))
    }

    fn ratio(num: u64, den: u64) -> Self {
        Real(num as f64 / den as f64)
    }

    fn from_count(n: usize) -> Self {
        Real(n as f64)
    }

    fn plus(self, rhs: Self) -> Self {
        Real(self.0 + rhs.0)
    }

    fn minus(self, rhs: Self) -> Self {
        Real(self.0 - rhs.0)
    }

    fn times(self, rhs: Self) -> Self {
        Real(self.0 * rhs.0)
    }

    fn over(self, rhs: Self) -> Self {
        Real(self.0 / rhs.0)
    }

    fn negated(self) -> Self {
        Real(-self.0)
    }

    fn fused(self, b: Self, c: Self) -> Self {
        Real(self.0.mul_add(b.0, c.0))
    }

    fn magnitude(self) -> Self {
        Real(self.0.abs())
    }

    fn root(self) -> Self {
        Real(self.0.sqrt())
    }

    fn larger(self, rhs: Self) -> Self {
        Real(self.0.max(rhs.0))
    }

    fn smaller(self, rhs: Self) -> Self {
        Real(self.0.min(rhs.0))
    }

    fn below(self, rhs: Self) -> bool {
        self.0 < rhs.0
    }

    fn at_most(self, rhs: Self) -> bool {
        self.0 <= rhs.0
    }

    fn same(self, rhs: Self) -> bool {
        self.0 == rhs.0
    }

    fn finite(self) -> bool {
        self.0.is_finite()
    }

    fn binary(op: BinOp, a: Self, b: Self) -> Self {
        Real(match op {
            BinOp::Add => a.0 + b.0,
            BinOp::Sub => a.0 - b.0,
            BinOp::Mul => a.0 * b.0,
            BinOp::Div => a.0 / b.0,
            BinOp::Pow => a.0.powf(b.0),
            BinOp::Mod => a.0 - b.0 * (a.0 / b.0).floor(),
            BinOp::Min => a.0.min(b.0),
            BinOp::Max => a.0.max(b.0),
            BinOp::Atan2 => a.0.atan2(b.0),
            BinOp::Hypot => a.0.hypot(b.0),
        })
    }

    fn unary(op: UnaryOp, a: Self) -> Self {
        Real(match op {
            UnaryOp::Neg => -a.0,
            UnaryOp::Sin => a.0.sin(),
            UnaryOp::Cos => a.0.cos(),
            UnaryOp::Tan => a.0.tan(),
            UnaryOp::Atan => a.0.atan(),
            UnaryOp::Sinh => a.0.sinh(),
            UnaryOp::Cosh => a.0.cosh(),
            UnaryOp::Tanh => a.0.tanh(),
            UnaryOp::Exp => a.0.exp(),
            UnaryOp::Log => a.0.ln(),
            UnaryOp::Log10 => a.0.log10(),
            UnaryOp::Abs => a.0.abs(),
            UnaryOp::Sqrt => a.0.sqrt(),
            UnaryOp::Sign => {
                if a.0 > 0.0 {
                    1.0
                } else if a.0 < 0.0 {
                    -1.0
                } else {
                    0.0
                }
            }
            UnaryOp::Floor => a.0.floor(),
            UnaryOp::Asin => a.0.asin(),
            UnaryOp::Acos => a.0.acos(),
            UnaryOp::Asinh => a.0.asinh(),
            UnaryOp::Acosh => a.0.acosh(),
            UnaryOp::Atanh => a.0.atanh(),
            UnaryOp::Ceil => a.0.ceil(),
            UnaryOp::Round => a.0.round(),
            UnaryOp::Trunc => a.0.trunc(),
            UnaryOp::Log2 => a.0.log2(),
            UnaryOp::Log1p => a.0.ln_1p(),
            UnaryOp::Expm1 => a.0.exp_m1(),
            UnaryOp::Cbrt => a.0.cbrt(),
            _ => unreachable!(),
        })
    }

    fn relation(op: CmpOp, a: Self, b: Self) -> Self {
        let holds = match op {
            CmpOp::Gt => a.0 > b.0,
            CmpOp::Ge => a.0 >= b.0,
            CmpOp::Lt => a.0 < b.0,
            CmpOp::Le => a.0 <= b.0,
            CmpOp::Eq => a.0 == b.0,
            CmpOp::Ne => a.0 != b.0,
        };
        Real(if holds { 1.0 } else { 0.0 })
    }

    fn identity(op: ReduceOp) -> Self {
        Real(match op {
            ReduceOp::Sum => 0.0,
            ReduceOp::Product => 1.0,
            ReduceOp::Min => f64::INFINITY,
            ReduceOp::Max => f64::NEG_INFINITY,
        })
    }

    fn combine(op: ReduceOp, acc: Self, v: Self) -> Self {
        Real(match op {
            ReduceOp::Sum => acc.0 + v.0,
            ReduceOp::Product => acc.0 * v.0,
            ReduceOp::Min => acc.0.min(v.0),
            ReduceOp::Max => acc.0.max(v.0),
        })
    }
}

fn reals(v: &[f64]) -> Vec<Real> {
    v.iter().map(|x| Real(*x)).collect()
}

fn floats(v: &[Real]) -> Vec<f64> {
    v.iter().map(|x| x.0).collect()
}

const NO_ROLE: RoleFlags = RoleFlags { is_dyn: false, is_src: false, is_rec: false };

fn slot(kind: SlotKind, size: usize) -> Slot {
    Slot { kind, size }
}

fn graph(slots: Vec<Slot>, nodes: Vec<Node>, outputs: Vec<u32>) -> Graph<Real> {
    Graph {
        nodes,
        signature: InputSignature { slots },
        outputs,
        param_names: vec![],
        param_defaults: vec![],
    }
}

fn on_inputs(width: usize, nodes: Vec<Node>, output: u32) -> Graph<Real> {
    graph(vec![slot(SlotKind::Input, width)], nodes, vec![output])
}

fn with_params(mut g: Graph<Real>, params: &[(&str, f64)]) -> Graph<Real> {
    g.param_names = params.iter().map(|p| p.0.to_string()).collect();
    g.param_defaults = params.iter().map(|p| Real(p.1)).collect();
    g
}

fn constant(x: f64) -> Node {
    Node::Const(x.to_bits())
}

/// `y = gain * u` on each element.
fn amplifier_graph(gain: f64, n: u32) -> Graph<Real> {
    let mut nodes = vec![Node::Param(0)];
    let mut outputs = vec![];
    for i in 0..n {
        nodes.push(Node::Input(i));
        let u = (nodes.len() - 1) as u32;
        nodes.push(Node::Binary(BinOp::Mul, 0, u));
        outputs.push((nodes.len() - 1) as u32);
    }
    with_params(graph(vec![slot(SlotKind::Input, n as usize)], nodes, outputs), &[("gain", gain)])
}

/// `y = amplitude * sin(2 pi frequency t + phase)`.
fn sinusoidal_source_graph(freq: f64, amp: f64, phase: f64) -> Graph<Real> {
    let nodes = vec![
        Node::Param(0),
        Node::Param(1),
        Node::Param(2),
        Node::Input(0),
        constant(2.0 * std::f64::consts::PI),
        Node::Binary(BinOp::Mul, 4, 0),
        Node::Binary(BinOp::Mul, 5, 3),
        Node::Binary(BinOp::Add, 6, 2),
        Node::Unary(UnaryOp::Sin, 7),
        Node::Binary(BinOp::Mul, 1, 8),
    ];
    with_params(
        graph(vec![slot(SlotKind::Time, 1)], nodes, vec![9]),
        &[("frequency", freq), ("amplitude", amp), ("phase", phase)],
    )
}

fn evaluate(region: &Region<Real>, u: &[f64], x: &[f64], params: &[f64], t: f64) -> Vec<f64> {
    let (u, x, p) = (reals(u), reals(x), reals(params));
    let inputs: [&[Real]; 1] = [&u];
    let ctx = EvalCtx { inputs: &inputs, state: &x, memory: &[], params: &p, t: Real(t) };
    floats(&eval_region(region, &ctx).unwrap())
}

fn close(a: f64, b: f64) -> bool {
    (a.is_nan() && b.is_nan())
        || a == b
        || (a - b).abs() <= 1e-12 * a.abs().max(b.abs()).max(1.0)
}

fn operator(g: Graph<Real>) -> Option<Operator<Real>> {
    Some(Operator { graph: Some(RegionGraph::Fixed(g)), lut1d: None })
}

fn block(key: u64, kind: &str, n_inputs: usize, n_outputs: usize) -> BlockModel<Real> {
    BlockModel {
        key,
        kind_name: kind.to_string(),
        op_kind_name: None,
        role: NO_ROLE,
        n_inputs,
        n_outputs,
        feedthrough: vec![],
        alg_op: None,
        dyn_op: None,
        initial_value: None,
        op_memory: vec![],
        op_events: vec![],
        op_discrete: None,
        events: vec![],
        inner: None,
    }
}

fn source(key: u64) -> BlockModel<Real> {
    let mut b = block(key, "SinusoidalSource", 0, 1);
    b.role = RoleFlags { is_src: true, ..NO_ROLE };
    b.alg_op = operator(sinusoidal_source_graph(1.0, 1.0, 0.0));
    b
}

fn amplifier(key: u64, gain: f64) -> BlockModel<Real> {
    let mut b = block(key, "Amplifier", 1, 1);
    b.alg_op = operator(amplifier_graph(gain, 1));
    b.feedthrough = vec![true];
    b
}

fn difference(key: u64) -> BlockModel<Real> {
    let mut b = block(key, "Adder", 2, 1);
    b.alg_op = operator(on_inputs(
        2,
        vec![
            Node::Input(0),
            Node::Input(1),
            constant(1.0),
            constant(-1.0),
            Node::Dot(vec![0, 1], vec![2, 3]),
        ],
        4,
    ));
    b.feedthrough = vec![true, true];
    b
}

fn integrator(key: u64) -> BlockModel<Real> {
    let mut b = block(key, "Integrator", 1, 1);
    b.role = RoleFlags { is_dyn: true, ..NO_ROLE };
    b.alg_op = operator(graph(vec![slot(SlotKind::State, 1)], vec![Node::Input(0)], vec![0]));
    b.dyn_op = operator(on_inputs(1, vec![Node::Input(0)], 0));
    b.initial_value = Some(reals(&[0.0]));
    b.feedthrough = vec![false];
    b
}

fn scope(key: u64) -> BlockModel<Real> {
    let mut b = block(key, "Scope", 1, 0);
    b.role = RoleFlags { is_rec: true, ..NO_ROLE };
    b
}

fn wire(from: u64, to: u64) -> ConnModel {
    wire_to(from, to, 0)
}

fn wire_to(from: u64, to: u64, port: usize) -> ConnModel {
    ConnModel {
        source: PortModel { block: from, indices: vec![0] },
        targets: vec![PortModel { block: to, indices: vec![port] }],
    }
}

fn levels(levels: &[&[usize]]) -> Vec<Level> {
    levels.iter().map(|l| Level { blocks: l.to_vec(), connections: vec![] }).collect()
}

fn acyclic(topo: &[usize], dag: &[&[usize]]) -> GraphAnalysis {
    GraphAnalysis {
        topo_order: topo.to_vec(),
        dag: levels(dag),
        loops: vec![],
        loop_closing: vec![],
    }
}

/// Layers of nodes by direct feedthrough; nodes that reach each other are a loop.
struct Layers;

impl Scheduler for Layers {
    fn analyze(
        &self,
        specs: &Vec<(usize, usize, usize)>,
        shapes: &Vec<Feedthrough>,
        edges: &Vec<PortEdge>,
    ) -> GraphAnalysis {
        let n = shapes.len();
        let mut reach = vec![vec![false; n]; n];
        for e in edges {
            let t = &shapes[e.tgt];
            if (0..t.n_out).any(|o| t.mask[o * t.n_in + e.in_port]) {
                reach[e.src][e.tgt] = true;
            }
        }
        let direct = reach.clone();
        for k in 0..n {
            for i in 0..n {
                for j in 0..n {
                    reach[i][j] = reach[i][j] || (reach[i][k] && reach[k][j]);
                }
            }
        }
        let mut depth = vec![0; n];
        for _ in 0..n {
            for i in 0..n {
                for j in 0..n {
                    if direct[i][j] && !reach[j][i] && !reach[j][j] {
                        depth[j] = depth[j].max(depth[i] + 1);
                    }
                }
            }
        }
        let mut loops: Vec<LoopModel> = vec![];
        for i in 0..n {
            if reach[i][i] && !loops.iter().any(|l| l.blocks.contains(&i)) {
                let blocks: Vec<usize> = (0..n).filter(|&j| reach[i][j] && reach[j][i]).collect();
                let back_edges = specs
                    .iter()
                    .filter(|s| blocks.contains(&s.0) && blocks.contains(&s.1) && s.0 >= s.1)
                    .map(|s| s.2)
                    .collect();
                loops.push(LoopModel { blocks, back_edges });
            }
        }
        let free: Vec<usize> = (0..n).filter(|&i| !reach[i][i]).collect();
        let dag = (0..n)
            .map(|d| Level {
                blocks: free.iter().copied().filter(|&i| depth[i] == d).collect(),
                connections: vec![],
            })
            .collect();
        let mut topo_order: Vec<usize> = (0..n).collect();
        topo_order.sort_by_key(|&i| (reach[i][i], depth[i], i));
        let loop_closing = loops.iter().flat_map(|l| l.back_edges.clone()).collect();
        GraphAnalysis { topo_order, dag, loops, loop_closing }
    }
}

/// A subsystem of an amplifier and a recorder between its ports.
fn inner_scope() -> ScopeModel<Real> {
    let face = InterfaceNode { key: 10, shape: Feedthrough { n_in: 1, n_out: 1, mask: vec![false] } };
    ScopeModel::scheduled(
        vec![amplifier(11, 2.0), scope(12)],
        vec![wire(10, 11), wire(11, 10), wire(11, 12)],
        Some(face),
        &Layers,
    )
}

fn blocks_of<'a>(children: &'a [Child<Real>]) -> Vec<&'a Block<Real>> {
    children
        .iter()
        .filter_map(|c| match c {
            Child::Block(b) => Some(b),
            Child::Subsystem(_) => None,
        })
        .collect()
}

#[test]
fn op_vocab_unary_parity() {
    let all = [
        UnaryOp::Neg, UnaryOp::Sin, UnaryOp::Cos, UnaryOp::Tan, UnaryOp::Atan, UnaryOp::Sinh,
        UnaryOp::Cosh, UnaryOp::Tanh, UnaryOp::Exp, UnaryOp::Log, UnaryOp::Log10, UnaryOp::Abs,
        UnaryOp::Sqrt, UnaryOp::Sign, UnaryOp::Floor, UnaryOp::Asin, UnaryOp::Acos,
        UnaryOp::Asinh, UnaryOp::Acosh, UnaryOp::Atanh, UnaryOp::Ceil, UnaryOp::Round,
        UnaryOp::Trunc, UnaryOp::Log2, UnaryOp::Log1p, UnaryOp::Expm1, UnaryOp::Cbrt,
    ];
    for op in all {
        let x = match op {
            UnaryOp::Acosh => 1.7,
            UnaryOp::Asin | UnaryOp::Acos | UnaryOp::Atanh => 0.4,
            UnaryOp::Log | UnaryOp::Log10 | UnaryOp::Log2 | UnaryOp::Sqrt | UnaryOp::Cbrt => 1.3,
            UnaryOp::Sign => -0.7,
            _ => 0.5,
        };
        let g = on_inputs(1, vec![Node::Input(0), Node::Unary(op, 0)], 1);
        let dec = GraphDecode { input_port_sizes: &[1], output_port_sizes: &[1] };
        let region = region_from_graph(&g, RegionRole::Alg, &dec);
        let ir = evaluate(&region, &[x], &[], &[], 0.0);
        assert_eq!(ir.len(), 1);
        let direct = <Real as Scalar>::unary(op, Real(x)).0;
        assert!(close(ir[0], direct), "{op:?}: {} against {direct}", ir[0]);
    }
}

#[test]
fn op_vocab_binary_parity() {
    let all = [
        BinOp::Add, BinOp::Sub, BinOp::Mul, BinOp::Div, BinOp::Pow, BinOp::Mod, BinOp::Min,
        BinOp::Max, BinOp::Atan2, BinOp::Hypot,
    ];
    for op in all {
        for (a, b) in [(2.5_f64, 1.3_f64), (1.3, 2.5), (-1.7, 0.9)] {
            let nodes = vec![Node::Input(0), Node::Input(1), Node::Binary(op, 0, 1)];
            let g = on_inputs(2, nodes, 2);
            let dec = GraphDecode { input_port_sizes: &[2], output_port_sizes: &[1] };
            let region = region_from_graph(&g, RegionRole::Alg, &dec);
            let ir = evaluate(&region, &[a, b], &[], &[], 0.0);
            assert_eq!(ir.len(), 1);
            let direct = <Real as Scalar>::binary(op, Real(a), Real(b)).0;
            assert!(close(ir[0], direct), "{op:?}({a}, {b}): {} against {direct}", ir[0]);
        }
    }
}

#[test]
fn op_vocab_cmp_parity() {
    let all = [CmpOp::Gt, CmpOp::Ge, CmpOp::Lt, CmpOp::Le, CmpOp::Eq, CmpOp::Ne];
    for op in all {
        for (a, b) in [(2.5_f64, 1.3_f64), (1.3, 2.5), (1.3, 1.3)] {
            let nodes = vec![Node::Input(0), Node::Input(1), Node::Cmp(op, 0, 1)];
            let g = on_inputs(2, nodes, 2);
            let dec = GraphDecode { input_port_sizes: &[2], output_port_sizes: &[1] };
            let region = region_from_graph(&g, RegionRole::Alg, &dec);
            let ir = evaluate(&region, &[a, b], &[], &[], 0.0);
            assert_eq!(ir.len(), 1);
            let direct = <Real as Scalar>::relation(op, Real(a), Real(b)).0;
            assert!(close(ir[0], direct), "{op:?}({a}, {b}): {} against {direct}", ir[0]);
        }
    }
}

#[test]
fn op_vocab_reduce_parity() {
    let all = [
        (ReduceOp::Sum, 2.5), (ReduceOp::Product, -9.0), (ReduceOp::Min, -2.0),
        (ReduceOp::Max, 3.0),
    ];
    for (op, direct) in all {
        let nodes =
            vec![Node::Input(0), Node::Input(1), Node::Input(2), Node::Reduce(op, vec![0, 1, 2])];
        let g = on_inputs(3, nodes, 3);
        let dec = GraphDecode { input_port_sizes: &[3], output_port_sizes: &[1] };
        let region = region_from_graph(&g, RegionRole::Alg, &dec);
        let ir = evaluate(&region, &[1.5, -2.0, 3.0], &[], &[], 0.0);
        assert_eq!(ir.len(), 1);
        assert!(close(ir[0], direct), "{op:?}: {} against {direct}", ir[0]);
    }
}

#[test]
fn amplifier_ir_matches_native() {
    let gain = 2.5;
    let g = amplifier_graph(gain, 3);
    let dec = GraphDecode { input_port_sizes: &[3], output_port_sizes: &[3] };
    let region = region_from_graph(&g, RegionRole::Alg, &dec);
    let u = [1.0, -2.0, 3.5];
    let native: Vec<f64> = u.iter().map(|v| gain * v).collect();
    assert_eq!(evaluate(&region, &u, &[], &[gain], 0.0), native);
}

#[test]
fn adder_ir_matches_native() {
    let ops = [1.0, -1.0];
    let g = on_inputs(
        2,
        vec![
            Node::Input(0),
            Node::Input(1),
            constant(ops[0]),
            constant(ops[1]),
            Node::Dot(vec![0, 1], vec![2, 3]),
        ],
        4,
    );
    let dec = GraphDecode { input_port_sizes: &[2], output_port_sizes: &[1] };
    let region = region_from_graph(&g, RegionRole::Alg, &dec);
    let u = [3.0, 1.25];
    assert_eq!(evaluate(&region, &u, &[], &[], 0.0), vec![ops[0] * u[0] + ops[1] * u[1]]);
}

#[test]
fn constant_ir_matches_native() {
    let g = with_params(graph(vec![], vec![Node::Param(0)], vec![0]), &[("value", 3.5)]);
    let dec = GraphDecode { input_port_sizes: &[], output_port_sizes: &[1] };
    let region = region_from_graph(&g, RegionRole::Alg, &dec);
    assert_eq!(evaluate(&region, &[], &[], &[3.5], 0.0), vec![3.5]);
}

#[test]
fn integrator_ir_matches_native() {
    let two = vec![Node::Input(0), Node::Input(1)];
    let alg_g = graph(vec![slot(SlotKind::State, 2)], two.clone(), vec![0, 1]);
    let dyn_g = graph(vec![slot(SlotKind::Input, 2)], two, vec![0, 1]);
    let dec = GraphDecode { input_port_sizes: &[2], output_port_sizes: &[2] };
    let alg = region_from_graph(&alg_g, RegionRole::Alg, &dec);
    let dyn_ = region_from_graph(&dyn_g, RegionRole::Dyn, &dec);
    let x = [0.7, -1.3];
    let u = [2.0, 5.0];
    assert_eq!(evaluate(&alg, &u, &x, &[], 0.0), x.to_vec());
    assert_eq!(evaluate(&dyn_, &u, &x, &[], 0.0), u.to_vec());
    assert_eq!(
        dyn_.writes,
        vec![
            Write::StateDeriv { id: StateId(0), src: NodeId(0) },
            Write::StateDeriv { id: StateId(1), src: NodeId(1) },
        ]
    );
}

#[test]
fn sinusoidal_ir_matches_native() {
    let (freq, amp, phase) = (1.5, 2.0, 0.3);
    let g = sinusoidal_source_graph(freq, amp, phase);
    let dec = GraphDecode { input_port_sizes: &[], output_port_sizes: &[1] };
    let region = region_from_graph(&g, RegionRole::Alg, &dec);
    let t = 0.42;
    let native = amp * (2.0 * std::f64::consts::PI * freq * t + phase).sin();
    let ir = evaluate(&region, &[], &[], &[freq, amp, phase], t);
    assert!((ir[0] - native).abs() < 1e-15, "ir={} native={native}", ir[0]);
}

#[test]
fn reduce_ops_eval() {
    let args = vec![NodeId(0), NodeId(1), NodeId(2)];
    let region = Region {
        ops: vec![
            Op::Input { port: 0, elem: 0 },
            Op::Input { port: 0, elem: 1 },
            Op::Input { port: 0, elem: 2 },
            Op::Reduce { op: ReduceOp::Sum, args: args.clone() },
            Op::Reduce { op: ReduceOp::Product, args: args.clone() },
            Op::Reduce { op: ReduceOp::Min, args: args.clone() },
            Op::Reduce { op: ReduceOp::Max, args },
        ],
        writes: vec![
            Write::Output { port: 0, elem: 0, src: NodeId(3) },
            Write::Output { port: 0, elem: 1, src: NodeId(4) },
            Write::Output { port: 0, elem: 2, src: NodeId(5) },
            Write::Output { port: 0, elem: 3, src: NodeId(6) },
        ],
    };
    assert_eq!(
        evaluate(&region, &[2.0, 5.0, -1.0], &[], &[], 0.0),
        vec![6.0, -10.0, -1.0, 5.0]
    );
}

#[test]
fn dot_op_eval() {
    let region = Region {
        ops: vec![
            Op::Input { port: 0, elem: 0 },
            Op::Input { port: 0, elem: 1 },
            Op::Const(Real(10.0)),
            Op::Const(Real(100.0)),
            Op::Dot { a: vec![NodeId(0), NodeId(1)], b: vec![NodeId(2), NodeId(3)] },
        ],
        writes: vec![Write::Output { port: 0, elem: 0, src: NodeId(4) }],
    };
    assert_eq!(evaluate(&region, &[3.0, 4.0], &[], &[], 0.0), vec![430.0]);
}

#[test]
fn empty_dot_is_zero_and_select_follows_its_condition() {
    let region = Region {
        ops: vec![
            Op::Dot { a: vec![], b: vec![] },
            Op::Const(Real(3.0)),
            Op::Const(Real(4.0)),
            Op::Select { c: NodeId(0), t: NodeId(1), e: NodeId(2) },
            Op::Select { c: NodeId(1), t: NodeId(1), e: NodeId(2) },
            Op::Fma { a: NodeId(1), b: NodeId(2), c: NodeId(2) },
        ],
        writes: vec![
            Write::Output { port: 0, elem: 0, src: NodeId(0) },
            Write::Output { port: 0, elem: 1, src: NodeId(3) },
            Write::Output { port: 0, elem: 2, src: NodeId(4) },
            Write::Output { port: 0, elem: 3, src: NodeId(5) },
        ],
    };
    assert_eq!(evaluate(&region, &[], &[], &[], 0.0), vec![0.0, 4.0, 3.0, 16.0]);
}

#[test]
fn call_of_host_code_is_refused() {
    let region: Region<Real> = Region {
        ops: vec![Op::Call { id: ExternId(0), args: vec![], out_idx: 0 }],
        writes: vec![Write::Output { port: 0, elem: 0, src: NodeId(0) }],
    };
    let ctx = EvalCtx { inputs: &[], state: &[], memory: &[], params: &[], t: Real(0.0) };
    assert_eq!(eval_region(&region, &ctx), Err(EvalError::ExternCall));
}

#[test]
fn table_interpolates_extends_and_clamps() {
    let points = reals(&[0.0, 1.0, 3.0]);
    let values = reals(&[10.0, 20.0, 60.0]);
    let at = |x: f64, clamp: bool| lut1d(Real(x), &points, &values, clamp).0;
    assert_eq!(at(0.5, false), 15.0);
    assert_eq!(at(2.0, false), 40.0);
    assert_eq!(at(1.0, false), 20.0);
    assert_eq!(at(4.0, false), 80.0);
    assert_eq!(at(-1.0, false), 0.0);
    assert_eq!(at(4.0, true), 60.0);
    assert_eq!(at(-1.0, true), 10.0);
}

#[test]
fn mimo_elems_mapping() {
    assert_eq!(elems_of(vec![0]), None);
    assert_eq!(elems_of(vec![1]), Some(vec![1]));
}

#[test]
fn several_channels_are_kept_in_order() {
    assert_eq!(elems_of(vec![0, 1]), Some(vec![0, 1]));
    assert_eq!(elems_of(vec![2, 0]), Some(vec![2, 0]));
}

#[test]
fn flat_positions_split_into_ports() {
    assert_eq!(split_port(0, &[2, 3]), (0, 0));
    assert_eq!(split_port(1, &[2, 3]), (0, 1));
    assert_eq!(split_port(2, &[2, 3]), (1, 0));
    assert_eq!(split_port(4, &[2, 3]), (1, 2));
    assert_eq!(split_port(5, &[2, 3]), (0, 5));
}

#[test]
fn roles_have_an_order_of_precedence() {
    let flags = |is_dyn, is_src, is_rec| map_role(RoleFlags { is_dyn, is_src, is_rec });
    assert_eq!(flags(false, false, false), BlockRole::Algebraic);
    assert_eq!(flags(true, false, false), BlockRole::Dynamic);
    assert_eq!(flags(true, true, false), BlockRole::Source);
    assert_eq!(flags(true, true, true), BlockRole::Sink);
}

#[test]
fn memory_writes_pair_outputs_with_targets() {
    let g = graph(
        vec![slot(SlotKind::Input, 2), slot(SlotKind::Memory(1), 2)],
        vec![Node::Input(0), Node::Input(3)],
        vec![0, 1],
    );
    let targets = [MemTarget { slot: 1, offset: 0 }];
    let dec = GraphDecode { input_port_sizes: &[2], output_port_sizes: &[] };
    let region = region_from_graph_mem(&g, &dec, &targets);
    assert_eq!(region.writes.len(), 1);
    match &region.ops[1] {
        Op::Memory { slot, offset } => {
            assert_eq!(slot.0, 1);
            assert_eq!(*offset, 1);
        }
        other => panic!("expected a memory read, got {other:?}"),
    }
    let mem = reals(&[7.0, 8.0]);
    let empty: Vec<Real> = vec![];
    let memory: [&[Real]; 2] = [&empty, &mem];
    let u = reals(&[1.0, 2.0]);
    let inputs: [&[Real]; 1] = [&u];
    let ctx = EvalCtx { inputs: &inputs, state: &[], memory: &memory, params: &[], t: Real(0.0) };
    assert_eq!(floats(&eval_region(&region, &ctx).unwrap()), vec![1.0]);
}

/// A sampled hold at width two: one memory slot, one periodic event that stores
/// the input, an output that reads the slot.
fn sample_hold() -> BlockModel<Real> {
    let mut b = block(0, "SampleHold", 2, 2);
    let two = vec![Node::Input(0), Node::Input(1)];
    b.op_discrete = Some(Some(DiscreteResolved {
        alg: graph(vec![slot(SlotKind::Memory(0), 2)], two.clone(), vec![0, 1]),
        memory: vec![MemSpec { name: "held".to_string(), init: reals(&[0.0, 0.0]) }],
        events: vec![EventSpec {
            kind: EventKindSpec::SchedulePeriodic { period: Real(0.2), phase: Real(0.05) },
            effect: graph(vec![slot(SlotKind::Input, 2)], two, vec![0, 1]),
            targets: vec![MemTarget { slot: 0, offset: 0 }, MemTarget { slot: 0, offset: 1 }],
        }],
    }));
    b
}

#[test]
fn sample_hold_memory_event_ir() {
    let ir = block_ops_to_ir_block(&sample_hold(), BlockId(0)).unwrap();
    assert_eq!(ir.memory.len(), 1);
    assert_eq!(ir.memory[0].size, 2);
    assert_eq!(ir.events.len(), 1);

    let held = reals(&[7.0, 8.0]);
    let u = reals(&[1.5, -2.5]);
    let inputs: [&[Real]; 1] = [&u];
    let memory: [&[Real]; 1] = [&held];
    let ctx = EvalCtx { inputs: &inputs, state: &[], memory: &memory, params: &[], t: Real(0.0) };
    assert_eq!(eval_region(&ir.regions.alg, &ctx).unwrap(), held);
    assert_eq!(eval_region(&ir.events[0].effect, &ctx).unwrap(), u);
}

#[test]
fn unresolved_discrete_block_is_not_lowered() {
    let mut b = sample_hold();
    b.op_discrete = Some(None);
    assert!(block_ops_to_ir_block(&b, BlockId(0)).is_none());
}

#[test]
fn leaf_block_carries_parameters_state_and_ports() {
    let alg = RegionGraph::Fixed(amplifier_graph(4.0, 1));
    let dyn_ = RegionGraph::Fixed(on_inputs(1, vec![Node::Input(0)], 0));
    let initial = reals(&[2.5]);
    let leaf = LeafOps {
        kind_name: "Lag",
        alg: &alg,
        dyn_: Some(&dyn_),
        state_init: &initial,
        memory: &[],
        events: &[],
        discrete: None,
        lut1d: None,
    };
    let role = RoleFlags { is_dyn: true, ..NO_ROLE };
    let b = build_from_ops(&leaf, &role, BlockId(3), 1, 1).unwrap();
    assert_eq!(b.id, BlockId(3));
    assert_eq!(b.kind_name, "Lag");
    assert_eq!(b.role, BlockRole::Dynamic);
    assert_eq!(b.params.len(), 1);
    assert_eq!(b.params[0].name, "gain");
    match b.params[0].value {
        ParamValue::Scalar(v) => assert_eq!(v, Real(4.0)),
        _ => panic!("expected a scalar"),
    }
    assert_eq!(b.state.len(), 1);
    assert_eq!(b.state[0].init, Real(2.5));
    assert_eq!(b.ports.inputs.len(), 1);
    assert_eq!(b.ports.outputs.len(), 1);
}

#[test]
fn guards_keep_their_direction() {
    let mut b = block(0, "Comparator", 1, 1);
    b.alg_op = operator(amplifier_graph(1.0, 1));
    let guard = || on_inputs(1, vec![Node::Input(0)], 0);
    let effect = || on_inputs(1, vec![Node::Input(0)], 0);
    b.op_events = vec![
        EventSpec {
            kind: EventKindSpec::ZeroCross { guard: guard(), direction: DirSpec::Falling },
            effect: effect(),
            targets: vec![],
        },
        EventSpec {
            kind: EventKindSpec::Condition { guard: guard() },
            effect: effect(),
            targets: vec![],
        },
        EventSpec {
            kind: EventKindSpec::ScheduleFixed(reals(&[1.0, 2.0])),
            effect: effect(),
            targets: vec![],
        },
    ];
    let ir = block_ops_to_ir_block(&b, BlockId(0)).unwrap();
    match &ir.events[0].kind {
        EventKind::ZeroCross { guard, direction } => {
            assert_eq!(*direction, Direction::Falling);
            assert!(matches!(guard.ops[0], Op::Input { port: 0, elem: 0 }));
            assert!(guard.writes.is_empty());
        }
        other => panic!("expected a crossing, got {other:?}"),
    }
    assert!(matches!(ir.events[1].kind, EventKind::Condition { .. }));
    match &ir.events[2].kind {
        EventKind::Schedule { times: ScheduleTimes::Fixed(ts) } => {
            assert_eq!(floats(ts), vec![1.0, 2.0]);
        }
        other => panic!("expected fixed times, got {other:?}"),
    }
    assert!(ir.events.iter().all(|e| !e.opaque));
}

#[test]
fn opaque_block_calls_its_host_routine_for_each_output() {
    let (b, decl) = opaque_block(&block(7, "Wrapper", 2, 3), BlockId(1), ExternId(4));
    assert_eq!(decl.name, "Wrapper");
    assert_eq!(decl.arity_in, 2);
    assert_eq!(decl.arity_out, 3);
    assert_eq!(b.regions.alg.writes.len(), 3);
    let calls: Vec<u32> = b
        .regions
        .alg
        .ops
        .iter()
        .filter_map(|op| match op {
            Op::Call { id, args, out_idx } => {
                assert_eq!(*id, ExternId(4));
                assert_eq!(args.len(), 2);
                Some(*out_idx)
            }
            _ => None,
        })
        .collect();
    assert_eq!(calls, vec![0, 1, 2]);
}

#[test]
fn opaque_events_keep_what_is_known() {
    let cross: EventDescriptor<Real> = EventDescriptor::ZeroCross { direction: CrossDir::Both };
    let e = opaque_event(EventId(2), &cross);
    assert_eq!(e.id, EventId(2));
    assert!(e.opaque);
    assert!(e.effect.ops.is_empty() && e.effect.writes.is_empty());
    match e.kind {
        EventKind::ZeroCross { direction, .. } => assert_eq!(direction, Direction::Both),
        other => panic!("expected a crossing, got {other:?}"),
    }
    let condition: EventDescriptor<Real> = EventDescriptor::Condition;
    let e = opaque_event(EventId(0), &condition);
    assert!(matches!(e.kind, EventKind::Condition { .. }));
}

#[test]
fn nested_subsystem_structure() {
    let inner = ScopeModel {
        blocks: vec![amplifier(11, 2.0)],
        connections: vec![wire(10, 11), wire(11, 10)],
        interface: Some(10),
        analysis: acyclic(&[1, 0], &[&[1], &[0]]),
    };
    let mut sub = block(2, "Subsystem", 1, 1);
    sub.inner = Some(Box::new(inner));
    let outer = ScopeModel {
        blocks: vec![source(1), sub, scope(3)],
        connections: vec![wire(1, 2), wire(2, 3)],
        interface: None,
        analysis: acyclic(&[0, 1, 2], &[&[0], &[1], &[2]]),
    };
    let m = module_from_sim(&outer, &vec![], "nested".to_string());
    assert_eq!(m.name, "nested");
    assert_eq!(m.root.children.len(), 3);
    let s = m
        .root
        .children
        .iter()
        .find_map(|c| match c {
            Child::Subsystem(s) => Some(s),
            Child::Block(_) => None,
        })
        .expect("subsystem child present");
    assert_eq!(s.id, SubsystemId(1));
    assert!(blocks_of(&s.children).iter().any(|b| b.kind_name == "Amplifier"));
    let face = BlockId::interface();
    let refs_iface = s
        .connections
        .iter()
        .any(|c| c.src.block == face || c.targets.iter().any(|t| t.block == face));
    assert!(refs_iface, "inner connections should reference the interface");
    assert!(!s.interface.inputs.is_empty() || !s.interface.outputs.is_empty());
}

#[test]
fn subsystem_alone_is_a_module() {
    let mut sub = block(2, "Subsystem", 1, 1);
    assert!(module_from_subsystem(&sub, "alone".to_string()).is_none());
    sub.inner = Some(Box::new(inner_scope()));
    let m = module_from_subsystem(&sub, "alone".to_string()).unwrap();
    assert_eq!(m.ir_version, 1);
    assert_eq!(m.root.id, SubsystemId(0));
    assert_eq!(m.root.name, "subsystem");
    assert_eq!(m.root.children.len(), 2);
    assert_eq!(m.root.connections.len(), 3);
    assert_eq!(m.root.interface.inputs.len(), 1);
    assert_eq!(m.root.interface.outputs.len(), 1);
    let names: Vec<&str> = m.extern_decls.iter().map(|d| d.name.as_str()).collect();
    assert_eq!(names, vec!["Scope"]);
    assert_eq!(m.extern_decls[0].id, ExternId(0));
}

#[test]
fn subsystem_node_is_the_embedded_one() {
    let mut first = block(2, "Subsystem", 1, 1);
    first.inner = Some(Box::new(inner_scope()));
    first.feedthrough = vec![true];
    let mut second = block(3, "Subsystem", 1, 1);
    second.inner = Some(Box::new(inner_scope()));
    second.feedthrough = vec![true];
    let outer = ScopeModel::scheduled(
        vec![source(1), first, second, scope(4)],
        vec![wire(1, 2), wire(2, 3), wire(3, 4)],
        None,
        &Layers,
    );
    let m = module_from_sim(&outer, &vec![], "two".to_string());
    for i in [1, 2] {
        let node = subsystem_to_ir(&outer, i).unwrap();
        assert_eq!(node.id, SubsystemId(i as u32));
        match &m.root.children[i] {
            Child::Subsystem(s) => assert_eq!(format!("{s:?}"), format!("{node:?}")),
            Child::Block(_) => panic!("expected a subsystem"),
        }
    }
    assert!(subsystem_to_ir(&outer, 0).is_none());
    assert!(subsystem_to_ir(&outer, 3).is_none());
}

/// The calls of a region and of the events' regions.
fn calls_of(b: &Block<Real>) -> Vec<(ExternId, usize, u32)> {
    let mut ops: Vec<&Op<Real>> = b.regions.alg.ops.iter().chain(&b.regions.dyn_.ops).collect();
    for e in &b.events {
        ops.extend(&e.effect.ops);
    }
    ops.into_iter()
        .filter_map(|op| match op {
            Op::Call { id, args, out_idx } => Some((*id, args.len(), *out_idx)),
            _ => None,
        })
        .collect()
}

fn all_calls(children: &[Child<Real>]) -> Vec<(ExternId, usize, u32)> {
    children
        .iter()
        .flat_map(|c| match c {
            Child::Block(b) => calls_of(b),
            Child::Subsystem(s) => all_calls(&s.children),
        })
        .collect()
}

#[test]
fn calls_at_any_depth_are_declared() {
    let mut inner = inner_scope();
    inner.blocks.push(block(77, "Relay", 2, 1));
    let mut nested = block(2, "Subsystem", 1, 1);
    nested.inner = Some(Box::new(inner));
    nested.feedthrough = vec![true];
    let outer = ScopeModel {
        blocks: vec![block(1, "Noise", 0, 2), nested, block(3, "Relay", 2, 1)],
        connections: vec![],
        interface: None,
        analysis: acyclic(&[0, 1, 2], &[&[0, 1, 2]]),
    };
    let m = module_from_sim(&outer, &vec![], "deep".to_string());
    let calls = all_calls(&m.root.children);
    assert!(calls.len() >= 4);
    for (id, args, out) in calls {
        let d = m.extern_decls.iter().find(|d| d.id == id).unwrap();
        assert_eq!(args, d.arity_in as usize);
        assert!(out < d.arity_out);
    }
    let again = module_from_sim(&outer, &vec![], "deep".to_string());
    assert_eq!(format!("{m:?}"), format!("{again:?}"));
}

#[test]
fn control_loop_module() {
    let model = ScopeModel {
        blocks: vec![source(1), difference(2), amplifier(3, 4.0), integrator(4), scope(5)],
        connections: vec![wire(1, 2), wire(2, 3), wire(3, 4), wire_to(4, 2, 1), wire(4, 5)],
        interface: None,
        analysis: acyclic(&[0, 3, 4, 1, 2], &[&[0, 3, 4], &[1], &[2]]),
    };
    let m = module_from_sim(&model, &vec![], "control_loop".to_string());
    assert_eq!(m.root.children.len(), 5);
    assert_eq!(m.root.connections.len(), 5);
    assert_eq!(m.extern_decls.len(), 1, "scope should be one extern");
    assert_eq!(m.extern_decls[0].name, "Scope");
    for b in blocks_of(&m.root.children) {
        if !b.ports.outputs.is_empty() {
            assert!(!b.regions.alg.writes.is_empty(), "block '{}' has no region", b.kind_name);
        }
    }
    assert_eq!(m.root.connections[3].targets[0].block, BlockId(1));
    assert_eq!(m.root.connections[3].targets[0].elems, Some(vec![1]));
}

#[test]
fn schedule_feedforward_groups() {
    let model = ScopeModel::scheduled(
        vec![source(1), amplifier(2, 2.0), integrator(3), scope(4)],
        vec![wire(1, 2), wire(2, 3), wire(3, 4)],
        None,
        &Layers,
    );
    let m = module_from_sim(&model, &vec![], "ff".to_string());
    let sched = &m.root.schedule;
    assert!(sched.sccs.is_empty(), "feedforward has no algebraic loops");
    assert!(sched.back_edges.is_empty());
    assert_eq!(sched.topo.len(), 4);
    let depth_of =
        |bid: BlockId| sched.groups.iter().find(|g| g.blocks.contains(&bid)).map(|g| g.depth);
    let amp_depth = depth_of(BlockId(1)).expect("amp scheduled");
    let src_depth = depth_of(BlockId(0)).expect("src scheduled");
    assert!(amp_depth > src_depth, "amp resolves after its source");
}

#[test]
fn schedule_algebraic_loop_scc() {
    let model = ScopeModel::scheduled(
        vec![source(1), difference(2), amplifier(3, 0.5), scope(4)],
        vec![wire(1, 2), wire(2, 3), wire_to(3, 2, 1), wire(3, 4)],
        None,
        &Layers,
    );
    let m = module_from_sim(&model, &vec![], "alg_loop".to_string());
    let sched = &m.root.schedule;
    assert_eq!(sched.sccs.len(), 1, "one algebraic loop");
    let scc = &sched.sccs[0];
    let mut members = scc.blocks.clone();
    members.sort_by_key(|b| b.0);
    assert_eq!(members, vec![BlockId(1), BlockId(2)]);
    assert!(!scc.back_edges.is_empty(), "the loop must report a cut");
    assert_eq!(sched.back_edges, vec![ConnectionId(2)]);
    for be in &scc.back_edges {
        assert!(sched.back_edges.contains(be), "the cut is in the global set");
    }
    let conn_ids: std::collections::HashSet<u32> =
        m.root.connections.iter().map(|c| c.id.0).collect();
    for be in &sched.back_edges {
        assert!(conn_ids.contains(&be.0), "back-edge references a real connection");
    }
    assert_eq!(sched.topo.len(), 4);
}

#[test]
fn interface_is_the_last_node_of_a_scope() {
    let blocks = vec![amplifier(11, 2.0)];
    let conns = vec![wire(10, 11), wire(11, 10), wire(11, 99)];
    let (specs, edges) = scope_graph(&blocks, &conns, Some(10));
    assert_eq!(specs, vec![(1, 0, 0), (0, 1, 1)]);
    assert_eq!(
        edges,
        vec![
            PortEdge { src: 1, out_port: 0, tgt: 0, in_port: 0 },
            PortEdge { src: 0, out_port: 0, tgt: 1, in_port: 0 },
        ]
    );
    let (specs, edges) = scope_graph(&blocks, &conns, None);
    assert!(specs.is_empty() && edges.is_empty());
    let keys = vec![11, 10];
    assert_eq!(assemble_graph_from(&keys, &conns).0, vec![(1, 0, 0), (0, 1, 1)]);
    let inner = inner_scope();
    assert_eq!(inner.interface, Some(10));
    assert_eq!(inner.analysis.topo_order, vec![1, 2, 0]);
}

#[test]
fn blocks_outside_the_system_are_listed() {
    let conns = vec![wire(1, 2), wire(7, 1), wire(2, 9), wire(7, 9)];
    assert_eq!(unmanaged_blocks(&vec![1, 2], &conns), vec![7, 9, 7, 9]);
    assert_eq!(unmanaged_blocks(&vec![1, 2, 7, 9], &conns), Vec::<u64>::new());
}

#[test]
fn back_edges_are_sorted_without_repeats() {
    assert_eq!(sorted_unique(&vec![5, 1, 5, 3, 1]), vec![1, 3, 5]);
    assert_eq!(sorted_unique(&vec![]), Vec::<usize>::new());
}

#[test]
fn opaque_block_event_in_module() {
    let mut sampled = scope(2);
    sampled.events =
        vec![EventDescriptor::SchedulePeriodic { period: Real(0.25), phase: Real(0.1) }];
    let model = ScopeModel {
        blocks: vec![source(1), sampled],
        connections: vec![wire(1, 2)],
        interface: None,
        analysis: acyclic(&[0, 1], &[&[0, 1]]),
    };
    let m = module_from_sim(&model, &vec![], "opaque_evt".to_string());
    let children = blocks_of(&m.root.children);
    let sco_b = children.iter().find(|b| b.kind_name == "Scope").expect("scope present");
    assert!(m.extern_decls.iter().any(|d| d.name == "Scope"));
    assert_eq!(sco_b.events.len(), 1, "sampling event surfaced");
    let e = &sco_b.events[0];
    assert!(e.opaque);
    assert!(e.effect.ops.is_empty() && e.effect.writes.is_empty());
    match &e.kind {
        EventKind::Schedule { times: ScheduleTimes::Periodic { period, phase } } => {
            assert!((period.0 - 0.25).abs() < 1e-12);
            assert!((phase.0 - 0.1).abs() < 1e-12);
        }
        other => panic!("expected periodic schedule, got {other:?}"),
    }
}

#[test]
fn global_simulation_events_in_module() {
    let model = ScopeModel {
        blocks: vec![integrator(1), scope(2)],
        connections: vec![wire(1, 2)],
        interface: None,
        analysis: acyclic(&[0, 1], &[&[0, 1]]),
    };
    let events = vec![EventDescriptor::ScheduleFixed { times: reals(&[0.1, 0.2, 0.4]) }];
    let m = module_from_sim(&model, &events, "global_evt".to_string());
    assert_eq!(m.events.len(), 1, "global event recorded on the module");
    let e = &m.events[0];
    assert!(e.opaque);
    match &e.kind {
        EventKind::Schedule { times: ScheduleTimes::Fixed(ts) } => {
            assert_eq!(floats(ts), vec![0.1, 0.2, 0.4]);
        }
        other => panic!("expected fixed schedule, got {other:?}"),
    }
}
