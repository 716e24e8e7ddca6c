//! Lowering of whole scopes: blocks that cannot be lowered become extern calls,
//! subsystems nest, and the wiring and the schedule are rewritten to indices.

use vstd::prelude::*;

use crate::ir::builder::{
    build_from_ops, built, map_role, port_list, role_of, single_port, LeafOps,
};
use crate::ir::graph::{DiscreteResolved, Graph, InputSignature, Lut1dSpec, RegionGraph};
use crate::ir::schema::{
    Block, BlockId, Child, Connection, ConnectionId, DagGroup, Direction, Event, EventId,
    EventKind, ExternDecl, ExternId, Interface, Module, NodeId, Op, PortRef, Ports, Region,
    Regions, Scc, Schedule, ScheduleTimes, Subsystem, SubsystemId, Write, IR_VERSION,
};
use crate::model::{
    keys_of, BlockModel, ConnModel, CrossDir, EventDescriptor, GraphAnalysis, Level, LoopModel,
    Operator, PortModel, ScopeModel,
};
use crate::scalar::Scalar;
use crate::seqs::copied;
use crate::text::{decimal, joined, numbered};

verus! {

pub open spec fn crossing_of(d: CrossDir) -> Direction {
    match d {
        CrossDir::Rising => Direction::Rising,
        CrossDir::Falling => Direction::Falling,
        CrossDir::Both => Direction::Both,
    }
}

/// `kind` records what is known of a host event; its guard stays empty.
pub open spec fn opaque_kind<F>(d: EventDescriptor<F>, kind: EventKind<F>) -> bool {
    match d {
        EventDescriptor::SchedulePeriodic { period, phase } => kind == (EventKind::Schedule {
            times: ScheduleTimes::Periodic { period, phase },
        }),
        EventDescriptor::ScheduleFixed { times } => kind matches EventKind::Schedule {
            times: ScheduleTimes::Fixed(out),
        } && out@ == times@,
        EventDescriptor::ZeroCross { direction } => kind matches EventKind::ZeroCross {
            guard,
            direction: dir,
        } && guard.vacant() && dir == crossing_of(direction),
        EventDescriptor::Condition => kind matches EventKind::Condition { guard }
            && guard.vacant(),
    }
}

/// `e` is the opaque IR event numbered `i` of a host event.
pub open spec fn opaque_event_of<F>(d: EventDescriptor<F>, i: int, e: Event<F>) -> bool {
    &&& e.id.0 == i as u32
    &&& opaque_kind(d, e.kind)
    &&& e.effect.vacant()
    &&& e.opaque
}

/// `events` numbers the host events in order.
pub open spec fn opaque_events_of<F>(ds: Seq<EventDescriptor<F>>, events: Seq<Event<F>>) -> bool {
    &&& events.len() == ds.len()
    &&& forall|i: int|
        0 <= i < events.len() ==> opaque_event_of(ds[i], i, #[trigger] events[i])
}

fn narrow(i: usize) -> (r: u32)
    ensures
        r == i as u32,
{
    i as u32
}

/// The opaque IR event of a host event: its kind and timing are kept, its guard
/// and action are not.
pub fn opaque_event<F: Scalar>(id: EventId, d: &EventDescriptor<F>) -> (e: Event<F>)
    ensures
        e.id == id,
        opaque_kind(*d, e.kind),
        e.effect.vacant(),
        e.opaque,
{
    let kind: EventKind<F> = match d {
        EventDescriptor::SchedulePeriodic { period, phase } => EventKind::Schedule {
            times: ScheduleTimes::Periodic { period: *period, phase: *phase },
        },
        EventDescriptor::ScheduleFixed { times } => EventKind::Schedule {
            times: ScheduleTimes::Fixed(copied(times.as_slice())),
        },
        EventDescriptor::ZeroCross { direction } => EventKind::ZeroCross {
            guard: Region::default(),
            direction: match direction {
                CrossDir::Rising => Direction::Rising,
                CrossDir::Falling => Direction::Falling,
                CrossDir::Both => Direction::Both,
            },
        },
        EventDescriptor::Condition => EventKind::Condition { guard: Region::default() },
    };
    Event { id, kind, effect: Region::default(), opaque: true }
}

/// The opaque IR events of a list of host events.
pub fn opaque_events<F: Scalar>(ds: &Vec<EventDescriptor<F>>) -> (events: Vec<Event<F>>)
    ensures
        opaque_events_of(ds@, events@),
{
    let mut events: Vec<Event<F>> = Vec::with_capacity(ds.len());
    let mut i: usize = 0;
    while i < ds.len()
        invariant
            i <= ds.len(),
            events@.len() == i,
            forall|k: int| 0 <= k < i ==> opaque_event_of(ds@[k], k, #[trigger] events@[k]),
        decreases ds.len() - i,
    {
        events.push(opaque_event(EventId(narrow(i)), &ds[i]));
        i += 1;
    }
    events
}

/// `args` lists the nodes `0 .. n`.
pub open spec fn leading_nodes(args: Seq<NodeId>, n: int) -> bool {
    &&& args.len() == n
    &&& forall|k: int| 0 <= k < n ==> (#[trigger] args[k]).0 == k
}

/// `region` reads every input and calls the extern once per output.
pub open spec fn call_region<F>(inputs: u32, outputs: u32, ext: ExternId, region: Region<F>) -> bool {
    &&& region.ops@.len() == inputs + outputs
    &&& forall|e: int|
        0 <= e < inputs ==> #[trigger] region.ops@[e] == (Op::<F>::Input { port: 0, elem: e as u32 })
    &&& forall|k: int|
        #![trigger region.writes@[k]]
        0 <= k < outputs ==> (region.ops@[inputs + k] matches Op::Call { id, args, out_idx } && id == ext
            && leading_nodes(args@, inputs as int) && out_idx == k) && region.writes@[k] == (
        Write::Output { port: 0, elem: k as u32, src: NodeId((inputs + k) as u32) })
    &&& region.writes@.len() == outputs
}

/// `b` is the IR block of a block without op graph: its outputs come from extern
/// number `ext`, and a block without outputs calls nothing.
pub open spec fn opaque_block_of<F>(m: BlockModel<F>, id: BlockId, ext: ExternId, b: Block<F>) -> bool {
    let inputs = m.n_inputs as u32;
    let outputs = m.n_outputs as u32;
    &&& b.id == id
    &&& b.name@ == m.kind_name@
    &&& b.kind_name@ == m.kind_name@
    &&& b.role == role_of(m.role)
    &&& single_port(b.ports.inputs@, "in"@, inputs)
    &&& single_port(b.ports.outputs@, "out"@, outputs)
    &&& b.params@.len() == 0
    &&& b.state@.len() == 0
    &&& b.memory@.len() == 0
    &&& if outputs > 0 {
        call_region(inputs, outputs, ext, b.regions.alg)
    } else {
        b.regions.alg.vacant()
    }
    &&& b.regions.dyn_.vacant()
    &&& opaque_events_of(m.events@, b.events@)
}

/// `d` declares the extern of an opaque block.
pub open spec fn extern_of<F>(m: BlockModel<F>, ext: ExternId, d: ExternDecl) -> bool {
    &&& d.id == ext
    &&& d.name@ == m.kind_name@
    &&& d.arity_in == m.n_inputs as u32
    &&& d.arity_out == m.n_outputs as u32
}

fn arg_nodes(n: u32) -> (args: Vec<NodeId>)
    ensures
        leading_nodes(args@, n as int),
{
    let mut args: Vec<NodeId> = Vec::new();
    let mut k: u32 = 0;
    while k < n
        invariant
            k <= n,
            args@.len() == k,
            forall|j: int| 0 <= j < k ==> (#[trigger] args@[j]).0 == j,
        decreases n - k,
    {
        args.push(NodeId(k));
        k += 1;
    }
    args
}

fn build_calls<F: Scalar>(inputs: u32, outputs: u32, ext: ExternId) -> (region: Region<F>)
    ensures
        call_region(inputs, outputs, ext, region),
{
    let mut ops: Vec<Op<F>> = Vec::new();
    let mut writes: Vec<Write> = Vec::new();
    let mut e: u32 = 0;
    while e < inputs
        invariant
            e <= inputs,
            ops@.len() == e,
            forall|j: int|
                0 <= j < e ==> #[trigger] ops@[j] == (Op::<F>::Input { port: 0, elem: j as u32 }),
        decreases inputs - e,
    {
        ops.push(Op::Input { port: 0, elem: e });
        e += 1;
    }
    let mut k: u32 = 0;
    while k < outputs
        invariant
            k <= outputs,
            ops@.len() == inputs + k,
            writes@.len() == k,
            forall|j: int|
                0 <= j < inputs ==> #[trigger] ops@[j] == (Op::<F>::Input {
                    port: 0,
                    elem: j as u32,
                }),
            forall|j: int|
                #![trigger writes@[j]]
                0 <= j < k ==> (ops@[inputs + j] matches Op::Call { id, args, out_idx } && id == ext
                    && leading_nodes(args@, inputs as int) && out_idx == j) && writes@[j] == (
                Write::Output { port: 0, elem: j as u32, src: NodeId((inputs + j) as u32) }),
        decreases outputs - k,
    {
        let src: NodeId = NodeId(narrow(ops.len()));
        ops.push(Op::Call { id: ext, args: arg_nodes(inputs), out_idx: k });
        writes.push(Write::Output { port: 0, elem: k, src });
        k += 1;
    }
    Region { ops, writes }
}

/// The IR block of a block without op graph, and the declaration of its extern.
pub fn opaque_block<F: Scalar>(m: &BlockModel<F>, id: BlockId, ext: ExternId) -> (r: (
    Block<F>,
    ExternDecl,
))
    ensures
        opaque_block_of(*m, id, ext, r.0),
        extern_of(*m, ext, r.1),
{
    let inputs: u32 = narrow(m.n_inputs);
    let outputs: u32 = narrow(m.n_outputs);
    let regions: Regions<F> = if outputs > 0 {
        Regions { alg: build_calls(inputs, outputs, ext), dyn_: Region::default() }
    } else {
        Regions::default()
    };
    let block: Block<F> = Block {
        id,
        name: m.kind_name.clone(),
        kind_name: m.kind_name.clone(),
        role: map_role(m.role),
        ports: Ports { inputs: port_list("in", inputs), outputs: port_list("out", outputs) },
        params: Vec::new(),
        state: Vec::new(),
        memory: Vec::new(),
        regions,
        events: opaque_events(&m.events),
    };
    let decl: ExternDecl = ExternDecl {
        id: ext,
        name: m.kind_name.clone(),
        arity_in: inputs,
        arity_out: outputs,
    };
    (block, decl)
}

/// The element slicing that resolved indices stand for: the single index zero
/// is the whole port.
pub open spec fn slicing(indices: Seq<usize>, elems: Option<Vec<u32>>) -> bool {
    match elems {
        None => indices == seq![0usize],
        Some(out) => indices != seq![0usize] && out@ == indices.map_values(|i: usize| i as u32),
    }
}

/// The element slicing of a port reference.
pub fn elems_of(indices: Vec<usize>) -> (elems: Option<Vec<u32>>)
    ensures
        slicing(indices@, elems),
{
    if indices.len() == 1 && indices[0] == 0 {
        assert(indices@ =~= seq![0usize]);
        return None;
    }
    let mut out: Vec<u32> = Vec::with_capacity(indices.len());
    let mut k: usize = 0;
    while k < indices.len()
        invariant
            k <= indices.len(),
            out@.len() == k,
            forall|j: int| 0 <= j < k ==> #[trigger] out@[j] == indices@[j] as u32,
        decreases indices.len() - k,
    {
        out.push(narrow(indices[k]));
        k += 1;
    }
    assert(out@ =~= indices@.map_values(|i: usize| i as u32));
    proof {
        if indices@ == seq![0usize] {
            assert(indices@.len() == 1 && indices@[0] == 0);
        }
    }
    Some(out)
}

/// Slicing keeps the indices apart: equal slicings come from equal indices, as
/// long as the indices fit their width.
pub proof fn law_slicing_injective(
    a: Seq<usize>,
    b: Seq<usize>,
    ea: Option<Vec<u32>>,
    eb: Option<Vec<u32>>,
)
    requires
        slicing(a, ea),
        slicing(b, eb),
        ea is None <==> eb is None,
        ea is Some ==> ea->Some_0@ == eb->Some_0@,
        forall|k: int| 0 <= k < a.len() ==> #[trigger] a[k] <= u32::MAX,
        forall|k: int| 0 <= k < b.len() ==> #[trigger] b[k] <= u32::MAX,
    ensures
        a == b,
{
    if ea is Some {
        let fa = a.map_values(|i: usize| i as u32);
        let fb = b.map_values(|i: usize| i as u32);
        assert(fa == fb);
        assert(a.len() == b.len()) by {
            assert(fa.len() == a.len() && fb.len() == b.len());
        }
        assert forall|k: int| 0 <= k < a.len() implies a[k] == b[k] by {
            assert(fa[k] == a[k] as u32 && fb[k] == b[k] as u32);
        }
        assert(a =~= b);
    }
}

/// The graph that one equation of a block offers.
pub open spec fn graph_of<F>(op: Option<Operator<F>>) -> Option<RegionGraph<F>> {
    match op {
        Some(o) => o.graph,
        None => None,
    }
}

/// The block describes its outputs by op graphs.
pub open spec fn has_ops<F>(m: BlockModel<F>) -> bool {
    m.alg_op is Some || m.op_discrete is Some
}

/// The block can be lowered: it has op graphs, and every one of them resolves at
/// the connected width.
pub open spec fn lowerable<F>(m: BlockModel<F>) -> bool {
    &&& has_ops(m)
    &&& match m.op_discrete {
        Some(d) => d is Some,
        None => graph_of(m.alg_op) is Some ==> graph_of(m.alg_op)->Some_0.resolved() is Some,
    }
    &&& graph_of(m.dyn_op) is Some ==> graph_of(m.dyn_op)->Some_0.resolved() is Some
}

/// A graph that computes nothing.
pub open spec fn blank<F>(g: Graph<F>) -> bool {
    &&& g.nodes@.len() == 0
    &&& g.signature.slots@.len() == 0
    &&& g.outputs@.len() == 0
    &&& g.param_names@.len() == 0
    &&& g.param_defaults@.len() == 0
}

/// `ops` is what block `m` offers for lowering. A block without algebraic graph
/// offers a blank one.
pub open spec fn leaf_of<F>(m: BlockModel<F>, ops: LeafOps<F>) -> bool {
    &&& ops.kind_name@ == match m.op_kind_name {
        Some(name) => name@,
        None => m.kind_name@,
    }
    &&& match graph_of(m.alg_op) {
        Some(rg) => *ops.alg == rg,
        None => *ops.alg matches RegionGraph::Fixed(g) && blank(g),
    }
    &&& match graph_of(m.dyn_op) {
        Some(rg) => ops.dyn_ matches Some(d) && *d == rg,
        None => ops.dyn_ is None,
    }
    &&& ops.state_init@ == match m.initial_value {
        Some(v) => v@,
        None => Seq::empty(),
    }
    &&& ops.memory@ == m.op_memory@
    &&& ops.events@ == m.op_events@
    &&& match m.op_discrete {
        Some(d) => ops.discrete matches Some(o) && *o == d,
        None => ops.discrete is None,
    }
    &&& match m.alg_op {
        Some(o) => match o.lut1d {
            Some(l) => ops.lut1d matches Some(t) && *t == l,
            None => ops.lut1d is None,
        },
        None => ops.lut1d is None,
    }
}

/// `b` is the IR block of the lowerable block `m`.
pub open spec fn leaf_ir<F: Scalar>(m: BlockModel<F>, id: BlockId, b: Block<F>) -> bool {
    exists|ops: LeafOps<F>| #[trigger]
        leaf_of(m, ops) && built(ops, m.role, id, m.n_inputs as u32, m.n_outputs as u32, b)
}

fn operator_graph<F>(op: &Option<Operator<F>>) -> (r: Option<&RegionGraph<F>>)
    ensures
        match graph_of(*op) {
            Some(rg) => r matches Some(g) && *g == rg,
            None => r is None,
        },
{
    match op {
        Some(o) => match &o.graph {
            Some(g) => Some(g),
            None => None,
        },
        None => None,
    }
}

fn operator_table<F>(op: &Option<Operator<F>>) -> (r: Option<&Lut1dSpec<F>>)
    ensures
        match *op {
            Some(o) => match o.lut1d {
                Some(l) => r matches Some(t) && *t == l,
                None => r is None,
            },
            None => r is None,
        },
{
    match op {
        Some(o) => match &o.lut1d {
            Some(l) => Some(l),
            None => None,
        },
        None => None,
    }
}

/// The IR block of a leaf block, or `None` if it cannot be lowered.
pub fn block_ops_to_ir_block<F: Scalar>(m: &BlockModel<F>, id: BlockId) -> (r: Option<Block<F>>)
    ensures
        r is Some <==> lowerable(*m),
        r is Some ==> leaf_ir(*m, id, r->Some_0),
{
    if m.alg_op.is_none() && m.op_discrete.is_none() {
        return None;
    }
    let placeholder: RegionGraph<F> = RegionGraph::Fixed(Graph::new(InputSignature::empty()));
    let alg: &RegionGraph<F> = match operator_graph(&m.alg_op) {
        Some(rg) => rg,
        None => &placeholder,
    };
    let no_state: [F; 0] = [];
    let state_init: &[F] = match &m.initial_value {
        Some(v) => v.as_slice(),
        None => &no_state,
    };
    let kind_name: &str = match &m.op_kind_name {
        Some(name) => name.as_str(),
        None => m.kind_name.as_str(),
    };
    let discrete: Option<&Option<DiscreteResolved<F>>> = match &m.op_discrete {
        Some(d) => Some(d),
        None => None,
    };
    let ops: LeafOps<F> = LeafOps {
        kind_name,
        alg,
        dyn_: operator_graph(&m.dyn_op),
        state_init,
        memory: m.op_memory.as_slice(),
        events: m.op_events.as_slice(),
        discrete,
        lut1d: operator_table(&m.alg_op),
    };
    assert(ops.state_init@ =~= match m.initial_value {
        Some(v) => v@,
        None => Seq::empty(),
    });
    assert(leaf_of(*m, ops));
    build_from_ops(&ops, &m.role, id, narrow(m.n_inputs), narrow(m.n_outputs))
}

/// `i` is the first position of `key`.
pub open spec fn first_at(keys: Seq<u64>, key: u64, i: int) -> bool {
    0 <= i < keys.len() && keys[i] == key && forall|j: int| 0 <= j < i ==> #[trigger] keys[j] != key
}

/// How a scope refers to the block with the given key: the interface by the
/// sentinel, a child by its position, any other block not at all.
pub open spec fn reference(keys: Seq<u64>, iface: Option<u64>, key: u64) -> Option<BlockId> {
    if iface == Some(key) {
        Some(BlockId(u32::MAX))
    } else if exists|i: int| first_at(keys, key, i) {
        Some(BlockId((choose|i: int| first_at(keys, key, i)) as u32))
    } else {
        None
    }
}

/// `r` refers to the elements of `p` on block `b`.
pub open spec fn port_ir(p: PortModel, b: BlockId, r: PortRef) -> bool {
    r.block == b && r.port == 0 && slicing(p.indices@, r.elems)
}

/// `out` refers to the targets that belong to the scope, in order.
pub open spec fn targets_ir(
    keys: Seq<u64>,
    iface: Option<u64>,
    targets: Seq<PortModel>,
    out: Seq<PortRef>,
) -> bool
    decreases targets.len(),
{
    if targets.len() == 0 {
        out.len() == 0
    } else {
        match reference(keys, iface, targets.last().block) {
            None => targets_ir(keys, iface, targets.drop_last(), out),
            Some(b) => out.len() > 0 && port_ir(targets.last(), b, out.last()) && targets_ir(
                keys,
                iface,
                targets.drop_last(),
                out.drop_last(),
            ),
        }
    }
}

/// `out` lists the connections whose source belongs to the scope, in order and
/// under the numbers they had.
pub open spec fn connections_ir(
    keys: Seq<u64>,
    iface: Option<u64>,
    conns: Seq<ConnModel>,
    out: Seq<Connection>,
) -> bool
    decreases conns.len(),
{
    if conns.len() == 0 {
        out.len() == 0
    } else {
        match reference(keys, iface, conns.last().source.block) {
            None => connections_ir(keys, iface, conns.drop_last(), out),
            Some(b) => {
                &&& out.len() > 0
                &&& out.last().id.0 == (conns.len() - 1) as u32
                &&& port_ir(conns.last().source, b, out.last().src)
                &&& targets_ir(keys, iface, conns.last().targets@, out.last().targets@)
                &&& connections_ir(keys, iface, conns.drop_last(), out.drop_last())
            },
        }
    }
}

fn find_reference<F>(blocks: &Vec<BlockModel<F>>, iface: Option<u64>, key: u64) -> (r: Option<BlockId>)
    ensures
        r == reference(keys_of(blocks@), iface, key),
{
    let ghost keys = keys_of(blocks@);
    if let Some(k) = iface {
        if k == key {
            return Some(BlockId::interface());
        }
    }
    let mut i: usize = 0;
    while i < blocks.len()
        invariant
            i <= blocks.len(),
            keys == keys_of(blocks@),
            iface != Some(key),
            forall|j: int| 0 <= j < i ==> #[trigger] keys[j] != key,
        decreases blocks.len() - i,
    {
        if blocks[i].key == key {
            proof {
                assert(first_at(keys, key, i as int));
                let k = choose|k: int| first_at(keys, key, k);
                assert(k == i) by {
                    if k < i {
                        assert(keys[k] != key);
                    }
                }
            }
            return Some(BlockId(narrow(i)));
        }
        assert(keys[i as int] == blocks@[i as int].key);
        i += 1;
    }
    None
}

fn build_targets<F>(blocks: &Vec<BlockModel<F>>, iface: Option<u64>, targets: &Vec<PortModel>) -> (out:
    Vec<PortRef>)
    ensures
        targets_ir(keys_of(blocks@), iface, targets@, out@),
{
    let mut out: Vec<PortRef> = Vec::new();
    let mut i: usize = 0;
    while i < targets.len()
        invariant
            i <= targets.len(),
            targets_ir(keys_of(blocks@), iface, targets@.take(i as int), out@),
        decreases targets.len() - i,
    {
        let ghost before = out@;
        assert(targets@.take(i + 1).drop_last() =~= targets@.take(i as int));
        if let Some(b) = find_reference(blocks, iface, targets[i].block) {
            let elems: Option<Vec<u32>> = elems_of(copied(targets[i].indices.as_slice()));
            out.push(PortRef { block: b, port: 0, elems });
            assert(out@.drop_last() =~= before);
        }
        i += 1;
    }
    assert(targets@.take(i as int) =~= targets@);
    out
}

fn build_connections<F>(blocks: &Vec<BlockModel<F>>, iface: Option<u64>, conns: &Vec<ConnModel>) -> (out:
    Vec<Connection>)
    ensures
        connections_ir(keys_of(blocks@), iface, conns@, out@),
{
    let mut out: Vec<Connection> = Vec::new();
    let mut i: usize = 0;
    while i < conns.len()
        invariant
            i <= conns.len(),
            connections_ir(keys_of(blocks@), iface, conns@.take(i as int), out@),
        decreases conns.len() - i,
    {
        let ghost before = out@;
        assert(conns@.take(i + 1).drop_last() =~= conns@.take(i as int));
        let c: &ConnModel = &conns[i];
        if let Some(b) = find_reference(blocks, iface, c.source.block) {
            let elems: Option<Vec<u32>> = elems_of(copied(c.source.indices.as_slice()));
            let src: PortRef = PortRef { block: b, port: 0, elems };
            let targets: Vec<PortRef> = build_targets(blocks, iface, &c.targets);
            out.push(Connection { id: ConnectionId(narrow(i)), src, targets });
            assert(out@.drop_last() =~= before);
        }
        i += 1;
    }
    assert(conns@.take(i as int) =~= conns@);
    out
}

/// The block that a node of the analysis stands for: nodes are numbered like the
/// children, and the node after them is the interface.
pub open spec fn node_block(n: int, has_iface: bool, node: usize) -> BlockId {
    if has_iface && node == n {
        BlockId(u32::MAX)
    } else {
        BlockId(node as u32)
    }
}

/// The blocks of a list of nodes.
pub open spec fn node_blocks(n: int, has_iface: bool, nodes: Seq<usize>) -> Seq<BlockId> {
    nodes.map_values(|node: usize| node_block(n, has_iface, node))
}

/// `out` lists the levels that hold a block, each with its depth.
pub open spec fn groups_ir(n: int, has_iface: bool, dag: Seq<Level>, out: Seq<DagGroup>) -> bool
    decreases dag.len(),
{
    if dag.len() == 0 {
        out.len() == 0
    } else if dag.last().blocks@.len() == 0 {
        groups_ir(n, has_iface, dag.drop_last(), out)
    } else {
        &&& out.len() > 0
        &&& out.last().depth == (dag.len() - 1) as u32
        &&& out.last().blocks@ == node_blocks(n, has_iface, dag.last().blocks@)
        &&& groups_ir(n, has_iface, dag.drop_last(), out.drop_last())
    }
}

/// `ids` numbers the connections of `raw`.
pub open spec fn same_connections(raw: Seq<usize>, ids: Seq<ConnectionId>) -> bool {
    &&& ids.len() == raw.len()
    &&& forall|k: int| 0 <= k < raw.len() ==> (#[trigger] ids[k]).0 == raw[k] as u32
}

/// `out` lists the algebraic loops in order.
pub open spec fn loops_ir(n: int, has_iface: bool, loops: Seq<LoopModel>, out: Seq<Scc>) -> bool {
    &&& out.len() == loops.len()
    &&& forall|k: int|
        #![trigger out[k]]
        0 <= k < out.len() ==> out[k].blocks@ == node_blocks(n, has_iface, loops[k].blocks@)
            && same_connections(loops[k].back_edges@, out[k].back_edges@)
}

/// `set` holds the elements of `raw` in ascending order, each once.
pub open spec fn ascending_set(raw: Seq<usize>, set: Seq<usize>) -> bool {
    &&& forall|i: int, j: int| 0 <= i < j < set.len() ==> set[i] < set[j]
    &&& forall|c: usize| raw.contains(c) <==> #[trigger] set.contains(c)
}

/// `s` is the schedule of a scope with `n` blocks that the analysis gives.
pub open spec fn schedule_ir(n: int, has_iface: bool, g: GraphAnalysis, s: Schedule) -> bool {
    &&& s.topo@ == node_blocks(n, has_iface, g.topo_order@)
    &&& groups_ir(n, has_iface, g.dag@, s.groups@)
    &&& loops_ir(n, has_iface, g.loops@, s.sccs@)
    &&& exists|set: Seq<usize>| #[trigger]
        ascending_set(g.loop_closing@, set) && same_connections(set, s.back_edges@)
}

fn map_nodes(n: usize, has_iface: bool, nodes: &Vec<usize>) -> (out: Vec<BlockId>)
    ensures
        out@ == node_blocks(n as int, has_iface, nodes@),
{
    let mut out: Vec<BlockId> = Vec::with_capacity(nodes.len());
    let mut k: usize = 0;
    while k < nodes.len()
        invariant
            k <= nodes.len(),
            out@.len() == k,
            forall|j: int|
                0 <= j < k ==> #[trigger] out@[j] == node_block(n as int, has_iface, nodes@[j]),
        decreases nodes.len() - k,
    {
        let node: usize = nodes[k];
        if has_iface && node == n {
            out.push(BlockId::interface());
        } else {
            out.push(BlockId(narrow(node)));
        }
        k += 1;
    }
    assert(out@ =~= node_blocks(n as int, has_iface, nodes@));
    out
}

fn map_connections(raw: &Vec<usize>) -> (ids: Vec<ConnectionId>)
    ensures
        same_connections(raw@, ids@),
{
    let mut ids: Vec<ConnectionId> = Vec::with_capacity(raw.len());
    let mut k: usize = 0;
    while k < raw.len()
        invariant
            k <= raw.len(),
            ids@.len() == k,
            forall|j: int| 0 <= j < k ==> (#[trigger] ids@[j]).0 == raw@[j] as u32,
        decreases raw.len() - k,
    {
        ids.push(ConnectionId(narrow(raw[k])));
        k += 1;
    }
    ids
}

/// The elements of `raw` in ascending order without repetition.
pub fn sorted_unique(raw: &Vec<usize>) -> (set: Vec<usize>)
    ensures
        ascending_set(raw@, set@),
{
    let mut set: Vec<usize> = Vec::new();
    let mut k: usize = 0;
    while k < raw.len()
        invariant
            k <= raw.len(),
            ascending_set(raw@.take(k as int), set@),
        decreases raw.len() - k,
    {
        let c: usize = raw[k];
        let ghost before = set@;
        let mut p: usize = 0;
        while p < set.len() && set[p] < c
            invariant
                p <= set.len(),
                set@ == before,
                forall|j: int| 0 <= j < p ==> #[trigger] set@[j] < c,
            decreases set.len() - p,
        {
            p += 1;
        }
        proof {
            let wider = raw@.take(k + 1);
            assert(wider =~= raw@.take(k as int).push(c));
            assert forall|d: usize| wider.contains(d) <==> raw@.take(k as int).contains(d) || d
                == c by {
                if raw@.take(k as int).contains(d) {
                    let j = raw@.take(k as int).index_of(d);
                    assert(wider[j] == d);
                }
                if d == c {
                    assert(wider[k as int] == d);
                }
                if wider.contains(d) && d != c {
                    let j = wider.index_of(d);
                    assert(j < k);
                    assert(raw@.take(k as int)[j] == d);
                }
            }
        }
        if p < set.len() && set[p] == c {
            assert(before[p as int] == c);
        } else {
            set.insert(p, c);
            proof {
                assert(set@ =~= before.insert(p as int, c));
                assert forall|i: int, j: int| 0 <= i < j < set@.len() implies set@[i] < set@[j] by {
                    if j < p {
                        assert(before[i] < before[j]);
                    } else if j == p {
                        assert(set@[i] == before[i]);
                    } else if i >= p && j > p {
                        if i > p {
                            assert(before[i - 1] < before[j - 1]);
                        } else {
                            if j - 1 > p {
                                assert(before[p as int] < before[j - 1]);
                            }
                        }
                    } else {
                        assert(before[i] < before[j - 1]);
                    }
                }
                assert forall|d: usize| before.contains(d) || d == c <==> #[trigger] set@.contains(
                    d,
                ) by {
                    if before.contains(d) {
                        let j = before.index_of(d);
                        if j < p {
                            assert(set@[j] == d);
                        } else {
                            assert(set@[j + 1] == d);
                        }
                    }
                    if d == c {
                        assert(set@[p as int] == d);
                    }
                    if set@.contains(d) && d != c {
                        let j = set@.index_of(d);
                        if j < p {
                            assert(before[j] == d);
                        } else {
                            assert(before[j - 1] == d);
                        }
                    }
                }
            }
        }
        k += 1;
    }
    assert(raw@.take(k as int) =~= raw@);
    set
}

/// The schedule of a scope with `n` blocks, from the analysis of its graph.
pub fn build_schedule(n: usize, has_iface: bool, g: &GraphAnalysis) -> (s: Schedule)
    ensures
        schedule_ir(n as int, has_iface, *g, s),
{
    let topo: Vec<BlockId> = map_nodes(n, has_iface, &g.topo_order);
    let mut groups: Vec<DagGroup> = Vec::new();
    let mut d: usize = 0;
    while d < g.dag.len()
        invariant
            d <= g.dag.len(),
            groups_ir(n as int, has_iface, g.dag@.take(d as int), groups@),
        decreases g.dag.len() - d,
    {
        let ghost before = groups@;
        assert(g.dag@.take(d + 1).drop_last() =~= g.dag@.take(d as int));
        if g.dag[d].blocks.len() > 0 {
            let blocks: Vec<BlockId> = map_nodes(n, has_iface, &g.dag[d].blocks);
            groups.push(DagGroup { depth: narrow(d), blocks });
            assert(groups@.drop_last() =~= before);
        }
        d += 1;
    }
    assert(g.dag@.take(d as int) =~= g.dag@);
    let mut sccs: Vec<Scc> = Vec::new();
    let mut k: usize = 0;
    while k < g.loops.len()
        invariant
            k <= g.loops.len(),
            sccs@.len() == k,
            forall|j: int|
                #![trigger sccs@[j]]
                0 <= j < k ==> sccs@[j].blocks@ == node_blocks(
                    n as int,
                    has_iface,
                    g.loops@[j].blocks@,
                ) && same_connections(g.loops@[j].back_edges@, sccs@[j].back_edges@),
        decreases g.loops.len() - k,
    {
        let blocks: Vec<BlockId> = map_nodes(n, has_iface, &g.loops[k].blocks);
        let back_edges: Vec<ConnectionId> = map_connections(&g.loops[k].back_edges);
        sccs.push(Scc { blocks, back_edges });
        k += 1;
    }
    let set: Vec<usize> = sorted_unique(&g.loop_closing);
    let back_edges: Vec<ConnectionId> = map_connections(&set);
    Schedule { topo, groups, sccs, back_edges }
}

/// Number of subsystems in a block, itself included.
pub open spec fn subsystems_in<F>(m: BlockModel<F>) -> nat
    decreases m, 0nat,
{
    match m.inner {
        Some(s) => 1 + subsystems_before(s.blocks@, s.blocks@.len() as int),
        None => 0,
    }
}

/// Number of subsystems in the first `n` blocks of a scope.
pub open spec fn subsystems_before<F>(blocks: Seq<BlockModel<F>>, n: int) -> nat
    decreases blocks, n,
{
    if n <= 0 || n > blocks.len() {
        0
    } else {
        subsystems_before(blocks, n - 1) + subsystems_in(blocks[n - 1])
    }
}

/// Number of externs that lowering a block declares.
pub open spec fn externs_in<F>(m: BlockModel<F>) -> nat
    decreases m, 0nat,
{
    match m.inner {
        Some(s) => externs_before(s.blocks@, s.blocks@.len() as int),
        None => if lowerable(m) {
            0
        } else {
            1
        },
    }
}

/// Number of externs that lowering the first `n` blocks of a scope declares.
pub open spec fn externs_before<F>(blocks: Seq<BlockModel<F>>, n: int) -> nat
    decreases blocks, n,
{
    if n <= 0 || n > blocks.len() {
        0
    } else {
        externs_before(blocks, n - 1) + externs_in(blocks[n - 1])
    }
}

/// `i` is the outer-facing interface of a subsystem block.
pub open spec fn interface_of<F>(m: BlockModel<F>, i: Interface) -> bool {
    &&& single_port(i.inputs@, "in"@, m.n_inputs as u32)
    &&& single_port(i.outputs@, "out"@, m.n_outputs as u32)
}

/// Name of the subsystem that is child `i` of the scope called `scope`.
pub open spec fn nested_name(scope: Seq<char>, i: int) -> Seq<char> {
    scope + "/sub"@ + decimal(i as nat)
}

/// `c` is the IR of block `m`, child `i` of the scope called `scope`, where
/// `ids` subsystems and `exts` externs come before it.
#[verifier::opaque]
pub open spec fn child_ir<F: Scalar>(
    m: BlockModel<F>,
    i: int,
    scope: Seq<char>,
    ids: int,
    exts: int,
    c: Child<F>,
) -> bool
    decreases m, 0nat,
{
    match m.inner {
        Some(s) => c matches Child::Subsystem(sub) && sub.id.0 == ids + 1 && interface_of(
            m,
            sub.interface,
        ) && scope_ir(*s, nested_name(scope, i), ids + 1, exts, sub),
        None => c matches Child::Block(b) && if lowerable(m) {
            leaf_ir(m, BlockId(i as u32), b)
        } else {
            opaque_block_of(m, BlockId(i as u32), ExternId(exts as u32), b)
        },
    }
}

/// `sub` is the IR of the scope `s`, whatever its number and its interface: its
/// children in order, its connections and its schedule.
pub open spec fn scope_ir<F: Scalar>(
    s: ScopeModel<F>,
    name: Seq<char>,
    ids: int,
    exts: int,
    sub: Subsystem<F>,
) -> bool
    decreases s, 0nat,
{
    &&& sub.name@ == name
    &&& sub.children@.len() == s.blocks@.len()
    &&& forall|i: int|
        0 <= i < s.blocks@.len() ==> child_ir(
            #[trigger] s.blocks@[i],
            i,
            name,
            ids + subsystems_before(s.blocks@, i),
            exts + externs_before(s.blocks@, i),
            sub.children@[i],
        )
    &&& connections_ir(keys_of(s.blocks@), s.interface, s.connections@, sub.connections@)
    &&& schedule_ir(s.blocks@.len() as int, s.interface is Some, s.analysis, sub.schedule)
}

/// `decls` declares, from number `exts` on, the externs of block `m`.
#[verifier::opaque]
pub open spec fn externs_ir<F>(m: BlockModel<F>, exts: int, decls: Seq<ExternDecl>) -> bool
    decreases m,
{
    match m.inner {
        Some(s) => forall|i: int|
            0 <= i < s.blocks@.len() ==> externs_ir(
                #[trigger] s.blocks@[i],
                exts + externs_before(s.blocks@, i),
                decls,
            ),
        None => lowerable(m) || (exts < decls.len() && extern_of(
            m,
            ExternId(exts as u32),
            decls[exts],
        )),
    }
}

/// `decls` declares, from number `exts` on, the externs of a scope.
pub open spec fn scope_externs_ir<F>(blocks: Seq<BlockModel<F>>, exts: int, decls: Seq<ExternDecl>) -> bool {
    forall|i: int|
        0 <= i < blocks.len() ==> externs_ir(
            #[trigger] blocks[i],
            exts + externs_before(blocks, i),
            decls,
        )
}

proof fn lemma_externs_extend<F>(
    m: BlockModel<F>,
    exts: int,
    short: Seq<ExternDecl>,
    long: Seq<ExternDecl>,
)
    requires
        0 <= exts,
        externs_ir(m, exts, short),
        short.len() <= long.len(),
        long.take(short.len() as int) == short,
    ensures
        externs_ir(m, exts, long),
    decreases m,
{
    reveal(externs_ir);
    match m.inner {
        Some(s) => {
            assert forall|i: int| 0 <= i < s.blocks@.len() implies externs_ir(
                #[trigger] s.blocks@[i],
                exts + externs_before(s.blocks@, i),
                long,
            ) by {
                lemma_externs_extend(
                    s.blocks@[i],
                    exts + externs_before(s.blocks@, i),
                    short,
                    long,
                );
            }
        },
        None => {
            if !lowerable(m) {
                assert(long.take(short.len() as int)[exts] == long[exts]);
            }
        },
    }
}

proof fn lemma_subsystems_monotone<F>(blocks: Seq<BlockModel<F>>, i: int, j: int)
    requires
        0 <= i <= j <= blocks.len(),
    ensures
        subsystems_before(blocks, i) <= subsystems_before(blocks, j),
    decreases j - i,
{
    if i < j {
        lemma_subsystems_monotone(blocks, i, j - 1);
    }
}

fn wrapper_interface<F>(m: &BlockModel<F>) -> (i: Interface)
    ensures
        interface_of(*m, i),
{
    Interface {
        inputs: port_list("in", narrow(m.n_inputs)),
        outputs: port_list("out", narrow(m.n_outputs)),
    }
}

/// The IR of block `m`, child `i` of the scope called `name`.
fn build_child<F: Scalar>(
    m: &BlockModel<F>,
    i: usize,
    name: &str,
    next_id: &mut u32,
    extern_decls: &mut Vec<ExternDecl>,
) -> (c: Child<F>)
    requires
        *old(next_id) + subsystems_in(*m) <= u32::MAX,
    ensures
        child_ir(
            *m,
            i as int,
            name@,
            *old(next_id) as int,
            old(extern_decls)@.len() as int,
            c,
        ),
        *final(next_id) == *old(next_id) + subsystems_in(*m),
        final(extern_decls)@.len() == old(extern_decls)@.len() + externs_in(*m),
        final(extern_decls)@.take(old(extern_decls)@.len() as int) == old(extern_decls)@,
        externs_ir(*m, old(extern_decls)@.len() as int, final(extern_decls)@),
    decreases m,
{
    reveal(child_ir);
    reveal(externs_ir);
    let ghost before = extern_decls@;
    match &m.inner {
        Some(inner) => {
            *next_id = *next_id + 1;
            let sub_id: SubsystemId = SubsystemId(*next_id);
            let prefix: String = joined(name, "/sub");
            let sub_name: String = numbered(prefix.as_str(), i);
            let mut nested: Subsystem<F> = build_scope(
                sub_id,
                sub_name.as_str(),
                &**inner,
                next_id,
                extern_decls,
            );
            nested.interface = wrapper_interface(m);
            Child::Subsystem(nested)
        },
        None => {
            match block_ops_to_ir_block(m, BlockId(narrow(i))) {
                Some(b) => {
                    assert(extern_decls@.take(before.len() as int) =~= before);
                    Child::Block(b)
                },
                None => {
                    let eid: ExternId = ExternId(narrow(extern_decls.len()));
                    let (b, decl): (Block<F>, ExternDecl) = opaque_block(m, BlockId(narrow(i)), eid);
                    extern_decls.push(decl);
                    assert(extern_decls@.take(before.len() as int) =~= before);
                    Child::Block(b)
                },
            }
        },
    }
}

proof fn lemma_scope_externs_extend<F>(
    blocks: Seq<BlockModel<F>>,
    n: int,
    exts: int,
    short: Seq<ExternDecl>,
    long: Seq<ExternDecl>,
)
    requires
        0 <= exts,
        0 <= n <= blocks.len(),
        forall|k: int|
            0 <= k < n ==> externs_ir(
                #[trigger] blocks[k],
                exts + externs_before(blocks, k),
                short,
            ),
        short.len() <= long.len(),
        long.take(short.len() as int) == short,
    ensures
        forall|k: int|
            0 <= k < n ==> externs_ir(
                #[trigger] blocks[k],
                exts + externs_before(blocks, k),
                long,
            ),
{
    assert forall|k: int| 0 <= k < n implies externs_ir(
        #[trigger] blocks[k],
        exts + externs_before(blocks, k),
        long,
    ) by {
        lemma_externs_extend(blocks[k], exts + externs_before(blocks, k), short, long);
    }
}

/// The IR of one scope, nested subsystems included. Subsystems are numbered
/// after `next_id` in the order in which they are met, and externs after those
/// already declared.
pub fn build_scope<F: Scalar>(
    id: SubsystemId,
    name: &str,
    s: &ScopeModel<F>,
    next_id: &mut u32,
    extern_decls: &mut Vec<ExternDecl>,
) -> (sub: Subsystem<F>)
    requires
        *old(next_id) + subsystems_before(s.blocks@, s.blocks@.len() as int) <= u32::MAX,
    ensures
        sub.id == id,
        sub.interface.inputs@.len() == 0,
        sub.interface.outputs@.len() == 0,
        scope_ir(*s, name@, *old(next_id) as int, old(extern_decls)@.len() as int, sub),
        *final(next_id) == *old(next_id) + subsystems_before(s.blocks@, s.blocks@.len() as int),
        final(extern_decls)@.len() == old(extern_decls)@.len() + externs_before(
            s.blocks@,
            s.blocks@.len() as int,
        ),
        final(extern_decls)@.take(old(extern_decls)@.len() as int) == old(extern_decls)@,
        scope_externs_ir(s.blocks@, old(extern_decls)@.len() as int, final(extern_decls)@),
    decreases s,
{
    let ghost ids = *next_id as int;
    let ghost exts = extern_decls@.len() as int;
    let ghost start = extern_decls@;
    let mut children: Vec<Child<F>> = Vec::with_capacity(s.blocks.len());
    let mut i: usize = 0;
    assert(extern_decls@.take(exts) =~= start);
    while i < s.blocks.len()
        invariant
            i <= s.blocks.len(),
            ids + subsystems_before(s.blocks@, s.blocks@.len() as int) <= u32::MAX,
            children@.len() == i,
            *next_id == ids + subsystems_before(s.blocks@, i as int),
            exts == start.len(),
            extern_decls@.len() == exts + externs_before(s.blocks@, i as int),
            extern_decls@.take(exts) == start,
            forall|k: int|
                0 <= k < i ==> child_ir(
                    #[trigger] s.blocks@[k],
                    k,
                    name@,
                    ids + subsystems_before(s.blocks@, k),
                    exts + externs_before(s.blocks@, k),
                    children@[k],
                ),
            forall|k: int|
                0 <= k < i ==> externs_ir(
                    #[trigger] s.blocks@[k],
                    exts + externs_before(s.blocks@, k),
                    extern_decls@,
                ),
        decreases s.blocks.len() - i,
    {
        let m: &BlockModel<F> = &s.blocks[i];
        let ghost before = extern_decls@;
        proof {
            lemma_subsystems_monotone(s.blocks@, i + 1, s.blocks@.len() as int);
        }
        let c: Child<F> = build_child(m, i, name, next_id, extern_decls);
        proof {
            lemma_scope_externs_extend(s.blocks@, i as int, exts, before, extern_decls@);
            assert(extern_decls@.take(exts) =~= before.take(exts));
        }
        children.push(c);
        i += 1;
    }
    let connections: Vec<Connection> = build_connections(&s.blocks, s.interface, &s.connections);
    let schedule: Schedule = build_schedule(s.blocks.len(), s.interface.is_some(), &s.analysis);
    let sub: Subsystem<F> = Subsystem {
        id,
        name: name.to_owned(),
        interface: Interface::default(),
        children,
        connections,
        schedule,
    };
    assert(scope_ir(*s, name@, ids, exts, sub)) by {
        reveal(child_ir);
    }
    sub
}

/// The subsystems of the block fit the numbering.
pub open spec fn numberable<F>(m: BlockModel<F>) -> bool {
    subsystems_in(m) <= u32::MAX
}

/// `sub` is the IR of the subsystem block `m` on its own: numbered zero, called
/// `subsystem`, and with the widths of the block as its interface.
pub open spec fn subsystem_ir<F: Scalar>(m: BlockModel<F>, sub: Subsystem<F>) -> bool {
    &&& m.inner is Some
    &&& sub.id.0 == 0
    &&& interface_of(m, sub.interface)
    &&& scope_ir(*m.inner->Some_0, "subsystem"@, 0, 0, sub)
}

/// `sub` is the node that the snapshot of a model with the given scope embeds for
/// its block `i`, where `root` is the root of that snapshot.
pub open spec fn embedded_in<F: Scalar>(
    scope: ScopeModel<F>,
    i: int,
    root: Subsystem<F>,
    sub: Subsystem<F>,
) -> bool {
    &&& root.id.0 == 0
    &&& scope_ir(scope, "root"@, 0, 0, root)
    &&& 0 <= i < root.children@.len()
    &&& root.children@[i] == Child::Subsystem(sub)
}

/// What the IR of a scope says of one of its blocks.
pub proof fn lemma_child_of<F: Scalar>(
    scope: ScopeModel<F>,
    name: Seq<char>,
    ids: int,
    exts: int,
    sub: Subsystem<F>,
    i: int,
)
    requires
        scope_ir(scope, name, ids, exts, sub),
        0 <= i < scope.blocks@.len(),
    ensures
        sub.children@.len() == scope.blocks@.len(),
        child_ir(
            scope.blocks@[i],
            i,
            name,
            ids + subsystems_before(scope.blocks@, i),
            exts + externs_before(scope.blocks@, i),
            sub.children@[i],
        ),
{
    reveal(child_ir);
}

/// The IR of a subsystem is a nested scope, and only that.
pub proof fn lemma_child_kind<F: Scalar>(
    m: BlockModel<F>,
    i: int,
    scope: Seq<char>,
    ids: int,
    exts: int,
    c: Child<F>,
)
    requires
        child_ir(m, i, scope, ids, exts, c),
    ensures
        c is Subsystem <==> m.inner is Some,
{
    reveal(child_ir);
}

/// The IR of block `i` of a model, as its snapshot embeds it, or `None` unless that
/// block is a subsystem.
pub fn subsystem_to_ir<F: Scalar>(scope: &ScopeModel<F>, i: usize) -> (r: Option<Subsystem<F>>)
    requires
        subsystems_before(scope.blocks@, scope.blocks@.len() as int) <= u32::MAX,
    ensures
        r is Some <==> i < scope.blocks@.len() && scope.blocks@[i as int].inner is Some,
        r is Some ==> child_ir(
            scope.blocks@[i as int],
            i as int,
            "root"@,
            subsystems_before(scope.blocks@, i as int) as int,
            externs_before(scope.blocks@, i as int) as int,
            Child::Subsystem(r->Some_0),
        ),
        r is Some ==> exists|root: Subsystem<F>| #[trigger]
            embedded_in(*scope, i as int, root, r->Some_0),
{
    let mut next_id: u32 = 0;
    let mut extern_decls: Vec<ExternDecl> = Vec::new();
    let root: Subsystem<F> = build_scope(
        SubsystemId(0),
        "root",
        scope,
        &mut next_id,
        &mut extern_decls,
    );
    if i >= scope.blocks.len() {
        return None;
    }
    let ghost whole = root;
    proof {
        lemma_child_of(*scope, "root"@, 0, 0, whole, i as int);
        lemma_child_kind(
            scope.blocks@[i as int],
            i as int,
            "root"@,
            subsystems_before(scope.blocks@, i as int) as int,
            externs_before(scope.blocks@, i as int) as int,
            whole.children@[i as int],
        );
    }
    let mut children: Vec<Child<F>> = root.children;
    let c: Child<F> = children.remove(i);
    assert(c == whole.children@[i as int]);
    match c {
        Child::Subsystem(sub) => {
            assert(embedded_in(*scope, i as int, whole, sub));
            Some(sub)
        },
        Child::Block(_) => None,
    }
}

/// A module whose root is the subsystem block `m` with its interface live, or
/// `None` for a leaf. It declares the externs that the subsystem calls.
pub fn module_from_subsystem<F: Scalar>(m: &BlockModel<F>, name: String) -> (r: Option<Module<F>>)
    requires
        numberable(*m),
    ensures
        r is Some <==> m.inner is Some,
        r is Some ==> {
            let module = r->Some_0;
            let blocks = m.inner->Some_0.blocks@;
            &&& module.ir_version == IR_VERSION
            &&& module.name@ == name@
            &&& module.description@.len() == 0
            &&& subsystem_ir(*m, module.root)
            &&& module.events@.len() == 0
            &&& module.extern_decls@.len() == externs_before(blocks, blocks.len() as int)
            &&& scope_externs_ir(blocks, 0, module.extern_decls@)
        },
{
    match &m.inner {
        Some(inner) => {
            let mut next_id: u32 = 0;
            let mut extern_decls: Vec<ExternDecl> = Vec::new();
            let mut root: Subsystem<F> = build_scope(
                SubsystemId(0),
                "subsystem",
                &**inner,
                &mut next_id,
                &mut extern_decls,
            );
            root.interface = wrapper_interface(m);
            let mut module: Module<F> = Module::new(name, root);
            module.extern_decls = extern_decls;
            Some(module)
        },
        None => None,
    }
}

/// `module` is the snapshot of a model with the given scope and host events.
pub open spec fn module_ir<F: Scalar>(
    scope: ScopeModel<F>,
    events: Seq<EventDescriptor<F>>,
    name: Seq<char>,
    module: Module<F>,
) -> bool {
    &&& module.ir_version == IR_VERSION
    &&& module.name@ == name
    &&& module.description@.len() == 0
    &&& module.root.id.0 == 0
    &&& module.root.interface.inputs@.len() == 0
    &&& module.root.interface.outputs@.len() == 0
    &&& scope_ir(scope, "root"@, 0, 0, module.root)
    &&& opaque_events_of(events, module.events@)
    &&& module.extern_decls@.len() == externs_before(scope.blocks@, scope.blocks@.len() as int)
    &&& scope_externs_ir(scope.blocks@, 0, module.extern_decls@)
}

/// Snapshot of an assembled model: its blocks and connections, nested
/// subsystems included, its model-level events and the externs it calls.
pub fn module_from_sim<F: Scalar>(
    scope: &ScopeModel<F>,
    events: &Vec<EventDescriptor<F>>,
    name: String,
) -> (module: Module<F>)
    requires
        subsystems_before(scope.blocks@, scope.blocks@.len() as int) <= u32::MAX,
    ensures
        module_ir(*scope, events@, name@, module),
{
    let mut next_id: u32 = 0;
    let mut extern_decls: Vec<ExternDecl> = Vec::new();
    let root: Subsystem<F> = build_scope(
        SubsystemId(0),
        "root",
        scope,
        &mut next_id,
        &mut extern_decls,
    );
    let mut module: Module<F> = Module::new(name, root);
    module.events = opaque_events(events);
    module.extern_decls = extern_decls;
    module
}

} // verus!
