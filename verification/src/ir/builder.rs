//! Lowering of op graphs and block descriptions to the IR schema.
//!
//! A graph and the region made of it share node order: op `i` of the region is
//! node `i` of the graph. Flat graph inputs become structured reads by the slot
//! that they fall in.

use vstd::prelude::*;

use crate::ir::eval::shorter;
use crate::ir::graph::{
    decoded, DirSpec, DiscreteResolved, EventKindSpec, EventSpec, Graph, InputSignature, Lut1dSpec,
    MemSpec, MemTarget, Node, RegionGraph, Slot, SlotKind,
};
use crate::ir::schema::{
    Block, BlockId, BlockRole, Direction, Event, EventId, EventKind, MemorySlot, MemorySlotId,
    NodeId, Op, Param, ParamId, ParamValue, Port, Ports, Region, Regions, ScheduleTimes, StateId,
    StateVar, Write,
};
use crate::scalar::{decodes, Scalar};
use crate::seqs::copied;
use crate::text::{decimal, numbered};

verus! {

/// Which side of a block a region is, so that its outputs become the right
/// writes.
#[derive(Debug, Clone, Copy, PartialEq, Eq, Structural)]
pub enum RegionRole {
    /// Outputs go to the output ports.
    Alg,
    /// Outputs are state derivatives.
    Dyn,
}

/// Port layout of a block.
pub struct GraphDecode<'a> {
    pub input_port_sizes: &'a [u32],
    pub output_port_sizes: &'a [u32],
}

/// Number of elements on the ports before port `p`.
pub open spec fn port_offset(sizes: Seq<u32>, p: int) -> int
    decreases p,
{
    if p <= 0 {
        0
    } else {
        port_offset(sizes, p - 1) + sizes[p - 1]
    }
}

/// Element `flat` of the concatenated ports is on port `p`.
pub open spec fn on_port(sizes: Seq<u32>, flat: int, p: int) -> bool {
    0 <= p < sizes.len() && port_offset(sizes, p) <= flat < port_offset(sizes, p + 1)
}

/// Port and element of a flat position, or port zero and the position itself
/// when no port holds it.
pub open spec fn port_split(flat: u32, sizes: Seq<u32>) -> (u32, u32) {
    if exists|p: int| on_port(sizes, flat as int, p) {
        let p = choose|p: int| on_port(sizes, flat as int, p);
        (p as u32, (flat - port_offset(sizes, p)) as u32)
    } else {
        (0, flat)
    }
}

pub proof fn lemma_port_offset_monotone(sizes: Seq<u32>, p: int, q: int)
    requires
        0 <= p <= q,
    ensures
        port_offset(sizes, p) <= port_offset(sizes, q),
    decreases q - p,
{
    if p < q {
        lemma_port_offset_monotone(sizes, p, q - 1);
    }
}

/// A flat position is on at most one port.
pub proof fn lemma_port_unique(sizes: Seq<u32>, flat: int, p: int, q: int)
    requires
        on_port(sizes, flat, p),
        on_port(sizes, flat, q),
    ensures
        p == q,
{
    if p < q {
        lemma_port_offset_monotone(sizes, p + 1, q);
    }
    if q < p {
        lemma_port_offset_monotone(sizes, q + 1, p);
    }
}

/// Splitting undoes concatenation: element `e` of port `p`, at its place in the
/// concatenated vector, is split back into `(p, e)`.
pub proof fn law_split_undoes_concatenation(sizes: Seq<u32>, p: int, e: int)
    requires
        0 <= p < sizes.len(),
        p <= u32::MAX,
        0 <= e < sizes[p],
        port_offset(sizes, p) + e <= u32::MAX,
    ensures
        port_split((port_offset(sizes, p) + e) as u32, sizes) == (p as u32, e as u32),
{
    let flat = (port_offset(sizes, p) + e) as u32;
    lemma_port_offset_monotone(sizes, 0, p);
    assert(port_offset(sizes, p + 1) == port_offset(sizes, p) + sizes[p]);
    assert(on_port(sizes, flat as int, p));
    let q = choose|q: int| on_port(sizes, flat as int, q);
    lemma_port_unique(sizes, flat as int, p, q);
}

/// Port and element of position `flat` in the concatenation of ports with the
/// given sizes.
pub fn split_port(flat: u32, sizes: &[u32]) -> (r: (u32, u32))
    ensures
        r == port_split(flat, sizes@),
{
    let mut rest: u32 = flat;
    let mut p: usize = 0;
    while p < sizes.len()
        invariant
            p <= sizes.len(),
            rest == flat - port_offset(sizes@, p as int),
            forall|q: int| 0 <= q < p ==> !(#[trigger] on_port(sizes@, flat as int, q)),
        decreases sizes.len() - p,
    {
        let size: u32 = sizes[p];
        assert(port_offset(sizes@, p + 1) == port_offset(sizes@, p as int) + size);
        if rest < size {
            proof {
                assert(on_port(sizes@, flat as int, p as int));
                let q = choose|q: int| on_port(sizes@, flat as int, q);
                lemma_port_unique(sizes@, flat as int, p as int, q);
            }
            return (p as u32, rest);
        }
        rest = rest - size;
        p += 1;
    }
    (0, flat)
}

/// Kind of the slot that holds flat position `flat`; a position past the last
/// slot counts as an input.
pub open spec fn slot_kind_at(slots: Seq<Slot>, flat: int) -> SlotKind {
    let i = decoded(slots, flat).0;
    if i < slots.len() {
        slots[i].kind
    } else {
        SlotKind::Input
    }
}

/// The read that flat input `flat` of a graph stands for.
pub open spec fn input_read<F>(flat: u32, slots: Seq<Slot>, sizes: Seq<u32>) -> Op<F> {
    let elem = decoded(slots, flat as int).1 as u32;
    match slot_kind_at(slots, flat as int) {
        SlotKind::State => Op::State { id: StateId(elem) },
        SlotKind::Time => Op::Time,
        SlotKind::Memory(k) => Op::Memory { slot: MemorySlotId(k), offset: elem },
        SlotKind::Input => {
            let (port, port_elem) = port_split(elem, sizes);
            Op::Input { port, elem: port_elem }
        },
    }
}

/// `ids` lists the same nodes as `raw`.
pub open spec fn same_nodes(raw: Seq<u32>, ids: Seq<NodeId>) -> bool {
    &&& ids.len() == raw.len()
    &&& forall|k: int| 0 <= k < raw.len() ==> (#[trigger] ids[k]).0 == raw[k]
}

/// `op` is what `node` is lowered to.
pub open spec fn lowered<F: Scalar>(node: Node, slots: Seq<Slot>, sizes: Seq<u32>, op: Op<F>) -> bool {
    match node {
        Node::Const(bits) => op matches Op::Const(c) && decodes(bits, c),
        Node::Input(flat) => op == input_read::<F>(flat, slots, sizes),
        Node::Param(idx) => op == Op::<F>::Param { id: ParamId(idx) },
        Node::Binary(k, a, b) => op == Op::<F>::Binary { op: k, a: NodeId(a), b: NodeId(b) },
        Node::Unary(k, a) => op == Op::<F>::Unary { op: k, a: NodeId(a) },
        Node::Cmp(k, a, b) => op == Op::<F>::Cmp { op: k, a: NodeId(a), b: NodeId(b) },
        Node::Select(c, t, e) => op == Op::<F>::Select { c: NodeId(c), t: NodeId(t), e: NodeId(e) },
        Node::Fma(a, b, c) => op == Op::<F>::Fma { a: NodeId(a), b: NodeId(b), c: NodeId(c) },
        Node::Reduce(k, args) => op matches Op::Reduce { op: kind, args: ids } && kind == k
            && same_nodes(args@, ids@),
        Node::Dot(a, b) => op matches Op::Dot { a: ia, b: ib } && same_nodes(a@, ia@) && same_nodes(
            b@,
            ib@,
        ),
    }
}

/// `ops` lowers the nodes of `graph` one by one.
pub open spec fn lowers<F: Scalar>(graph: Graph<F>, sizes: Seq<u32>, ops: Seq<Op<F>>) -> bool {
    &&& ops.len() == graph.nodes@.len()
    &&& forall|i: int|
        0 <= i < ops.len() ==> lowered(
            graph.nodes@[i],
            graph.signature.slots@,
            sizes,
            #[trigger] ops[i],
        )
}

/// `region` lowers `graph` and sends its outputs to the output ports in order.
pub open spec fn alg_region<F: Scalar>(
    graph: Graph<F>,
    in_sizes: Seq<u32>,
    out_sizes: Seq<u32>,
    region: Region<F>,
) -> bool {
    &&& lowers(graph, in_sizes, region.ops@)
    &&& region.writes@.len() == graph.outputs@.len()
    &&& forall|i: int|
        0 <= i < region.writes@.len() ==> #[trigger] region.writes@[i] == (Write::Output {
            port: port_split(i as u32, out_sizes).0,
            elem: port_split(i as u32, out_sizes).1,
            src: NodeId(graph.outputs@[i]),
        })
}

/// `region` lowers `graph`, and its outputs are the state derivatives in order.
pub open spec fn dyn_region<F: Scalar>(
    graph: Graph<F>,
    in_sizes: Seq<u32>,
    region: Region<F>,
) -> bool {
    &&& lowers(graph, in_sizes, region.ops@)
    &&& region.writes@.len() == graph.outputs@.len()
    &&& forall|i: int|
        0 <= i < region.writes@.len() ==> #[trigger] region.writes@[i] == (Write::StateDeriv {
            id: StateId(i as u32),
            src: NodeId(graph.outputs@[i]),
        })
}

/// `region` lowers `graph` and stores output `i` at `targets[i]`.
pub open spec fn mem_region<F: Scalar>(
    graph: Graph<F>,
    in_sizes: Seq<u32>,
    targets: Seq<MemTarget>,
    region: Region<F>,
) -> bool {
    &&& lowers(graph, in_sizes, region.ops@)
    &&& region.writes@.len() == shorter(graph.outputs@.len(), targets.len())
    &&& forall|i: int|
        0 <= i < region.writes@.len() ==> #[trigger] region.writes@[i] == (Write::MemoryWrite {
            slot: MemorySlotId(targets[i].slot),
            offset: targets[i].offset,
            src: NodeId(graph.outputs@[i]),
        })
}

/// `region` lowers `graph` and writes nothing.
pub open spec fn guard_region<F: Scalar>(
    graph: Graph<F>,
    in_sizes: Seq<u32>,
    region: Region<F>,
) -> bool {
    lowers(graph, in_sizes, region.ops@) && region.writes@.len() == 0
}

fn node_ids(raw: &Vec<u32>) -> (ids: Vec<NodeId>)
    ensures
        same_nodes(raw@, ids@),
{
    let mut ids: Vec<NodeId> = Vec::with_capacity(raw.len());
    let mut k: usize = 0;
    while k < raw.len()
        invariant
            k <= raw.len(),
            ids@.len() == k,
            forall|j: int| 0 <= j < k ==> (#[trigger] ids@[j]).0 == raw@[j],
        decreases raw.len() - k,
    {
        ids.push(NodeId(raw[k]));
        k += 1;
    }
    ids
}

fn narrow(i: usize) -> (r: u32)
    ensures
        r == i as u32,
{
    i as u32
}

fn widen(i: u32) -> (r: usize)
    ensures
        r == i,
{
    i as usize
}

/// The read that flat input `flat` stands for, by the slot that it falls in.
pub fn decode_input<F: Scalar>(flat: u32, sig: &InputSignature, dec: &GraphDecode) -> (op: Op<F>)
    ensures
        op == input_read::<F>(flat, sig.slots@, dec.input_port_sizes@),
{
    let (slot_idx, elem): (usize, usize) = sig.decode(widen(flat));
    let kind: SlotKind = if slot_idx < sig.slots.len() {
        sig.slots[slot_idx].kind
    } else {
        SlotKind::Input
    };
    match kind {
        SlotKind::State => Op::State { id: StateId(narrow(elem)) },
        SlotKind::Time => Op::Time,
        SlotKind::Memory(k) => Op::Memory { slot: MemorySlotId(k), offset: narrow(elem) },
        SlotKind::Input => {
            let (port, port_elem): (u32, u32) = split_port(narrow(elem), dec.input_port_sizes);
            Op::Input { port, elem: port_elem }
        },
    }
}

/// The op of one graph node.
pub fn node_to_op<F: Scalar>(node: &Node, sig: &InputSignature, dec: &GraphDecode) -> (op: Op<F>)
    ensures
        lowered(*node, sig.slots@, dec.input_port_sizes@, op),
{
    match node {
        Node::Const(bits) => Op::Const(F::from_bits(*bits)),
        Node::Input(flat) => decode_input(*flat, sig, dec),
        Node::Param(idx) => Op::Param { id: ParamId(*idx) },
        Node::Binary(op, a, b) => Op::Binary { op: *op, a: NodeId(*a), b: NodeId(*b) },
        Node::Unary(op, a) => Op::Unary { op: *op, a: NodeId(*a) },
        Node::Cmp(op, a, b) => Op::Cmp { op: *op, a: NodeId(*a), b: NodeId(*b) },
        Node::Select(c, t, e) => Op::Select { c: NodeId(*c), t: NodeId(*t), e: NodeId(*e) },
        Node::Fma(a, b, c) => Op::Fma { a: NodeId(*a), b: NodeId(*b), c: NodeId(*c) },
        Node::Reduce(op, args) => Op::Reduce { op: *op, args: node_ids(args) },
        Node::Dot(a, b) => Op::Dot { a: node_ids(a), b: node_ids(b) },
    }
}

/// The ops of a graph, one per node and in node order.
pub fn ops_from_graph<F: Scalar>(graph: &Graph<F>, dec: &GraphDecode) -> (ops: Vec<Op<F>>)
    ensures
        lowers(*graph, dec.input_port_sizes@, ops@),
{
    let mut ops: Vec<Op<F>> = Vec::with_capacity(graph.nodes.len());
    let mut i: usize = 0;
    while i < graph.nodes.len()
        invariant
            i <= graph.nodes.len(),
            ops@.len() == i,
            forall|k: int|
                0 <= k < i ==> lowered(
                    graph.nodes@[k],
                    graph.signature.slots@,
                    dec.input_port_sizes@,
                    #[trigger] ops@[k],
                ),
        decreases graph.nodes.len() - i,
    {
        ops.push(node_to_op(&graph.nodes[i], &graph.signature, dec));
        i += 1;
    }
    ops
}

/// Effect region of an event: the ops of `graph`, and a memory write per output
/// that has a target.
pub fn region_from_graph_mem<F: Scalar>(
    graph: &Graph<F>,
    dec: &GraphDecode,
    targets: &[MemTarget],
) -> (region: Region<F>)
    ensures
        mem_region(*graph, dec.input_port_sizes@, targets@, region),
{
    let ops: Vec<Op<F>> = ops_from_graph(graph, dec);
    let n: usize = if graph.outputs.len() <= targets.len() {
        graph.outputs.len()
    } else {
        targets.len()
    };
    let mut writes: Vec<Write> = Vec::with_capacity(n);
    let mut i: usize = 0;
    while i < n
        invariant
            i <= n,
            n == shorter(graph.outputs@.len(), targets@.len()),
            writes@.len() == i,
            forall|k: int|
                0 <= k < i ==> #[trigger] writes@[k] == (Write::MemoryWrite {
                    slot: MemorySlotId(targets@[k].slot),
                    offset: targets@[k].offset,
                    src: NodeId(graph.outputs@[k]),
                }),
        decreases n - i,
    {
        let t: MemTarget = targets[i];
        writes.push(
            Write::MemoryWrite {
                slot: MemorySlotId(t.slot),
                offset: t.offset,
                src: NodeId(graph.outputs[i]),
            },
        );
        i += 1;
    }
    Region { ops, writes }
}

/// Region of a graph: one op per node, and one write per output as `role` says.
pub fn region_from_graph<F: Scalar>(graph: &Graph<F>, role: RegionRole, dec: &GraphDecode) -> (region:
    Region<F>)
    ensures
        match role {
            RegionRole::Alg => alg_region(
                *graph,
                dec.input_port_sizes@,
                dec.output_port_sizes@,
                region,
            ),
            RegionRole::Dyn => dyn_region(*graph, dec.input_port_sizes@, region),
        },
{
    let ops: Vec<Op<F>> = ops_from_graph(graph, dec);
    let mut writes: Vec<Write> = Vec::with_capacity(graph.outputs.len());
    let mut i: usize = 0;
    while i < graph.outputs.len()
        invariant
            i <= graph.outputs.len(),
            writes@.len() == i,
            forall|k: int|
                0 <= k < i ==> #[trigger] writes@[k] == match role {
                    RegionRole::Alg => Write::Output {
                        port: port_split(k as u32, dec.output_port_sizes@).0,
                        elem: port_split(k as u32, dec.output_port_sizes@).1,
                        src: NodeId(graph.outputs@[k]),
                    },
                    RegionRole::Dyn => Write::StateDeriv {
                        id: StateId(k as u32),
                        src: NodeId(graph.outputs@[k]),
                    },
                },
        decreases graph.outputs.len() - i,
    {
        let src: NodeId = NodeId(graph.outputs[i]);
        match role {
            RegionRole::Alg => {
                let (port, elem): (u32, u32) = split_port(narrow(i), dec.output_port_sizes);
                writes.push(Write::Output { port, elem, src });
            },
            RegionRole::Dyn => {
                writes.push(Write::StateDeriv { id: StateId(narrow(i)), src });
            },
        }
        i += 1;
    }
    Region { ops, writes }
}

/// Roles of a block as the runtime flags them.
#[derive(Debug, Clone, Copy, PartialEq, Eq, Structural)]
pub struct RoleFlags {
    pub is_dyn: bool,
    pub is_src: bool,
    pub is_rec: bool,
}

/// The single role that a set of flags stands for: recording before sourcing
/// before dynamics.
pub open spec fn role_of(r: RoleFlags) -> BlockRole {
    if r.is_rec {
        BlockRole::Sink
    } else if r.is_src {
        BlockRole::Source
    } else if r.is_dyn {
        BlockRole::Dynamic
    } else {
        BlockRole::Algebraic
    }
}

pub fn map_role(r: RoleFlags) -> (role: BlockRole)
    ensures
        role == role_of(r),
{
    if r.is_rec {
        BlockRole::Sink
    } else if r.is_src {
        BlockRole::Source
    } else if r.is_dyn {
        BlockRole::Dynamic
    } else {
        BlockRole::Algebraic
    }
}

/// What a leaf block offers for lowering.
pub struct LeafOps<'a, F> {
    pub kind_name: &'a str,
    /// Algebraic region.
    pub alg: &'a RegionGraph<F>,
    /// Dynamic region, absent for blocks without state.
    pub dyn_: Option<&'a RegionGraph<F>>,
    /// Initial continuous state.
    pub state_init: &'a [F],
    pub memory: &'a [MemSpec<F>],
    pub events: &'a [EventSpec<F>],
    /// For a block whose discrete part depends on its input width: what it
    /// resolves to at the connected width, in place of `alg`, `memory` and
    /// `events`.
    pub discrete: Option<&'a Option<DiscreteResolved<F>>>,
    /// Table of a lookup block, which is lowered to a single op.
    pub lut1d: Option<&'a Lut1dSpec<F>>,
}

impl<'a, F> LeafOps<'a, F> {
    /// The algebraic graph, the memory and the events that are lowered, if the
    /// block resolves at the connected width.
    pub open spec fn chosen(&self) -> Option<(Graph<F>, Seq<MemSpec<F>>, Seq<EventSpec<F>>)> {
        match self.discrete {
            Some(d) => match *d {
                Some(d) => Some((d.alg, d.memory@, d.events@)),
                None => None,
            },
            None => match self.alg.resolved() {
                Some(g) => Some((g, self.memory@, self.events@)),
                None => None,
            },
        }
    }

    /// Every region of the block resolves at the connected width.
    pub open spec fn resolves(&self) -> bool {
        &&& self.chosen() is Some
        &&& self.dyn_ is Some ==> self.dyn_->Some_0.resolved() is Some
    }
}

/// `ports` is one port of the given name and width, or none for width zero.
pub open spec fn single_port(ports: Seq<Port>, name: Seq<char>, width: u32) -> bool {
    if width > 0 {
        ports.len() == 1 && ports[0].name@ == name && ports[0].size == width
    } else {
        ports.len() == 0
    }
}

/// `params` pairs the parameter names of a graph with their defaults, in order.
pub open spec fn params_of<F>(graph: Graph<F>, params: Seq<Param<F>>) -> bool {
    &&& params.len() == shorter(graph.param_names@.len(), graph.param_defaults@.len())
    &&& forall|i: int|
        #![trigger params[i]]
        0 <= i < params.len() ==> params[i].id.0 == i as u32 && params[i].name@
            == graph.param_names@[i]@ && params[i].value == ParamValue::Scalar(
            graph.param_defaults@[i],
        )
}

/// `state` numbers the initial values and names them `x0`, `x1`, ...
pub open spec fn state_of<F>(init: Seq<F>, state: Seq<StateVar<F>>) -> bool {
    &&& state.len() == init.len()
    &&& forall|i: int|
        #![trigger state[i]]
        0 <= i < state.len() ==> state[i].id.0 == i as u32 && state[i].name@ == "x"@ + decimal(
            i as nat,
        ) && state[i].init == init[i]
}

/// `memory` numbers the memory slots and keeps their contents.
pub open spec fn memory_of<F>(specs: Seq<MemSpec<F>>, memory: Seq<MemorySlot<F>>) -> bool {
    &&& memory.len() == specs.len()
    &&& forall|i: int|
        #![trigger memory[i]]
        0 <= i < memory.len() ==> memory[i].id.0 == i as u32 && memory[i].name@ == specs[i].name@
            && memory[i].size == specs[i].init@.len() as u32 && memory[i].init@ == specs[i].init@
}

pub open spec fn direction_of(d: DirSpec) -> Direction {
    match d {
        DirSpec::Rising => Direction::Rising,
        DirSpec::Falling => Direction::Falling,
        DirSpec::Both => Direction::Both,
    }
}

/// `kind` is the lowered form of an event kind.
pub open spec fn kind_of<F: Scalar>(
    spec_kind: EventKindSpec<F>,
    in_sizes: Seq<u32>,
    kind: EventKind<F>,
) -> bool {
    match spec_kind {
        EventKindSpec::SchedulePeriodic { period, phase } => kind == (EventKind::Schedule {
            times: ScheduleTimes::Periodic { period, phase },
        }),
        EventKindSpec::ScheduleFixed(ts) => kind matches EventKind::Schedule {
            times: ScheduleTimes::Fixed(out),
        } && out@ == ts@,
        EventKindSpec::ZeroCross { guard, direction } => kind matches EventKind::ZeroCross {
            guard: g,
            direction: d,
        } && guard_region(guard, in_sizes, g) && d == direction_of(direction),
        EventKindSpec::Condition { guard } => kind matches EventKind::Condition { guard: g }
            && guard_region(guard, in_sizes, g),
    }
}

/// `events` numbers and lowers the events of a block; none of them is opaque.
pub open spec fn events_of<F: Scalar>(
    specs: Seq<EventSpec<F>>,
    in_sizes: Seq<u32>,
    events: Seq<Event<F>>,
) -> bool {
    &&& events.len() == specs.len()
    &&& forall|i: int|
        #![trigger events[i]]
        0 <= i < events.len() ==> events[i].id.0 == i as u32 && kind_of(
            specs[i].kind,
            in_sizes,
            events[i].kind,
        ) && mem_region(specs[i].effect, in_sizes, specs[i].targets@, events[i].effect)
            && !events[i].opaque
}

/// `region` looks the single input up in the table and writes the single output.
pub open spec fn table_region<F>(lut: Lut1dSpec<F>, region: Region<F>) -> bool {
    &&& region.ops@.len() == 2
    &&& region.ops@[0] == Op::<F>::Input { port: 0, elem: 0 }
    &&& region.ops@[1] matches Op::Lut1d { input, points, values, clamp } && input == NodeId(0)
        && points@ == lut.points@ && values@ == lut.values@ && clamp == lut.clamp
    &&& region.writes@ == seq![Write::Output { port: 0, elem: 0, src: NodeId(1) }]
}

/// Width of the output port: at least what the algebraic graph writes.
pub open spec fn effective_outputs<F>(declared: u32, graph: Graph<F>) -> u32 {
    let written = graph.outputs@.len() as u32;
    if declared >= written {
        declared
    } else {
        written
    }
}

/// `b` is the IR block of a leaf whose regions resolve.
pub open spec fn built<F: Scalar>(
    ops: LeafOps<F>,
    role: RoleFlags,
    id: BlockId,
    input_width: u32,
    output_width: u32,
    b: Block<F>,
) -> bool {
    let (graph, memory, events) = ops.chosen()->Some_0;
    let outputs = effective_outputs(output_width, graph);
    let in_sizes = seq![input_width];
    let out_sizes = seq![outputs];
    &&& b.id == id
    &&& b.name@ == ops.kind_name@
    &&& b.kind_name@ == ops.kind_name@
    &&& b.role == role_of(role)
    &&& single_port(b.ports.inputs@, "in"@, input_width)
    &&& single_port(b.ports.outputs@, "out"@, outputs)
    &&& params_of(graph, b.params@)
    &&& state_of(ops.state_init@, b.state@)
    &&& memory_of(memory, b.memory@)
    &&& match ops.lut1d {
        Some(lut) => table_region(*lut, b.regions.alg),
        None => alg_region(graph, in_sizes, out_sizes, b.regions.alg),
    }
    &&& match ops.dyn_ {
        Some(rg) => dyn_region(rg.resolved()->Some_0, in_sizes, b.regions.dyn_),
        None => b.regions.dyn_.vacant(),
    }
    &&& events_of(events, in_sizes, b.events@)
}

pub(crate) fn port_list(name: &str, width: u32) -> (ports: Vec<Port>)
    ensures
        single_port(ports@, name@, width),
{
    let mut ports: Vec<Port> = Vec::new();
    if width > 0 {
        ports.push(Port { name: name.to_owned(), size: width });
    }
    ports
}

fn build_params<F: Scalar>(graph: &Graph<F>) -> (params: Vec<Param<F>>)
    ensures
        params_of(*graph, params@),
{
    let n: usize = if graph.param_names.len() <= graph.param_defaults.len() {
        graph.param_names.len()
    } else {
        graph.param_defaults.len()
    };
    let mut params: Vec<Param<F>> = Vec::with_capacity(n);
    let mut i: usize = 0;
    while i < n
        invariant
            i <= n,
            n == shorter(graph.param_names@.len(), graph.param_defaults@.len()),
            params@.len() == i,
            forall|k: int|
                #![trigger params@[k]]
                0 <= k < i ==> params@[k].id.0 == k as u32 && params@[k].name@
                    == graph.param_names@[k]@ && params@[k].value == ParamValue::Scalar(
                    graph.param_defaults@[k],
                ),
        decreases n - i,
    {
        params.push(
            Param {
                id: ParamId(narrow(i)),
                name: graph.param_names[i].clone(),
                value: ParamValue::Scalar(graph.param_defaults[i]),
            },
        );
        i += 1;
    }
    params
}

fn build_state<F: Scalar>(init: &[F]) -> (state: Vec<StateVar<F>>)
    ensures
        state_of(init@, state@),
{
    let mut state: Vec<StateVar<F>> = Vec::with_capacity(init.len());
    let mut i: usize = 0;
    while i < init.len()
        invariant
            i <= init.len(),
            state@.len() == i,
            forall|k: int|
                #![trigger state@[k]]
                0 <= k < i ==> state@[k].id.0 == k as u32 && state@[k].name@ == "x"@ + decimal(
                    k as nat,
                ) && state@[k].init == init@[k],
        decreases init.len() - i,
    {
        state.push(StateVar { id: StateId(narrow(i)), name: numbered("x", i), init: init[i] });
        i += 1;
    }
    state
}

fn build_memory<F: Scalar>(specs: &[MemSpec<F>]) -> (memory: Vec<MemorySlot<F>>)
    ensures
        memory_of(specs@, memory@),
{
    let mut memory: Vec<MemorySlot<F>> = Vec::with_capacity(specs.len());
    let mut i: usize = 0;
    while i < specs.len()
        invariant
            i <= specs.len(),
            memory@.len() == i,
            forall|k: int|
                #![trigger memory@[k]]
                0 <= k < i ==> memory@[k].id.0 == k as u32 && memory@[k].name@ == specs@[k].name@
                    && memory@[k].size == specs@[k].init@.len() as u32 && memory@[k].init@
                    == specs@[k].init@,
        decreases specs.len() - i,
    {
        let m: &MemSpec<F> = &specs[i];
        memory.push(
            MemorySlot {
                id: MemorySlotId(narrow(i)),
                name: m.name.clone(),
                size: narrow(m.init.len()),
                init: copied(m.init.as_slice()),
            },
        );
        i += 1;
    }
    memory
}

/// The lowered form of an event kind; a guard is the ops of its graph without
/// writes.
pub fn map_event_kind<F: Scalar>(k: &EventKindSpec<F>, dec: &GraphDecode) -> (kind: EventKind<F>)
    ensures
        kind_of(*k, dec.input_port_sizes@, kind),
{
    match k {
        EventKindSpec::SchedulePeriodic { period, phase } => EventKind::Schedule {
            times: ScheduleTimes::Periodic { period: *period, phase: *phase },
        },
        EventKindSpec::ScheduleFixed(ts) => EventKind::Schedule {
            times: ScheduleTimes::Fixed(copied(ts.as_slice())),
        },
        EventKindSpec::ZeroCross { guard, direction } => EventKind::ZeroCross {
            guard: Region { ops: ops_from_graph(guard, dec), writes: Vec::new() },
            direction: match direction {
                DirSpec::Rising => Direction::Rising,
                DirSpec::Falling => Direction::Falling,
                DirSpec::Both => Direction::Both,
            },
        },
        EventKindSpec::Condition { guard } => EventKind::Condition {
            guard: Region { ops: ops_from_graph(guard, dec), writes: Vec::new() },
        },
    }
}

fn build_events<F: Scalar>(specs: &[EventSpec<F>], dec: &GraphDecode) -> (events: Vec<Event<F>>)
    ensures
        events_of(specs@, dec.input_port_sizes@, events@),
{
    let mut events: Vec<Event<F>> = Vec::with_capacity(specs.len());
    let mut i: usize = 0;
    while i < specs.len()
        invariant
            i <= specs.len(),
            events@.len() == i,
            forall|k: int|
                #![trigger events@[k]]
                0 <= k < i ==> events@[k].id.0 == k as u32 && kind_of(
                    specs@[k].kind,
                    dec.input_port_sizes@,
                    events@[k].kind,
                ) && mem_region(
                    specs@[k].effect,
                    dec.input_port_sizes@,
                    specs@[k].targets@,
                    events@[k].effect,
                ) && !events@[k].opaque,
        decreases specs.len() - i,
    {
        let e: &EventSpec<F> = &specs[i];
        let kind: EventKind<F> = map_event_kind(&e.kind, dec);
        let effect: Region<F> = region_from_graph_mem(&e.effect, dec, e.targets.as_slice());
        events.push(Event { id: EventId(narrow(i)), kind, effect, opaque: false });
        i += 1;
    }
    events
}

fn build_table<F: Scalar>(lut: &Lut1dSpec<F>) -> (region: Region<F>)
    ensures
        table_region(*lut, region),
{
    let mut ops: Vec<Op<F>> = Vec::new();
    ops.push(Op::Input { port: 0, elem: 0 });
    ops.push(
        Op::Lut1d {
            input: NodeId(0),
            points: copied(lut.points.as_slice()),
            values: copied(lut.values.as_slice()),
            clamp: lut.clamp,
        },
    );
    let mut writes: Vec<Write> = Vec::new();
    writes.push(Write::Output { port: 0, elem: 0, src: NodeId(1) });
    Region { ops, writes }
}

/// The IR block of a leaf, or `None` if one of its regions does not resolve at
/// the connected input width.
pub fn build_from_ops<F: Scalar>(
    ops: &LeafOps<F>,
    role: &RoleFlags,
    id: BlockId,
    input_width: u32,
    output_width: u32,
) -> (r: Option<Block<F>>)
    ensures
        r is Some <==> ops.resolves(),
        r is Some ==> built(*ops, *role, id, input_width, output_width, r->Some_0),
{
    let (graph, memory, events): (&Graph<F>, &[MemSpec<F>], &[EventSpec<F>]) = match ops.discrete {
        Some(d) => match d {
            Some(d) => (&d.alg, d.memory.as_slice(), d.events.as_slice()),
            None => {
                return None;
            },
        },
        None => match ops.alg.resolve() {
            Some(g) => (g, ops.memory, ops.events),
            None => {
                return None;
            },
        },
    };
    assert(ops.chosen() == Some((*graph, memory@, events@)));
    let written: u32 = narrow(graph.outputs.len());
    let outputs: u32 = if output_width >= written {
        output_width
    } else {
        written
    };
    let in_sizes: [u32; 1] = [input_width];
    let out_sizes: [u32; 1] = [outputs];
    let dec: GraphDecode = GraphDecode { input_port_sizes: &in_sizes, output_port_sizes: &out_sizes };
    assert(dec.input_port_sizes@ =~= seq![input_width]);
    assert(dec.output_port_sizes@ =~= seq![outputs]);
    let alg: Region<F> = match ops.lut1d {
        Some(lut) => build_table(lut),
        None => region_from_graph(graph, RegionRole::Alg, &dec),
    };
    let dyn_: Region<F> = match ops.dyn_ {
        Some(rg) => match rg.resolve() {
            Some(g) => region_from_graph(g, RegionRole::Dyn, &dec),
            None => {
                return None;
            },
        },
        None => Region::default(),
    };
    let ports: Ports = Ports {
        inputs: port_list("in", input_width),
        outputs: port_list("out", outputs),
    };
    Some(
        Block {
            id,
            name: ops.kind_name.to_owned(),
            kind_name: ops.kind_name.to_owned(),
            role: map_role(*role),
            ports,
            params: build_params(graph),
            state: build_state(ops.state_init),
            memory: build_memory(memory),
            regions: Regions { alg, dyn_ },
            events: build_events(events, &dec),
        },
    )
}

} // verus!
