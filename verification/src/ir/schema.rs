//! The IR schema: plain data with index identifiers.
//!
//! A `Module` is a snapshot of a model: `Module -> Subsystem (recursive) ->
//! Block -> Regions -> Region { ops, writes }`. Identifiers are `u32` index
//! newtypes, so a module holds no pointers.

use vstd::prelude::*;

pub use crate::scalar::{
    BinOp as BinOpKind, CmpOp as CmpKind, ReduceOp as ReduceKind, UnaryOp as UnaryOpKind,
};

verus! {

/// Version of the schema that `Module::new` stamps.
pub const IR_VERSION: u32 = 1;

/// Index of a subsystem within a module.
#[derive(Debug, Clone, Copy, PartialEq, Eq, Hash, Structural)]
pub struct SubsystemId(pub u32);

impl SubsystemId {
    pub fn new(v: u32) -> (r: Self)
        ensures
            r.0 == v,
    {
        Self(v)
    }

    pub fn idx(self) -> (r: usize)
        ensures
            r == self.0,
    {
        self.0 as usize
    }
}

/// Index of a block among the children of its scope.
#[derive(Debug, Clone, Copy, PartialEq, Eq, Hash, Structural)]
pub struct BlockId(pub u32);

impl BlockId {
    pub fn new(v: u32) -> (r: Self)
        ensures
            r.0 == v,
    {
        Self(v)
    }

    pub fn idx(self) -> (r: usize)
        ensures
            r == self.0,
    {
        self.0 as usize
    }

    /// Sentinel that stands in a `PortRef` for the enclosing subsystem's
    /// interface ports rather than for a child block.
    pub fn interface() -> (r: Self)
        ensures
            r.0 == u32::MAX,
    {
        Self(u32::MAX)
    }
}

/// Index of a connection within its scope.
#[derive(Debug, Clone, Copy, PartialEq, Eq, Hash, Structural)]
pub struct ConnectionId(pub u32);

impl ConnectionId {
    pub fn new(v: u32) -> (r: Self)
        ensures
            r.0 == v,
    {
        Self(v)
    }

    pub fn idx(self) -> (r: usize)
        ensures
            r == self.0,
    {
        self.0 as usize
    }
}

/// Index of an op within its region.
#[derive(Debug, Clone, Copy, PartialEq, Eq, Hash, Structural)]
pub struct NodeId(pub u32);

impl NodeId {
    pub fn new(v: u32) -> (r: Self)
        ensures
            r.0 == v,
    {
        Self(v)
    }

    pub fn idx(self) -> (r: usize)
        ensures
            r == self.0,
    {
        self.0 as usize
    }
}

/// Index of a continuous state of a block.
#[derive(Debug, Clone, Copy, PartialEq, Eq, Hash, Structural)]
pub struct StateId(pub u32);

impl StateId {
    pub fn new(v: u32) -> (r: Self)
        ensures
            r.0 == v,
    {
        Self(v)
    }

    pub fn idx(self) -> (r: usize)
        ensures
            r == self.0,
    {
        self.0 as usize
    }
}

/// Index of a memory slot of a block.
#[derive(Debug, Clone, Copy, PartialEq, Eq, Hash, Structural)]
pub struct MemorySlotId(pub u32);

impl MemorySlotId {
    pub fn new(v: u32) -> (r: Self)
        ensures
            r.0 == v,
    {
        Self(v)
    }

    pub fn idx(self) -> (r: usize)
        ensures
            r == self.0,
    {
        self.0 as usize
    }
}

/// Index of a parameter of a block.
#[derive(Debug, Clone, Copy, PartialEq, Eq, Hash, Structural)]
pub struct ParamId(pub u32);

impl ParamId {
    pub fn new(v: u32) -> (r: Self)
        ensures
            r.0 == v,
    {
        Self(v)
    }

    pub fn idx(self) -> (r: usize)
        ensures
            r == self.0,
    {
        self.0 as usize
    }
}

/// Index of an event of a block or a module.
#[derive(Debug, Clone, Copy, PartialEq, Eq, Hash, Structural)]
pub struct EventId(pub u32);

impl EventId {
    pub fn new(v: u32) -> (r: Self)
        ensures
            r.0 == v,
    {
        Self(v)
    }

    pub fn idx(self) -> (r: usize)
        ensures
            r == self.0,
    {
        self.0 as usize
    }
}

/// Index of an extern declaration of a module.
#[derive(Debug, Clone, Copy, PartialEq, Eq, Hash, Structural)]
pub struct ExternId(pub u32);

impl ExternId {
    pub fn new(v: u32) -> (r: Self)
        ensures
            r.0 == v,
    {
        Self(v)
    }

    pub fn idx(self) -> (r: usize)
        ensures
            r == self.0,
    {
        self.0 as usize
    }
}

/// Snapshot of one model.
#[derive(Debug)]
pub struct Module<F> {
    pub ir_version: u32,
    pub name: String,
    pub description: String,
    pub root: Subsystem<F>,
    /// Model-level events that belong to no block. Their guards and actions are
    /// host code, so they are always opaque.
    pub events: Vec<Event<F>>,
    /// Declarations for every extern that an `Op::Call` of the module names.
    pub extern_decls: Vec<ExternDecl>,
}

impl<F> Module<F> {
    pub fn new(name: String, root: Subsystem<F>) -> (r: Self)
        ensures
            r.ir_version == IR_VERSION,
            r.name@ == name@,
            r.description@.len() == 0,
            r.root == root,
            r.events@.len() == 0,
            r.extern_decls@.len() == 0,
    {
        Self {
            ir_version: IR_VERSION,
            name,
            description: String::new(),
            root,
            events: Vec::new(),
            extern_decls: Vec::new(),
        }
    }
}

/// Opaque routine that `Op::Call` refers to; the IR carries only its shape.
#[derive(Debug, Clone)]
pub struct ExternDecl {
    pub id: ExternId,
    pub name: String,
    pub arity_in: u32,
    pub arity_out: u32,
}

/// One scope: its direct children, their wiring and the evaluation plan.
#[derive(Debug)]
pub struct Subsystem<F> {
    pub id: SubsystemId,
    pub name: String,
    pub interface: Interface,
    pub children: Vec<Child<F>>,
    pub connections: Vec<Connection>,
    pub schedule: Schedule,
}

#[derive(Debug)]
pub enum Child<F> {
    Block(Block<F>),
    Subsystem(Subsystem<F>),
}

#[derive(Debug, Clone)]
pub struct Interface {
    pub inputs: Vec<Port>,
    pub outputs: Vec<Port>,
}

impl Default for Interface {
    fn default() -> (r: Self)
        ensures
            r.inputs@.len() == 0,
            r.outputs@.len() == 0,
    {
        Self { inputs: Vec::new(), outputs: Vec::new() }
    }
}

#[derive(Debug, Clone)]
pub struct Port {
    pub name: String,
    /// Number of scalar elements on this port.
    pub size: u32,
}

/// Size of a port for which none is given.
pub fn one_u32() -> (r: u32)
    ensures
        r == 1,
{
    1
}

/// A leaf block.
#[derive(Debug, Clone)]
pub struct Block<F> {
    pub id: BlockId,
    pub name: String,
    /// Kind of block, for provenance only.
    pub kind_name: String,
    pub role: BlockRole,
    pub ports: Ports,
    pub params: Vec<Param<F>>,
    pub state: Vec<StateVar<F>>,
    pub memory: Vec<MemorySlot<F>>,
    pub regions: Regions<F>,
    pub events: Vec<Event<F>>,
}

#[derive(Debug, Clone, Copy, PartialEq, Eq, Structural)]
pub enum BlockRole {
    /// Feedthrough without state.
    Algebraic,
    /// Carries continuous state.
    Dynamic,
    /// No inputs.
    Source,
    /// No outputs.
    Sink,
}

#[derive(Debug, Clone)]
pub struct Ports {
    pub inputs: Vec<Port>,
    pub outputs: Vec<Port>,
}

impl Default for Ports {
    fn default() -> (r: Self)
        ensures
            r.inputs@.len() == 0,
            r.outputs@.len() == 0,
    {
        Self { inputs: Vec::new(), outputs: Vec::new() }
    }
}

#[derive(Debug, Clone)]
pub struct Param<F> {
    pub id: ParamId,
    pub name: String,
    pub value: ParamValue<F>,
}

/// Parameter values keep their structure.
#[derive(Debug, Clone)]
pub enum ParamValue<F> {
    Scalar(F),
    Vector(Vec<F>),
    Matrix { rows: u32, cols: u32, data: Vec<F> },
}

#[derive(Debug, Clone)]
pub struct StateVar<F> {
    pub id: StateId,
    pub name: String,
    pub init: F,
}

#[derive(Debug, Clone)]
pub struct MemorySlot<F> {
    pub id: MemorySlotId,
    pub name: String,
    pub size: u32,
    pub init: Vec<F>,
}

#[derive(Debug, Clone)]
pub struct Regions<F> {
    /// Output equation.
    pub alg: Region<F>,
    /// State derivative.
    pub dyn_: Region<F>,
}

impl<F> Default for Regions<F> {
    fn default() -> (r: Self)
        ensures
            r.alg.vacant(),
            r.dyn_.vacant(),
    {
        Self { alg: Region::default(), dyn_: Region::default() }
    }
}

/// SSA ops, and the writes applied in order once every op has run.
#[derive(Debug, Clone)]
pub struct Region<F> {
    /// `NodeId(i)` refers to `ops[i]`.
    pub ops: Vec<Op<F>>,
    pub writes: Vec<Write>,
}

impl<F> Region<F> {
    /// Neither ops nor writes.
    pub open spec fn vacant(&self) -> bool {
        self.ops@.len() == 0 && self.writes@.len() == 0
    }

    pub fn is_empty(&self) -> (r: bool)
        ensures
            r == self.vacant(),
    {
        self.ops.len() == 0 && self.writes.len() == 0
    }
}

impl<F> Default for Region<F> {
    fn default() -> (r: Self)
        ensures
            r.vacant(),
    {
        Self { ops: Vec::new(), writes: Vec::new() }
    }
}

/// One SSA node.
#[derive(Debug, Clone)]
#[allow(inconsistent_fields)]
pub enum Op<F> {
    Const(F),
    Time,
    Input { port: u32, elem: u32 },
    Param { id: ParamId },
    State { id: StateId },
    Memory { slot: MemorySlotId, offset: u32 },
    Binary { op: BinOpKind, a: NodeId, b: NodeId },
    Unary { op: UnaryOpKind, a: NodeId },
    Cmp { op: CmpKind, a: NodeId, b: NodeId },
    Select { c: NodeId, t: NodeId, e: NodeId },
    Fma { a: NodeId, b: NodeId, c: NodeId },
    /// Reduction over an operand list.
    Reduce { op: ReduceKind, args: Vec<NodeId> },
    /// Fused dot product over two lists.
    Dot { a: Vec<NodeId>, b: Vec<NodeId> },
    /// Piecewise-linear table over a fixed breakpoint grid.
    Lut1d { input: NodeId, points: Vec<F>, values: Vec<F>, clamp: bool },
    /// Output `out_idx` of an opaque routine.
    Call { id: ExternId, args: Vec<NodeId>, out_idx: u32 },
}

#[derive(Debug, Clone, Copy, PartialEq, Eq, Structural)]
pub enum Write {
    /// `outputs[port][elem] = ops[src]`.
    Output { port: u32, elem: u32, src: NodeId },
    /// `dx/dt[id] = ops[src]`.
    StateDeriv { id: StateId, src: NodeId },
    /// `x[id] = ops[src]`.
    StateWrite { id: StateId, src: NodeId },
    /// `memory[slot][offset] = ops[src]`.
    MemoryWrite { slot: MemorySlotId, offset: u32, src: NodeId },
}

#[derive(Debug, Clone)]
pub struct Event<F> {
    pub id: EventId,
    pub kind: EventKind<F>,
    /// Actions executed when the event resolves; empty for opaque events.
    pub effect: Region<F>,
    /// The guard or the action is host code.
    pub opaque: bool,
}

/// Whether `b` may be left out when it is written down.
pub fn is_false(b: &bool) -> (r: bool)
    ensures
        r == !*b,
{
    !*b
}

#[derive(Debug, Clone)]
pub enum EventKind<F> {
    /// Fires when the last op of `guard` crosses zero in `direction`.
    ZeroCross { guard: Region<F>, direction: Direction },
    /// Fires at given times.
    Schedule { times: ScheduleTimes<F> },
    /// Fires while the last op of `guard` is non-zero.
    Condition { guard: Region<F> },
}

#[derive(Debug, Clone, Copy, PartialEq, Eq, Structural)]
pub enum Direction {
    Rising,
    Falling,
    Both,
}

#[derive(Debug, Clone)]
pub enum ScheduleTimes<F> {
    Fixed(Vec<F>),
    Periodic { period: F, phase: F },
}

#[derive(Debug, Clone)]
pub struct Connection {
    pub id: ConnectionId,
    pub src: PortRef,
    pub targets: Vec<PortRef>,
}

#[derive(Debug, Clone)]
pub struct PortRef {
    /// `BlockId::interface()` refers to the enclosing subsystem's interface.
    pub block: BlockId,
    pub port: u32,
    /// `None` for all elements of the port.
    pub elems: Option<Vec<u32>>,
}

/// Evaluation plan of one scope; everything in it can be recomputed from the
/// connections and the block roles.
#[derive(Debug, Clone)]
pub struct Schedule {
    /// Full evaluation order.
    pub topo: Vec<BlockId>,
    /// Acyclic part, grouped by feedthrough depth.
    pub groups: Vec<DagGroup>,
    /// Algebraic loops.
    pub sccs: Vec<Scc>,
    /// Connections cut to break the loops, ascending and without repetition.
    pub back_edges: Vec<ConnectionId>,
}

impl Default for Schedule {
    fn default() -> (r: Self)
        ensures
            r.topo@.len() == 0,
            r.groups@.len() == 0,
            r.sccs@.len() == 0,
            r.back_edges@.len() == 0,
    {
        Self { topo: Vec::new(), groups: Vec::new(), sccs: Vec::new(), back_edges: Vec::new() }
    }
}

#[derive(Debug, Clone)]
pub struct DagGroup {
    pub depth: u32,
    pub blocks: Vec<BlockId>,
}

#[derive(Debug, Clone)]
pub struct Scc {
    pub blocks: Vec<BlockId>,
    pub back_edges: Vec<ConnectionId>,
}

} // verus!
