//! Description of a live model: what the builder and the scheduler read of it.
//!
//! Blocks are told apart by a key, which stands for the identity of the running
//! block. Widths and port indices are those that wiring has resolved.

use vstd::prelude::*;

use crate::ir::builder::RoleFlags;
use crate::ir::graph::{DiscreteResolved, EventSpec, Lut1dSpec, MemSpec, RegionGraph};

verus! {

/// What one equation of a block offers for lowering.
#[derive(Debug)]
pub struct Operator<F> {
    pub graph: Option<RegionGraph<F>>,
    pub lut1d: Option<Lut1dSpec<F>>,
}

#[derive(Debug, Clone, Copy, PartialEq, Eq, Structural)]
pub enum CrossDir {
    Rising,
    Falling,
    Both,
}

/// What is statically known of an event whose guard and action are host code.
#[derive(Debug)]
pub enum EventDescriptor<F> {
    SchedulePeriodic { period: F, phase: F },
    ScheduleFixed { times: Vec<F> },
    ZeroCross { direction: CrossDir },
    Condition,
}

#[derive(Debug)]
pub struct BlockModel<F> {
    pub key: u64,
    pub kind_name: String,
    /// Kind under which the block is lowered, if it differs.
    pub op_kind_name: Option<String>,
    pub role: RoleFlags,
    pub n_inputs: usize,
    pub n_outputs: usize,
    /// Direct feedthrough, row-major by output and input.
    pub feedthrough: Vec<bool>,
    pub alg_op: Option<Operator<F>>,
    pub dyn_op: Option<Operator<F>>,
    pub initial_value: Option<Vec<F>>,
    pub op_memory: Vec<MemSpec<F>>,
    pub op_events: Vec<EventSpec<F>>,
    /// For a block whose discrete part depends on its input width: what it
    /// resolves to at the connected width.
    pub op_discrete: Option<Option<DiscreteResolved<F>>>,
    pub events: Vec<EventDescriptor<F>>,
    /// The inside of a subsystem.
    pub inner: Option<Box<ScopeModel<F>>>,
}

/// One end of a connection: a block and the resolved element indices.
#[derive(Debug)]
pub struct PortModel {
    pub block: u64,
    pub indices: Vec<usize>,
}

#[derive(Debug)]
pub struct ConnModel {
    pub source: PortModel,
    pub targets: Vec<PortModel>,
}

/// One evaluation level of the acyclic part: blocks, then connections.
#[derive(Debug)]
pub struct Level {
    pub blocks: Vec<usize>,
    pub connections: Vec<usize>,
}

/// An algebraic loop and the connections that are cut to break it.
#[derive(Debug)]
pub struct LoopModel {
    pub blocks: Vec<usize>,
    pub back_edges: Vec<usize>,
}

/// Result of the scheduling analysis of one scope, over node numbers.
#[derive(Debug)]
pub struct GraphAnalysis {
    pub topo_order: Vec<usize>,
    pub dag: Vec<Level>,
    pub loops: Vec<LoopModel>,
    /// Connections that close a loop.
    pub loop_closing: Vec<usize>,
}

/// Blocks and connections of one scope, with the analysis of their schedule.
/// The interface block of a subsystem is not among the blocks; in the analysis
/// it is the node after them.
#[derive(Debug)]
pub struct ScopeModel<F> {
    pub blocks: Vec<BlockModel<F>>,
    pub connections: Vec<ConnModel>,
    pub interface: Option<u64>,
    pub analysis: GraphAnalysis,
}

/// Keys of the blocks, in order.
pub open spec fn keys_of<F>(blocks: Seq<BlockModel<F>>) -> Seq<u64> {
    blocks.map_values(|b: BlockModel<F>| b.key)
}

} // verus!
