//! Scopes with their schedule: what the scheduler is given of a scope, and the model
//! that its analysis completes.

use vstd::prelude::*;

use crate::model::{keys_of, BlockModel, ConnModel, GraphAnalysis, ScopeModel};
use crate::seqs::copied;
use crate::simulation::graph::{assemble_graph_from, conn_specs, port_edges};
use crate::simulation::runtime::{Feedthrough, PortEdge};

verus! {

/// Analysis of evaluation orders. Nothing is promised about it: contracts fix what
/// it is given.
pub trait Scheduler: Sized {
    /// Analyzes a graph: connections between nodes, with their numbers, the direct
    /// feedthrough of the nodes, and the edges between their single ports.
    fn analyze(
        &self,
        specs: &Vec<(usize, usize, usize)>,
        shapes: &Vec<Feedthrough>,
        edges: &Vec<PortEdge>,
    ) -> GraphAnalysis;
}

/// The interface of a subsystem as a node of its scope.
#[derive(Debug)]
pub struct InterfaceNode {
    pub key: u64,
    pub shape: Feedthrough,
}

/// Keys of the nodes of a scope: those of its blocks, then that of its interface.
pub open spec fn node_keys<F>(blocks: Seq<BlockModel<F>>, interface: Option<u64>) -> Seq<u64> {
    match interface {
        Some(key) => keys_of(blocks).push(key),
        None => keys_of(blocks),
    }
}

/// `shape` is the direct feedthrough of a block.
pub open spec fn shape_of<F>(block: BlockModel<F>, shape: Feedthrough) -> bool {
    shape.n_in == block.n_inputs && shape.n_out == block.n_outputs && shape.mask@
        == block.feedthrough@
}

/// `shapes` are the direct feedthroughs of the nodes of a scope.
pub open spec fn shapes_of<F>(
    blocks: Seq<BlockModel<F>>,
    interface: Option<InterfaceNode>,
    shapes: Seq<Feedthrough>,
) -> bool {
    &&& shapes.len() == blocks.len() + if interface is Some {
        1int
    } else {
        0
    }
    &&& forall|i: int| 0 <= i < blocks.len() ==> shape_of(blocks[i], #[trigger] shapes[i])
    &&& interface matches Some(node) ==> shapes.last() == node.shape
}

/// Key of the interface, if there is one.
pub open spec fn interface_key(interface: Option<InterfaceNode>) -> Option<u64> {
    match interface {
        Some(node) => Some(node.key),
        None => None,
    }
}

/// `r` is what the scheduler finds for a scope: it is given the connections and edges
/// over the blocks and the interface, the interface last.
pub open spec fn analysis_of<F, S: Scheduler>(
    scheduler: S,
    blocks: Seq<BlockModel<F>>,
    conns: Seq<ConnModel>,
    interface: Option<InterfaceNode>,
    r: GraphAnalysis,
) -> bool {
    let nodes = node_keys(blocks, interface_key(interface));
    exists|specs: Vec<(usize, usize, usize)>, shapes: Vec<Feedthrough>, edges: Vec<PortEdge>|
        #[trigger]
        call_ensures(S::analyze, (&scheduler, &specs, &shapes, &edges), r) && specs@ == conn_specs(
            nodes,
            conns,
            conns.len() as int,
        ) && edges@ == port_edges(nodes, conns, conns.len() as int) && shapes_of(
            blocks,
            interface,
            shapes@,
        )
}

/// Connections and edges of a scope, over its blocks and its interface.
pub fn scope_graph<F>(
    blocks: &Vec<BlockModel<F>>,
    conns: &Vec<ConnModel>,
    interface: Option<u64>,
) -> (r: (Vec<(usize, usize, usize)>, Vec<PortEdge>))
    ensures
        r.0@ == conn_specs(node_keys(blocks@, interface), conns@, conns@.len() as int),
        r.1@ == port_edges(node_keys(blocks@, interface), conns@, conns@.len() as int),
{
    let mut keys: Vec<u64> = Vec::new();
    let mut i: usize = 0;
    while i < blocks.len()
        invariant
            i <= blocks@.len(),
            keys@ == keys_of(blocks@).take(i as int),
        decreases blocks@.len() - i,
    {
        keys.push(blocks[i].key);
        assert(keys@ =~= keys_of(blocks@).take(i + 1));
        i += 1;
    }
    assert(keys@ =~= keys_of(blocks@));
    if let Some(key) = interface {
        keys.push(key);
    }
    assemble_graph_from(&keys, conns)
}

fn block_shapes<F>(blocks: &Vec<BlockModel<F>>) -> (shapes: Vec<Feedthrough>)
    ensures
        shapes@.len() == blocks@.len(),
        forall|i: int| 0 <= i < blocks@.len() ==> shape_of(blocks@[i], #[trigger] shapes@[i]),
{
    let mut shapes: Vec<Feedthrough> = Vec::new();
    let mut i: usize = 0;
    while i < blocks.len()
        invariant
            i <= blocks@.len(),
            shapes@.len() == i,
            forall|k: int| 0 <= k < i ==> shape_of(blocks@[k], #[trigger] shapes@[k]),
        decreases blocks@.len() - i,
    {
        let b: &BlockModel<F> = &blocks[i];
        let mask: Vec<bool> = copied(b.feedthrough.as_slice());
        shapes.push(Feedthrough { n_in: b.n_inputs, n_out: b.n_outputs, mask });
        i += 1;
    }
    shapes
}

impl<F> ScopeModel<F> {
    /// A scope with the schedule that the scheduler finds for it.
    pub fn scheduled<S: Scheduler>(
        blocks: Vec<BlockModel<F>>,
        connections: Vec<ConnModel>,
        interface: Option<InterfaceNode>,
        scheduler: &S,
    ) -> (r: Self)
        ensures
            r.blocks == blocks,
            r.connections == connections,
            r.interface == interface_key(interface),
            analysis_of(*scheduler, blocks@, connections@, interface, r.analysis),
    {
        let ghost node = interface;
        let mut shapes: Vec<Feedthrough> = block_shapes(&blocks);
        let key: Option<u64> = match interface {
            Some(InterfaceNode { key, shape }) => {
                shapes.push(shape);
                Some(key)
            },
            None => None,
        };
        let (specs, edges): (Vec<(usize, usize, usize)>, Vec<PortEdge>) = scope_graph(
            &blocks,
            &connections,
            key,
        );
        let analysis: GraphAnalysis = scheduler.analyze(&specs, &shapes, &edges);
        assert(shapes_of(blocks@, node, shapes@));
        ScopeModel { blocks, connections, interface: key, analysis }
    }
}

} // verus!
