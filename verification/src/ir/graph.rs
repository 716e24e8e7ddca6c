//! Op graphs: the SSA form in which blocks describe their equations.
//!
//! A graph reads one flat input vector, laid out as a list of slots. Each slot
//! says what its elements are: the concatenated input ports, the state, the
//! time, or one memory slot.

use vstd::prelude::*;

use crate::ir::schema::{BinOpKind, CmpKind, ReduceKind, UnaryOpKind};

verus! {

/// What the elements of a slot are.
#[derive(Debug, Clone, Copy, PartialEq, Eq, Structural)]
pub enum SlotKind {
    Input,
    State,
    Time,
    Memory(u32),
}

#[derive(Debug, Clone, Copy, PartialEq, Eq, Structural)]
pub struct Slot {
    pub kind: SlotKind,
    pub size: usize,
}

/// Layout of the flat input vector.
#[derive(Debug, Clone)]
pub struct InputSignature {
    pub slots: Vec<Slot>,
}

/// One node; operands are indices of earlier nodes.
#[derive(Debug, Clone)]
pub enum Node {
    /// Bit pattern of a constant.
    Const(u64),
    /// Position in the flat input vector.
    Input(u32),
    Param(u32),
    Binary(BinOpKind, u32, u32),
    Unary(UnaryOpKind, u32),
    Cmp(CmpKind, u32, u32),
    Select(u32, u32, u32),
    Fma(u32, u32, u32),
    Reduce(ReduceKind, Vec<u32>),
    Dot(Vec<u32>, Vec<u32>),
}

#[derive(Debug, Clone)]
pub struct Graph<F> {
    pub nodes: Vec<Node>,
    pub signature: InputSignature,
    pub outputs: Vec<u32>,
    pub param_names: Vec<String>,
    pub param_defaults: Vec<F>,
}

/// Number of elements in the slots before slot `i`.
pub open spec fn slot_offset(slots: Seq<Slot>, i: int) -> int
    decreases i,
{
    if i <= 0 {
        0
    } else {
        slot_offset(slots, i - 1) + slots[i - 1].size
    }
}

/// Position `flat` falls in slot `i`.
pub open spec fn in_slot(slots: Seq<Slot>, flat: int, i: int) -> bool {
    0 <= i < slots.len() && slot_offset(slots, i) <= flat < slot_offset(slots, i + 1)
}

/// Slot and element of a flat position; past the last slot, the number of slots
/// and the distance from their end.
pub open spec fn decoded(slots: Seq<Slot>, flat: int) -> (int, int) {
    if exists|i: int| in_slot(slots, flat, i) {
        let i = choose|i: int| in_slot(slots, flat, i);
        (i, flat - slot_offset(slots, i))
    } else {
        (slots.len() as int, flat - slot_offset(slots, slots.len() as int))
    }
}

pub proof fn lemma_slot_offset_monotone(slots: Seq<Slot>, i: int, j: int)
    requires
        0 <= i <= j,
    ensures
        slot_offset(slots, i) <= slot_offset(slots, j),
    decreases j - i,
{
    if i < j {
        lemma_slot_offset_monotone(slots, i, j - 1);
    }
}

/// A flat position falls in at most one slot.
pub proof fn lemma_slot_unique(slots: Seq<Slot>, flat: int, i: int, j: int)
    requires
        in_slot(slots, flat, i),
        in_slot(slots, flat, j),
    ensures
        i == j,
{
    if i < j {
        lemma_slot_offset_monotone(slots, i + 1, j);
    }
    if j < i {
        lemma_slot_offset_monotone(slots, j + 1, i);
    }
}

impl InputSignature {
    /// Signature without inputs.
    pub fn empty() -> (r: Self)
        ensures
            r.slots@.len() == 0,
    {
        Self { slots: Vec::new() }
    }

    /// Slot and element of the flat position `flat`.
    pub fn decode(&self, flat: usize) -> (r: (usize, usize))
        ensures
            (r.0 as int, r.1 as int) == decoded(self.slots@, flat as int),
    {
        let mut rest: usize = flat;
        let mut i: usize = 0;
        while i < self.slots.len()
            invariant
                i <= self.slots.len(),
                rest == flat - slot_offset(self.slots@, i as int),
                forall|j: int| 0 <= j < i ==> !(#[trigger] in_slot(self.slots@, flat as int, j)),
            decreases self.slots.len() - i,
        {
            let size: usize = self.slots[i].size;
            assert(slot_offset(self.slots@, i + 1) == slot_offset(self.slots@, i as int) + size);
            if rest < size {
                proof {
                    assert(in_slot(self.slots@, flat as int, i as int));
                    let k = choose|k: int| in_slot(self.slots@, flat as int, k);
                    lemma_slot_unique(self.slots@, flat as int, i as int, k);
                }
                return (i, rest);
            }
            rest = rest - size;
            i += 1;
        }
        (self.slots.len(), rest)
    }
}

impl<F> Graph<F> {
    /// Graph without nodes over the given inputs.
    pub fn new(signature: InputSignature) -> (r: Self)
        ensures
            r.nodes@.len() == 0,
            r.signature == signature,
            r.outputs@.len() == 0,
            r.param_names@.len() == 0,
            r.param_defaults@.len() == 0,
    {
        Self {
            nodes: Vec::new(),
            signature,
            outputs: Vec::new(),
            param_names: Vec::new(),
            param_defaults: Vec::new(),
        }
    }
}

/// The graph of one region, which may exist only at the connected input width.
#[derive(Debug, Clone)]
pub enum RegionGraph<F> {
    Fixed(Graph<F>),
    /// What tracing at the connected width gave, if it gave anything.
    Lazy(Option<Graph<F>>),
}

impl<F> RegionGraph<F> {
    pub open spec fn resolved(&self) -> Option<Graph<F>> {
        match *self {
            RegionGraph::Fixed(g) => Some(g),
            RegionGraph::Lazy(g) => g,
        }
    }

    /// The graph at the connected width.
    pub fn resolve(&self) -> (r: Option<&Graph<F>>)
        ensures
            match r {
                Some(g) => self.resolved() == Some(*g),
                None => self.resolved() is None,
            },
    {
        match self {
            RegionGraph::Fixed(g) => Some(g),
            RegionGraph::Lazy(g) => match g {
                Some(g) => Some(g),
                None => None,
            },
        }
    }
}

/// A memory slot of a discrete block and its initial contents.
#[derive(Debug, Clone)]
pub struct MemSpec<F> {
    pub name: String,
    pub init: Vec<F>,
}

/// Where an event effect stores one of its outputs.
#[derive(Debug, Clone, Copy, PartialEq, Eq, Structural)]
pub struct MemTarget {
    pub slot: u32,
    pub offset: u32,
}

#[derive(Debug, Clone, Copy, PartialEq, Eq, Structural)]
pub enum DirSpec {
    Rising,
    Falling,
    Both,
}

/// When an event of a block fires.
#[derive(Debug, Clone)]
pub enum EventKindSpec<F> {
    SchedulePeriodic { period: F, phase: F },
    ScheduleFixed(Vec<F>),
    ZeroCross { guard: Graph<F>, direction: DirSpec },
    Condition { guard: Graph<F> },
}

/// An event of a block: output `i` of `effect` goes to `targets[i]`.
#[derive(Debug, Clone)]
pub struct EventSpec<F> {
    pub kind: EventKindSpec<F>,
    pub effect: Graph<F>,
    pub targets: Vec<MemTarget>,
}

/// What a block whose discrete part depends on its input width resolves to.
#[derive(Debug, Clone)]
pub struct DiscreteResolved<F> {
    pub alg: Graph<F>,
    pub memory: Vec<MemSpec<F>>,
    pub events: Vec<EventSpec<F>>,
}

/// A piecewise-linear table.
#[derive(Debug, Clone)]
pub struct Lut1dSpec<F> {
    pub points: Vec<F>,
    pub values: Vec<F>,
    pub clamp: bool,
}

} // verus!
