//! Adding and removing components.

use vstd::prelude::*;

use crate::error::SimError;
use crate::optim::linsolve::Backend;
use crate::scalar::Scalar;
use crate::simulation::chain::{chain, lemma_chain_push};
use crate::simulation::runtime::{Call, Runtime};
use crate::simulation::state::{
    add_capped, capped, positions_below, Log, PendingOp, Simulation,
};

verus! {

/// The list without the given keys.
pub open spec fn without(list: Seq<u64>, drop: Seq<u64>) -> Seq<u64>
    decreases list.len(),
{
    if list.len() == 0 {
        Seq::empty()
    } else if drop.contains(list.last()) {
        without(list.drop_last(), drop)
    } else {
        without(list.drop_last(), drop).push(list.last())
    }
}

/// The list with the given keys added, but for those that it has already.
pub open spec fn with_new(list: Seq<u64>, more: Seq<u64>) -> Seq<u64>
    decreases more.len(),
{
    if more.len() == 0 {
        list
    } else {
        let before = with_new(list, more.drop_last());
        if before.contains(more.last()) {
            before
        } else {
            before.push(more.last())
        }
    }
}

/// Whether a key is in the list.
pub fn has_key(list: &Vec<u64>, key: u64) -> (r: bool)
    ensures
        r == list@.contains(key),
{
    let mut i: usize = 0;
    while i < list.len()
        invariant
            i <= list@.len(),
            forall|k: int| 0 <= k < i ==> #[trigger] list@[k] != key,
        decreases list.len() - i,
    {
        if list[i] == key {
            assert(list@[i as int] == key);
            return true;
        }
        i += 1;
    }
    false
}

fn drop_keys(list: &Vec<u64>, drop: &Vec<u64>) -> (r: Vec<u64>)
    ensures
        r@ == without(list@, drop@),
        r@.len() <= list@.len(),
{
    let mut r: Vec<u64> = Vec::new();
    let mut i: usize = 0;
    assert(without(list@.take(0), drop@) =~= Seq::empty());
    while i < list.len()
        invariant
            i <= list@.len(),
            r@ == without(list@.take(i as int), drop@),
            r@.len() <= i,
        decreases list.len() - i,
    {
        assert(list@.take(i + 1).drop_last() =~= list@.take(i as int));
        if !has_key(drop, list[i]) {
            r.push(list[i]);
        }
        i += 1;
    }
    assert(list@.take(i as int) =~= list@);
    r
}

/// One block is asked for its engine and its events, and is listed accordingly.
pub open spec fn index_step<F>(blocks: Seq<u64>) -> spec_fn(
    int,
    (Log<F>, Seq<usize>, Seq<usize>),
    (Log<F>, Seq<usize>, Seq<usize>),
) -> bool {
    |i: int, a: (Log<F>, Seq<usize>, Seq<usize>), b: (Log<F>, Seq<usize>, Seq<usize>)|
        exists|engine: bool, events: bool|
            b == #[trigger] indexed_one(blocks[i], i, a, engine, events)
}

/// The lists after a block was asked for its engine and its events.
pub open spec fn indexed_one<F>(
    key: u64,
    i: int,
    a: (Log<F>, Seq<usize>, Seq<usize>),
    engine: bool,
    events: bool,
) -> (Log<F>, Seq<usize>, Seq<usize>) {
    (
        a.0.push(Call::HasEngine(key, engine)).push(Call::HasEvents(key, events)),
        if engine {
            a.1.push(i as usize)
        } else {
            a.1
        },
        if events {
            a.2.push(i as usize)
        } else {
            a.2
        },
    )
}

/// All blocks are asked, in order: `after` has the lists of those with an engine
/// and of those with events.
pub open spec fn reindexed<F>(
    blocks: Seq<u64>,
    before: Log<F>,
    after: Log<F>,
    dynamic: Seq<usize>,
    eventful: Seq<usize>,
) -> bool {
    chain(
        blocks.len() as int,
        index_step::<F>(blocks),
        (before, Seq::empty(), Seq::empty()),
        (after, dynamic, eventful),
    )
}

/// The counts after a block was asked for its size.
pub open spec fn sized_one<F>(
    key: u64,
    a: (Log<F>, usize, usize),
    size: (usize, usize),
) -> (Log<F>, usize, usize) {
    (a.0.push(Call::BlockSize(key, size)), capped(a.1, size.0), capped(a.2, size.1))
}

/// Keys that blocks are to be added under.
pub open spec fn added_blocks(ops: Seq<PendingOp>) -> Seq<u64>
    decreases ops.len(),
{
    if ops.len() == 0 {
        Seq::empty()
    } else {
        match ops.last() {
            PendingOp::AddBlock(k) => added_blocks(ops.drop_last()).push(k),
            _ => added_blocks(ops.drop_last()),
        }
    }
}

/// Keys of blocks that are to be removed.
pub open spec fn removed_blocks(ops: Seq<PendingOp>) -> Seq<u64>
    decreases ops.len(),
{
    if ops.len() == 0 {
        Seq::empty()
    } else {
        match ops.last() {
            PendingOp::RemoveBlock(k) => removed_blocks(ops.drop_last()).push(k),
            _ => removed_blocks(ops.drop_last()),
        }
    }
}

/// Keys of connections that are to be added.
pub open spec fn added_connections(ops: Seq<PendingOp>) -> Seq<u64>
    decreases ops.len(),
{
    if ops.len() == 0 {
        Seq::empty()
    } else {
        match ops.last() {
            PendingOp::AddConnection(k) => added_connections(ops.drop_last()).push(k),
            _ => added_connections(ops.drop_last()),
        }
    }
}

/// Keys of connections that are to be removed.
pub open spec fn removed_connections(ops: Seq<PendingOp>) -> Seq<u64>
    decreases ops.len(),
{
    if ops.len() == 0 {
        Seq::empty()
    } else {
        match ops.last() {
            PendingOp::RemoveConnection(k) => removed_connections(ops.drop_last()).push(k),
            _ => removed_connections(ops.drop_last()),
        }
    }
}

/// Keys of events that are to be added.
pub open spec fn added_events(ops: Seq<PendingOp>) -> Seq<u64>
    decreases ops.len(),
{
    if ops.len() == 0 {
        Seq::empty()
    } else {
        match ops.last() {
            PendingOp::AddEvent(k) => added_events(ops.drop_last()).push(k),
            _ => added_events(ops.drop_last()),
        }
    }
}

/// Keys of events that are to be removed.
pub open spec fn removed_events(ops: Seq<PendingOp>) -> Seq<u64>
    decreases ops.len(),
{
    if ops.len() == 0 {
        Seq::empty()
    } else {
        match ops.last() {
            PendingOp::RemoveEvent(k) => removed_events(ops.drop_last()).push(k),
            _ => removed_events(ops.drop_last()),
        }
    }
}

/// Blocks after the queued changes: removals first, then what is new.
pub open spec fn blocks_after(blocks: Seq<u64>, ops: Seq<PendingOp>) -> Seq<u64> {
    with_new(without(blocks, removed_blocks(ops)), added_blocks(ops))
}

/// Connections after the queued changes.
pub open spec fn connections_after(connections: Seq<u64>, ops: Seq<PendingOp>) -> Seq<u64> {
    without(connections, removed_connections(ops)) + added_connections(ops)
}

/// Events after the queued changes.
pub open spec fn events_after(events: Seq<u64>, ops: Seq<PendingOp>) -> Seq<u64> {
    without(events, removed_events(ops)) + added_events(ops)
}

/// The calls that give blocks their engine: one per block that is new.
pub open spec fn solver_calls<F>(list: Seq<u64>, more: Seq<u64>, solver: Option<u64>) -> Log<F>
    decreases more.len(),
{
    if more.len() == 0 {
        Seq::empty()
    } else {
        let before = solver_calls::<F>(list, more.drop_last(), solver);
        match solver {
            Some(s) if !with_new(list, more.drop_last()).contains(more.last()) => before.push(
                Call::SetBlockSolver(more.last(), s),
            ),
            _ => before,
        }
    }
}

/// Whether the queued changes concern the order of evaluation: a block or a
/// connection came or went.
pub open spec fn topology_changes(
    blocks: Seq<u64>,
    connections: Seq<u64>,
    ops: Seq<PendingOp>,
) -> bool {
    ||| without(blocks, removed_blocks(ops)).len() != blocks.len()
    ||| without(connections, removed_connections(ops)).len() != connections.len()
    ||| blocks_after(blocks, ops).len() != without(blocks, removed_blocks(ops)).len()
    ||| added_connections(ops).len() > 0
}

struct Buckets {
    add_blocks: Vec<u64>,
    rm_blocks: Vec<u64>,
    add_connections: Vec<u64>,
    rm_connections: Vec<u64>,
    add_events: Vec<u64>,
    rm_events: Vec<u64>,
}

fn sort_ops(ops: &Vec<PendingOp>) -> (r: Buckets)
    ensures
        r.add_blocks@ == added_blocks(ops@),
        r.rm_blocks@ == removed_blocks(ops@),
        r.add_connections@ == added_connections(ops@),
        r.rm_connections@ == removed_connections(ops@),
        r.add_events@ == added_events(ops@),
        r.rm_events@ == removed_events(ops@),
{
    let mut add_blocks: Vec<u64> = Vec::new();
    let mut rm_blocks: Vec<u64> = Vec::new();
    let mut add_connections: Vec<u64> = Vec::new();
    let mut rm_connections: Vec<u64> = Vec::new();
    let mut add_events: Vec<u64> = Vec::new();
    let mut rm_events: Vec<u64> = Vec::new();
    let mut i: usize = 0;
    assert(ops@.take(0) =~= Seq::empty());
    while i < ops.len()
        invariant
            i <= ops@.len(),
            add_blocks@ == added_blocks(ops@.take(i as int)),
            rm_blocks@ == removed_blocks(ops@.take(i as int)),
            add_connections@ == added_connections(ops@.take(i as int)),
            rm_connections@ == removed_connections(ops@.take(i as int)),
            add_events@ == added_events(ops@.take(i as int)),
            rm_events@ == removed_events(ops@.take(i as int)),
        decreases ops.len() - i,
    {
        assert(ops@.take(i + 1).drop_last() =~= ops@.take(i as int));
        assert(ops@.take(i + 1).last() == ops@[i as int]);
        match ops[i] {
            PendingOp::AddBlock(k) => add_blocks.push(k),
            PendingOp::RemoveBlock(k) => rm_blocks.push(k),
            PendingOp::AddConnection(k) => add_connections.push(k),
            PendingOp::RemoveConnection(k) => rm_connections.push(k),
            PendingOp::AddEvent(k) => add_events.push(k),
            PendingOp::RemoveEvent(k) => rm_events.push(k),
        }
        i += 1;
    }
    assert(ops@.take(i as int) =~= ops@);
    Buckets { add_blocks, rm_blocks, add_connections, rm_connections, add_events, rm_events }
}

impl<F: Scalar, B: Backend<F>, R: Runtime<F>> Simulation<F, B, R> {
    /// `after` differs at most in components, their positions, the calls made, and
    /// in that the order of evaluation is out of date.
    pub open spec fn same_but_topology(&self, after: Self) -> bool {
        &&& after.dt == self.dt
        &&& after.dt_min == self.dt_min
        &&& after.dt_max == self.dt_max
        &&& after.solver == self.solver
        &&& after.graph == self.graph
        &&& after.boosters == self.boosters
        &&& after.iterations_max == self.iterations_max
        &&& after.time == self.time
        &&& after.active == self.active
        &&& after.assembly_error == self.assembly_error
        &&& after.run_dt == self.run_dt
        &&& after.loop_tracker == self.loop_tracker
        &&& after.solve_tracker == self.solve_tracker
        &&& after.step_tracker == self.step_tracker
        &&& after.outcome == self.outcome
        &&& after.diagnostics == self.diagnostics
        &&& after.diagnostics_history == self.diagnostics_history
        &&& after.wct_trace == self.wct_trace
    }

    /// Whether a block is part of the simulation.
    pub fn contains_block(&self, block: u64) -> (r: bool)
        ensures
            r == self.blocks@.contains(block),
    {
        has_key(&self.blocks, block)
    }

    /// The order of evaluation is out of date, if there is one.
    pub open spec fn dirtied(&self) -> bool {
        self.graph_dirty || self.graph is Some
    }

    /// A block was added: it got the engine of the solver, if there is one, and was
    /// asked for its engine and its events.
    pub open spec fn block_added(&self, block: u64, engine: bool, events: bool, after: Self) -> bool {
        let start = match self.solver {
            Some(s) => self.log().push(Call::SetBlockSolver(block, s)),
            None => self.log(),
        };
        let listed = indexed_one(
            block,
            self.blocks@.len() as int,
            (start, self.dyn_indices@, self.evt_indices@),
            engine,
            events,
        );
        &&& after.blocks@ == self.blocks@.push(block)
        &&& (after.log(), after.dyn_indices@, after.evt_indices@) == listed
        &&& after.connections == self.connections
        &&& after.events == self.events
        &&& after.pending_ops == self.pending_ops
        &&& after.graph_dirty == self.dirtied()
        &&& self.same_but_topology(after)
    }

    /// Adds a block, unless it is part of the simulation already.
    pub fn add_block(&mut self, block: u64) -> (r: Result<(), SimError<F>>)
        ensures
            r is Ok <==> !old(self).blocks@.contains(block),
            r is Err ==> r->Err_0 is DuplicateBlock && *final(self) == *old(self),
            r is Ok ==> exists|engine: bool, events: bool| #[trigger]
                old(self).block_added(block, engine, events, *final(self)),
            old(self).well_formed() ==> final(self).well_formed(),
    {
        if self.contains_block(block) {
            return Err(SimError::DuplicateBlock);
        }
        let at: usize = self.blocks.len();
        if let Some(s) = self.solver {
            self.driver.set_block_solver(block, s);
        }
        let engine: bool = self.driver.has_engine(block);
        let events: bool = self.driver.has_events(block);
        if engine {
            self.dyn_indices.push(at);
        }
        if events {
            self.evt_indices.push(at);
        }
        self.blocks.push(block);
        if self.graph.is_some() {
            self.graph_dirty = true;
        }
        assert(old(self).block_added(block, engine, events, *self));
        Ok(())
    }

    /// The positions are those of the blocks with an engine and with events, as all
    /// blocks were asked after the calls in `start`.
    pub open spec fn rebuilt_from(&self, start: Log<F>) -> bool {
        reindexed(self.blocks@, start, self.log(), self.dyn_indices@, self.evt_indices@)
    }

    fn rebuild_block_indices(&mut self)
        ensures
            final(self).rebuilt_from(old(self).log()),
            final(self).blocks == old(self).blocks,
            final(self).connections == old(self).connections,
            final(self).events == old(self).events,
            final(self).pending_ops == old(self).pending_ops,
            final(self).graph_dirty == old(self).graph_dirty,
            old(self).same_but_topology(*final(self)),
            positions_below(final(self).dyn_indices@, final(self).blocks@.len() as int),
            positions_below(final(self).evt_indices@, final(self).blocks@.len() as int),
    {
        let ghost start = self.log();
        let ghost step = index_step::<F>(self.blocks@);
        self.dyn_indices = Vec::new();
        self.evt_indices = Vec::new();
        let mut i: usize = 0;
        while i < self.blocks.len()
            invariant
                i <= self.blocks@.len(),
                self.blocks == old(self).blocks,
                self.connections == old(self).connections,
                self.events == old(self).events,
                self.pending_ops == old(self).pending_ops,
                self.graph_dirty == old(self).graph_dirty,
                old(self).same_but_topology(*self),
                step == index_step::<F>(self.blocks@),
                positions_below(self.dyn_indices@, i as int),
                positions_below(self.evt_indices@, i as int),
                chain(
                    i as int,
                    step,
                    (start, Seq::empty(), Seq::empty()),
                    (self.log(), self.dyn_indices@, self.evt_indices@),
                ),
            decreases self.blocks@.len() - i,
        {
            let ghost a = (self.log(), self.dyn_indices@, self.evt_indices@);
            let key: u64 = self.blocks[i];
            let engine: bool = self.driver.has_engine(key);
            let events: bool = self.driver.has_events(key);
            if engine {
                self.dyn_indices.push(i);
            }
            if events {
                self.evt_indices.push(i);
            }
            proof {
                let b = (self.log(), self.dyn_indices@, self.evt_indices@);
                assert(b == indexed_one(key, i as int, a, engine, events));
                assert(step(i as int, a, b));
                lemma_chain_push(i as int, step, (start, Seq::empty(), Seq::empty()), a, b);
            }
            i += 1;
        }
    }

    /// Removes a block.
    pub fn remove_block(&mut self, block: u64) -> (r: Result<(), SimError<F>>)
        ensures
            r is Ok <==> old(self).blocks@.contains(block),
            r is Err ==> r->Err_0 is BlockNotFound && *final(self) == *old(self),
            r is Ok ==> {
                &&& exists|at: int|
                    #![trigger old(self).blocks@.remove(at)]
                    0 <= at < old(self).blocks@.len() && old(self).blocks@[at] == block && (forall|
                        j: int,
                    |
                        0 <= j < at ==> old(self).blocks@[j] != block) && final(self).blocks@
                        == old(self).blocks@.remove(at)
                &&& final(self).rebuilt_from(old(self).log())
                &&& final(self).graph_dirty == old(self).dirtied()
                &&& final(self).connections == old(self).connections
                &&& final(self).events == old(self).events
                &&& final(self).pending_ops == old(self).pending_ops
                &&& old(self).same_but_topology(*final(self))
            },
            old(self).well_formed() ==> final(self).well_formed(),
    {
        let mut at: usize = 0;
        while at < self.blocks.len()
            invariant
                at <= self.blocks@.len(),
                *self == *old(self),
                forall|j: int| 0 <= j < at ==> self.blocks@[j] != block,
            decreases self.blocks@.len() - at,
        {
            if self.blocks[at] == block {
                let _ = self.blocks.remove(at);
                assert(self.blocks@ == old(self).blocks@.remove(at as int));
                self.rebuild_block_indices();
                if self.graph.is_some() {
                    self.graph_dirty = true;
                }
                return Ok(());
            }
            at += 1;
        }
        Err(SimError::BlockNotFound)
    }

    pub fn add_connection(&mut self, connection: u64)
        ensures
            final(self).connections@ == old(self).connections@.push(connection),
            final(self).graph_dirty == old(self).dirtied(),
            final(self).blocks == old(self).blocks,
            final(self).events == old(self).events,
            final(self).dyn_indices == old(self).dyn_indices,
            final(self).evt_indices == old(self).evt_indices,
            final(self).pending_ops == old(self).pending_ops,
            final(self).driver == old(self).driver,
            old(self).same_but_topology(*final(self)),
    {
        self.connections.push(connection);
        if self.graph.is_some() {
            self.graph_dirty = true;
        }
    }

    /// Removes every occurrence of a connection.
    pub fn remove_connection(&mut self, connection: u64) -> (r: Result<(), SimError<F>>)
        ensures
            r is Ok <==> old(self).connections@.contains(connection),
            r is Err ==> r->Err_0 is ConnectionNotFound && final(self).graph_dirty
                == old(self).graph_dirty,
            final(self).connections@ == without(old(self).connections@, seq![connection]),
            r is Ok ==> final(self).graph_dirty == old(self).dirtied(),
            final(self).blocks == old(self).blocks,
            final(self).events == old(self).events,
            final(self).dyn_indices == old(self).dyn_indices,
            final(self).evt_indices == old(self).evt_indices,
            final(self).pending_ops == old(self).pending_ops,
            final(self).driver == old(self).driver,
            old(self).same_but_topology(*final(self)),
    {
        let mut gone: Vec<u64> = Vec::new();
        gone.push(connection);
        assert(gone@ =~= seq![connection]);
        let kept: Vec<u64> = drop_keys(&self.connections, &gone);
        let before: usize = self.connections.len();
        let after: usize = kept.len();
        proof {
            lemma_without_length(self.connections@, connection);
        }
        self.connections = kept;
        if after == before {
            return Err(SimError::ConnectionNotFound);
        }
        if self.graph.is_some() {
            self.graph_dirty = true;
        }
        Ok(())
    }

    pub fn add_event(&mut self, event: u64)
        ensures
            final(self).events@ == old(self).events@.push(event),
            *final(self) == (Simulation { events: final(self).events, ..*old(self) }),
    {
        self.events.push(event);
    }

    /// Removes every occurrence of an event.
    pub fn remove_event(&mut self, event: u64) -> (r: Result<(), SimError<F>>)
        ensures
            r is Ok <==> old(self).events@.contains(event),
            r is Err ==> r->Err_0 is EventNotFound,
            final(self).events@ == without(old(self).events@, seq![event]),
            *final(self) == (Simulation { events: final(self).events, ..*old(self) }),
    {
        let mut gone: Vec<u64> = Vec::new();
        gone.push(event);
        assert(gone@ =~= seq![event]);
        let kept: Vec<u64> = drop_keys(&self.events, &gone);
        let before: usize = self.events.len();
        let after: usize = kept.len();
        proof {
            lemma_without_length(self.events@, event);
        }
        self.events = kept;
        if after == before {
            return Err(SimError::EventNotFound);
        }
        Ok(())
    }

    /// What the queued changes `ops` make of the simulation.
    pub open spec fn ops_applied(&self, ops: Seq<PendingOp>, after: Self) -> bool {
        let kept = without(self.blocks@, removed_blocks(ops));
        let start = self.log() + solver_calls::<F>(kept, added_blocks(ops), self.solver);
        &&& after.blocks@ == blocks_after(self.blocks@, ops)
        &&& after.connections@ == connections_after(self.connections@, ops)
        &&& after.events@ == events_after(self.events@, ops)
        &&& after.pending_ops@.len() == 0
        &&& self.same_but_topology(after)
        &&& if topology_changes(self.blocks@, self.connections@, ops) {
            after.rebuilt_from(start) && after.graph_dirty == self.dirtied()
        } else {
            after.log() == start && after.dyn_indices == self.dyn_indices && after.evt_indices
                == self.evt_indices && after.graph_dirty == self.graph_dirty
        }
    }

    /// The changes that callbacks have queued are applied.
    pub open spec fn ops_done(&self, after: Self) -> bool {
        if self.pending_ops@.len() == 0 {
            after == *self
        } else {
            self.ops_applied(self.pending_ops@, after)
        }
    }

    /// The changes `ops` that callbacks have asked for are queued, after those that are.
    pub open spec fn collects(&self, ops: Seq<PendingOp>, after: Self) -> bool {
        &&& after.log() == self.log().push(Call::TakeChanges(ops))
        &&& after.pending_ops@ == self.pending_ops@ + ops
        &&& after == (Simulation {
            pending_ops: after.pending_ops,
            driver: after.driver,
            ..*self
        })
    }

    /// The changes that callbacks have asked for are queued.
    pub open spec fn collected(&self, after: Self) -> bool {
        exists|ops: Seq<PendingOp>| #[trigger] self.collects(ops, after)
    }

    /// Applies the changes that callbacks have queued and asked for, removals before
    /// additions.
    pub fn apply_pending_ops(&mut self)
        ensures
            exists|m: Self| #[trigger] old(self).collected(m) && m.ops_done(*final(self)),
            old(self).well_formed() ==> final(self).well_formed(),
    {
        let mut asked: Vec<PendingOp> = self.driver.take_changes();
        let ghost ops = asked@;
        self.pending_ops.append(&mut asked);
        let ghost m = *self;
        assert(old(self).collects(ops, m));
        self.apply_queued();
        assert(old(self).collected(m) && m.ops_done(*self));
    }

    fn apply_queued(&mut self)
        ensures
            old(self).ops_done(*final(self)),
            old(self).well_formed() ==> final(self).well_formed(),
    {
        if self.pending_ops.len() == 0 {
            return;
        }
        let ghost ops = self.pending_ops@;
        let b: Buckets = sort_ops(&self.pending_ops);
        self.pending_ops = Vec::new();
        let mut changed: bool = false;
        let had_blocks: usize = self.blocks.len();
        let had_connections: usize = self.connections.len();
        self.blocks = drop_keys(&self.blocks, &b.rm_blocks);
        if self.blocks.len() != had_blocks {
            changed = true;
        }
        self.connections = drop_keys(&self.connections, &b.rm_connections);
        if self.connections.len() != had_connections {
            changed = true;
        }
        self.events = drop_keys(&self.events, &b.rm_events);
        let ghost kept = self.blocks@;
        let ghost removed = changed;
        let mut i: usize = 0;
        proof {
            assert(b.add_blocks@.take(0) =~= Seq::empty());
            assert(old(self).log() + solver_calls::<F>(kept, b.add_blocks@.take(0), self.solver)
                =~= old(self).log());
        }
        let adds: &Vec<u64> = &b.add_blocks;
        while i < adds.len()
            invariant
                i <= adds@.len(),
                self.blocks@ == with_new(kept, adds@.take(i as int)),
                self.blocks@.len() >= kept.len(),
                self.log() == old(self).log() + solver_calls::<F>(
                    kept,
                    adds@.take(i as int),
                    old(self).solver,
                ),
                changed == (removed || self.blocks@.len() != kept.len()),
                self.connections@ == without(
                    old(self).connections@,
                    removed_connections(ops),
                ),
                self.events@ == without(old(self).events@, removed_events(ops)),
                self.pending_ops@.len() == 0,
                self.dyn_indices == old(self).dyn_indices,
                self.evt_indices == old(self).evt_indices,
                self.graph_dirty == old(self).graph_dirty,
                old(self).same_but_topology(*self),
            decreases adds.len() - i,
        {
            let key: u64 = adds[i];
            let ghost shorter = adds@.take(i as int);
            assert(adds@.take(i + 1).drop_last() =~= shorter);
            if !self.contains_block(key) {
                if let Some(s) = self.solver {
                    self.driver.set_block_solver(key, s);
                    assert(old(self).log() + solver_calls::<F>(kept, shorter, old(self).solver).push(
                        Call::SetBlockSolver(key, s),
                    ) =~= (old(self).log() + solver_calls::<F>(
                        kept,
                        shorter,
                        old(self).solver,
                    )).push(Call::SetBlockSolver(key, s)));
                }
                self.blocks.push(key);
                changed = true;
            }
            i += 1;
        }
        assert(adds@.take(i as int) =~= adds@);
        let grown: bool = b.add_connections.len() > 0;
        append_keys(&mut self.connections, &b.add_connections);
        append_keys(&mut self.events, &b.add_events);
        if grown {
            changed = true;
        }
        assert(changed == topology_changes(old(self).blocks@, old(self).connections@, ops));
        if changed {
            self.rebuild_block_indices();
            if self.graph.is_some() {
                self.graph_dirty = true;
            }
        } else {
            proof {
                lemma_same_length_keeps(old(self).blocks@, removed_blocks(ops));
                lemma_no_new_keeps(kept, adds@);
            }
        }
    }

    /// The numbers of blocks and of states inside the first `k` blocks, as they
    /// were asked.
    pub open spec fn size_step(blocks: Seq<u64>) -> spec_fn(
        int,
        (Log<F>, usize, usize),
        (Log<F>, usize, usize),
    ) -> bool {
        |i: int, a: (Log<F>, usize, usize), b: (Log<F>, usize, usize)|
            exists|size: (usize, usize)| b == #[trigger] sized_one(blocks[i], a, size)
    }

    /// Numbers of blocks and of states of the whole system.
    pub fn size(&mut self) -> (r: (usize, usize))
        ensures
            chain(
                old(self).blocks@.len() as int,
                Self::size_step(old(self).blocks@),
                (old(self).log(), 0usize, 0usize),
                (final(self).log(), r.0, r.1),
            ),
            old(self).same_but_log(*final(self)),
    {
        let ghost start = self.log();
        let ghost step = Self::size_step(self.blocks@);
        let mut n: usize = 0;
        let mut nx: usize = 0;
        let mut i: usize = 0;
        while i < self.blocks.len()
            invariant
                i <= self.blocks@.len(),
                old(self).same_but_log(*self),
                step == Self::size_step(self.blocks@),
                chain(i as int, step, (start, 0usize, 0usize), (self.log(), n, nx)),
            decreases self.blocks@.len() - i,
        {
            let ghost a = (self.log(), n, nx);
            let key: u64 = self.blocks[i];
            let size: (usize, usize) = self.driver.block_size(key);
            n = add_capped(n, size.0);
            nx = add_capped(nx, size.1);
            proof {
                let b = (self.log(), n, nx);
                assert(b == sized_one(self.blocks@[i as int], a, size));
                assert(step(i as int, a, b));
                lemma_chain_push(i as int, step, (start, 0usize, 0usize), a, b);
            }
            i += 1;
        }
        (n, nx)
    }
}

fn append_keys(list: &mut Vec<u64>, more: &Vec<u64>)
    ensures
        final(list)@ == old(list)@ + more@,
{
    let ghost before = list@;
    let mut i: usize = 0;
    while i < more.len()
        invariant
            i <= more@.len(),
            list@ == before + more@.take(i as int),
        decreases more.len() - i,
    {
        list.push(more[i]);
        assert(more@.take(i + 1) =~= more@.take(i as int).push(more@[i as int]));
        i += 1;
    }
    assert(more@.take(i as int) =~= more@);
}

proof fn lemma_without_shorter(list: Seq<u64>, drop: Seq<u64>)
    ensures
        without(list, drop).len() <= list.len(),
    decreases list.len(),
{
    if list.len() > 0 {
        lemma_without_shorter(list.drop_last(), drop);
    }
}

proof fn lemma_without_length(list: Seq<u64>, key: u64)
    ensures
        without(list, seq![key]).len() <= list.len(),
        (without(list, seq![key]).len() < list.len()) == list.contains(key),
    decreases list.len(),
{
    let drop = seq![key];
    assert(drop[0] == key);
    if list.len() > 0 {
        let head = list.drop_last();
        lemma_without_length(head, key);
        assert(drop.contains(list.last()) == (list.last() == key)) by {
            if drop.contains(list.last()) {
                let i = choose|i: int| 0 <= i < drop.len() && drop[i] == list.last();
            }
        }
        if list.contains(key) && list.last() != key {
            let i = choose|i: int| 0 <= i < list.len() && list[i] == key;
            assert(head[i] == key);
        }
        if head.contains(key) {
            let i = choose|i: int| 0 <= i < head.len() && head[i] == key;
            assert(list[i] == key);
        }
        if list.last() == key {
            assert(list[list.len() - 1] == key);
        }
    }
}

proof fn lemma_same_length_keeps(list: Seq<u64>, drop: Seq<u64>)
    ensures
        without(list, drop).len() == list.len() ==> without(list, drop) == list,
    decreases list.len(),
{
    lemma_without_shorter(list, drop);
    if list.len() > 0 {
        lemma_without_shorter(list.drop_last(), drop);
        lemma_same_length_keeps(list.drop_last(), drop);
        if without(list, drop).len() == list.len() {
            assert(without(list, drop) =~= list);
        }
    } else {
        assert(without(list, drop) =~= list);
    }
}

proof fn lemma_with_new_longer(list: Seq<u64>, more: Seq<u64>)
    ensures
        with_new(list, more).len() >= list.len(),
    decreases more.len(),
{
    if more.len() > 0 {
        lemma_with_new_longer(list, more.drop_last());
    }
}

proof fn lemma_no_new_keeps(list: Seq<u64>, more: Seq<u64>)
    ensures
        with_new(list, more).len() == list.len() ==> with_new(list, more) == list,
    decreases more.len(),
{
    if more.len() > 0 {
        lemma_with_new_longer(list, more.drop_last());
        lemma_no_new_keeps(list, more.drop_last());
    }
}

/// No key is twice in the list.
pub open spec fn distinct(list: Seq<u64>) -> bool {
    forall|i: int, j: int| 0 <= i < j < list.len() ==> #[trigger] list[i] != #[trigger] list[j]
}

proof fn lemma_without_members(list: Seq<u64>, drop: Seq<u64>)
    ensures
        forall|k: u64|
            #[trigger] without(list, drop).contains(k) <==> list.contains(k) && !drop.contains(k),
        distinct(list) ==> distinct(without(list, drop)),
    decreases list.len(),
{
    if list.len() > 0 {
        let head = list.drop_last();
        lemma_without_members(head, drop);
        let w = without(list, drop);
        let wh = without(head, drop);
        assert forall|k: u64| #[trigger] w.contains(k) <==> list.contains(k) && !drop.contains(
            k,
        ) by {
            if list.contains(k) {
                let i = choose|i: int| 0 <= i < list.len() && list[i] == k;
                if i < head.len() {
                    assert(head[i] == k);
                    assert(head.contains(k));
                }
            }
            if head.contains(k) {
                let i = choose|i: int| 0 <= i < head.len() && head[i] == k;
                assert(list[i] == k);
            }
            if wh.contains(k) {
                let i = choose|i: int| 0 <= i < wh.len() && wh[i] == k;
                assert(w[i] == k);
            }
            if w.contains(k) {
                let i = choose|i: int| 0 <= i < w.len() && w[i] == k;
                if i < wh.len() {
                    assert(wh[i] == k);
                    assert(wh.contains(k));
                } else {
                    assert(list[list.len() - 1] == k);
                }
            }
            if k == list.last() && !drop.contains(k) {
                assert(w[wh.len() as int] == k);
            }
        }
        if distinct(list) {
            assert(distinct(head)) by {
                assert forall|i: int, j: int| 0 <= i < j < head.len() implies #[trigger] head[i]
                    != #[trigger] head[j] by {
                    assert(list[i] != list[j]);
                }
            }
            assert forall|i: int, j: int| 0 <= i < j < w.len() implies #[trigger] w[i]
                != #[trigger] w[j] by {
                if j < wh.len() {
                    assert(wh[i] != wh[j]);
                } else if i < wh.len() {
                    assert(wh.contains(wh[i]));
                    assert(head.contains(wh[i]));
                    let a = choose|a: int| 0 <= a < head.len() && head[a] == wh[i];
                    assert(list[a] != list[list.len() - 1]);
                }
            }
        }
    }
}

proof fn lemma_with_new_members(list: Seq<u64>, more: Seq<u64>)
    ensures
        forall|k: u64|
            #[trigger] with_new(list, more).contains(k) <==> list.contains(k) || more.contains(k),
        distinct(list) ==> distinct(with_new(list, more)),
    decreases more.len(),
{
    if more.len() > 0 {
        let head = more.drop_last();
        lemma_with_new_members(list, head);
        let before = with_new(list, head);
        let w = with_new(list, more);
        assert forall|k: u64| #[trigger] w.contains(k) <==> list.contains(k) || more.contains(
            k,
        ) by {
            if more.contains(k) {
                let i = choose|i: int| 0 <= i < more.len() && more[i] == k;
                if i < head.len() {
                    assert(head[i] == k);
                    assert(head.contains(k));
                }
            }
            if head.contains(k) {
                let i = choose|i: int| 0 <= i < head.len() && head[i] == k;
                assert(more[i] == k);
            }
            if before.contains(k) {
                let i = choose|i: int| 0 <= i < before.len() && before[i] == k;
                assert(w[i] == k);
            }
            if w.contains(k) {
                let i = choose|i: int| 0 <= i < w.len() && w[i] == k;
                if i < before.len() {
                    assert(before[i] == k);
                    assert(before.contains(k));
                } else {
                    assert(more[more.len() - 1] == k);
                }
            }
            if k == more.last() && !before.contains(k) {
                assert(w[before.len() as int] == k);
            }
            assert(more[more.len() - 1] == more.last());
        }
        if distinct(list) {
            assert forall|i: int, j: int| 0 <= i < j < w.len() implies #[trigger] w[i]
                != #[trigger] w[j] by {
                if j < before.len() {
                    assert(before[i] != before[j]);
                } else if i < before.len() {
                    assert(before.contains(before[i]));
                }
            }
        }
    }
}

/// After the queued changes a block is part of the system if it is to be added, or
/// was part of it and is not to be removed; and no block is part of it twice.
pub proof fn law_pending_blocks(blocks: Seq<u64>, ops: Seq<PendingOp>)
    requires
        distinct(blocks),
    ensures
        distinct(blocks_after(blocks, ops)),
        forall|k: u64|
            #[trigger] blocks_after(blocks, ops).contains(k) <==> added_blocks(ops).contains(k) || (
            blocks.contains(k) && !removed_blocks(ops).contains(k)),
{
    lemma_without_members(blocks, removed_blocks(ops));
    lemma_with_new_members(without(blocks, removed_blocks(ops)), added_blocks(ops));
}

} // verus!
