//! Evaluation of the system: finding the order, the acyclic part, the algebraic
//! loops.

use vstd::prelude::*;

use crate::error::SimError;
use crate::model::{ConnModel, Level};
use crate::optim::anderson::OPT_HISTORY;
use crate::optim::booster::ConnectionBooster;
use crate::optim::linsolve::Backend;
use crate::scalar::Scalar;
use crate::simulation::chain::{chain, lemma_chain_push};
use crate::simulation::graph::{assemble_graph_from, conn_specs, port_edges};
use crate::simulation::runtime::{Call, Feedthrough, PortEdge, Runtime, Schedule};
use crate::simulation::state::{Log, LoopBooster, Simulation};

verus! {

/// The inputs of all blocks are cleared.
pub open spec fn reset_calls<F>(blocks: Seq<u64>) -> Log<F> {
    Seq::new(blocks.len(), |i: int| Call::ResetInputs(blocks[i]))
}

/// The ports of the first connections are resolved, to `models`.
pub open spec fn resolve_calls<F>(conns: Seq<u64>, models: Seq<ConnModel>) -> Log<F> {
    Seq::new(models.len(), |i: int| Call::ResolvePorts(conns[i], Ok(models[i])))
}

/// The first blocks are asked for their shapes.
pub open spec fn shape_calls<F>(blocks: Seq<u64>, shapes: Seq<Feedthrough>) -> Log<F> {
    Seq::new(
        shapes.len(),
        |i: int|
            Call::PortShape(blocks[i], (shapes[i].n_in, shapes[i].n_out, shapes[i].mask@)),
    )
}

/// `lb` is a new accelerator for a connection whose source has the given values.
pub open spec fn booster_made<F: Scalar, B: Backend<F>>(
    conn: u64,
    values: Seq<F>,
    tol: (F, F),
    lb: LoopBooster<F, B>,
) -> bool {
    &&& lb.conn == conn
    &&& lb.booster.history@ == values
    &&& lb.booster.accelerator.m == OPT_HISTORY
    &&& lb.booster.accelerator.cleared()
    &&& lb.booster.atol == tol.0
    &&& lb.booster.rtol == tol.1
}

/// An accelerator is made for one of the connections that close loops; a number
/// that is none of a connection is passed over.
pub open spec fn make_step<F: Scalar, B: Backend<F>>(
    conns: Seq<u64>,
    closing: Seq<usize>,
    tol: (F, F),
) -> spec_fn(
    int,
    (Log<F>, Seq<LoopBooster<F, B>>),
    (Log<F>, Seq<LoopBooster<F, B>>),
) -> bool {
    |
        i: int,
        a: (Log<F>, Seq<LoopBooster<F, B>>),
        b: (Log<F>, Seq<LoopBooster<F, B>>),
    |
        makes_one(conns, closing[i], tol, a, b)
}

/// An accelerator is made for connection number `at`.
pub open spec fn makes_one<F: Scalar, B: Backend<F>>(
    conns: Seq<u64>,
    at: usize,
    tol: (F, F),
    a: (Log<F>, Seq<LoopBooster<F, B>>),
    b: (Log<F>, Seq<LoopBooster<F, B>>),
) -> bool {
    if at < conns.len() {
        exists|values: Seq<F>, lb: LoopBooster<F, B>| #[trigger]
            booster_made(conns[at as int], values, tol, lb) && b == (
                a.0.push(Call::SourceValues(conns[at as int], values)),
                a.1.push(lb),
            )
    } else {
        b == a
    }
}

/// What is known of a system once its ports are resolved.
pub struct Assembled<F> {
    pub models: Seq<ConnModel>,
    pub shapes: Seq<Feedthrough>,
    pub schedule: Schedule,
    pub tol: (F, F),
}

/// The calls that find the order of evaluation, up to the accelerators.
pub open spec fn assembly_calls<F>(
    blocks: Seq<u64>,
    conns: Seq<u64>,
    found: Assembled<F>,
) -> Log<F> {
    (reset_calls::<F>(blocks) + resolve_calls(conns, found.models) + shape_calls(
        blocks,
        found.shapes,
    )).push(
        Call::Schedule(
            conn_specs(blocks, found.models, found.models.len() as int),
            found.shapes,
            port_edges(blocks, found.models, found.models.len() as int),
            found.schedule,
        ),
    ).push(Call::Tolerances(found.tol))
}

/// The calls up to a connection whose ports cannot be resolved.
pub open spec fn failed_calls<F>(
    blocks: Seq<u64>,
    conns: Seq<u64>,
    models: Seq<ConnModel>,
    e: SimError<F>,
) -> Log<F> {
    (reset_calls::<F>(blocks) + resolve_calls(conns, models)).push(
        Call::ResolvePorts(conns[models.len() as int], Err(e)),
    )
}

/// One block is evaluated, if it takes part. A number that is none of a block is
/// passed over.
pub open spec fn block_update<F>(blocks: Seq<u64>, at: usize, t: F, a: Log<F>, b: Log<F>) -> bool {
    if at < blocks.len() {
        let key = blocks[at as int];
        ||| b == a.push(Call::BlockActive(key, false))
        ||| b == a.push(Call::BlockActive(key, true)).push(Call::UpdateBlock(key, t))
    } else {
        b == a
    }
}

/// The blocks of a level are evaluated.
pub open spec fn block_step<F>(blocks: Seq<u64>, list: Seq<usize>, t: F) -> spec_fn(
    int,
    Log<F>,
    Log<F>,
) -> bool {
    |i: int, a: Log<F>, b: Log<F>| block_update(blocks, list[i], t, a, b)
}

/// Values are transferred along one connection. A number that is none of a
/// connection is passed over.
pub open spec fn transferred<F>(conns: Seq<u64>, at: usize, a: Log<F>) -> Log<F> {
    if at < conns.len() {
        a.push(Call::Transfer(conns[at as int]))
    } else {
        a
    }
}

/// The connections of a level of the acyclic part are followed.
pub open spec fn transfer_step<F>(conns: Seq<u64>, list: Seq<usize>) -> spec_fn(
    int,
    Log<F>,
    Log<F>,
) -> bool {
    |i: int, a: Log<F>, b: Log<F>| b == transferred(conns, list[i], a)
}

/// Values are transferred along one connection, if it takes part.
pub open spec fn transfer_active<F>(conns: Seq<u64>, at: usize, a: Log<F>, b: Log<F>) -> bool {
    if at < conns.len() {
        let key = conns[at as int];
        ||| b == a.push(Call::ConnectionActive(key, false))
        ||| b == a.push(Call::ConnectionActive(key, true)).push(Call::Transfer(key))
    } else {
        b == a
    }
}

/// The connections of a level of the loops are followed.
pub open spec fn loop_transfer_step<F>(conns: Seq<u64>, list: Seq<usize>) -> spec_fn(
    int,
    Log<F>,
    Log<F>,
) -> bool {
    |i: int, a: Log<F>, b: Log<F>| transfer_active(conns, list[i], a, b)
}

/// A level is evaluated: first its blocks, up to `m`, then its connections.
pub open spec fn level_run<F>(
    blocks: Seq<u64>,
    conns: Seq<u64>,
    level: Level,
    in_loop: bool,
    t: F,
    a: Log<F>,
    m: Log<F>,
    b: Log<F>,
) -> bool {
    &&& chain(level.blocks@.len() as int, block_step(blocks, level.blocks@, t), a, m)
    &&& chain(
        level.connections@.len() as int,
        if in_loop {
            loop_transfer_step(conns, level.connections@)
        } else {
            transfer_step(conns, level.connections@)
        },
        m,
        b,
    )
}

/// The levels are evaluated in order.
pub open spec fn level_step<F>(
    blocks: Seq<u64>,
    conns: Seq<u64>,
    levels: Seq<Level>,
    in_loop: bool,
    t: F,
) -> spec_fn(int, Log<F>, Log<F>) -> bool {
    |i: int, a: Log<F>, b: Log<F>|
        exists|m: Log<F>| #[trigger] level_run(blocks, conns, levels[i], in_loop, t, a, m, b)
}

/// The acyclic part, or a pass over the loops, is evaluated at `t`.
pub open spec fn levels_run<F>(
    blocks: Seq<u64>,
    conns: Seq<u64>,
    levels: Seq<Level>,
    in_loop: bool,
    t: F,
    a: Log<F>,
    b: Log<F>,
) -> bool {
    chain(levels.len() as int, level_step(blocks, conns, levels, in_loop, t), a, b)
}

impl<F: Scalar, B: Backend<F>, R: Runtime<F>> Simulation<F, B, R> {
    /// The order of evaluation could not be found: the ports of a connection could
    /// not be resolved, for the reason that is kept.
    pub open spec fn assembly_failed(&self, models: Seq<ConnModel>, e: SimError<F>, after: Self) -> bool {
        &&& models.len() < self.connections@.len()
        &&& after.log() == self.log() + failed_calls(
            self.blocks@,
            self.connections@,
            models,
            e,
        )
        &&& after == (Simulation {
            assembly_error: Some(e),
            graph_dirty: false,
            driver: after.driver,
            ..*self
        })
    }

    /// The order of evaluation was found.
    pub open spec fn assembly_found(&self, found: Assembled<F>, after: Self) -> bool {
        let start = self.log() + assembly_calls(self.blocks@, self.connections@, found);
        &&& found.models.len() == self.connections@.len()
        &&& found.shapes.len() == self.blocks@.len()
        &&& if found.schedule.has_loops {
            chain(
                found.schedule.closing@.len() as int,
                make_step::<F, B>(self.connections@, found.schedule.closing@, found.tol),
                (start, Seq::empty()),
                (after.log(), after.boosters@),
            )
        } else {
            after.log() == start && after.boosters@.len() == 0
        }
        &&& after == (Simulation {
            graph: Some(found.schedule),
            graph_dirty: false,
            assembly_error: None,
            boosters: after.boosters,
            driver: after.driver,
            ..*self
        })
    }

    /// The search for the order of evaluation leads to `after`.
    pub open spec fn assembles(&self, after: Self) -> bool {
        ||| exists|models: Seq<ConnModel>, e: SimError<F>| #[trigger]
            self.assembly_failed(models, e, after)
        ||| exists|found: Assembled<F>| #[trigger] self.assembly_found(found, after)
    }

    fn clear_inputs(&mut self)
        ensures
            final(self).log() == old(self).log() + reset_calls::<F>(old(self).blocks@),
            *final(self) == (Simulation { driver: final(self).driver, ..*old(self) }),
    {
        let ghost start = self.log();
        let mut i: usize = 0;
        assert(start + reset_calls::<F>(self.blocks@.take(0)) =~= start);
        while i < self.blocks.len()
            invariant
                i <= self.blocks@.len(),
                start == old(self).log(),
                *self == (Simulation { driver: self.driver, ..*old(self) }),
                self.log() == start + reset_calls::<F>(self.blocks@.take(i as int)),
            decreases self.blocks@.len() - i,
        {
            let key: u64 = self.blocks[i];
            self.driver.reset_inputs(key);
            assert(self.log() =~= start + reset_calls::<F>(self.blocks@.take(i + 1)));
            i += 1;
        }
        assert(self.blocks@.take(i as int) =~= self.blocks@);
    }

    fn resolve_all(&mut self) -> (r: Result<Vec<ConnModel>, (Ghost<Seq<ConnModel>>, SimError<F>)>)
        ensures
            r matches Ok(models) ==> models@.len() == old(self).connections@.len() && final(self).log()
                == old(self).log() + resolve_calls(old(self).connections@, models@),
            r matches Err(f) ==> f.0@.len() < old(self).connections@.len() && final(self).log()
                == (old(self).log() + resolve_calls(old(self).connections@, f.0@)).push(
                Call::ResolvePorts(old(self).connections@[f.0@.len() as int], Err(f.1)),
            ),
            *final(self) == (Simulation { driver: final(self).driver, ..*old(self) }),
    {
        let ghost start = self.log();
        let mut models: Vec<ConnModel> = Vec::new();
        let mut i: usize = 0;
        assert(start + resolve_calls::<F>(self.connections@, models@) =~= start);
        while i < self.connections.len()
            invariant
                i <= self.connections@.len(),
                start == old(self).log(),
                models@.len() == i,
                *self == (Simulation { driver: self.driver, ..*old(self) }),
                self.log() == start + resolve_calls(self.connections@, models@),
            decreases self.connections@.len() - i,
        {
            let key: u64 = self.connections[i];
            match self.driver.resolve_ports(key) {
                Ok(m) => {
                    models.push(m);
                    assert(self.log() =~= start + resolve_calls(self.connections@, models@));
                },
                Err(e) => {
                    return Err((Ghost(models@), e));
                },
            }
            i += 1;
        }
        Ok(models)
    }

    fn ask_shapes(&mut self) -> (shapes: Vec<Feedthrough>)
        ensures
            shapes@.len() == old(self).blocks@.len(),
            final(self).log() == old(self).log() + shape_calls::<F>(old(self).blocks@, shapes@),
            *final(self) == (Simulation { driver: final(self).driver, ..*old(self) }),
    {
        let ghost start = self.log();
        let mut shapes: Vec<Feedthrough> = Vec::new();
        let mut i: usize = 0;
        assert(start + shape_calls::<F>(self.blocks@, shapes@) =~= start);
        while i < self.blocks.len()
            invariant
                i <= self.blocks@.len(),
                start == old(self).log(),
                shapes@.len() == i,
                *self == (Simulation { driver: self.driver, ..*old(self) }),
                self.log() == start + shape_calls::<F>(self.blocks@, shapes@),
            decreases self.blocks@.len() - i,
        {
            let key: u64 = self.blocks[i];
            let (n_in, n_out, mask): (usize, usize, Vec<bool>) = self.driver.port_shape(key);
            shapes.push(Feedthrough { n_in, n_out, mask });
            assert(self.log() =~= start + shape_calls::<F>(self.blocks@, shapes@));
            i += 1;
        }
        shapes
    }

    fn make_boosters(&mut self, closing: &Vec<usize>, tol: (F, F))
        ensures
            chain(
                closing@.len() as int,
                make_step::<F, B>(old(self).connections@, closing@, tol),
                (old(self).log(), Seq::empty()),
                (final(self).log(), final(self).boosters@),
            ),
            *final(self) == (Simulation {
                boosters: final(self).boosters,
                driver: final(self).driver,
                ..*old(self)
            }),
            final(self).boosters_intact(),
    {
        let ghost start = self.log();
        let ghost step = make_step::<F, B>(self.connections@, closing@, tol);
        self.boosters = Vec::new();
        let mut i: usize = 0;
        while i < closing.len()
            invariant
                i <= closing@.len(),
                *self == (Simulation { boosters: self.boosters, driver: self.driver, ..*old(self) }),
                step == make_step::<F, B>(self.connections@, closing@, tol),
                chain(i as int, step, (start, Seq::empty()), (self.log(), self.boosters@)),
                self.boosters_intact(),
            decreases closing@.len() - i,
        {
            let ghost a = (self.log(), self.boosters@);
            let at: usize = closing[i];
            if at < self.connections.len() {
                let key: u64 = self.connections[at];
                let values: Vec<F> = self.driver.source_values(key);
                let ghost seen = values@;
                let lb: LoopBooster<F, B> = LoopBooster {
                    conn: key,
                    booster: ConnectionBooster::new(values, tol.0, tol.1),
                };
                assert(booster_made(key, seen, tol, lb));
                self.boosters.push(lb);
            }
            proof {
                let b = (self.log(), self.boosters@);
                assert(makes_one(self.connections@, at, tol, a, b));
                assert(step(i as int, a, b));
                lemma_chain_push(i as int, step, (start, Seq::empty()), a, b);
            }
            i += 1;
        }
    }

    /// Finds the order of evaluation: clears inputs, resolves ports, asks for the
    /// schedule, and makes an accelerator for each connection that closes a loop.
    pub fn assemble_graph(&mut self)
        ensures
            old(self).assembles(*final(self)),
            old(self).boosters_intact() ==> final(self).boosters_intact(),
    {
        let ghost start = self.log();
        self.clear_inputs();
        let models: Vec<ConnModel> = match self.resolve_all() {
            Ok(m) => m,
            Err((seen, e)) => {
                proof {
                    assert(self.log() =~= start + failed_calls(
                        self.blocks@,
                        self.connections@,
                        seen@,
                        e,
                    ));
                }
                self.assembly_error = Some(e);
                self.graph_dirty = false;
                assert(old(self).assembly_failed(seen@, e, *self));
                return;
            },
        };
        self.assembly_error = None;
        let (specs, edges): (Vec<(usize, usize, usize)>, Vec<PortEdge>) = assemble_graph_from(
            &self.blocks,
            &models,
        );
        let shapes: Vec<Feedthrough> = self.ask_shapes();
        let schedule: Schedule = self.driver.schedule(&specs, &shapes, &edges);
        let tol: (F, F) = self.driver.tolerances();
        let ghost found = Assembled { models: models@, shapes: shapes@, schedule, tol };
        proof {
            assert(self.log() =~= start + assembly_calls(self.blocks@, self.connections@, found));
        }
        self.boosters = Vec::new();
        if schedule.has_loops {
            self.make_boosters(&schedule.closing, tol);
        }
        self.graph = Some(schedule);
        self.graph_dirty = false;
        assert(old(self).assembly_found(found, *self));
    }
}

} // verus!
