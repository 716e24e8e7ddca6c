//! Laws of the lists of blocks: which blocks are asked, and which are listed for what they
//! answered.

use vstd::prelude::*;

use crate::optim::linsolve::Backend;
use crate::scalar::Scalar;
use crate::simulation::chain::{chain, link};
use crate::simulation::reset::{resolved_by, solver_step};
use crate::simulation::runtime::{Call, Runtime};
use crate::simulation::state::{Log, Simulation};
use crate::simulation::topology::{index_step, indexed_one, reindexed};

verus! {

/// `list` holds the positions of the marks, in ascending order, and no others.
pub open spec fn lists(marks: Seq<bool>, list: Seq<usize>) -> bool {
    &&& forall|j: int| 0 <= j < list.len() ==> #[trigger] list[j] < marks.len()
    &&& forall|j: int| 0 <= j < list.len() ==> marks[#[trigger] list[j] as int]
    &&& forall|i: int, j: int| 0 <= i < j < list.len() ==> #[trigger] list[i] < #[trigger] list[j]
    &&& forall|i: int|
        #![trigger marks[i]]
        0 <= i < marks.len() && marks[i] ==> list.contains(i as usize)
}

proof fn lemma_marked(marks: Seq<bool>, list: Seq<usize>, mark: bool)
    requires
        lists(marks, list),
        marks.len() <= usize::MAX,
    ensures
        lists(
            marks.push(mark),
            if mark {
                list.push(marks.len() as usize)
            } else {
                list
            },
        ),
{
    let more = marks.push(mark);
    let longer = if mark {
        list.push(marks.len() as usize)
    } else {
        list
    };
    assert forall|j: int| 0 <= j < longer.len() implies #[trigger] longer[j] < more.len()
        && more[longer[j] as int] by {
        if j < list.len() {
            assert(longer[j] == list[j]);
            assert(marks[list[j] as int]);
        }
    }
    assert forall|i: int, j: int| 0 <= i < j < longer.len() implies #[trigger] longer[i]
        < #[trigger] longer[j] by {
        assert(longer[i] == list[i]);
        assert(list[i] < marks.len());
        if j < list.len() {
            assert(longer[j] == list[j]);
        }
    }
    assert forall|i: int|
        #![trigger more[i]]
        0 <= i < more.len() && more[i] implies longer.contains(i as usize) by {
        if i < marks.len() {
            assert(marks[i]);
            assert(list.contains(i as usize));
            let j = choose|j: int| 0 <= j < list.len() && list[j] == i as usize;
            assert(longer[j] == i as usize);
        } else {
            assert(longer[list.len() as int] == i as usize);
        }
    }
}

/// The blocks were given the solver and asked for their engines one after the other: block
/// `i` answered `engines[i]`.
pub open spec fn solver_given<F>(
    blocks: Seq<u64>,
    solver: u64,
    engines: Seq<bool>,
    before: Log<F>,
    after: Log<F>,
) -> bool {
    &&& after.len() == before.len() + 2 * engines.len()
    &&& forall|i: int| 0 <= i < before.len() ==> #[trigger] after[i] == before[i]
    &&& forall|i: int|
        #![trigger engines[i]]
        0 <= i < engines.len() ==> after[before.len() + 2 * i] == Call::<F>::SetBlockSolver(
            blocks[i],
            solver,
        ) && after[before.len() + 2 * i + 1] == Call::<F>::HasEngine(blocks[i], engines[i])
}

proof fn lemma_solver_given<F>(
    blocks: Seq<u64>,
    solver: u64,
    k: int,
    before: Log<F>,
    after: Log<F>,
    list: Seq<usize>,
) -> (engines: Seq<bool>)
    requires
        0 <= k <= blocks.len() <= usize::MAX,
        chain(k, solver_step::<F>(blocks, solver), (before, Seq::<usize>::empty()), (after, list)),
    ensures
        engines.len() == k,
        solver_given(blocks, solver, engines, before, after),
        lists(engines, list),
    decreases k,
{
    if k == 0 {
        Seq::empty()
    } else {
        let step = solver_step::<F>(blocks, solver);
        let start = (before, Seq::<usize>::empty());
        let end = (after, list);
        let m = choose|m: (Log<F>, Seq<usize>)| #[trigger]
            link(step, k - 1, m, end) && chain(k - 1, step, start, m);
        assert(step(k - 1, m, end));
        let engine = choose|engine: bool|
            end == #[trigger] resolved_by(blocks[k - 1], k - 1, solver, engine, m);
        let fewer = lemma_solver_given(blocks, solver, k - 1, before, m.0, m.1);
        let engines = fewer.push(engine);
        lemma_marked(fewer, m.1, engine);
        assert forall|i: int|
            #![trigger engines[i]]
            0 <= i < engines.len() implies after[before.len() + 2 * i] == Call::<
            F,
        >::SetBlockSolver(blocks[i], solver) && after[before.len() + 2 * i + 1] == Call::<
            F,
        >::HasEngine(blocks[i], engines[i]) by {
            if i < k - 1 {
                assert(engines[i] == fewer[i]);
            }
        }
        engines
    }
}

/// A new solver is given to every block, and the blocks that then have an engine, and no
/// others, are the dynamic ones.
pub proof fn law_solver_reaches_all_blocks<F: Scalar, B: Backend<F>, R: Runtime<F>>(
    s: Simulation<F, B, R>,
    solver: u64,
    after: Simulation<F, B, R>,
) -> (engines: Seq<bool>)
    requires
        s.solver_set(solver, after),
        s.blocks@.len() <= usize::MAX,
    ensures
        engines.len() == s.blocks@.len(),
        solver_given(
            s.blocks@,
            solver,
            engines,
            s.log().push(Call::SetEngine(solver)),
            after.log(),
        ),
        lists(engines, after.dyn_indices@),
        after.solver == Some(solver),
        after.blocks == s.blocks,
        after.time == s.time,
        after.dt == s.dt,
{
    lemma_solver_given(
        s.blocks@,
        solver,
        s.blocks@.len() as int,
        s.log().push(Call::SetEngine(solver)),
        after.log(),
        after.dyn_indices@,
    )
}

/// The blocks were asked for their engines and their events one after the other: block `i`
/// answered `engines[i]` and `events[i]`.
pub open spec fn all_asked<F>(
    blocks: Seq<u64>,
    engines: Seq<bool>,
    events: Seq<bool>,
    before: Log<F>,
    after: Log<F>,
) -> bool {
    &&& events.len() == engines.len()
    &&& after.len() == before.len() + 2 * engines.len()
    &&& forall|i: int| 0 <= i < before.len() ==> #[trigger] after[i] == before[i]
    &&& forall|i: int|
        #![trigger engines[i]]
        0 <= i < engines.len() ==> after[before.len() + 2 * i] == Call::<F>::HasEngine(
            blocks[i],
            engines[i],
        ) && after[before.len() + 2 * i + 1] == Call::<F>::HasEvents(blocks[i], events[i])
}

proof fn lemma_all_asked<F>(
    blocks: Seq<u64>,
    k: int,
    before: Log<F>,
    after: Log<F>,
    dynamic: Seq<usize>,
    eventful: Seq<usize>,
) -> (r: (Seq<bool>, Seq<bool>))
    requires
        0 <= k <= blocks.len() <= usize::MAX,
        chain(
            k,
            index_step::<F>(blocks),
            (before, Seq::<usize>::empty(), Seq::<usize>::empty()),
            (after, dynamic, eventful),
        ),
    ensures
        r.0.len() == k,
        all_asked(blocks, r.0, r.1, before, after),
        lists(r.0, dynamic),
        lists(r.1, eventful),
    decreases k,
{
    if k == 0 {
        (Seq::empty(), Seq::empty())
    } else {
        let step = index_step::<F>(blocks);
        let start = (before, Seq::<usize>::empty(), Seq::<usize>::empty());
        let end = (after, dynamic, eventful);
        let m = choose|m: (Log<F>, Seq<usize>, Seq<usize>)| #[trigger]
            link(step, k - 1, m, end) && chain(k - 1, step, start, m);
        assert(step(k - 1, m, end));
        let (engine, event) = choose|engine: bool, event: bool|
            end == #[trigger] indexed_one(blocks[k - 1], k - 1, m, engine, event);
        let fewer = lemma_all_asked(blocks, k - 1, before, m.0, m.1, m.2);
        let engines = fewer.0.push(engine);
        let events = fewer.1.push(event);
        lemma_marked(fewer.0, m.1, engine);
        lemma_marked(fewer.1, m.2, event);
        assert forall|i: int|
            #![trigger engines[i]]
            0 <= i < engines.len() implies after[before.len() + 2 * i] == Call::<F>::HasEngine(
            blocks[i],
            engines[i],
        ) && after[before.len() + 2 * i + 1] == Call::<F>::HasEvents(blocks[i], events[i]) by {
            if i < k - 1 {
                assert(engines[i] == fewer.0[i]);
                assert(events[i] == fewer.1[i]);
            }
        }
        (engines, events)
    }
}

/// Every block is asked for its engine and its events: those with an engine are the dynamic
/// ones, those with events the eventful ones.
pub proof fn law_blocks_are_listed<F>(
    blocks: Seq<u64>,
    before: Log<F>,
    after: Log<F>,
    dynamic: Seq<usize>,
    eventful: Seq<usize>,
) -> (r: (Seq<bool>, Seq<bool>))
    requires
        reindexed(blocks, before, after, dynamic, eventful),
        blocks.len() <= usize::MAX,
    ensures
        r.0.len() == blocks.len(),
        all_asked(blocks, r.0, r.1, before, after),
        lists(r.0, dynamic),
        lists(r.1, eventful),
{
    lemma_all_asked(blocks, blocks.len() as int, before, after, dynamic, eventful)
}

} // verus!
