//! A simulation as scripts see it: changes during a run, errors of callbacks, and
//! what is said of the outcome.

use vstd::prelude::*;

use crate::error::SimError;
use crate::expr::{evaluates, lit, val, Num};
use crate::optim::linsolve::Backend;
use crate::scalar::{counts, decodes, ones, zeros, Scalar};
use crate::seqs::append_all;
use crate::simulation::chain::{chain, lemma_chain_push};
use crate::simulation::runtime::Runtime;
use crate::simulation::signals::{
    clear_stop_requested, request_stop, take_runtime_fault, RunSignals,
};
use crate::simulation::state::{PendingOp, RunStats, Simulation};
use crate::simulation::topology::{has_key, without};
use crate::text::{decimal, numbered};

verus! {

/// The signals of a run, and the first error that a callback raised.
#[derive(Debug)]
pub struct CallbackSignals<F, E> {
    pub signals: RunSignals<F>,
    pub pending: Option<E>,
}

/// What a run ended with, if not with its results.
#[derive(Debug)]
pub enum RunError<F, E> {
    Simulation(SimError<F>),
    Callback(E),
}

impl<F, E> CallbackSignals<F, E> {
    pub fn new() -> (r: Self)
        ensures
            !r.signals.stop_requested,
            r.signals.runtime_fault is None,
            r.pending is None,
    {
        CallbackSignals { signals: RunSignals::new(), pending: None }
    }

    /// Clears what an earlier run has left.
    pub fn reset_run_signals(&mut self)
        ensures
            !final(self).signals.stop_requested,
            final(self).signals.runtime_fault is None,
            final(self).pending is None,
    {
        clear_stop_requested(&mut self.signals);
        self.pending = None;
    }

    /// A callback raised an error: a request to stop, or a fault. Either way the run
    /// is to stop; the first fault is kept.
    pub fn report_callback_error(&mut self, stops: bool, err: E)
        ensures
            final(self).signals.stop_requested,
            final(self).signals.runtime_fault == old(self).signals.runtime_fault,
            final(self).pending == (if stops || old(self).pending is Some {
                old(self).pending
            } else {
                Some(err)
            }),
    {
        if !stops && self.pending.is_none() {
            self.pending = Some(err);
        }
        request_stop(&mut self.signals);
    }

    /// Takes the error of a callback.
    pub fn take_pending_error(&mut self) -> (r: Option<E>)
        ensures
            r == old(self).pending,
            final(self).pending is None,
            final(self).signals == old(self).signals,
    {
        self.pending.take()
    }
}

/// What a run ended with: a diagram that could not be wired comes first, then a
/// fault inside a block, then an error of a callback. Only the one that is reported
/// is taken.
pub fn surface_run_errors<F: Scalar, B: Backend<F>, R: Runtime<F>, E>(
    sim: &mut Simulation<F, B, R>,
    calls: &mut CallbackSignals<F, E>,
) -> (r: Result<(), RunError<F, E>>)
    ensures
        r == (match old(sim).assembly_error {
            Some(e) => Err(RunError::Simulation(e)),
            None => match old(calls).signals.runtime_fault {
                Some(e) => Err(RunError::Simulation(e)),
                None => match old(calls).pending {
                    Some(e) => Err(RunError::Callback(e)),
                    None => Ok(()),
                },
            },
        }),
        *final(sim) == (Simulation { assembly_error: None, ..*old(sim) }),
        old(sim).assembly_error is Some ==> *final(calls) == *old(calls),
        old(sim).assembly_error is None ==> final(calls).signals.runtime_fault is None
            && final(calls).signals.stop_requested == old(calls).signals.stop_requested,
        old(sim).assembly_error is None && old(calls).signals.runtime_fault is None
            ==> final(calls).pending is None,
        old(sim).assembly_error is None && old(calls).signals.runtime_fault is Some
            ==> final(calls).pending == old(calls).pending,
{
    if let Some(e) = sim.take_assembly_error() {
        return Err(RunError::Simulation(e));
    }
    if let Some(e) = take_runtime_fault(&mut calls.signals) {
        return Err(RunError::Simulation(e));
    }
    if let Some(e) = calls.take_pending_error() {
        return Err(RunError::Callback(e));
    }
    Ok(())
}

/// The first `k` rows, one after the other.
pub open spec fn rows_joined<F>(rows: Seq<Vec<F>>, k: int) -> Seq<F>
    decreases k,
{
    if k <= 0 {
        Seq::empty()
    } else {
        rows_joined(rows, k - 1) + rows[k - 1]@
    }
}

/// What an integration ends with: the error that a callback raised, if one did, else
/// the times, and the states one after the other.
pub fn finish_integration<F: Copy, E>(
    calls: &mut CallbackSignals<F, E>,
    times: Vec<F>,
    states: &Vec<Vec<F>>,
    n_x: usize,
) -> (r: Result<(Vec<F>, Vec<F>), E>)
    ensures
        match old(calls).pending {
            Some(e) => r == Err::<(Vec<F>, Vec<F>), E>(e),
            None => r matches Ok((t, x)) && t == times && x@ == rows_joined(
                states@,
                states@.len() as int,
            ),
        },
        (forall|i: int| 0 <= i < states@.len() ==> (#[trigger] states@[i])@.len() == n_x)
            && r is Ok ==> in_rows(states@, n_x as int, r->Ok_0.1@),
        final(calls).pending is None,
        final(calls).signals == old(calls).signals,
{
    if let Some(e) = calls.take_pending_error() {
        return Err(e);
    }
    let mut flat: Vec<F> = Vec::new();
    let mut i: usize = 0;
    while i < states.len()
        invariant
            i <= states@.len(),
            flat@ == rows_joined(states@, i as int),
        decreases states@.len() - i,
    {
        append_all(&mut flat, &states[i]);
        i += 1;
    }
    proof {
        if forall|k: int| 0 <= k < states@.len() ==> (#[trigger] states@[k])@.len() == n_x {
            lemma_in_rows(states@, n_x as int, states@.len() as int);
        }
    }
    Ok((times, flat))
}

/// `flat` holds the rows, `n` entries each, row by row.
pub open spec fn in_rows<F>(rows: Seq<Vec<F>>, n: int, flat: Seq<F>) -> bool {
    &&& flat.len() == rows.len() * n
    &&& forall|i: int, j: int|
        0 <= i < rows.len() && 0 <= j < n ==> flat[i * n + j] == #[trigger] rows[i]@[j]
}

proof fn lemma_in_rows<F>(rows: Seq<Vec<F>>, n: int, k: int)
    requires
        0 <= k <= rows.len(),
        0 <= n,
        forall|i: int| 0 <= i < rows.len() ==> (#[trigger] rows[i])@.len() == n,
    ensures
        rows_joined(rows, k).len() == k * n,
        forall|i: int, j: int|
            0 <= i < k && 0 <= j < n ==> rows_joined(rows, k)[i * n + j] == #[trigger] rows[i]@[j],
    decreases k,
{
    if k > 0 {
        lemma_in_rows(rows, n, k - 1);
        let before = rows_joined(rows, k - 1);
        assert(k * n == (k - 1) * n + n) by (nonlinear_arith);
        assert forall|i: int, j: int| 0 <= i < k && 0 <= j < n implies rows_joined(rows, k)[i * n
            + j] == #[trigger] rows[i]@[j] by {
            if i < k - 1 {
                assert(0 <= i * n && i * n + n <= (k - 1) * n) by (nonlinear_arith)
                    requires
                        0 <= i < k - 1,
                        0 <= n,
                ;
                assert(rows_joined(rows, k)[i * n + j] == before[i * n + j]);
            } else {
                assert(i * n == before.len());
            }
        }
    } else {
        assert(k * n == 0) by (nonlinear_arith)
            requires
                k == 0,
        ;
    }
}

/// The kinds of changes.
#[derive(Debug, Clone, Copy, PartialEq, Eq, Structural)]
pub enum Change {
    AddBlock,
    RemoveBlock,
    AddConnection,
    RemoveConnection,
    AddEvent,
    RemoveEvent,
}

/// A change of a component, to be made later.
pub open spec fn later(change: Change, key: u64) -> PendingOp {
    match change {
        Change::AddBlock => PendingOp::AddBlock(key),
        Change::RemoveBlock => PendingOp::RemoveBlock(key),
        Change::AddConnection => PendingOp::AddConnection(key),
        Change::RemoveConnection => PendingOp::RemoveConnection(key),
        Change::AddEvent => PendingOp::AddEvent(key),
        Change::RemoveEvent => PendingOp::RemoveEvent(key),
    }
}

/// The change of a component, as it is queued.
pub fn deferred(change: Change, key: u64) -> (r: PendingOp)
    ensures
        r == later(change, key),
{
    match change {
        Change::AddBlock => PendingOp::AddBlock(key),
        Change::RemoveBlock => PendingOp::RemoveBlock(key),
        Change::AddConnection => PendingOp::AddConnection(key),
        Change::RemoveConnection => PendingOp::RemoveConnection(key),
        Change::AddEvent => PendingOp::AddEvent(key),
        Change::RemoveEvent => PendingOp::RemoveEvent(key),
    }
}

impl<F: Scalar, B: Backend<F>, R: Runtime<F>> Simulation<F, B, R> {
    /// Whether a change can be made.
    pub open spec fn admits(&self, change: Change, key: u64) -> bool {
        match change {
            Change::AddBlock => !self.blocks@.contains(key),
            Change::RemoveBlock => self.blocks@.contains(key),
            Change::AddConnection => true,
            Change::RemoveConnection => self.connections@.contains(key),
            Change::AddEvent => true,
            Change::RemoveEvent => self.events@.contains(key),
        }
    }

    /// Why a change cannot be made.
    pub open spec fn refuses(change: Change, e: SimError<F>) -> bool {
        match change {
            Change::AddBlock => e is DuplicateBlock,
            Change::RemoveBlock => e is BlockNotFound,
            Change::RemoveConnection => e is ConnectionNotFound,
            Change::RemoveEvent => e is EventNotFound,
            _ => false,
        }
    }

    /// What a change makes of the list that it is about; the others stay.
    pub open spec fn changed(&self, change: Change, key: u64, after: Self) -> bool {
        &&& match change {
            Change::AddBlock => after.blocks@ == self.blocks@.push(key) && after.connections
                == self.connections && after.events == self.events,
            Change::RemoveBlock => {
                &&& after.connections == self.connections
                &&& after.events == self.events
                &&& exists|at: int|
                    #![trigger self.blocks@.remove(at)]
                    0 <= at < self.blocks@.len() && self.blocks@[at] == key && after.blocks@
                        == self.blocks@.remove(at)
            },
            Change::AddConnection => after.connections@ == self.connections@.push(key)
                && after.blocks == self.blocks && after.events == self.events,
            Change::RemoveConnection => after.connections@
                == without(self.connections@, seq![key])
                && after.blocks == self.blocks && after.events == self.events,
            Change::AddEvent => after.events@ == self.events@.push(key) && after.blocks
                == self.blocks && after.connections == self.connections,
            Change::RemoveEvent => after.events@ == without(
                self.events@,
                seq![key],
            ) && after.blocks == self.blocks && after.connections == self.connections,
        }
        &&& after.pending_ops == self.pending_ops
        &&& after.time == self.time
        &&& after.active == self.active
    }

    fn change_now(&mut self, change: Change, key: u64) -> (r: Result<(), SimError<F>>)
        requires
            old(self).well_formed(),
        ensures
            r is Ok <==> old(self).admits(change, key),
            r is Ok ==> old(self).changed(change, key, *final(self)),
            r matches Err(e) ==> Self::refuses(change, e) && final(self).blocks@
                == old(self).blocks@ && final(self).connections@ == old(self).connections@
                && final(self).events@ == old(self).events@,
            final(self).pending_ops == old(self).pending_ops,
            final(self).well_formed(),
    {
        match change {
            Change::AddBlock => self.add_block(key),
            Change::RemoveBlock => self.remove_block(key),
            Change::AddConnection => {
                self.add_connection(key);
                Ok(())
            },
            Change::RemoveConnection => {
                proof {
                    if !self.connections@.contains(key) {
                        lemma_without_absent(self.connections@, key);
                    }
                }
                self.remove_connection(key)
            },
            Change::AddEvent => {
                self.add_event(key);
                Ok(())
            },
            Change::RemoveEvent => {
                proof {
                    if !self.events@.contains(key) {
                        lemma_without_absent(self.events@, key);
                    }
                }
                self.remove_event(key)
            },
        }
    }

    /// Changes of the listed components, one after the other.
    pub open spec fn change_step(change: Change, keys: Seq<u64>) -> spec_fn(int, Self, Self) -> bool {
        |i: int, a: Self, b: Self| a.admits(change, keys[i]) && a.changed(change, keys[i], b)
    }

    /// The first `k` changes were made, up to `m`; the next one was refused.
    pub open spec fn stopped_at(
        &self,
        change: Change,
        keys: Seq<u64>,
        k: int,
        m: Self,
        e: SimError<F>,
        after: Self,
    ) -> bool {
        &&& 0 <= k < keys.len()
        &&& chain(k, Self::change_step(change, keys), *self, m)
        &&& !m.admits(change, keys[k])
        &&& Self::refuses(change, e)
        &&& after.blocks@ == m.blocks@
        &&& after.connections@ == m.connections@
        &&& after.events@ == m.events@
        &&& after.pending_ops == m.pending_ops
    }

    /// Changes components: at the next step while a run is under way, at once
    /// otherwise, where the first change that cannot be made ends it.
    pub fn change(&mut self, in_run: bool, change: Change, keys: &Vec<u64>) -> (r: Result<
        (),
        SimError<F>,
    >)
        requires
            old(self).well_formed(),
        ensures
            in_run ==> {
                &&& r is Ok
                &&& final(self).pending_ops@ == old(self).pending_ops@ + Seq::new(
                    keys@.len(),
                    |i: int| later(change, keys@[i]),
                )
                &&& *final(self) == (Simulation {
                    pending_ops: final(self).pending_ops,
                    ..*old(self)
                })
            },
            !in_run ==> match r {
                Ok(_) => chain(
                    keys@.len() as int,
                    Self::change_step(change, keys@),
                    *old(self),
                    *final(self),
                ),
                Err(e) => exists|k: int, m: Self| #[trigger]
                    old(self).stopped_at(change, keys@, k, m, e, *final(self)),
            },
            final(self).well_formed(),
    {
        let mut i: usize = 0;
        if in_run {
            let ghost start = self.pending_ops@;
            assert(start =~= start + Seq::new(0, |k: int| later(change, keys@[k])));
            while i < keys.len()
                invariant
                    i <= keys@.len(),
                    self.pending_ops@ == start + Seq::new(
                        i as nat,
                        |k: int| later(change, keys@[k]),
                    ),
                    *self == (Simulation { pending_ops: self.pending_ops, ..*old(self) }),
                decreases keys@.len() - i,
            {
                self.pending_ops.push(deferred(change, keys[i]));
                assert(self.pending_ops@ =~= start + Seq::new(
                    (i + 1) as nat,
                    |k: int| later(change, keys@[k]),
                ));
                i += 1;
            }
            return Ok(());
        }
        let ghost step = Self::change_step(change, keys@);
        while i < keys.len()
            invariant
                i <= keys@.len(),
                !in_run,
                self.well_formed(),
                step == Self::change_step(change, keys@),
                chain(i as int, step, *old(self), *self),
            decreases keys@.len() - i,
        {
            let ghost a = *self;
            match self.change_now(change, keys[i]) {
                Ok(_) => {
                    proof {
                        assert(step(i as int, a, *self));
                        lemma_chain_push(i as int, step, *old(self), a, *self);
                    }
                },
                Err(e) => {
                    assert(old(self).stopped_at(change, keys@, i as int, a, e, *self));
                    return Err(e);
                },
            }
            i += 1;
        }
        Ok(())
    }
}

impl<F: Scalar, B: Backend<F>, R: Runtime<F>> Simulation<F, B, R> {
    /// Records from now on how long each step takes.
    pub fn enable_wct_trace(&mut self)
        ensures
            final(self).wct_trace matches Some(trace) && trace@.len() == 0,
            *final(self) == (Simulation { wct_trace: final(self).wct_trace, ..*old(self) }),
    {
        self.wct_trace = Some(Vec::new());
    }

    /// Takes what was recorded of the times of steps: nothing if they are not recorded.
    /// Recording goes on.
    pub fn take_wct_trace(&mut self) -> (r: Vec<F>)
        ensures
            match old(self).wct_trace {
                Some(trace) => r == trace && final(self).wct_trace is Some
                    && final(self).wct_trace->0@.len() == 0,
                None => r@.len() == 0 && final(self).wct_trace is None,
            },
            *final(self) == (Simulation { wct_trace: final(self).wct_trace, ..*old(self) }),
    {
        match self.wct_trace.take() {
            Some(trace) => {
                self.wct_trace = Some(Vec::new());
                trace
            },
            None => Vec::new(),
        }
    }

    /// Whether a connection is part of the simulation.
    pub fn contains_connection(&self, connection: u64) -> (r: bool)
        ensures
            r == self.connections@.contains(connection),
    {
        has_key(&self.connections, connection)
    }
}

proof fn lemma_without_absent(list: Seq<u64>, key: u64)
    requires
        !list.contains(key),
    ensures
        without(list, seq![key]) == list,
    decreases list.len(),
{
    reveal_with_fuel(without, 2);
    if list.len() > 0 {
        assert(list.drop_last().push(list.last()) =~= list);
        assert(list.contains(list.last()));
        assert forall|i: int| 0 <= i < list.drop_last().len() implies list.drop_last()[i] != key by {
            assert(list.contains(list[i]));
        }
        lemma_without_absent(list.drop_last(), key);
    }
}

/// What is to be said of a run that did not go well.
#[derive(Debug, Clone, Copy)]
pub struct OutcomeWarning<F> {
    /// Largest residual and where it was, if something did not converge.
    pub residual: Option<(F, Option<usize>)>,
    /// Where the run ended early, if it did.
    pub truncated: Option<F>,
}

/// What is to be said of a run: nothing if all converged and nothing was cut off.
pub fn outcome_warning<F: Scalar>(stats: &RunStats<F>) -> (r: Option<OutcomeWarning<F>>)
    ensures
        r == (if stats.outcome.converged && stats.outcome.truncated_at is None {
            None
        } else {
            Some(
                OutcomeWarning {
                    residual: if stats.outcome.converged {
                        None
                    } else {
                        Some((stats.outcome.max_residual, stats.outcome.worst_block))
                    },
                    truncated: stats.outcome.truncated_at,
                },
            )
        }),
{
    if stats.outcome.converged && stats.outcome.truncated_at.is_none() {
        return None;
    }
    let residual: Option<(F, Option<usize>)> = if stats.outcome.converged {
        None
    } else {
        Some((stats.outcome.max_residual, stats.outcome.worst_block))
    };
    Some(OutcomeWarning { residual, truncated: stats.outcome.truncated_at })
}

/// Bit pattern of a value that is no number.
pub const NO_NUMBER_BITS: u64 = 0x7FF8_0000_0000_0000;

/// An entry of the report of a run.
#[derive(Debug, Clone, Copy)]
pub struct StatsEntry<F> {
    pub name: &'static str,
    pub value: F,
}

/// The value is that of a position, or no number if there is none.
pub open spec fn position_value<F: Scalar>(p: Option<usize>, v: F) -> bool {
    match p {
        Some(i) => counts(i, v),
        None => decodes(NO_NUMBER_BITS, v),
    }
}

/// The value is that of a time, or no number if there is none.
pub open spec fn time_value<F: Scalar>(t: Option<F>, v: F) -> bool {
    match t {
        Some(x) => v == x,
        None => decodes(NO_NUMBER_BITS, v),
    }
}

/// The value is one for true and zero for false.
pub open spec fn truth_value<F: Scalar>(b: bool, v: F) -> bool {
    if b {
        ones(v)
    } else {
        zeros(v)
    }
}

/// `ms` is the time of a run in milliseconds.
pub open spec fn in_milliseconds<F: Scalar>(secs: F, ms: F) -> bool {
    evaluates(val(secs).times(lit(1000, 1)), ms)
}

/// The report of a run as named numbers, with the time that it took if asked.
pub fn stats_entries<F: Scalar>(stats: &RunStats<F>, with_runtime: bool) -> (r: Vec<StatsEntry<F>>)
    ensures
        r@.len() == (if with_runtime {
            10nat
        } else {
            9nat
        }),
        r@[0].name@ == "total_steps"@ && counts(stats.total_steps, r@[0].value),
        r@[1].name@ == "successful_steps"@ && counts(stats.successful_steps, r@[1].value),
        r@[2].name@ == "rejected_steps"@ && counts(stats.rejected_steps, r@[2].value),
        r@[3].name@ == "total_evals"@ && counts(stats.total_evals, r@[3].value),
        r@[4].name@ == "total_solver_its"@ && counts(stats.total_solver_its, r@[4].value),
        r@[5].name@ == "converged"@ && truth_value(stats.outcome.converged, r@[5].value),
        r@[6].name@ == "max_residual"@ && r@[6].value == stats.outcome.max_residual,
        r@[7].name@ == "truncated_at"@ && time_value(stats.outcome.truncated_at, r@[7].value),
        r@[8].name@ == "worst_block"@ && position_value(stats.outcome.worst_block, r@[8].value),
        with_runtime ==> r@[9].name@ == "runtime_ms"@ && in_milliseconds(
            stats.wall_time_secs,
            r@[9].value,
        ),
{
    let converged: F = if stats.outcome.converged {
        F::one()
    } else {
        F::zero()
    };
    let truncated: F = match stats.outcome.truncated_at {
        Some(t) => t,
        None => F::from_bits(NO_NUMBER_BITS),
    };
    let worst: F = match stats.outcome.worst_block {
        Some(i) => F::from_count(i),
        None => F::from_bits(NO_NUMBER_BITS),
    };
    let mut entries: Vec<StatsEntry<F>> = vec![
        StatsEntry { name: "total_steps", value: F::from_count(stats.total_steps) },
        StatsEntry { name: "successful_steps", value: F::from_count(stats.successful_steps) },
        StatsEntry { name: "rejected_steps", value: F::from_count(stats.rejected_steps) },
        StatsEntry { name: "total_evals", value: F::from_count(stats.total_evals) },
        StatsEntry { name: "total_solver_its", value: F::from_count(stats.total_solver_its) },
        StatsEntry { name: "converged", value: converged },
        StatsEntry { name: "max_residual", value: stats.outcome.max_residual },
        StatsEntry { name: "truncated_at", value: truncated },
        StatsEntry { name: "worst_block", value: worst },
    ];
    if with_runtime {
        let ms: F = Num::of(stats.wall_time_secs).times(Num::fraction(1000, 1)).value;
        entries.push(StatsEntry { name: "runtime_ms", value: ms });
    }
    entries
}

/// A block: what it does, and what belongs to its place in the system.
#[derive(Debug)]
pub struct Placed<K, I, O, E> {
    pub behaviour: K,
    pub inputs: I,
    pub outputs: O,
    pub engine: E,
}

/// Lets a block do what another does, in its own place; the other gets what the
/// block did.
pub fn adopt<K, I, O, E>(this: &mut Placed<K, I, O, E>, fresh: &mut Placed<K, I, O, E>)
    ensures
        *final(this) == (Placed { behaviour: old(fresh).behaviour, ..*old(this) }),
        *final(fresh) == (Placed { behaviour: old(this).behaviour, ..*old(fresh) }),
{
    core::mem::swap(&mut this.behaviour, &mut fresh.behaviour);
}

/// The label of a block: its own, or one made of its position.
pub fn block_label(labels: &Vec<String>, id: usize) -> (r: String)
    ensures
        r@ == (if id < labels@.len() {
            labels@[id as int]@
        } else {
            "Block_"@ + decimal(id as nat)
        }),
{
    if id < labels.len() {
        labels[id].clone()
    } else {
        numbered("Block_", id)
    }
}

/// The label of an accelerator, made of its position.
pub fn booster_label(id: usize) -> (r: String)
    ensures
        r@ == "Booster_"@ + decimal(id as nat),
{
    numbered("Booster_", id)
}

/// Adds an event to the list of a block, unless it is there already.
pub fn attach_event(events: &mut Vec<u64>, event: u64)
    ensures
        final(events)@ == (if old(events)@.contains(event) {
            old(events)@
        } else {
            old(events)@.push(event)
        }),
{
    if !has_key(events, event) {
        events.push(event);
    }
}

/// Attaching an event twice is attaching it once.
pub proof fn law_attach_is_idempotent(events: Seq<u64>, event: u64, once: Seq<u64>, twice: Seq<u64>)
    requires
        once == (if events.contains(event) {
            events
        } else {
            events.push(event)
        }),
        twice == (if once.contains(event) {
            once
        } else {
            once.push(event)
        }),
    ensures
        twice == once,
        once.contains(event),
{
    if !events.contains(event) {
        assert(once[events.len() as int] == event);
    }
}

} // verus!
