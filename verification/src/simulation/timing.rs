//! Laws of the time and of the measures that steps and searches go by, where arithmetic is
//! exact.

use vstd::prelude::*;

use crate::algebra::{
    lemma_distributes, lemma_positive, lemma_quotient, lemma_reorders, lemma_scales,
};
use crate::exact::{exact, lemma_literal, lemma_meaning, meaning, rational};
use crate::expr::{evaluates, lit, val};
use crate::optim::linsolve::Backend;
use crate::scalar::{les, lts, ones, ratios, zeros, Scalar};
use crate::simulation::chain::{chain, link};
use crate::simulation::paced::{part_done, Span};
use crate::simulation::run::{
    clamped, largest_step, nominal, up_to_event, Course, Running,
};
use crate::simulation::runtime::{Call, Runtime};
use crate::simulation::state::{Log, Outcome, RunStats, Simulation};
use crate::simulation::steady::{
    balance_step, balanced_by, balances_one, close_step, closed_by, closes_one, quiet, skipped,
    summed, Closing,
};
use crate::simulation::timestep::{
    at_floor, floor_bound, step_end, Making, Progress, STEP_FLOOR_MARGIN_INVERSE,
};
use crate::simulation::trackers::{
    is_nls_coef, picks, recorded_at, worst_is, ConvergenceTracker, StepTracker,
};
use crate::simulation::update::{nonconverged, settles};

verus! {

/// The smaller of two numbers.
pub open spec fn lower(a: real, b: real) -> real {
    if a <= b {
        a
    } else {
        b
    }
}

/// The larger of two numbers.
pub open spec fn upper(a: real, b: real) -> real {
    if a >= b {
        a
    } else {
        b
    }
}

proof fn lemma_step_end<F: Scalar>(num: spec_fn(F) -> real, time: F, dt: F, t: F)
    requires
        exact(num),
        evaluates(step_end(time, dt), t),
    ensures
        num(t) == num(time) + num(dt),
{
    reveal_with_fuel(meaning, 3);
    reveal_with_fuel(rational, 3);
    lemma_meaning(num, step_end(time, dt), t);
}

impl<F: Scalar, B: Backend<F>, R: Runtime<F>> Simulation<F, B, R> {
    /// A step that is not adapted moves time by its length; an adapted one does so or
    /// leaves time as it was, if it failed.
    pub proof fn law_time_advances(
        &self,
        num: spec_fn(F) -> real,
        dt: F,
        adaptive: bool,
        after: Self,
        q: Progress<F>,
    )
        requires
            exact(num),
            self.timestepped(dt, adaptive, after, q),
        ensures
            !adaptive ==> num(after.time) == num(self.time) + num(dt),
            q.success ==> num(after.time) == num(self.time) + num(dt),
            num(after.time) == num(self.time) + num(dt) || after.time == self.time,
    {
        self.law_step_moves_time(dt, adaptive, after, q);
        let g = choose|g: Making<Self, F>| #[trigger]
            self.makes(dt, adaptive, g, after, q) && self.moves_time(
                dt,
                adaptive && g.adaptive,
                after,
                q,
            );
        if !(adaptive && g.adaptive && !q.success) {
            lemma_step_end(num, self.time, dt, after.time);
        }
    }

    /// The next step is the last one, or the default one where that went without error and
    /// rescaling, times its scale; but not beyond the next event nor beyond the end, and
    /// then between the bounds.
    pub proof fn law_next_step(
        &self,
        num: spec_fn(F) -> real,
        dt: F,
        error: F,
        scale: F,
        end: F,
        after: Self,
        r: F,
    )
        requires
            exact(num),
            self.advanced(dt, error, scale, end, after, r),
        ensures
            exists|event: Option<F>, most: F|
                #![trigger self.estimated(self.time, after, event), largest_step(self.dt_max, most)]
                {
                    let from = if num(error) == 0real && num(scale) == 1real {
                        num(self.dt)
                    } else {
                        num(dt)
                    };
                    let full = from * num(scale);
                    let near = if event is Some {
                        lower(full, num(event->0))
                    } else {
                        full
                    };
                    let rest = lower(near, num(end) - num(self.time));
                    &&& self.estimated(self.time, after, event)
                    &&& largest_step(self.dt_max, most)
                    &&& num(self.dt_min) <= num(most) ==> num(r) == lower(
                        upper(rest, num(self.dt_min)),
                        num(most),
                    )
                },
    {
        let (event, d0, d1, d2, d3, most) = choose|
            event: Option<F>,
            d0: F,
            d1: F,
            d2: F,
            d3: F,
            most: F,
        | #[trigger]
            self.advanced_with(dt, error, scale, end, event, d0, d1, d2, d3, most, after, r);
        let (reach, past) = choose|reach: F, past: bool| #[trigger]
            lts(end, reach, past) && evaluates(step_end(self.time, d2), reach) && if past {
                evaluates(val(end).minus(val(self.time)), d3)
            } else {
                d3 == d2
            };
        lemma_step_end(num, self.time, d2, reach);
        if past {
            reveal_with_fuel(meaning, 3);
            reveal_with_fuel(rational, 3);
            lemma_meaning(num, val(end).minus(val(self.time)), d3);
        }
        let from = if num(error) == 0real && num(scale) == 1real {
            num(self.dt)
        } else {
            num(dt)
        };
        assert(num(d0) == from) by {
            assert(nominal(dt, self.dt, error, scale, d0));
        }
        lemma_scales(num(d0), from, num(scale));
        assert(num(d1) == from * num(scale));
        assert(up_to_event(d1, event, d2));
        assert(clamped(d3, self.dt_min, most, r));
        assert(self.estimated(self.time, after, event));
        assert(largest_step(self.dt_max, most));
    }
}

/// A step counts as one of the smallest size if it exceeds that by no more than one part in
/// a thousand million.
pub proof fn law_smallest_size<F: Scalar>(
    num: spec_fn(F) -> real,
    adaptive: bool,
    dt: F,
    dt_min: F,
    r: bool,
)
    requires
        exact(num),
        at_floor(adaptive, dt, dt_min, r),
    ensures
        r == (adaptive && (num(dt) - num(dt_min)) * 1000000000real <= num(dt_min)),
{
    if adaptive {
        let bound = choose|bound: F| #[trigger]
            les(dt, bound, r) && evaluates(floor_bound(dt_min), bound);
        reveal_with_fuel(meaning, 4);
        reveal_with_fuel(rational, 4);
        lemma_literal::<F>(num, 1, 1);
        lemma_literal::<F>(num, 1, STEP_FLOOR_MARGIN_INVERSE);
        assert(1u64 as real == 1real && STEP_FLOOR_MARGIN_INVERSE as real == 1000000000real);
        lemma_meaning(num, floor_bound(dt_min), bound);
        let m = meaning(num, lit::<F>(1, STEP_FLOOR_MARGIN_INVERSE));
        let one = meaning(num, lit::<F>(1, 1));
        lemma_distributes(num(dt_min), one, m);
        lemma_reorders(num(dt_min), one, 1real);
        lemma_scales(one, 1real, num(dt_min));
        lemma_reorders(num(dt_min), m, 1000000000real);
        lemma_scales(m * 1000000000real, 1real, num(dt_min));
        lemma_reorders(num(dt_min), m * 1000000000real, 1real);
        assert(num(bound) == num(dt_min) + num(dt_min) * m);
        assert((num(dt_min) * m) * 1000000000real == num(dt_min));
    }
}

/// The part of a span that is over, times its duration, is the time that has passed of it:
/// nothing before its start, all of it after its end.
pub proof fn law_part_done<F: Scalar>(num: spec_fn(F) -> real, time: F, span: Span<F>, p: F)
    requires
        exact(num),
        num(span.duration) > 0real,
        part_done(time, span, p),
    ensures
        num(p) * num(span.duration) == lower(
            upper(num(time) - num(span.start), 0real),
            num(span.duration),
        ),
{
    let (raw, low, high) = choose|raw: F, low: F, high: F| #[trigger]
        clamped(raw, low, high, p) && zeros(low) && ones(high) && evaluates(
            val(time).minus(val(span.start)).over(val(span.duration)),
            raw,
        );
    reveal_with_fuel(meaning, 4);
    reveal_with_fuel(rational, 4);
    lemma_meaning(num, val(time).minus(val(span.start)).over(val(span.duration)), raw);
    let (d, e, q) = (num(span.duration), num(time) - num(span.start), num(raw));
    lemma_quotient(e, d);
    assert(q * d == e);
    if q < 0real {
        lemma_positive(-q, d);
        assert((-q) * d == -(q * d)) by (nonlinear_arith);
    } else if q == 0real {
        lemma_scales(q, 0real, d);
    } else {
        lemma_positive(q, d);
    }
    if q > 1real {
        lemma_positive(q - 1real, d);
        lemma_distributes(d, q, 1real);
    } else if q < 1real {
        lemma_positive(1real - q, d);
        lemma_distributes(d, 1real, q);
    } else {
        lemma_scales(q, 1real, d);
    }
    lemma_reorders(q, d, 1real);
    lemma_scales(num(p), num(p), d);
    if num(p) == 0real {
        lemma_scales(num(p), 0real, d);
    } else if num(p) == 1real {
        lemma_scales(num(p), 1real, d);
    } else {
        lemma_scales(num(p), q, d);
    }
}

/// Residuals are small enough up to a tenth.
pub proof fn law_settles_at_a_tenth<F: Scalar>(
    num: spec_fn(F) -> real,
    tracker: ConvergenceTracker<F>,
    r: bool,
)
    requires
        exact(num),
        settles(tracker, r),
    ensures
        r == (10real * num(tracker.max_error) <= 1real),
{
    let coef = choose|coef: F| #[trigger] les(tracker.max_error, coef, r) && is_nls_coef(coef);
    assert(ratios(1, 10, coef));
    assert(1u64 as real == 1real && 10u64 as real == 10real);
    assert(num(coef) * 10real == 1real);
}

/// A pass is quiet if its largest residual is below a tenth.
pub proof fn law_quiet_below_a_tenth<F: Scalar>(num: spec_fn(F) -> real, largest: F, r: bool)
    requires
        exact(num),
        quiet(largest, r),
    ensures
        r == (10real * num(largest) < 1real),
{
    let tol = choose|tol: F| #[trigger] lts(largest, tol, r) && is_nls_coef(tol);
    assert(ratios(1, 10, tol));
    assert(1u64 as real == 1real && 10u64 as real == 10real);
    assert(num(tol) * 10real == 1real);
}

/// Recording a residual sets that of its component, leaves the others and their order, and
/// raises the largest.
pub proof fn law_records_one<F: Scalar>(
    num: spec_fn(F) -> real,
    before: ConvergenceTracker<F>,
    id: usize,
    err: F,
    after: ConvergenceTracker<F>,
)
    requires
        exact(num),
        before.records(id, err, after),
    ensures
        num(after.max_error) == upper(num(before.max_error), num(err)),
        after.iterations == before.iterations,
        exists|k: int|
            0 <= k < after.errors@.len() && #[trigger] after.errors@[k] == (id, err),
        forall|k: int|
            #![trigger before.errors@[k]]
            0 <= k < before.errors@.len() && before.errors@[k].0 != id ==> k < after.errors@.len()
                && after.errors@[k] == before.errors@[k],
        forall|k: int|
            #![trigger after.errors@[k]]
            0 <= k < after.errors@.len() ==> after.errors@[k] == (id, err) || (k
                < before.errors@.len() && after.errors@[k] == before.errors@[k]),
        (forall|k: int| 0 <= k < before.errors@.len() ==> (#[trigger] before.errors@[k]).0 != id)
            <==> after.errors@.len() == before.errors@.len() + 1,
        after.errors@.len() == before.errors@.len() || after.errors@.len() == before.errors@.len()
            + 1,
{
    let errors = before.errors@;
    let above = choose|above: bool| #[trigger]
        lts(before.max_error, err, above) && after.max_error == if above {
            err
        } else {
            before.max_error
        };
    if exists|k: int| recorded_at(errors, id, k) {
        let k = choose|k: int| recorded_at(errors, id, k);
        assert(recorded_at(errors, id, k));
        assert(after.errors@[k] == (id, err));
        assert(errors[k].0 == id);
    } else {
        assert(after.errors@[errors.len() as int] == (id, err));
        assert forall|k: int| 0 <= k < errors.len() implies (#[trigger] errors[k]).0 != id by {
            if errors[k].0 == id {
                lemma_first_recorded(errors, id, k);
            }
        }
    }
}

proof fn lemma_first_recorded<F>(errors: Seq<(usize, F)>, id: usize, k: int)
    requires
        0 <= k < errors.len(),
        errors[k].0 == id,
    ensures
        exists|j: int| recorded_at(errors, id, j),
    decreases k,
{
    if exists|j: int| 0 <= j < k && (#[trigger] errors[j]).0 == id {
        let j = choose|j: int| 0 <= j < k && (#[trigger] errors[j]).0 == id;
        lemma_first_recorded(errors, id, j);
    } else {
        assert(recorded_at(errors, id, k));
    }
}

/// The worst component has the largest residual; among several, it is the last recorded.
pub proof fn law_worst_is_largest<F: Scalar>(
    num: spec_fn(F) -> real,
    errors: Seq<(usize, F)>,
    k: int,
    worst: (usize, F),
) -> (at: int)
    requires
        exact(num),
        1 <= k <= errors.len(),
        worst_is(errors, k, worst),
    ensures
        0 <= at < k,
        errors[at] == worst,
        forall|i: int|
            #![trigger errors[i]]
            0 <= i < k ==> num(errors[i].1) <= num(worst.1),
        forall|i: int|
            #![trigger errors[i]]
            at < i < k ==> num(errors[i].1) < num(worst.1),
    decreases k,
{
    if k <= 1 {
        0
    } else {
        let (prev, less) = choose|prev: (usize, F), less: bool| #[trigger]
            lts(errors[k - 1].1, prev.1, less) && #[trigger] picks(
                errors[k - 1],
                prev,
                less,
                worst,
            ) && worst_is(errors, k - 1, prev);
        let at = law_worst_is_largest(num, errors, k - 1, prev);
        if less {
            at
        } else {
            k - 1
        }
    }
}

/// The results of a step: it succeeded if all components did; the error is the largest and
/// the scale the smallest that any gave.
pub proof fn law_step_results<F: Scalar>(
    num: spec_fn(F) -> real,
    before: StepTracker<F>,
    success: bool,
    err: F,
    scale: Option<F>,
    after: StepTracker<F>,
)
    requires
        exact(num),
        before.records(success, err, scale, after),
    ensures
        after.success <==> before.success && success,
        num(after.max_error) == upper(num(before.max_error), num(err)),
        after.min_scale is None <==> before.min_scale is None && scale is None,
        before.min_scale is Some && scale is Some ==> num(after.min_scale->0) == lower(
            num(before.min_scale->0),
            num(scale->0),
        ),
        before.min_scale is None ==> after.min_scale == scale,
        scale is None ==> after.min_scale == before.min_scale,
{
    let above = choose|above: bool| #[trigger]
        lts(before.max_error, err, above) && after.max_error == if above {
            err
        } else {
            before.max_error
        };
}

/// A failure to converge is on record, with the larger of the residuals and the component
/// that it belongs to.
pub proof fn law_failure_is_recorded<F: Scalar>(
    num: spec_fn(F) -> real,
    before: Outcome<F>,
    residual: F,
    worst: Option<usize>,
    after: Outcome<F>,
)
    requires
        exact(num),
        nonconverged(before, residual, worst, after),
    ensures
        !after.converged,
        num(after.max_residual) == upper(num(before.max_residual), num(residual)),
        num(residual) > num(before.max_residual) ==> after.worst_block == worst,
        num(residual) <= num(before.max_residual) ==> after.worst_block == before.worst_block,
        after.truncated_at == before.truncated_at,
{
    let above = choose|above: bool| #[trigger]
        lts(before.max_residual, residual, above) && after == if above {
            Outcome {
                converged: false,
                max_residual: residual,
                worst_block: worst,
                truncated_at: before.truncated_at,
            }
        } else {
            Outcome { converged: false, ..before }
        };
}

/// The counts of two runs together are their sums, as far as they can be counted.
pub proof fn law_counts_add_up<F: Scalar>(
    num: spec_fn(F) -> real,
    a: RunStats<F>,
    b: RunStats<F>,
    r: RunStats<F>,
)
    requires
        exact(num),
        summed(a, b, r),
    ensures
        a.total_steps + b.total_steps <= usize::MAX ==> r.total_steps == a.total_steps
            + b.total_steps,
        a.successful_steps + b.successful_steps <= usize::MAX ==> r.successful_steps
            == a.successful_steps + b.successful_steps,
        a.rejected_steps + b.rejected_steps <= usize::MAX ==> r.rejected_steps == a.rejected_steps
            + b.rejected_steps,
        a.total_evals + b.total_evals <= usize::MAX ==> r.total_evals == a.total_evals
            + b.total_evals,
        a.total_solver_its + b.total_solver_its <= usize::MAX ==> r.total_solver_its
            == a.total_solver_its + b.total_solver_its,
        num(r.wall_time_secs) == num(a.wall_time_secs) + num(b.wall_time_secs),
{
}

/// A call by which a block was solved at `t` with step `dt` and residual `err`.
pub open spec fn solved_by<F>(call: Call<F>, t: F, dt: F, err: F) -> bool {
    call matches Call::SolveBlock(_, at, step, e) && at == t && step == dt && e == err
}

/// `largest` is the largest residual of the calls that solve blocks, or zero where none is
/// larger.
pub open spec fn largest_solved<F: Scalar>(
    num: spec_fn(F) -> real,
    t: F,
    dt: F,
    calls: Log<F>,
    largest: F,
) -> bool {
    &&& num(largest) >= 0real
    &&& forall|i: int, err: F| #[trigger]
        solved_by(calls[i], t, dt, err) && 0 <= i < calls.len() ==> num(err) <= num(largest)
    &&& num(largest) == 0real || exists|i: int, err: F| #[trigger]
        solved_by(calls[i], t, dt, err) && 0 <= i < calls.len() && num(err) == num(largest)
}

/// The calls ask each listed block in turn and solve those that take part, once each.
pub open spec fn solves_listed<F>(
    blocks: Seq<u64>,
    list: Seq<usize>,
    t: F,
    dt: F,
    calls: Log<F>,
) -> bool
    decreases list.len(),
{
    if list.len() == 0 {
        calls.len() == 0
    } else {
        let (key, rest) = (blocks[list.last() as int], list.drop_last());
        ||| calls.len() >= 1 && calls.last() == Call::<F>::BlockActive(key, false) && solves_listed(
            blocks,
            rest,
            t,
            dt,
            calls.drop_last(),
        )
        ||| calls.len() >= 2 && calls[calls.len() - 2] == Call::<F>::BlockActive(key, true) && (
        calls.last() matches Call::SolveBlock(k, at, step, _) && k == key && at == t && step == dt)
            && solves_listed(blocks, rest, t, dt, calls.drop_last().drop_last())
    }
}

proof fn lemma_largest_solved<F: Scalar>(
    num: spec_fn(F) -> real,
    blocks: Seq<u64>,
    list: Seq<usize>,
    k: int,
    t: F,
    dt: F,
    zero: F,
    before: Log<F>,
    after: Log<F>,
    largest: F,
)
    requires
        exact(num),
        zeros(zero),
        0 <= k <= list.len(),
        chain(k, balance_step(blocks, list, t, dt), (before, zero), (after, largest)),
    ensures
        before.len() <= after.len(),
        after.take(before.len() as int) == before,
        largest_solved(num, t, dt, after.skip(before.len() as int), largest),
        solves_listed(blocks, list.take(k), t, dt, after.skip(before.len() as int)),
    decreases k,
{
    let start = (before, zero);
    let end = (after, largest);
    let step = balance_step::<F>(blocks, list, t, dt);
    let calls = after.skip(before.len() as int);
    if k > 0 {
        let m = choose|m: (Log<F>, F)| #[trigger]
            link(step, k - 1, m, end) && chain(k - 1, step, start, m);
        lemma_largest_solved(num, blocks, list, k - 1, t, dt, zero, before, m.0, m.1);
        assert(step(k - 1, m, end));
        let key = blocks[list[k - 1] as int];
        let earlier = m.0.skip(before.len() as int);
        assert(balances_one(key, t, dt, m, end));
        assert(after.take(before.len() as int) =~= m.0.take(before.len() as int));
        assert(list.take(k).drop_last() =~= list.take(k - 1));
        assert(list.take(k).last() == list[k - 1]);
        if end == (m.0.push(Call::BlockActive(key, false)), m.1) {
            assert(calls =~= earlier.push(Call::BlockActive(key, false)));
            assert(calls.drop_last() =~= earlier);
        } else {
            let err = choose|err: F| #[trigger] balanced_by(key, t, dt, err, m, end);
            let one = earlier.push(Call::BlockActive(key, true));
            assert(calls =~= one.push(Call::SolveBlock(key, t, dt, err)));
            assert(calls.drop_last() =~= one);
            assert(one.drop_last() =~= earlier);
            assert(calls[calls.len() - 2] == one.last());
            let above = choose|above: bool| #[trigger]
                lts(m.1, err, above) && largest == if above {
                    err
                } else {
                    m.1
                };
            assert(solved_by(calls.last(), t, dt, err));
        }
        assert forall|i: int, err: F| #[trigger]
            solved_by(calls[i], t, dt, err) && 0 <= i < calls.len() implies num(err) <= num(
            largest,
        ) by {
            if i < earlier.len() {
                assert(calls[i] == earlier[i]);
                assert(solved_by(earlier[i], t, dt, err));
            }
        }
        if num(largest) == num(m.1) && num(largest) != 0real {
            let (i, err) = choose|i: int, err: F| #[trigger]
                solved_by(earlier[i], t, dt, err) && 0 <= i < earlier.len() && num(err) == num(
                    largest,
                );
            assert(calls[i] == earlier[i]);
            assert(solved_by(calls[i], t, dt, err));
        }
    } else {
        assert(calls =~= Seq::empty());
        assert(after.take(before.len() as int) =~= before);
    }
}

impl<F: Scalar, B: Backend<F>, R: Runtime<F>> Simulation<F, B, R> {
    /// A pass of the search for an operating point solves every dynamic block that takes
    /// part once, at the current time and with the default step, and goes by the largest
    /// residual.
    pub proof fn law_pass_solves_blocks(
        &self,
        num: spec_fn(F) -> real,
        zero: F,
        after: Self,
        largest: F,
    )
        requires
            exact(num),
            self.balanced(zero, after, largest),
        ensures
            self.log().len() <= after.log().len(),
            after.log().take(self.log().len() as int) == self.log(),
            largest_solved(
                num,
                self.time,
                self.dt,
                after.log().skip(self.log().len() as int),
                largest,
            ),
            solves_listed(
                self.blocks@,
                self.dyn_indices@,
                self.time,
                self.dt,
                after.log().skip(self.log().len() as int),
            ),
    {
        let list = self.dyn_indices@;
        lemma_largest_solved(
            num,
            self.blocks@,
            list,
            list.len() as int,
            self.time,
            self.dt,
            zero,
            self.log(),
            after.log(),
            largest,
        );
        assert(list.take(list.len() as int) =~= list);
    }
}

/// A call by which a block closed its period with residual `err`.
pub open spec fn period_closed_by<F>(call: Call<F>, err: F) -> bool {
    call matches Call::ClosePeriod(_, e) && e == err
}

/// `largest` is the largest residual of the calls that close periods, or zero where none
/// is larger.
pub open spec fn largest_closed<F: Scalar>(
    num: spec_fn(F) -> real,
    calls: Log<F>,
    largest: F,
) -> bool {
    &&& num(largest) >= 0real
    &&& forall|i: int, err: F| #[trigger]
        period_closed_by(calls[i], err) && 0 <= i < calls.len() ==> num(err) <= num(largest)
    &&& num(largest) == 0real || exists|i: int, err: F| #[trigger]
        period_closed_by(calls[i], err) && 0 <= i < calls.len() && num(err) == num(largest)
}

/// The calls ask each listed block in turn and close the periods of those that take part,
/// once each.
pub open spec fn closes_listed<F>(blocks: Seq<u64>, list: Seq<usize>, calls: Log<F>) -> bool
    decreases list.len(),
{
    if list.len() == 0 {
        calls.len() == 0
    } else {
        let (key, rest) = (blocks[list.last() as int], list.drop_last());
        ||| calls.len() >= 1 && calls.last() == Call::<F>::BlockActive(key, false) && closes_listed(
            blocks,
            rest,
            calls.drop_last(),
        )
        ||| calls.len() >= 2 && calls[calls.len() - 2] == Call::<F>::BlockActive(key, true) && (
        calls.last() matches Call::ClosePeriod(k, _) && k == key) && closes_listed(
            blocks,
            rest,
            calls.drop_last().drop_last(),
        )
    }
}

proof fn lemma_largest_closed<F: Scalar>(
    num: spec_fn(F) -> real,
    blocks: Seq<u64>,
    list: Seq<usize>,
    k: int,
    start: Closing<F>,
    end: Closing<F>,
)
    requires
        exact(num),
        zeros(start.largest),
        0 <= k <= list.len(),
        chain(k, close_step(blocks, list), start, end),
    ensures
        start.log.len() <= end.log.len(),
        end.log.take(start.log.len() as int) == start.log,
        largest_closed(num, end.log.skip(start.log.len() as int), end.largest),
        closes_listed(blocks, list.take(k), end.log.skip(start.log.len() as int)),
    decreases k,
{
    let before = start.log;
    let after = end.log;
    let largest = end.largest;
    let step = close_step::<F>(blocks, list);
    let calls = after.skip(before.len() as int);
    if k > 0 {
        let m = choose|m: Closing<F>| #[trigger]
            link(step, k - 1, m, end) && chain(k - 1, step, start, m);
        lemma_largest_closed(num, blocks, list, k - 1, start, m);
        assert(step(k - 1, m, end));
        let key = blocks[list[k - 1] as int];
        let earlier = m.log.skip(before.len() as int);
        assert(closes_one(key, list[k - 1], m, end));
        assert(after.take(before.len() as int) =~= m.log.take(before.len() as int));
        assert(list.take(k).drop_last() =~= list.take(k - 1));
        assert(list.take(k).last() == list[k - 1]);
        if end == skipped(key, m) {
            assert(calls =~= earlier.push(Call::BlockActive(key, false)));
            assert(calls.drop_last() =~= earlier);
        } else {
            let err = choose|err: F| #[trigger] closed_by(key, list[k - 1], err, m, end);
            let one = earlier.push(Call::BlockActive(key, true));
            assert(calls =~= one.push(Call::ClosePeriod(key, err)));
            assert(calls.drop_last() =~= one);
            assert(one.drop_last() =~= earlier);
            assert(calls[calls.len() - 2] == one.last());
            let above = choose|above: bool| #[trigger]
                lts(m.largest, err, above) && largest == if above {
                    err
                } else {
                    m.largest
                };
            assert(period_closed_by(calls.last(), err));
        }
        assert forall|i: int, err: F| #[trigger]
            period_closed_by(calls[i], err) && 0 <= i < calls.len() implies num(err) <= num(
            largest,
        ) by {
            if i < earlier.len() {
                assert(calls[i] == earlier[i]);
                assert(period_closed_by(earlier[i], err));
            }
        }
        if num(largest) == num(m.largest) && num(largest) != 0real {
            let (i, err) = choose|i: int, err: F| #[trigger]
                period_closed_by(earlier[i], err) && 0 <= i < earlier.len() && num(err) == num(
                    largest,
                );
            assert(calls[i] == earlier[i]);
            assert(period_closed_by(calls[i], err));
        }
    } else {
        assert(calls =~= Seq::empty());
        assert(after.take(before.len() as int) =~= before);
    }
}

impl<F: Scalar, B: Backend<F>, R: Runtime<F>> Simulation<F, B, R> {
    /// At the end of a period every dynamic block that takes part closes it once, and the
    /// search for a limit cycle goes by the largest residual.
    pub proof fn law_period_closes_blocks(
        &self,
        num: spec_fn(F) -> real,
        zero: F,
        after: Self,
        largest: F,
    )
        requires
            exact(num),
            self.period_closed(zero, after, largest),
        ensures
            self.log().len() <= after.log().len(),
            after.log().take(self.log().len() as int) == self.log(),
            largest_closed(num, after.log().skip(self.log().len() as int), largest),
            closes_listed(
                self.blocks@,
                self.dyn_indices@,
                after.log().skip(self.log().len() as int),
            ),
    {
        let list = self.dyn_indices@;
        lemma_largest_closed(
            num,
            self.blocks@,
            list,
            list.len() as int,
            (Closing { log: self.log(), tracker: self.solve_tracker, largest: zero }),
            (Closing { log: after.log(), tracker: after.solve_tracker, largest }),
        );
        assert(list.take(list.len() as int) =~= list);
    }

    /// A run ends its duration after the time at which it starts: where it does not end
    /// before, it stops at the first step that reaches that time.
    pub proof fn law_run_lasts_its_duration(
        &self,
        num: spec_fn(F) -> real,
        duration: F,
        reset: bool,
        adaptive: bool,
        c: Course<Self, F>,
        after: Self,
        stats: RunStats<F>,
    )
        requires
            exact(num),
            self.run_with(duration, reset, adaptive, c, after, stats),
        ensures
            num(c.end) == num(c.started.time) + num(duration),
            after.active && stats.total_steps < usize::MAX ==> num(after.time) >= num(
                c.started.time,
            ) + num(duration),
    {
        lemma_step_end(num, c.started.time, duration, c.end);
    }

    /// A run in step with the wall clock goes, in each pass, up to the time that the clock
    /// and the speed say, or to its end.
    pub proof fn law_realtime_target(
        num: spec_fn(F) -> real,
        span: Span<F>,
        speed: F,
        end: F,
        pace: bool,
        a: Running<Self, F>,
        wall: F,
        target: F,
        limit: F,
        asked: Self,
        m: Running<Self, F>,
        n: Self,
        b: Running<Self, F>,
    )
        requires
            exact(num),
            Self::keeps_step_with(span, speed, end, pace, a, wall, target, limit, asked, m, n, b),
        ensures
            num(limit) == lower(num(span.start) + num(wall) * num(speed), num(end)),
    {
        reveal_with_fuel(meaning, 4);
        reveal_with_fuel(rational, 4);
        lemma_meaning(num, val(span.start).plus(val(wall).times(val(speed))), target);
    }
}

} // verus!
