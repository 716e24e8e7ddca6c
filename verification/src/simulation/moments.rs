//! Laws of events: which are found, when the next is due, and the moments at which they
//! are resolved, where arithmetic is exact.

use vstd::prelude::*;

use crate::exact::{exact, lemma_meaning, meaning, rational};
use crate::expr::evaluates;
use crate::optim::linsolve::Backend;
use crate::scalar::{lts, zeros, Scalar};
use crate::simulation::chain::{chain, link};
use crate::simulation::events::{
    at_crossings, crossed_one, crossing, crossing_step, detect_step, detected_by, detects_one,
    estimate_step, estimated_by, estimates_one, first_off, ordered, placed, resolve_step,
    Detected,
};
use crate::simulation::runtime::{Call, Runtime};
use crate::simulation::state::{Log, Simulation};
use crate::simulation::trackers::narrowed;

verus! {

/// The call resolves the event `d` of a step of length `dt` from `time` to `t_end`: at its
/// end, or, with `own`, at the fraction of the step at which the event occurred.
pub open spec fn resolved_at<F: Scalar>(
    num: spec_fn(F) -> real,
    d: Detected<F>,
    time: F,
    dt: F,
    t_end: F,
    own: bool,
    call: Call<F>,
) -> bool {
    call matches Call::Resolve(event, at) && event == d.event && if own {
        num(at) - num(time) == num(d.ratio) * num(dt)
    } else {
        at == t_end
    }
}

/// Event `i` of `found` is resolved by call `i` of those made after `before`.
pub open spec fn resolves_all<F: Scalar>(
    num: spec_fn(F) -> real,
    found: Seq<Detected<F>>,
    k: int,
    time: F,
    dt: F,
    t_end: F,
    own: bool,
    before: Log<F>,
    after: Log<F>,
) -> bool {
    &&& after.len() == before.len() + k
    &&& after.take(before.len() as int) == before
    &&& forall|i: int|
        #![trigger found[i]]
        0 <= i < k ==> resolved_at(num, found[i], time, dt, t_end, own, after[before.len() + i])
}

proof fn lemma_crossed<F: Scalar>(
    num: spec_fn(F) -> real,
    found: Seq<Detected<F>>,
    k: int,
    time: F,
    dt: F,
    t_end: F,
    before: Log<F>,
    after: Log<F>,
)
    requires
        exact(num),
        0 <= k <= found.len(),
        chain(k, crossing_step(found, time, dt), before, after),
    ensures
        resolves_all(num, found, k, time, dt, t_end, true, before, after),
    decreases k,
{
    let step = crossing_step::<F>(found, time, dt);
    if k > 0 {
        let m = choose|m: Log<F>| #[trigger]
            link(step, k - 1, m, after) && chain(k - 1, step, before, m);
        lemma_crossed(num, found, k - 1, time, dt, t_end, before, m);
        assert(step(k - 1, m, after));
        let at = choose|at: F| #[trigger] crossed_one(found[k - 1], time, dt, at, m, after);
        assert(evaluates(crossing(time, found[k - 1].ratio, dt), at));
        reveal_with_fuel(meaning, 4);
        reveal_with_fuel(rational, 4);
        lemma_meaning(num, crossing(time, found[k - 1].ratio, dt), at);
        assert(after.take(before.len() as int) =~= m.take(before.len() as int));
        assert forall|i: int| 0 <= i < k implies resolved_at(
            num,
            #[trigger] found[i],
            time,
            dt,
            t_end,
            true,
            after[before.len() + i],
        ) by {
            if i < k - 1 {
                assert(after[before.len() + i] == m[before.len() + i]);
            }
        }
    } else {
        assert(after.take(before.len() as int) =~= before);
    }
}

proof fn lemma_ended<F: Scalar>(
    num: spec_fn(F) -> real,
    found: Seq<Detected<F>>,
    k: int,
    time: F,
    dt: F,
    t_end: F,
    before: Log<F>,
    after: Log<F>,
)
    requires
        0 <= k <= found.len(),
        chain(k, resolve_step(found, t_end), before, after),
    ensures
        resolves_all(num, found, k, time, dt, t_end, false, before, after),
    decreases k,
{
    let step = resolve_step::<F>(found, t_end);
    if k > 0 {
        let m = choose|m: Log<F>| #[trigger]
            link(step, k - 1, m, after) && chain(k - 1, step, before, m);
        lemma_ended(num, found, k - 1, time, dt, t_end, before, m);
        assert(step(k - 1, m, after));
        assert(after.take(before.len() as int) =~= m.take(before.len() as int));
        assert forall|i: int| 0 <= i < k implies resolved_at(
            num,
            #[trigger] found[i],
            time,
            dt,
            t_end,
            false,
            after[before.len() + i],
        ) by {
            if i < k - 1 {
                assert(after[before.len() + i] == m[before.len() + i]);
            }
        }
    } else {
        assert(after.take(before.len() as int) =~= before);
    }
}

impl<F: Scalar, B: Backend<F>, R: Runtime<F>> Simulation<F, B, R> {
    /// The events of a step are dealt with once each, in order. Where the engine is
    /// adaptive, the step may be taken back and one event is off, nothing is resolved,
    /// the step is taken back, and the answer is where the first such event occurred.
    /// Else each is resolved at `time + ratio * dt`; or all of them at the end of the step,
    /// where the engine is adaptive and none is off.
    pub proof fn law_events_take_their_moments(
        &self,
        num: spec_fn(F) -> real,
        found: Seq<Detected<F>>,
        t_end: F,
        dt: F,
        adaptive: bool,
        keep: bool,
        after: Self,
        r: Option<F>,
    )
        requires
            exact(num),
            self.events_handled(found, t_end, dt, adaptive, keep, after, r),
        ensures
            r is Some <==> adaptive && !keep && exists|i: int|
                0 <= i < found.len() && !(#[trigger] found[i]).close,
            r is Some ==> self.reverted(self.time, after) && exists|i: int|
                #![trigger found[i]]
                0 <= i < found.len() && !found[i].close && r == Some(found[i].ratio) && forall|
                    j: int,
                |
                    0 <= j < i ==> (#[trigger] found[j]).close,
            found.len() == 0 ==> after == *self,
            found.len() > 0 && r is None ==> exists|m: Self| #[trigger]
                m.updated(t_end, after) && m == (Simulation { driver: m.driver, ..*self })
                    && resolves_all(
                    num,
                    found,
                    found.len() as int,
                    self.time,
                    dt,
                    t_end,
                    !adaptive || exists|i: int|
                        0 <= i < found.len() && !(#[trigger] found[i]).close,
                    self.log(),
                    m.log(),
                ),
    {
        if found.len() > 0 && r is None {
            let own = !adaptive || exists|i: int|
                0 <= i < found.len() && !(#[trigger] found[i]).close;
            let at = at_crossings(adaptive, found);
            assert(at == own);
            let m = choose|m: Self| #[trigger]
                self.resolved_with(found, t_end, dt, at, m, after);
            if own {
                lemma_crossed(
                    num,
                    found,
                    found.len() as int,
                    self.time,
                    dt,
                    t_end,
                    self.log(),
                    m.log(),
                );
            } else {
                lemma_ended(
                    num,
                    found,
                    found.len() as int,
                    self.time,
                    dt,
                    t_end,
                    self.log(),
                    m.log(),
                );
            }
            assert(m.updated(t_end, after));
        }
        if r is Some {
            let i = choose|i: int| #[trigger]
                first_off(found, i) && r == Some(found[i].ratio);
            assert(!found[i].close);
        }
    }

    /// The events found are those that told that they occurred, each once, as they told
    /// it, in the order of the fractions at which they occurred.
    pub proof fn law_found_events_occurred(
        &self,
        num: spec_fn(F) -> real,
        t: F,
        after: Self,
        found: Seq<Detected<F>>,
    )
        requires
            exact(num),
            self.detected(t, after, found),
        ensures
            exists|list: Seq<u64>, m: Self| #[trigger]
                self.events_listed(list, m) && m.log() == after.log().take(m.log().len() as int)
                    && found.to_multiset() == occurrences(
                    t,
                    after.log().skip(m.log().len() as int),
                ).to_multiset() && asked(list, t, after.log().skip(m.log().len() as int)),
            forall|i: int, j: int|
                #![trigger found[i], found[j]]
                0 <= i < j < found.len() ==> num(found[i].ratio) <= num(found[j].ratio),
            after == (Simulation { driver: after.driver, ..*self }),
    {
        let (list, m, items) = choose|list: Seq<u64>, m: Self, items: Seq<Detected<F>>| #[trigger]
            self.detected_with(t, list, m, items, after, found);
        lemma_occurrences(list, list.len() as int, t, m.log(), after.log(), items);
        lemma_sorted(num, items, items.len() as int, found);
        assert(items.take(items.len() as int) =~= items);
        assert(list.take(list.len() as int) =~= list);
        assert(self.events_listed(list, m));
    }

    /// The time until the next event is the shortest positive estimate that any event that
    /// takes part gives, and there is none exactly if no event gives a positive one.
    pub proof fn law_next_event_is_the_nearest(
        &self,
        num: spec_fn(F) -> real,
        t: F,
        after: Self,
        r: Option<F>,
    )
        requires
            exact(num),
            self.estimated(t, after, r),
        ensures
            exists|list: Seq<u64>, m: Self| #[trigger]
                self.events_listed(list, m) && m.log() == after.log().take(m.log().len() as int)
                    && nearest(num, t, after.log().skip(m.log().len() as int), r) && estimates_asked(
                    list,
                    t,
                    after.log().skip(m.log().len() as int),
                ),
            after == (Simulation { driver: after.driver, ..*self }),
    {
        let (list, m) = choose|list: Seq<u64>, m: Self| #[trigger]
            self.estimated_with(t, list, m, after, r);
        lemma_nearest(num, list, list.len() as int, t, m.log(), after.log(), r);
        assert(list.take(list.len() as int) =~= list);
        assert(self.events_listed(list, m));
    }
}

/// Where arithmetic is exact, an event of a step that is resolved at the fraction at which
/// it occurred is resolved within the step, at its start for the fraction 0 and at its end
/// for the fraction 1.
pub proof fn law_events_are_resolved_within_the_step<F: Scalar>(
    num: spec_fn(F) -> real,
    d: Detected<F>,
    time: F,
    dt: F,
    at: F,
)
    requires
        exact(num),
        evaluates(crossing(time, d.ratio, dt), at),
        num(dt) >= 0real,
    ensures
        num(at) - num(time) == num(d.ratio) * num(dt),
        0real <= num(d.ratio) <= 1real ==> num(time) <= num(at) <= num(time) + num(dt),
        num(d.ratio) == 0real ==> num(at) == num(time),
        num(d.ratio) == 1real ==> num(at) == num(time) + num(dt),
{
    reveal_with_fuel(meaning, 4);
    reveal_with_fuel(rational, 4);
    lemma_meaning(num, crossing(time, d.ratio, dt), at);
    let (q, h) = (num(d.ratio), num(dt));
    if 0real <= q <= 1real {
        assert(0real <= q * h <= h) by (nonlinear_arith)
            requires
                0real <= q <= 1real,
                0real <= h,
        ;
    }
    assert(0real * h == 0real) by (nonlinear_arith);
    assert(1real * h == h) by (nonlinear_arith);
}

/// What the calls tell of events that occurred up to `t`, in the order of the calls.
pub open spec fn occurrences<F>(t: F, calls: Log<F>) -> Seq<Detected<F>>
    decreases calls.len(),
{
    if calls.len() == 0 {
        Seq::empty()
    } else {
        let before = occurrences(t, calls.drop_last());
        match calls.last() {
            Call::Detect(event, at, (true, close, ratio)) if at == t => before.push(
                Detected { event, close, ratio },
            ),
            _ => before,
        }
    }
}

/// The calls ask each event of the list in turn, and each that takes part, right after,
/// whether it occurred up to `t`.
pub open spec fn asked<F>(list: Seq<u64>, t: F, calls: Log<F>) -> bool
    decreases list.len(),
{
    if list.len() == 0 {
        calls.len() == 0
    } else {
        let (event, rest) = (list.last(), list.drop_last());
        ||| calls.len() >= 1 && calls.last() == Call::<F>::EventActive(event, false) && asked(
            rest,
            t,
            calls.drop_last(),
        )
        ||| calls.len() >= 2 && calls[calls.len() - 2] == Call::<F>::EventActive(event, true) && (
        calls.last() matches Call::Detect(e, at, _) && e == event && at == t) && asked(
            rest,
            t,
            calls.drop_last().drop_last(),
        )
    }
}

proof fn lemma_occurrences<F: Scalar>(
    list: Seq<u64>,
    k: int,
    t: F,
    before: Log<F>,
    after: Log<F>,
    items: Seq<Detected<F>>,
)
    requires
        0 <= k <= list.len(),
        chain(k, detect_step(list, t), (before, Seq::empty()), (after, items)),
    ensures
        before.len() <= after.len(),
        after.take(before.len() as int) == before,
        items == occurrences(t, after.skip(before.len() as int)),
        asked(list.take(k), t, after.skip(before.len() as int)),
    decreases k,
{
    let start = (before, Seq::<Detected<F>>::empty());
    let end = (after, items);
    let step = detect_step::<F>(list, t);
    let calls = after.skip(before.len() as int);
    if k > 0 {
        let m = choose|m: (Log<F>, Seq<Detected<F>>)| #[trigger]
            link(step, k - 1, m, end) && chain(k - 1, step, start, m);
        lemma_occurrences(list, k - 1, t, before, m.0, m.1);
        assert(step(k - 1, m, end));
        let event = list[k - 1];
        let earlier = m.0.skip(before.len() as int);
        assert(detects_one(event, t, m, end));
        assert(after.take(before.len() as int) =~= m.0.take(before.len() as int));
        assert(list.take(k).drop_last() =~= list.take(k - 1));
        assert(list.take(k).last() == event);
        if end == (m.0.push(Call::EventActive(event, false)), m.1) {
            assert(calls =~= earlier.push(Call::EventActive(event, false)));
            assert(calls.drop_last() =~= earlier);
        } else {
            let f = choose|f: (bool, bool, F)| end == #[trigger] detected_by(event, t, f, m);
            let one = earlier.push(Call::EventActive(event, true));
            assert(calls =~= one.push(Call::Detect(event, t, f)));
            assert(calls.drop_last() =~= one);
            assert(one.drop_last() =~= earlier);
            assert(one.last() == Call::<F>::EventActive(event, true));
            assert(occurrences(t, one) == occurrences(t, earlier));
            assert(calls[calls.len() - 2] == one.last());
        }
    } else {
        assert(calls =~= Seq::empty());
        assert(after.take(before.len() as int) =~= before);
    }
}

proof fn lemma_sorted<F: Scalar>(
    num: spec_fn(F) -> real,
    items: Seq<Detected<F>>,
    k: int,
    out: Seq<Detected<F>>,
)
    requires
        exact(num),
        0 <= k <= items.len(),
        ordered(items, k, out),
    ensures
        forall|i: int, j: int|
            #![trigger out[i], out[j]]
            0 <= i < j < out.len() ==> num(out[i].ratio) <= num(out[j].ratio),
        out.to_multiset() == items.take(k).to_multiset(),
    decreases k,
{
    broadcast use vstd::seq_lib::group_to_multiset_ensures;

    if k > 0 {
        let (prev, pos) = choose|prev: Seq<Detected<F>>, pos: int| #[trigger]
            placed(prev, items[k - 1], pos, out) && ordered(items, k - 1, prev);
        lemma_sorted(num, items, k - 1, prev);
        let v = items[k - 1];
        assert forall|i: int, j: int|
            #![trigger out[i], out[j]]
            0 <= i < j < out.len() implies num(out[i].ratio) <= num(out[j].ratio) by {
            let p = if i < pos {
                i
            } else {
                i - 1
            };
            let q = if j < pos {
                j
            } else {
                j - 1
            };
            if i == pos {
                assert(lts(v.ratio, prev[q].ratio, true));
            } else if j == pos {
                assert(lts(v.ratio, prev[pos - 1].ratio, false));
                assert(out[i] == prev[p]);
                if p < pos - 1 {
                    assert(num(prev[p].ratio) <= num(prev[pos - 1].ratio));
                }
            } else {
                assert(out[i] == prev[p] && out[j] == prev[q]);
            }
        }
        assert(items.take(k) =~= items.take(k - 1).push(v));
        assert(out =~= prev.insert(pos, v));
        vstd::seq_lib::to_multiset_insert(prev, pos, v);
    } else {
        assert(out =~= items.take(0));
    }
}

/// A call by which an event estimated, at `t`, that it is `d` away.
pub open spec fn estimate_of<F>(t: F, call: Call<F>, d: F) -> bool {
    call matches Call::Estimate(_, at, Some(e)) && at == t && e == d
}

/// `r` is the shortest positive estimate that the calls give at `t`.
pub open spec fn nearest<F: Scalar>(
    num: spec_fn(F) -> real,
    t: F,
    calls: Log<F>,
    r: Option<F>,
) -> bool {
    &&& forall|i: int, d: F| #[trigger]
        estimate_of(t, calls[i], d) && 0 <= i < calls.len() && num(d) > 0real ==> r is Some && num(
            r->0,
        ) <= num(d)
    &&& r is Some ==> num(r->0) > 0real && exists|i: int, d: F| #[trigger]
        estimate_of(t, calls[i], d) && 0 <= i < calls.len() && num(d) == num(r->0)
}

/// The calls ask each event of the list in turn, and each that takes part, right after,
/// how far away it is at `t`.
pub open spec fn estimates_asked<F>(list: Seq<u64>, t: F, calls: Log<F>) -> bool
    decreases list.len(),
{
    if list.len() == 0 {
        calls.len() == 0
    } else {
        let (event, rest) = (list.last(), list.drop_last());
        ||| calls.len() >= 1 && calls.last() == Call::<F>::EventActive(event, false)
            && estimates_asked(rest, t, calls.drop_last())
        ||| calls.len() >= 2 && calls[calls.len() - 2] == Call::<F>::EventActive(event, true) && (
        calls.last() matches Call::Estimate(e, at, _) && e == event && at == t) && estimates_asked(
            rest,
            t,
            calls.drop_last().drop_last(),
        )
    }
}

proof fn lemma_nearest<F: Scalar>(
    num: spec_fn(F) -> real,
    list: Seq<u64>,
    k: int,
    t: F,
    before: Log<F>,
    after: Log<F>,
    r: Option<F>,
)
    requires
        exact(num),
        0 <= k <= list.len(),
        chain(k, estimate_step(list, t), (before, None), (after, r)),
    ensures
        before.len() <= after.len(),
        after.take(before.len() as int) == before,
        nearest(num, t, after.skip(before.len() as int), r),
        estimates_asked(list.take(k), t, after.skip(before.len() as int)),
    decreases k,
{
    let start = (before, None::<F>);
    let end = (after, r);
    let step = estimate_step::<F>(list, t);
    let calls = after.skip(before.len() as int);
    if k > 0 {
        let m = choose|m: (Log<F>, Option<F>)| #[trigger]
            link(step, k - 1, m, end) && chain(k - 1, step, start, m);
        lemma_nearest(num, list, k - 1, t, before, m.0, m.1);
        assert(step(k - 1, m, end));
        let event = list[k - 1];
        let earlier = m.0.skip(before.len() as int);
        assert(estimates_one(event, t, m, end));
        assert(after.take(before.len() as int) =~= m.0.take(before.len() as int));
        assert(list.take(k).drop_last() =~= list.take(k - 1));
        assert(list.take(k).last() == event);
        if end == (m.0.push(Call::EventActive(event, false)), m.1) {
            assert(calls =~= earlier.push(Call::EventActive(event, false)));
            assert(calls.drop_last() =~= earlier);
        } else {
            let est = choose|est: Option<F>| #[trigger] estimated_by(event, t, est, m, end);
            let one = earlier.push(Call::EventActive(event, true));
            assert(calls =~= one.push(Call::Estimate(event, t, est)));
            assert(calls.drop_last() =~= one);
            assert(one.drop_last() =~= earlier);
            assert(calls[calls.len() - 2] == one.last());
            if est is Some {
                let d = est->0;
                let (z, positive) = choose|z: F, positive: bool| #[trigger]
                    lts(z, d, positive) && zeros(z) && if positive {
                        narrowed(m.1, est, r)
                    } else {
                        r == m.1
                    };
                assert(estimate_of(t, calls.last(), d));
            }
        }
        assert forall|i: int, d: F| #[trigger]
            estimate_of(t, calls[i], d) && 0 <= i < calls.len() && num(d) > 0real implies r is Some
            && num(r->0) <= num(d) by {
            if i < earlier.len() {
                assert(calls[i] == earlier[i]);
                assert(estimate_of(t, earlier[i], d));
            }
        }
        if r is Some && m.1 is Some && num(r->0) == num((m.1)->0) {
            let (i, d) = choose|i: int, d: F| #[trigger]
                estimate_of(t, earlier[i], d) && 0 <= i < earlier.len() && num(d) == num(r->0);
            assert(calls[i] == earlier[i]);
            assert(estimate_of(t, calls[i], d));
        }
    } else {
        assert(calls =~= Seq::empty());
        assert(after.take(before.len() as int) =~= before);
    }
}

} // verus!
