//! Events: when the next is due, which occurred in a step, and resolving them.

use vstd::prelude::*;

use crate::expr::{evaluates, val, Num, Term};
use crate::optim::linsolve::Backend;
use crate::scalar::{lts, zeros, Scalar};
use crate::simulation::chain::{chain, lemma_chain_push};
use crate::simulation::runtime::{Call, Runtime};
use crate::simulation::state::{add_capped, capped, Log, Simulation};
use crate::simulation::trackers::narrowed;

verus! {

/// An event that occurred in a step: whether it was hit closely enough, and at
/// which fraction of the step it occurred.
#[derive(Debug, Clone, Copy)]
pub struct Detected<F> {
    pub event: u64,
    pub close: bool,
    pub ratio: F,
}

/// `b` is the shorter of `a` and the estimate, which counts only if it is positive.
pub open spec fn nearer<F: Scalar>(a: Option<F>, est: Option<F>, b: Option<F>) -> bool {
    match est {
        None => b == a,
        Some(d) => exists|z: F, positive: bool| #[trigger]
            lts(z, d, positive) && zeros(z) && if positive {
                narrowed(a, est, b)
            } else {
                b == a
            },
    }
}

/// An event gave an estimate.
pub open spec fn estimated_by<F: Scalar>(
    event: u64,
    t: F,
    est: Option<F>,
    a: (Log<F>, Option<F>),
    b: (Log<F>, Option<F>),
) -> bool {
    &&& b.0 == a.0.push(Call::EventActive(event, true)).push(Call::Estimate(event, t, est))
    &&& nearer(a.1, est, b.1)
}

/// An event is asked for an estimate, if it takes part.
pub open spec fn estimates_one<F: Scalar>(
    event: u64,
    t: F,
    a: (Log<F>, Option<F>),
    b: (Log<F>, Option<F>),
) -> bool {
    ||| b == (a.0.push(Call::EventActive(event, false)), a.1)
    ||| exists|est: Option<F>| #[trigger] estimated_by(event, t, est, a, b)
}

/// The events are asked for estimates in order.
pub open spec fn estimate_step<F: Scalar>(list: Seq<u64>, t: F) -> spec_fn(
    int,
    (Log<F>, Option<F>),
    (Log<F>, Option<F>),
) -> bool {
    |i: int, a: (Log<F>, Option<F>), b: (Log<F>, Option<F>)| estimates_one(list[i], t, a, b)
}

/// An event told whether it occurred.
pub open spec fn detected_by<F>(
    event: u64,
    t: F,
    found: (bool, bool, F),
    a: (Log<F>, Seq<Detected<F>>),
) -> (Log<F>, Seq<Detected<F>>) {
    (
        a.0.push(Call::EventActive(event, true)).push(Call::Detect(event, t, found)),
        if found.0 {
            a.1.push(Detected { event, close: found.1, ratio: found.2 })
        } else {
            a.1
        },
    )
}

/// An event is asked whether it occurred, if it takes part.
pub open spec fn detects_one<F>(
    event: u64,
    t: F,
    a: (Log<F>, Seq<Detected<F>>),
    b: (Log<F>, Seq<Detected<F>>),
) -> bool {
    ||| b == (a.0.push(Call::EventActive(event, false)), a.1)
    ||| exists|found: (bool, bool, F)| b == #[trigger] detected_by(event, t, found, a)
}

/// The events are asked in order.
pub open spec fn detect_step<F>(list: Seq<u64>, t: F) -> spec_fn(
    int,
    (Log<F>, Seq<Detected<F>>),
    (Log<F>, Seq<Detected<F>>),
) -> bool {
    |i: int, a: (Log<F>, Seq<Detected<F>>), b: (Log<F>, Seq<Detected<F>>)|
        detects_one(list[i], t, a, b)
}

/// `out` is `prev` with `v` put in at `pos`: before all that it is less than, and
/// right after one that it is not less than.
pub open spec fn placed<F: Scalar>(
    prev: Seq<Detected<F>>,
    v: Detected<F>,
    pos: int,
    out: Seq<Detected<F>>,
) -> bool {
    &&& 0 <= pos <= prev.len()
    &&& out == prev.insert(pos, v)
    &&& forall|j: int| pos <= j < prev.len() ==> lts(v.ratio, (#[trigger] prev[j]).ratio, true)
    &&& pos == 0 || lts(v.ratio, prev[pos - 1].ratio, false)
}

/// `out` are the first `k` items, each put in at its place in turn.
pub open spec fn ordered<F: Scalar>(
    items: Seq<Detected<F>>,
    k: int,
    out: Seq<Detected<F>>,
) -> bool
    decreases k,
{
    if k <= 0 {
        out.len() == 0
    } else {
        exists|prev: Seq<Detected<F>>, pos: int| #[trigger]
            placed(prev, items[k - 1], pos, out) && ordered(items, k - 1, prev)
    }
}

fn place_in<F: Scalar>(list: &mut Vec<Detected<F>>, v: Detected<F>)
    ensures
        exists|pos: int| #[trigger] placed(old(list)@, v, pos, final(list)@),
{
    let ghost prev = list@;
    let mut pos: usize = list.len();
    while pos > 0
        invariant
            pos <= list@.len(),
            list@ == prev,
            forall|j: int| pos <= j < prev.len() ==> lts(v.ratio, (#[trigger] prev[j]).ratio, true),
        ensures
            pos <= list@.len(),
            list@ == prev,
            forall|j: int| pos <= j < prev.len() ==> lts(v.ratio, (#[trigger] prev[j]).ratio, true),
            pos == 0 || lts(v.ratio, prev[pos - 1].ratio, false),
        decreases pos,
    {
        let less: bool = v.ratio.below(list[pos - 1].ratio);
        assert(lts(v.ratio, prev[pos - 1].ratio, less));
        if !less {
            break;
        }
        pos -= 1;
    }
    list.insert(pos, v);
    assert(placed(prev, v, pos as int, list@));
}

fn in_order<F: Scalar>(items: &Vec<Detected<F>>) -> (out: Vec<Detected<F>>)
    ensures
        ordered(items@, items@.len() as int, out@),
        out@.len() == items@.len(),
{
    let mut out: Vec<Detected<F>> = Vec::new();
    let mut k: usize = 0;
    while k < items.len()
        invariant
            k <= items@.len(),
            ordered(items@, k as int, out@),
            out@.len() == k,
        decreases items.len() - k,
    {
        let ghost prev = out@;
        let v: Detected<F> = items[k];
        place_in(&mut out, v);
        proof {
            let pos = choose|pos: int| #[trigger] placed(prev, v, pos, out@);
            assert(placed(prev, items@[k + 1 - 1], pos, out@));
            assert(ordered(items@, k + 1, out@));
        }
        k += 1;
    }
    out
}

/// The comparison of scalars orders them: it has one outcome, it is transitive, and
/// so is its opposite.
pub open spec fn orders<F: Scalar>() -> bool {
    &&& forall|a: F, b: F| #![trigger lts(a, b, true)] !(lts(a, b, true) && lts(a, b, false))
    &&& forall|a: F, b: F| #[trigger] lts(a, b, true) ==> lts(b, a, false)
    &&& forall|a: F, b: F, c: F|
        #![trigger lts(b, a, false), lts(c, b, false)]
        lts(b, a, false) && lts(c, b, false) ==> lts(c, a, false)
    &&& forall|a: F| #[trigger] lts(a, a, false)
}

/// No item is less than one before it.
pub open spec fn ascending<F: Scalar>(v: Seq<Detected<F>>) -> bool {
    forall|i: int, j: int|
        #![trigger v[i], v[j]]
        0 <= i < j < v.len() ==> lts(v[j].ratio, v[i].ratio, false)
}

/// Where comparison orders the scalars, the events of a step are handled in the
/// order in which they occurred, and none is lost or made up.
pub proof fn law_events_in_order<F: Scalar>(
    items: Seq<Detected<F>>,
    k: int,
    out: Seq<Detected<F>>,
)
    requires
        orders::<F>(),
        0 <= k <= items.len(),
        ordered(items, k, out),
    ensures
        ascending(out),
        out.to_multiset() == items.take(k).to_multiset(),
    decreases k,
{
    broadcast use vstd::seq_lib::group_to_multiset_ensures;

    if k > 0 {
        let (prev, pos) = choose|prev: Seq<Detected<F>>, pos: int| #[trigger]
            placed(prev, items[k - 1], pos, out) && ordered(items, k - 1, prev);
        law_events_in_order(items, k - 1, prev);
        let v = items[k - 1];
        assert forall|i: int, j: int| 0 <= i < j < out.len() implies lts(
            #[trigger] out[j].ratio,
            #[trigger] out[i].ratio,
            false,
        ) by {
            if i < pos && j < pos {
                assert(out[i] == prev[i] && out[j] == prev[j]);
            } else if i > pos {
                assert(out[i] == prev[i - 1] && out[j] == prev[j - 1]);
            } else if i == pos {
                assert(out[i] == v && out[j] == prev[j - 1]);
                assert(lts(v.ratio, prev[j - 1].ratio, true));
            } else if j > pos {
                assert(out[i] == prev[i] && out[j] == prev[j - 1]);
            } else {
                assert(out[i] == prev[i] && out[j] == v);
                if i < pos - 1 {
                    assert(lts(prev[pos - 1].ratio, prev[i].ratio, false));
                }
                assert(lts(v.ratio, prev[pos - 1].ratio, false));
            }
        }
        assert(items.take(k) =~= items.take(k - 1).push(v));
        assert(out =~= prev.insert(pos, v));
        vstd::seq_lib::to_multiset_insert(prev, pos, v);
    } else {
        assert(out =~= items.take(0));
    }
}

/// Time at the fraction `ratio` of a step: `time + ratio * dt`.
pub open spec fn crossing<F>(time: F, ratio: F, dt: F) -> Term<F> {
    val(time).plus(val(ratio).times(val(dt)))
}

/// An event is resolved at the fraction of the step at which it occurred.
pub open spec fn crossed_one<F: Scalar>(
    d: Detected<F>,
    time: F,
    dt: F,
    at: F,
    a: Log<F>,
    b: Log<F>,
) -> bool {
    evaluates(crossing(time, d.ratio, dt), at) && b == a.push(Call::Resolve(d.event, at))
}

/// The events are resolved, each at the fraction of the step at which it occurred.
pub open spec fn crossing_step<F: Scalar>(found: Seq<Detected<F>>, time: F, dt: F) -> spec_fn(
    int,
    Log<F>,
    Log<F>,
) -> bool {
    |i: int, a: Log<F>, b: Log<F>|
        exists|at: F| #[trigger] crossed_one(found[i], time, dt, at, a, b)
}

/// The events are resolved at `t`.
pub open spec fn resolve_step<F>(found: Seq<Detected<F>>, t: F) -> spec_fn(
    int,
    Log<F>,
    Log<F>,
) -> bool {
    |i: int, a: Log<F>, b: Log<F>| b == a.push(Call::Resolve(found[i].event, t))
}

/// Event `i` is the first that was not hit closely enough.
pub open spec fn first_off<F>(found: Seq<Detected<F>>, i: int) -> bool {
    0 <= i < found.len() && !found[i].close && forall|j: int|
        0 <= j < i ==> (#[trigger] found[j]).close
}

/// All events were hit closely enough.
pub open spec fn all_close<F>(found: Seq<Detected<F>>) -> bool {
    forall|j: int| 0 <= j < found.len() ==> (#[trigger] found[j]).close
}

/// Whether events are resolved each at its own fraction of the step.
pub open spec fn at_crossings<F>(adaptive: bool, found: Seq<Detected<F>>) -> bool {
    !adaptive || !all_close(found)
}

fn first_not_close<F: Scalar>(found: &Vec<Detected<F>>) -> (r: Option<usize>)
    ensures
        match r {
            Some(i) => first_off(found@, i as int),
            None => all_close(found@),
        },
{
    let mut i: usize = 0;
    while i < found.len()
        invariant
            i <= found@.len(),
            forall|j: int| 0 <= j < i ==> (#[trigger] found@[j]).close,
        decreases found.len() - i,
    {
        if !found[i].close {
            return Some(i);
        }
        i += 1;
    }
    None
}

impl<F: Scalar, B: Backend<F>, R: Runtime<F>> Simulation<F, B, R> {
    /// The time until the next event, as the events estimate it: `list` are all
    /// events, which `m` had listed.
    pub open spec fn estimated_with(
        &self,
        t: F,
        list: Seq<u64>,
        m: Self,
        after: Self,
        r: Option<F>,
    ) -> bool {
        &&& self.events_listed(list, m)
        &&& chain(
            list.len() as int,
            estimate_step(list, t),
            (m.log(), None),
            (after.log(), r),
        )
        &&& after == (Simulation { driver: after.driver, ..*self })
    }

    /// The time until the next event, as the events estimate it.
    pub open spec fn estimated(&self, t: F, after: Self, r: Option<F>) -> bool {
        exists|list: Seq<u64>, m: Self| #[trigger] self.estimated_with(t, list, m, after, r)
    }

    /// The shortest positive estimate of the time until the next event.
    pub(crate) fn estimate_events(&mut self, t: F) -> (r: Option<F>)
        requires
            old(self).well_formed(),
        ensures
            old(self).estimated(t, *final(self), r),
            *final(self) == (Simulation { driver: final(self).driver, ..*old(self) }),
    {
        let list: Vec<u64> = self.list_events();
        let ghost m = *self;
        let ghost step = estimate_step::<F>(list@, t);
        let mut nearest: Option<F> = None;
        let mut i: usize = 0;
        while i < list.len()
            invariant
                i <= list@.len(),
                *self == (Simulation { driver: self.driver, ..m }),
                step == estimate_step::<F>(list@, t),
                chain(i as int, step, (m.log(), None), (self.log(), nearest)),
            decreases list@.len() - i,
        {
            let ghost a = (self.log(), nearest);
            let event: u64 = list[i];
            if self.driver.event_active(event) {
                let est: Option<F> = self.driver.estimate(event, t);
                if let Some(d) = est {
                    let z: F = F::zero();
                    let positive: bool = z.below(d);
                    assert(lts(z, d, positive));
                    if positive {
                        nearest = match nearest {
                            Some(n) => Some(n.smaller(d)),
                            None => Some(d),
                        };
                    }
                }
                assert(nearer(a.1, est, nearest));
                assert(estimated_by(event, t, est, a, (self.log(), nearest)));
            }
            proof {
                let b = (self.log(), nearest);
                assert(estimates_one(event, t, a, b));
                assert(step(i as int, a, b));
                lemma_chain_push(i as int, step, (m.log(), None), a, b);
            }
            i += 1;
        }
        assert(old(self).estimated_with(t, list@, m, *self, nearest));
        nearest
    }

    /// The events that occurred up to `t`, in order: `list` are all events, which
    /// `m` had listed, and `items` those that occurred, as they were asked.
    pub open spec fn detected_with(
        &self,
        t: F,
        list: Seq<u64>,
        m: Self,
        items: Seq<Detected<F>>,
        after: Self,
        found: Seq<Detected<F>>,
    ) -> bool {
        &&& self.events_listed(list, m)
        &&& chain(
            list.len() as int,
            detect_step(list, t),
            (m.log(), Seq::empty()),
            (after.log(), items),
        )
        &&& ordered(items, items.len() as int, found)
        &&& found.len() == items.len()
        &&& after == (Simulation { driver: after.driver, ..*self })
    }

    /// `found` are the events that occurred up to `t`, in order.
    pub open spec fn detected(&self, t: F, after: Self, found: Seq<Detected<F>>) -> bool {
        exists|list: Seq<u64>, m: Self, items: Seq<Detected<F>>| #[trigger]
            self.detected_with(t, list, m, items, after, found)
    }

    /// The events that occurred up to `t`, in order.
    pub(crate) fn detect_events(&mut self, t: F) -> (found: Vec<Detected<F>>)
        requires
            old(self).well_formed(),
        ensures
            old(self).detected(t, *final(self), found@),
            *final(self) == (Simulation { driver: final(self).driver, ..*old(self) }),
    {
        let list: Vec<u64> = self.list_events();
        let ghost m = *self;
        let ghost start = (m.log(), Seq::<Detected<F>>::empty());
        let ghost step = detect_step::<F>(list@, t);
        let mut items: Vec<Detected<F>> = Vec::new();
        let mut i: usize = 0;
        while i < list.len()
            invariant
                i <= list@.len(),
                *self == (Simulation { driver: self.driver, ..m }),
                step == detect_step::<F>(list@, t),
                chain(i as int, step, start, (self.log(), items@)),
            decreases list@.len() - i,
        {
            let ghost a = (self.log(), items@);
            let event: u64 = list[i];
            if self.driver.event_active(event) {
                let found: (bool, bool, F) = self.driver.detect(event, t);
                if found.0 {
                    items.push(Detected { event, close: found.1, ratio: found.2 });
                }
                assert((self.log(), items@) == detected_by(event, t, found, a));
            }
            proof {
                let b = (self.log(), items@);
                assert(detects_one(event, t, a, b));
                assert(step(i as int, a, b));
                lemma_chain_push(i as int, step, start, a, b);
            }
            i += 1;
        }
        let found: Vec<Detected<F>> = in_order(&items);
        assert(old(self).detected_with(t, list@, m, items@, *self, found@));
        found
    }

    /// An event is resolved at `t`, up to `m`; then the system is evaluated.
    pub open spec fn initial_one(&self, event: u64, t: F, m: Self, after: Self) -> bool {
        &&& m.log() == self.log().push(Call::Resolve(event, t))
        &&& m == (Simulation { driver: m.driver, ..*self })
        &&& m.updated(t, after)
    }

    /// The events are resolved in order, each followed by an evaluation.
    pub open spec fn initial_step(found: Seq<Detected<F>>, t: F) -> spec_fn(
        int,
        Self,
        Self,
    ) -> bool {
        |i: int, a: Self, b: Self|
            exists|m: Self| #[trigger] a.initial_one(found[i].event, t, m, b)
    }

    /// A request to stop, if there is one, ends the run.
    pub open spec fn stop_taken(&self, stop: bool, after: Self) -> bool {
        &&& after.log() == self.log().push(Call::TakeStop(stop))
        &&& after == (Simulation {
            active: self.active && !stop,
            driver: after.driver,
            ..*self
        })
    }

    pub(crate) fn observe_stop(&mut self)
        ensures
            exists|stop: bool| #[trigger] old(self).stop_taken(stop, *final(self)),
    {
        let stop: bool = self.driver.take_stop();
        if stop {
            self.active = false;
        }
        assert(old(self).stop_taken(stop, *self));
    }

    /// The events that have occurred at the start of a run are resolved: they are
    /// found, in `m`, then resolved in order, up to `n`; then a request to stop is
    /// observed.
    pub open spec fn initial_with(
        &self,
        found: Seq<Detected<F>>,
        m: Self,
        n: Self,
        stop: bool,
        after: Self,
    ) -> bool {
        &&& self.detected(self.time, m, found)
        &&& chain(found.len() as int, Self::initial_step(found, self.time), m, n)
        &&& n.stop_taken(stop, after)
    }

    /// The events that have occurred at the start of a run are resolved.
    pub open spec fn initial_resolved(&self, after: Self) -> bool {
        exists|found: Seq<Detected<F>>, m: Self, n: Self, stop: bool| #[trigger]
            self.initial_with(found, m, n, stop, after)
    }

    /// Resolves the events that have occurred at the start of a run.
    pub(crate) fn resolve_initial_events(&mut self)
        requires
            old(self).well_formed(),
        ensures
            old(self).initial_resolved(*final(self)),
            final(self).well_formed(),
            old(self).same_but_evaluation(*final(self)),
    {
        let t: F = self.time;
        let found: Vec<Detected<F>> = self.detect_events(t);
        let ghost m = *self;
        let ghost step = Self::initial_step(found@, t);
        let mut i: usize = 0;
        while i < found.len()
            invariant
                i <= found@.len(),
                self.well_formed(),
                m.same_but_evaluation(*self),
                step == Self::initial_step(found@, t),
                chain(i as int, step, m, *self),
            decreases found@.len() - i,
        {
            let ghost a = *self;
            self.driver.resolve(found[i].event, t);
            let ghost mid = *self;
            self.update(t);
            proof {
                assert(a.initial_one(found@[i as int].event, t, mid, *self));
                assert(step(i as int, a, *self));
                lemma_chain_push(i as int, step, m, a, *self);
            }
            i += 1;
        }
        let ghost n = *self;
        self.observe_stop();
        proof {
            let stop = choose|stop: bool| #[trigger] n.stop_taken(stop, *self);
            assert(old(self).initial_with(found@, m, n, stop, *self));
        }
    }

    /// How the events of a step are resolved: each at its fraction of the step, or
    /// all at its end.
    pub open spec fn actions(
        &self,
        found: Seq<Detected<F>>,
        t_end: F,
        dt: F,
        at_crossings: bool,
        after: Self,
    ) -> bool {
        &&& chain(
            found.len() as int,
            if at_crossings {
                crossing_step(found, self.time, dt)
            } else {
                resolve_step(found, t_end)
            },
            self.log(),
            after.log(),
        )
        &&& after == (Simulation { driver: after.driver, ..*self })
    }

    fn act(&mut self, found: &Vec<Detected<F>>, t_end: F, dt: F, at_crossings: bool)
        ensures
            old(self).actions(found@, t_end, dt, at_crossings, *final(self)),
    {
        let ghost start = self.log();
        let time: F = self.time;
        let ghost step = if at_crossings {
            crossing_step::<F>(found@, time, dt)
        } else {
            resolve_step::<F>(found@, t_end)
        };
        let mut i: usize = 0;
        while i < found.len()
            invariant
                i <= found@.len(),
                time == old(self).time,
                *self == (Simulation { driver: self.driver, ..*old(self) }),
                step == if at_crossings {
                    crossing_step::<F>(found@, time, dt)
                } else {
                    resolve_step::<F>(found@, t_end)
                },
                chain(i as int, step, start, self.log()),
            decreases found@.len() - i,
        {
            let ghost a = self.log();
            let d: Detected<F> = found[i];
            if at_crossings {
                let at: F = Num::of(time).plus(Num::of(d.ratio).times(Num::of(dt))).value;
                self.driver.resolve(d.event, at);
                assert(crossed_one(found@[i as int], time, dt, at, a, self.log()));
            } else {
                self.driver.resolve(d.event, t_end);
            }
            proof {
                assert(step(i as int, a, self.log()));
                lemma_chain_push(i as int, step, start, a, self.log());
            }
            i += 1;
        }
    }

    /// The events of a step, `found`, are resolved: the actions are performed, up to
    /// `m`, then the system is evaluated at its end.
    pub open spec fn resolved_with(
        &self,
        found: Seq<Detected<F>>,
        t_end: F,
        dt: F,
        at_crossings: bool,
        m: Self,
        after: Self,
    ) -> bool {
        &&& self.actions(found, t_end, dt, at_crossings, m)
        &&& m.updated(t_end, after)
    }

    /// What is done about the events `found` of a step that ends at `t_end`. With an
    /// adaptive engine, an event that was not hit closely enough has the step taken
    /// back, and the result tells at which fraction it occurred; unless the step is
    /// to be kept, as one that cannot be made any shorter. Otherwise all events are
    /// resolved: at the end of the step where all were hit closely enough by an
    /// adaptive engine, and each at its own fraction where not.
    pub open spec fn events_handled(
        &self,
        found: Seq<Detected<F>>,
        t_end: F,
        dt: F,
        adaptive: bool,
        keep: bool,
        after: Self,
        r: Option<F>,
    ) -> bool {
        if found.len() == 0 {
            after == *self && r is None
        } else if adaptive && !keep && !all_close(found) {
            self.reverted(self.time, after) && exists|i: int| #[trigger]
                first_off(found, i) && r == Some(found[i].ratio)
        } else {
            r is None && exists|m: Self| #[trigger]
                self.resolved_with(found, t_end, dt, at_crossings(adaptive, found), m, after)
        }
    }

    /// The events of a step that ends at `t_end` are found, in `m`, and handled.
    pub open spec fn events_resolved(
        &self,
        t_end: F,
        dt: F,
        adaptive: bool,
        keep: bool,
        found: Seq<Detected<F>>,
        m: Self,
        after: Self,
        r: Option<F>,
    ) -> bool {
        &&& self.detected(t_end, m, found)
        &&& m.events_handled(found, t_end, dt, adaptive, keep, after, r)
    }

    /// Number of evaluations that resolving events takes.
    pub open spec fn resolve_evals(found: Seq<Detected<F>>, r: Option<F>, evals: usize) -> usize {
        if found.len() > 0 && r is None {
            capped(evals, 1)
        } else {
            evals
        }
    }

    /// The events of a step that ends at `t_end` are found and handled. `r` is the
    /// fraction at which to end the step instead, if it was taken back, and `total`
    /// the number of evaluations, from `evals` on.
    pub open spec fn events_end(
        &self,
        t_end: F,
        dt: F,
        adaptive: bool,
        keep: bool,
        evals: usize,
        after: Self,
        r: Option<F>,
        total: usize,
    ) -> bool {
        exists|found: Seq<Detected<F>>, m: Self| #[trigger]
            self.events_resolved(t_end, dt, adaptive, keep, found, m, after, r) && total
                == Self::resolve_evals(found, r, evals)
    }

    /// Resolves the events of a step that ends at `t_end`, or takes the step back
    /// and returns the fraction at which to end it instead. The second result is the
    /// number of evaluations so far.
    pub(crate) fn resolve_events(
        &mut self,
        t_end: F,
        dt: F,
        adaptive: bool,
        keep: bool,
        evals: usize,
    ) -> (r: (Option<F>, usize))
        requires
            old(self).well_formed(),
        ensures
            old(self).events_end(t_end, dt, adaptive, keep, evals, *final(self), r.0, r.1),
            final(self).well_formed(),
            old(self).same_but_evaluation(*final(self)),
    {
        let found: Vec<Detected<F>> = self.detect_events(t_end);
        let ghost m = *self;
        if found.len() == 0 {
            assert(old(self).events_resolved(
                t_end,
                dt,
                adaptive,
                keep,
                found@,
                m,
                *self,
                None,
            ));
            assert(old(self).events_end(t_end, dt, adaptive, keep, evals, *self, None, evals));
            return (None, evals);
        }
        let off: Option<usize> = first_not_close(&found);
        if adaptive && !keep {
            if let Some(i) = off {
                let ratio: F = found[i].ratio;
                let time: F = self.time;
                self.revert(time);
                proof {
                    assert(!all_close(found@)) by {
                        assert(!found@[i as int].close);
                    }
                    assert(first_off(found@, i as int));
                    assert(old(self).events_resolved(
                        t_end,
                        dt,
                        adaptive,
                        keep,
                        found@,
                        m,
                        *self,
                        Some(ratio),
                    ));
                    assert(old(self).events_end(
                        t_end,
                        dt,
                        adaptive,
                        keep,
                        evals,
                        *self,
                        Some(ratio),
                        evals,
                    ));
                }
                return (Some(ratio), evals);
            }
        }
        let split: bool = !adaptive || off.is_some();
        proof {
            if let Some(i) = off {
                assert(!found@[i as int].close);
            }
            assert(split == at_crossings(adaptive, found@));
        }
        self.act(&found, t_end, dt, split);
        let ghost n = *self;
        self.update(t_end);
        proof {
            assert(m.resolved_with(found@, t_end, dt, at_crossings(adaptive, found@), n, *self));
            assert(old(self).events_resolved(
                t_end,
                dt,
                adaptive,
                keep,
                found@,
                m,
                *self,
                None,
            ));
            assert(old(self).events_end(
                t_end,
                dt,
                adaptive,
                keep,
                evals,
                *self,
                None,
                capped(evals, 1),
            ));
        }
        (None, add_capped(evals, 1))
    }
}

} // verus!
