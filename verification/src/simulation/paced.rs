//! Runs that report at a rate, and runs in step with the wall clock.

use vstd::prelude::*;

use crate::expr::{evaluates, val, Num};
use crate::optim::linsolve::Backend;
use crate::scalar::{divs, lts, mins, ones, zeros, Scalar};
use crate::simulation::chain::{chain, lemma_chain_push};
use crate::simulation::run::{clamp, clamped, count_step, Running};
use crate::simulation::runtime::{Call, Runtime};
use crate::simulation::state::{Log, Outcome, RunStats, Simulation};
use crate::simulation::timestep::{step_end, Progress};

verus! {

/// Start and duration of a run, and the interval of its reports.
#[derive(Debug, Clone, Copy)]
pub struct Span<F> {
    pub start: F,
    pub duration: F,
    pub interval: F,
}

/// `p` is the part of the span that is over at `time`, between zero and one.
pub open spec fn part_done<F: Scalar>(time: F, span: Span<F>, p: F) -> bool {
    exists|raw: F, low: F, high: F| #[trigger]
        clamped(raw, low, high, p) && zeros(low) && ones(high) && evaluates(
            val(time).minus(val(span.start)).over(val(span.duration)),
            raw,
        )
}

/// The log after a report, if one is due.
pub open spec fn reported<F: Scalar>(
    time: F,
    span: Span<F>,
    success: bool,
    dt: F,
    a: Log<F>,
    b: Log<F>,
) -> bool {
    ||| b == a.push(Call::TickDue(span.interval, false))
    ||| exists|p: F| #[trigger]
        part_done(time, span, p) && b == a.push(Call::TickDue(span.interval, true)).push(
            Call::Report(p, success, dt),
        )
}

/// The simulations and values that a reporting run passes through.
pub struct Stream<S, F> {
    pub started: S,
    pub asked: S,
    pub pace: bool,
    pub end: F,
    pub one: F,
    pub span: Span<F>,
    pub cleared: S,
    pub timed: S,
    pub opened: S,
    pub blank: RunStats<F>,
    pub last: Running<S, F>,
    pub steps: int,
}

impl<F: Scalar, B: Backend<F>, R: Runtime<F>> Simulation<F, B, R> {
    /// A report was made, if one was due.
    pub open spec fn ticked(&self, span: Span<F>, success: bool, dt: F, after: Self) -> bool {
        &&& reported(self.time, span, success, dt, self.log(), after.log())
        &&& after == (Simulation { driver: after.driver, ..*self })
    }

    fn tick(&mut self, span: Span<F>, success: bool, dt: F)
        ensures
            old(self).ticked(span, success, dt, *final(self)),
    {
        let ghost a = self.log();
        if self.driver.tick_due(span.interval) {
            let raw: F = Num::of(self.time).minus(Num::of(span.start)).over(
                Num::of(span.duration),
            ).value;
            let low: F = F::zero();
            let high: F = F::one();
            let p: F = clamp(raw, low, high);
            assert(part_done(self.time, span, p));
            self.driver.report(p, success, dt);
        }
        assert(reported(self.time, span, success, dt, a, self.log()));
    }

    /// A step of a reporting run: a step up to `r`, and a report if one is due.
    pub open spec fn streams_with(
        span: Span<F>,
        end: F,
        pace: bool,
        a: Running<Self, F>,
        m: Self,
        q: Progress<F>,
        r: Running<Self, F>,
        b: Running<Self, F>,
    ) -> bool {
        &&& Self::run_one(a, end, pace, m, q, r)
        &&& r.sim.ticked(span, q.success, r.dt, b.sim)
        &&& b.dt == r.dt
        &&& b.stats == r.stats
    }

    /// Steps of a reporting run that goes on.
    pub open spec fn stream_step(span: Span<F>, end: F, pace: bool) -> spec_fn(
        int,
        Running<Self, F>,
        Running<Self, F>,
    ) -> bool {
        |i: int, a: Running<Self, F>, b: Running<Self, F>|
            Self::goes_on(a, end) && exists|m: Self, q: Progress<F>, r: Running<Self, F>|
                #[trigger] Self::streams_with(span, end, pace, a, m, q, r, b)
    }

    /// What both kinds of run begin with: a start, a clean outcome, the clocks, and an
    /// evaluation.
    pub open spec fn stream_opened(
        &self,
        duration: F,
        reset: bool,
        adaptive: bool,
        tickrate: F,
        c: Stream<Self, F>,
    ) -> bool {
        &&& self.started(reset, c.started)
        &&& c.started.paced(adaptive, c.asked, c.pace)
        &&& evaluates(step_end(c.started.time, duration), c.end)
        &&& c.span.start == c.started.time
        &&& c.span.duration == duration
        &&& ones(c.one)
        &&& divs(c.one, tickrate, c.span.interval)
        &&& c.asked.cleared(c.cleared)
        &&& c.timed.log() == c.cleared.log().push(Call::StartClock)
        &&& c.timed == (Simulation { driver: c.timed.driver, ..c.cleared })
        &&& c.timed.opened(self.dt, c.opened)
        &&& c.blank.blank()
    }

    /// What both kinds of run end with: a report that all is done.
    pub open spec fn stream_closed(c: Stream<Self, F>, after: Self) -> bool {
        &&& exists|one: F| #[trigger]
            ones(one) && after.log() == c.last.sim.log().push(Call::Report(one, true, c.last.dt))
        &&& after == (Simulation { driver: after.driver, ..c.last.sim })
    }

    /// A reporting run, by way of `c`.
    pub open spec fn streamed_with(
        &self,
        duration: F,
        reset: bool,
        adaptive: bool,
        tickrate: F,
        c: Stream<Self, F>,
        after: Self,
    ) -> bool {
        &&& self.stream_opened(duration, reset, adaptive, tickrate, c)
        &&& 0 <= c.steps
        &&& chain(
            c.steps,
            Self::stream_step(c.span, c.end, c.pace),
            c.opened.running(self.dt, c.blank),
            c.last,
        )
        &&& Self::is_over(c.last, c.end)
        &&& Self::stream_closed(c, after)
    }

    fn open_stream(
        &mut self,
        duration: F,
        reset: bool,
        adaptive: bool,
        tickrate: F,
    ) -> (r: (bool, F, Span<F>, RunStats<F>, Ghost<Stream<Self, F>>))
        requires
            old(self).well_formed(),
        ensures
            final(self).well_formed(),
            final(self).dt == old(self).dt,
            old(self).stream_opened(duration, reset, adaptive, tickrate, r.4@),
            r.4@.pace == r.0,
            r.4@.end == r.1,
            r.4@.span == r.2,
            r.4@.blank == r.3,
            r.4@.opened == *final(self),
    {
        self.start(reset);
        let ghost started = *self;
        let pace: bool = self.pace(adaptive);
        let ghost asked = *self;
        let start: F = self.time;
        let end: F = Num::of(start).plus(Num::of(duration)).value;
        let dt: F = self.dt;
        let one: F = F::one();
        let interval: F = one.over(tickrate);
        let span: Span<F> = Span { start, duration, interval };
        self.outcome = Outcome::new();
        let ghost cleared = *self;
        self.driver.start_clock();
        let ghost timed = *self;
        self.open_run(dt);
        let blank: RunStats<F> = RunStats::default();
        let ghost c = Stream {
            started,
            asked,
            pace,
            end,
            one,
            span,
            cleared,
            timed,
            opened: *self,
            blank,
            last: self.running(dt, blank),
            steps: 0,
        };
        (pace, end, span, blank, Ghost(c))
    }

    /// Runs for a duration and reports at most `tickrate` times a second, and at the
    /// end.
    pub fn run_streaming(&mut self, duration: F, reset: bool, adaptive: bool, tickrate: F)
        requires
            old(self).well_formed(),
        ensures
            exists|c: Stream<Self, F>| #[trigger]
                old(self).streamed_with(duration, reset, adaptive, tickrate, c, *final(self)),
            final(self).well_formed(),
    {
        let (pace, end, span, blank, Ghost(c)) = self.open_stream(
            duration,
            reset,
            adaptive,
            tickrate,
        );
        let mut d: F = self.dt;
        let mut s: RunStats<F> = blank;
        let ghost start = self.running(d, s);
        let ghost step = Self::stream_step(span, end, pace);
        let ghost mut k: int = 0;
        let mut over: bool = false;
        while s.total_steps < usize::MAX && !over
            invariant
                0 <= k,
                self.well_formed(),
                step == Self::stream_step(span, end, pace),
                chain(k, step, start, self.running(d, s)),
                over ==> Self::is_over(self.running(d, s), end),
            decreases
                    usize::MAX - s.total_steps + if over {
                        0int
                    } else {
                        1
                    },
        {
            let before: bool = self.time.below(end);
            assert(lts(self.time, end, before));
            if !before || !self.active {
                over = true;
            } else {
                let ghost a = self.running(d, s);
                let q: Progress<F> = self.make_step(Some(d), pace);
                let ghost m = *self;
                s = count_step(s, q);
                if pace {
                    d = self.advance_dt(d, q.error, q.scale, end);
                }
                let ghost r = self.running(d, s);
                self.tick(span, q.success, d);
                proof {
                    let b = self.running(d, s);
                    assert(Self::run_one(a, end, pace, m, q, r));
                    assert(Self::streams_with(span, end, pace, a, m, q, r, b));
                    assert(step(k, a, b));
                    lemma_chain_push(k, step, start, a, b);
                    k = k + 1;
                }
            }
        }
        let ghost last = self.running(d, s);
        let one: F = F::one();
        self.driver.report(one, true, d);
        proof {
            let done = Stream { last, steps: k, ..c };
            assert(ones(one) && self.log() == last.sim.log().push(Call::Report(one, true, d)));
            assert(old(self).streamed_with(duration, reset, adaptive, tickrate, done, *self));
        }
    }

    /// A pass of a run in step with the wall clock: the simulation is brought up to
    /// the time `limit` that the clock asks for, reports if a report is due, and
    /// waits.
    pub open spec fn keeps_step_with(
        span: Span<F>,
        speed: F,
        end: F,
        pace: bool,
        a: Running<Self, F>,
        wall: F,
        target: F,
        limit: F,
        asked: Self,
        m: Running<Self, F>,
        n: Self,
        b: Running<Self, F>,
    ) -> bool {
        &&& asked.log() == a.sim.log().push(Call::WallElapsed(wall))
        &&& asked == (Simulation { driver: asked.driver, ..a.sim })
        &&& evaluates(val(span.start).plus(val(wall).times(val(speed))), target)
        &&& mins(target, end, limit)
        &&& Self::runs(asked.running(a.dt, a.stats), limit, end, pace, m)
        &&& m.sim.ticked(span, true, m.dt, n)
        &&& b.sim.log() == n.log().push(Call::Pause)
        &&& b == (Running { sim: (Simulation { driver: b.sim.driver, ..n }), ..m })
    }

    /// Passes of a run in step with the wall clock, as long as it goes on.
    pub open spec fn realtime_step(span: Span<F>, speed: F, end: F, pace: bool) -> spec_fn(
        int,
        Running<Self, F>,
        Running<Self, F>,
    ) -> bool {
        |i: int, a: Running<Self, F>, b: Running<Self, F>|
            lts(a.sim.time, end, true) && a.sim.active && exists|
                wall: F,
                target: F,
                limit: F,
                asked: Self,
                m: Running<Self, F>,
                n: Self,
            | #[trigger]
                Self::keeps_step_with(span, speed, end, pace, a, wall, target, limit, asked, m, n, b)
    }

    /// A run in step with the wall clock, by way of `c`.
    pub open spec fn realtime_with(
        &self,
        duration: F,
        reset: bool,
        adaptive: bool,
        tickrate: F,
        speed: F,
        c: Stream<Self, F>,
        after: Self,
    ) -> bool {
        &&& self.stream_opened(duration, reset, adaptive, tickrate, c)
        &&& 0 <= c.steps <= usize::MAX
        &&& chain(
            c.steps,
            Self::realtime_step(c.span, speed, c.end, c.pace),
            c.opened.running(self.dt, c.blank),
            c.last,
        )
        &&& {
            ||| lts(c.last.sim.time, c.end, false)
            ||| !c.last.sim.active
            ||| c.steps == usize::MAX
        }
        &&& Self::stream_closed(c, after)
    }

    /// Runs for a duration in step with the wall clock, at the given speed; reports
    /// at most `tickrate` times a second, and at the end.
    pub fn run_realtime(
        &mut self,
        duration: F,
        reset: bool,
        adaptive: bool,
        tickrate: F,
        speed: F,
    )
        requires
            old(self).well_formed(),
        ensures
            exists|c: Stream<Self, F>| #[trigger]
                old(self).realtime_with(
                    duration,
                    reset,
                    adaptive,
                    tickrate,
                    speed,
                    c,
                    *final(self),
                ),
            final(self).well_formed(),
    {
        let (pace, end, span, blank, Ghost(c)) = self.open_stream(
            duration,
            reset,
            adaptive,
            tickrate,
        );
        let mut d: F = self.dt;
        let mut s: RunStats<F> = blank;
        let ghost start = self.running(d, s);
        let ghost step = Self::realtime_step(span, speed, end, pace);
        let mut k: usize = 0;
        let mut over: bool = false;
        while k < usize::MAX && !over
            invariant
                self.well_formed(),
                step == Self::realtime_step(span, speed, end, pace),
                chain(k as int, step, start, self.running(d, s)),
                over ==> lts(self.time, end, false) || !self.active,
            decreases
                    usize::MAX - k + if over {
                        0int
                    } else {
                        1
                    },
        {
            let before: bool = self.time.below(end);
            assert(lts(self.time, end, before));
            if !before || !self.active {
                over = true;
            } else {
                let ghost a = self.running(d, s);
                let wall: F = self.driver.wall_elapsed();
                let ghost asked = *self;
                let target: F = Num::of(span.start).plus(Num::of(wall).times(Num::of(speed))).value;
                let limit: F = target.smaller(end);
                let (d2, s2) = self.run_steps(limit, end, pace, d, s);
                d = d2;
                s = s2;
                let ghost m = self.running(d, s);
                self.tick(span, true, d);
                let ghost n = *self;
                self.driver.pause();
                proof {
                    let b = self.running(d, s);
                    assert(Self::keeps_step_with(
                        span,
                        speed,
                        end,
                        pace,
                        a,
                        wall,
                        target,
                        limit,
                        asked,
                        m,
                        n,
                        b,
                    ));
                    assert(step(k as int, a, b));
                    lemma_chain_push(k as int, step, start, a, b);
                }
                k += 1;
            }
        }
        let ghost last = self.running(d, s);
        let one: F = F::one();
        self.driver.report(one, true, d);
        proof {
            let done = Stream { last, steps: k as int, ..c };
            assert(ones(one) && self.log() == last.sim.log().push(Call::Report(one, true, d)));
            assert(old(self).realtime_with(
                duration,
                reset,
                adaptive,
                tickrate,
                speed,
                done,
                *self,
            ));
        }
    }
}

} // verus!
