//! Fixed-point accelerators.
//!
//! [`Anderson`] extrapolates from a short history of iterates and residuals.
//! [`Newton`] takes Newton steps, and [`NewtonAnderson`] one after the other.

use std::collections::VecDeque;

use vstd::prelude::*;

use crate::numeric::{all_finite, difference, differences, norm_is, vec_norm};
use crate::optim::linsolve::{Backend, LinearSolver};
use crate::optim::lstsq::{coefficients, contents, lstsq_solve};
use crate::scalar::{adds, divs, finites, les, lts, muls, ratios, subs, zeros, Scalar};
use crate::seqs::copied;
use crate::text::{decimal, joined, numbered};

verus! {

/// Default depth of the history.
pub const OPT_HISTORY: usize = 4;

/// Inverse of the smallest squared residual difference that a scalar
/// extrapolation divides by.
pub const TOLERANCE_INVERSE: u64 = 10_000_000_000_000_000;

/// Anderson acceleration of the fixed-point iteration `x = g(x)`.
pub struct Anderson<F: Scalar, B: Backend<F>> {
    /// Depth of the history.
    pub m: usize,
    /// Differences of successive iterates, oldest first.
    pub dx_buffer: VecDeque<Vec<F>>,
    /// Differences of successive residuals, oldest first.
    pub dr_buffer: VecDeque<Vec<F>>,
    /// Previous iterate and residual, unless the next call is the first.
    pub x_prev: Vec<F>,
    pub r_prev: Vec<F>,
    pub first_call: bool,
    /// Linear solver for steps on a residual.
    pub lin: LinearSolver<F, B>,
}

/// The history with `v` as its newest entry; the oldest leaves when it is full.
pub open spec fn rotated<T>(history: Seq<T>, m: int, v: T) -> Seq<T> {
    if history.len() >= m {
        history.drop_first().push(v)
    } else {
        history.push(v)
    }
}

/// The newest `m` entries of a history.
pub open spec fn newest<T>(history: Seq<T>, m: int) -> Seq<T> {
    if history.len() > m {
        history.skip(history.len() - m)
    } else {
        history
    }
}

/// `s` is the sum over the first `k` entries of the products of their leading
/// elements, in order.
pub open spec fn leading_products<F: Scalar>(
    a: Seq<Seq<F>>,
    b: Seq<Seq<F>>,
    k: int,
    s: F,
) -> bool
    decreases k,
{
    if k <= 0 {
        zeros(s)
    } else {
        exists|p: F, q: F| #[trigger]
            adds(p, q, s) && muls(a[k - 1][0], b[k - 1][0], q) && leading_products(a, b, k - 1, p)
    }
}

/// `out` is `x` less `res * dr_dx / dr2`.
pub open spec fn secant<F: Scalar>(x: F, res: F, dr_dx: F, dr2: F, out: F) -> bool {
    exists|p: F, step: F| #[trigger]
        divs(p, dr2, step) && muls(res, dr_dx, p) && subs(x, step, out)
}

/// The extrapolation in one dimension, by way of the sums `dr2` and `dr_dx` over
/// the history.
pub open spec fn scalar_extrapolated_with<F: Scalar>(
    dx: Seq<Seq<F>>,
    dr: Seq<Seq<F>>,
    res: F,
    x: Seq<F>,
    g: Seq<F>,
    dr2: F,
    dr_dx: F,
    tol: F,
    still: bool,
    out: Seq<F>,
) -> bool {
    &&& leading_products(dr, dr, dr.len() as int, dr2)
    &&& leading_products(dr, dx, dr.len() as int, dr_dx)
    &&& ratios(1, TOLERANCE_INVERSE, tol)
    &&& les(dr2, tol, still)
    &&& if still {
        out == g
    } else {
        out.len() == x.len() && secant(x[0], res, dr_dx, dr2, out[0])
    }
}

/// The extrapolation in one dimension: the least-norm coefficients are known in
/// closed form. Where the residual does not change, `out` is `g`.
pub open spec fn scalar_extrapolated<F: Scalar>(
    dx: Seq<Seq<F>>,
    dr: Seq<Seq<F>>,
    res: F,
    x: Seq<F>,
    g: Seq<F>,
    out: Seq<F>,
) -> bool {
    exists|dr2: F, dr_dx: F, tol: F, still: bool| #[trigger]
        scalar_extrapolated_with(dx, dr, res, x, g, dr2, dr_dx, tol, still, out)
}

/// `r` is `v - c * d`.
pub open spec fn reduced_entry<F: Scalar>(v: F, c: F, d: F, r: F) -> bool {
    exists|p: F| #[trigger] subs(v, p, r) && muls(c, d, p)
}

/// `after` is `before` less `c` times `d`.
pub open spec fn reduced_scaled<F: Scalar>(
    before: Seq<F>,
    c: F,
    d: Seq<F>,
    after: Seq<F>,
) -> bool {
    &&& after.len() == before.len()
    &&& forall|i: int|
        0 <= i < before.len() ==> reduced_entry(before[i], c, d[i], #[trigger] after[i])
}

/// `out` is `x` less the first `k` entries of `dx` times their coefficients, one
/// after the other.
pub open spec fn combined<F: Scalar>(
    x: Seq<F>,
    c: Seq<F>,
    dx: Seq<Seq<F>>,
    k: int,
    out: Seq<F>,
) -> bool
    decreases k,
{
    if k <= 0 {
        out == x
    } else {
        exists|prev: Seq<F>| #[trigger]
            reduced_scaled(prev, c[k - 1], dx[k - 1], out) && combined(x, c, dx, k - 1, prev)
    }
}

/// The extrapolation in more dimensions: by least squares, or `g` if a
/// coefficient is not finite.
pub open spec fn vector_extrapolated<F: Scalar, B: Backend<F>>(
    dx: Seq<Seq<F>>,
    dr: Seq<Seq<F>>,
    r: Seq<F>,
    x: Seq<F>,
    g: Seq<F>,
    out: Seq<F>,
) -> bool {
    exists|c: Seq<F>| #[trigger]
        coefficients::<F, B>(dr, r, x.len() as int, c) && {
            ||| (forall|j: int| 0 <= j < c.len() ==> finites(#[trigger] c[j], true)) && combined(
                x,
                c,
                dx,
                dx.len() as int,
                out,
            )
            ||| (exists|j: int| 0 <= j < c.len() && finites(#[trigger] c[j], false)) && out == g
        }
}

/// The extrapolation from a history that ends with the current differences.
pub open spec fn extrapolated<F: Scalar, B: Backend<F>>(
    dx: Seq<Seq<F>>,
    dr: Seq<Seq<F>>,
    r: Seq<F>,
    x: Seq<F>,
    g: Seq<F>,
    out: Seq<F>,
) -> bool {
    if x.len() == 1 {
        scalar_extrapolated(dx, dr, r[0], x, g, out)
    } else {
        vector_extrapolated::<F, B>(dx, dr, r, x, g, out)
    }
}

impl<F: Scalar, B: Backend<F>> Anderson<F, B> {
    /// Differences of iterates, oldest first.
    pub open spec fn dx(&self) -> Seq<Seq<F>> {
        contents(self.dx_buffer@)
    }

    /// Differences of residuals, oldest first.
    pub open spec fn dr(&self) -> Seq<Seq<F>> {
        contents(self.dr_buffer@)
    }

    /// Both histories are equally long, and no longer than the depth.
    pub open spec fn well_formed(&self) -> bool {
        &&& self.dx_buffer@.len() == self.dr_buffer@.len()
        &&& self.dx_buffer@.len() <= self.m
    }

    /// The history is usable in `n` dimensions.
    pub open spec fn spans(&self, n: int) -> bool {
        &&& forall|j: int|
            0 <= j < self.dx_buffer@.len() ==> (#[trigger] self.dx_buffer@[j])@.len() >= n
        &&& forall|j: int|
            0 <= j < self.dr_buffer@.len() ==> (#[trigger] self.dr_buffer@[j])@.len() >= n
    }

    /// The next step may be taken in `n` dimensions.
    pub open spec fn accepts(&self, n: int) -> bool {
        &&& self.well_formed()
        &&& self.m > 0 && !self.first_call ==> self.x_prev@.len() == n && self.r_prev@.len() == n
            && self.spans(n)
    }

    /// The history is empty, and the next call is the first.
    pub open spec fn cleared(&self) -> bool {
        self.dx_buffer@.len() == 0 && self.dr_buffer@.len() == 0 && self.first_call
    }

    /// Nothing but the history changed.
    pub open spec fn keeps(&self, after: Self) -> bool {
        after.m == self.m && after.lin == self.lin
    }

    /// `after` and `out` are what one step makes of the accelerator and of `x`,
    /// for the residual `r` and the differences `dx`, `dr`.
    pub open spec fn step_with(
        &self,
        x: Seq<F>,
        g: Seq<F>,
        r: Seq<F>,
        dx: Seq<F>,
        dr: Seq<F>,
        after: Self,
        out: Seq<F>,
    ) -> bool {
        let n = x.len() as int;
        &&& self.keeps(after)
        &&& if self.m == 0 {
            after == *self && out == g
        } else if self.first_call {
            &&& after.dx_buffer == self.dx_buffer && after.dr_buffer == self.dr_buffer
            &&& after.x_prev@ == x && after.r_prev@ == r && !after.first_call
            &&& out == g
        } else {
            &&& differences(x, self.x_prev@, n, dx)
            &&& differences(r, self.r_prev@, n, dr)
            &&& after.dx() == rotated(self.dx(), self.m as int, dx)
            &&& after.dr() == rotated(self.dr(), self.m as int, dr)
            &&& after.x_prev@ == x && after.r_prev@ == r && !after.first_call
            &&& extrapolated::<F, B>(after.dx(), after.dr(), r, x, g, out)
        }
    }

    /// One step on the iterate `x` with the evaluation `g`: `out` is the next
    /// iterate and `res` the norm of the residual `g - x`.
    pub open spec fn stepped(
        &self,
        x: Seq<F>,
        g: Seq<F>,
        after: Self,
        out: Seq<F>,
        res: F,
    ) -> bool {
        exists|r: Seq<F>, dx: Seq<F>, dr: Seq<F>| #[trigger]
            self.step_with(x, g, r, dx, dr, after, out) && differences(g, x, x.len() as int, r)
                && norm_is(r, res)
    }

    pub fn new(m: usize) -> (r: Self)
        ensures
            r.m == m,
            r.cleared(),
            r.well_formed(),
            r.lin.fresh() && r.lin.plain() && r.lin.shifted(),
    {
        Anderson {
            m,
            dx_buffer: VecDeque::new(),
            dr_buffer: VecDeque::new(),
            x_prev: Vec::new(),
            r_prev: Vec::new(),
            first_call: true,
            lin: LinearSolver::new(),
        }
    }

    /// An accelerator of the default depth.
    pub fn with_defaults() -> (r: Self)
        ensures
            r.m == OPT_HISTORY,
            r.cleared(),
            r.well_formed(),
            r.lin.fresh() && r.lin.plain() && r.lin.shifted(),
    {
        Self::new(OPT_HISTORY)
    }

    /// Forgets the history.
    pub fn reset(&mut self)
        ensures
            final(self).cleared(),
            final(self).well_formed(),
            old(self).keeps(*final(self)),
    {
        self.dx_buffer.clear();
        self.dr_buffer.clear();
        self.first_call = true;
    }

    /// Changes the depth of the history; entries beyond it leave, oldest first.
    pub fn set_m(&mut self, m: usize)
        requires
            old(self).well_formed(),
        ensures
            final(self).m == m,
            final(self).dx() == newest(old(self).dx(), m as int),
            final(self).dr() == newest(old(self).dr(), m as int),
            final(self).first_call,
            final(self).well_formed(),
            final(self).lin == old(self).lin,
    {
        self.m = m;
        truncate(&mut self.dx_buffer, m);
        truncate(&mut self.dr_buffer, m);
        self.first_call = true;
        assert(self.dx().len() == self.dx_buffer@.len() && self.dr().len() == self.dr_buffer@.len());
    }
}

fn all_reach<F>(history: &VecDeque<Vec<F>>, n: usize) -> (r: bool)
    ensures
        r <==> forall|j: int| 0 <= j < history@.len() ==> (#[trigger] history@[j])@.len() >= n,
{
    let mut j: usize = 0;
    while j < history.len()
        invariant
            j <= history@.len(),
            forall|k: int| 0 <= k < j ==> (#[trigger] history@[k])@.len() >= n,
        decreases history@.len() - j,
    {
        let entry: &Vec<F> = &history[j];
        if entry.len() < n {
            assert(history@[j as int]@.len() < n);
            return false;
        }
        j += 1;
    }
    true
}

impl<F: Scalar, B: Backend<F>> Anderson<F, B> {
    /// Whether the next step may be taken in `n` dimensions.
    pub fn takes(&self, n: usize) -> (r: bool)
        requires
            self.well_formed(),
        ensures
            r == self.accepts(n as int),
    {
        if self.m == 0 || self.first_call {
            return true;
        }
        self.x_prev.len() == n && self.r_prev.len() == n && all_reach(&self.dx_buffer, n)
            && all_reach(&self.dr_buffer, n)
    }
}

fn truncate<F>(history: &mut VecDeque<Vec<F>>, m: usize)
    ensures
        contents(final(history)@) == newest(contents(old(history)@), m as int),
        final(history)@.len() <= m,
{
    let ghost before = history@;
    assert(contents(before).skip(0) =~= contents(before));
    while history.len() > m
        invariant
            history@.len() <= before.len(),
            history@.len() >= m || history@.len() == before.len(),
            contents(history@) == contents(before).skip(before.len() - history@.len()),
        decreases history@.len(),
    {
        let ghost prior = history@;
        let _ = history.pop_front();
        assert(contents(history@) =~= contents(prior).skip(1));
        assert(contents(before).skip(before.len() - prior.len()).skip(1) =~= contents(before).skip(
            before.len() - history@.len(),
        ));
    }
}

fn rotate<F>(history: &mut VecDeque<Vec<F>>, m: usize, v: Vec<F>)
    requires
        m > 0,
        old(history)@.len() <= m,
    ensures
        contents(final(history)@) == rotated(contents(old(history)@), m as int, v@),
        final(history)@.len() == old(history)@.len() + 1 || final(history)@.len()
            == old(history)@.len(),
        final(history)@.len() <= m,
        final(history)@.len() > 0,
{
    let ghost before = history@;
    if history.len() >= m {
        let _ = history.pop_front();
        assert(contents(history@) =~= contents(before).drop_first());
    }
    let ghost shorter = history@;
    history.push_back(v);
    assert(contents(history@) =~= contents(shorter).push(v@));
}

fn sum_leading<F: Scalar>(a: &VecDeque<Vec<F>>, b: &VecDeque<Vec<F>>) -> (s: F)
    requires
        a@.len() == b@.len(),
        forall|j: int| 0 <= j < a@.len() ==> (#[trigger] a@[j])@.len() >= 1,
        forall|j: int| 0 <= j < b@.len() ==> (#[trigger] b@[j])@.len() >= 1,
    ensures
        leading_products(contents(a@), contents(b@), a@.len() as int, s),
{
    let mut s: F = F::zero();
    let mut k: usize = 0;
    while k < a.len()
        invariant
            k <= a@.len(),
            a@.len() == b@.len(),
            forall|j: int| 0 <= j < a@.len() ==> (#[trigger] a@[j])@.len() >= 1,
            forall|j: int| 0 <= j < b@.len() ==> (#[trigger] b@[j])@.len() >= 1,
            leading_products(contents(a@), contents(b@), k as int, s),
        decreases a@.len() - k,
    {
        assert(a@[k as int]@.len() >= 1 && b@[k as int]@.len() >= 1);
        let ak: &Vec<F> = &a[k];
        let bk: &Vec<F> = &b[k];
        let q: F = ak[0].times(bk[0]);
        let next: F = s.plus(q);
        assert(adds(s, q, next));
        assert(contents(a@)[k + 1 - 1][0] == ak@[0] && contents(b@)[k + 1 - 1][0] == bk@[0]);
        assert(leading_products(contents(a@), contents(b@), k + 1, next));
        s = next;
        k += 1;
    }
    s
}

fn overwrite<F: Scalar>(x: &mut Vec<F>, v: &Vec<F>)
    ensures
        final(x)@ == v@,
{
    *x = copied(v.as_slice());
}

fn reduce_scaled<F: Scalar>(x: &mut Vec<F>, c: F, d: &Vec<F>)
    requires
        d@.len() >= old(x)@.len(),
    ensures
        reduced_scaled(old(x)@, c, d@, final(x)@),
{
    let ghost before = x@;
    let mut i: usize = 0;
    while i < x.len()
        invariant
            i <= x@.len() == before.len(),
            d@.len() >= before.len(),
            forall|k: int| 0 <= k < i ==> reduced_entry(before[k], c, d@[k], #[trigger] x@[k]),
            forall|k: int| i <= k < before.len() ==> #[trigger] x@[k] == before[k],
        decreases x@.len() - i,
    {
        let p: F = c.times(d[i]);
        let v: F = x[i].minus(p);
        assert(subs(before[i as int], p, v));
        x.set(i, v);
        i += 1;
    }
}

fn combine<F: Scalar>(x: &mut Vec<F>, c: &Vec<F>, dx: &VecDeque<Vec<F>>)
    requires
        c@.len() == dx@.len(),
        forall|j: int| 0 <= j < dx@.len() ==> (#[trigger] dx@[j])@.len() >= old(x)@.len(),
    ensures
        combined(old(x)@, c@, contents(dx@), dx@.len() as int, final(x)@),
{
    let ghost before = x@;
    let mut k: usize = 0;
    while k < dx.len()
        invariant
            k <= dx@.len(),
            c@.len() == dx@.len(),
            x@.len() == before.len(),
            forall|j: int| 0 <= j < dx@.len() ==> (#[trigger] dx@[j])@.len() >= before.len(),
            combined(before, c@, contents(dx@), k as int, x@),
        decreases dx@.len() - k,
    {
        assert(dx@[k as int]@.len() >= before.len());
        let ghost prev = x@;
        let d: &Vec<F> = &dx[k];
        reduce_scaled(x, c[k], d);
        assert(contents(dx@)[k + 1 - 1] == d@ && c@[k + 1 - 1] == c@[k as int]);
        assert(reduced_scaled(prev, c@[k + 1 - 1], contents(dx@)[k + 1 - 1], x@));
        assert(combined(before, c@, contents(dx@), k + 1, x@));
        k += 1;
    }
}

fn scalar_extrapolate<F: Scalar>(
    x: &mut Vec<F>,
    g: &Vec<F>,
    res: F,
    dx: &VecDeque<Vec<F>>,
    dr: &VecDeque<Vec<F>>,
)
    requires
        old(x)@.len() == 1,
        dx@.len() == dr@.len(),
        forall|j: int| 0 <= j < dx@.len() ==> (#[trigger] dx@[j])@.len() >= 1,
        forall|j: int| 0 <= j < dr@.len() ==> (#[trigger] dr@[j])@.len() >= 1,
    ensures
        scalar_extrapolated(contents(dx@), contents(dr@), res, old(x)@, g@, final(x)@),
{
    let ghost before = x@;
    let dr2: F = sum_leading(dr, dr);
    let dr_dx: F = sum_leading(dr, dx);
    let tol: F = F::ratio(1, TOLERANCE_INVERSE);
    let still: bool = dr2.at_most(tol);
    if still {
        overwrite(x, g);
    } else {
        let p: F = res.times(dr_dx);
        let step: F = p.over(dr2);
        let v: F = x[0].minus(step);
        assert(divs(p, dr2, step));
        assert(secant(before[0], res, dr_dx, dr2, v));
        x.set(0, v);
    }
    assert(scalar_extrapolated_with(
        contents(dx@),
        contents(dr@),
        res,
        before,
        g@,
        dr2,
        dr_dx,
        tol,
        still,
        x@,
    ));
}

fn vector_extrapolate<F: Scalar, B: Backend<F>>(
    x: &mut Vec<F>,
    g: &Vec<F>,
    r: &Vec<F>,
    dx: &VecDeque<Vec<F>>,
    dr: &VecDeque<Vec<F>>,
)
    requires
        r@.len() == old(x)@.len(),
        dx@.len() == dr@.len(),
        forall|j: int| 0 <= j < dx@.len() ==> (#[trigger] dx@[j])@.len() >= old(x)@.len(),
        forall|j: int| 0 <= j < dr@.len() ==> (#[trigger] dr@[j])@.len() >= old(x)@.len(),
    ensures
        vector_extrapolated::<F, B>(
            contents(dx@),
            contents(dr@),
            r@,
            old(x)@,
            g@,
            final(x)@,
        ),
{
    let n: usize = x.len();
    let c: Vec<F> = lstsq_solve::<F, B>(dr, r, n);
    if !all_finite(c.as_slice()) {
        overwrite(x, g);
        return;
    }
    combine(x, &c, dx);
}

impl<F: Scalar, B: Backend<F>> Anderson<F, B> {
    /// One step on the iterate `x`, given the evaluation `g` of the fixed-point
    /// function. Returns the norm of the residual `g - x`.
    pub fn step(&mut self, x: &mut Vec<F>, g: &Vec<F>) -> (res: F)
        requires
            old(x)@.len() == g@.len(),
            old(self).accepts(old(x)@.len() as int),
        ensures
            old(self).stepped(old(x)@, g@, *final(self), final(x)@, res),
            final(x)@.len() == old(x)@.len(),
            final(self).well_formed(),
            old(self).m == 0 || old(self).spans(old(x)@.len() as int) ==> final(self).accepts(
                old(x)@.len() as int,
            ),
            old(self).spans(old(x)@.len() as int) ==> final(self).spans(old(x)@.len() as int),
    {
        let ghost start = x@;
        let ghost before = *self;
        let n: usize = x.len();
        let r: Vec<F> = difference(g.as_slice(), x.as_slice(), n);
        let res: F = vec_norm(r.as_slice());
        if self.m == 0 {
            overwrite(x, g);
            assert(before.step_with(start, g@, r@, r@, r@, *self, x@));
            return res;
        }
        if self.first_call {
            self.x_prev = copied(x.as_slice());
            self.r_prev = copied(r.as_slice());
            self.first_call = false;
            overwrite(x, g);
            assert(before.step_with(start, g@, r@, r@, r@, *self, x@));
            return res;
        }
        let dx: Vec<F> = difference(x.as_slice(), self.x_prev.as_slice(), n);
        let dr: Vec<F> = difference(r.as_slice(), self.r_prev.as_slice(), n);
        let ghost dx_seq = dx@;
        let ghost dr_seq = dr@;
        rotate(&mut self.dx_buffer, self.m, dx);
        rotate(&mut self.dr_buffer, self.m, dr);
        proof {
            assert forall|j: int| 0 <= j < self.dx_buffer@.len() implies (
            #[trigger] self.dx_buffer@[j])@.len() >= n by {
                assert(self.dx()[j] == self.dx_buffer@[j]@);
                lemma_rotated_spans(before.dx(), before.m as int, dx_seq, n as int);
                assert(before.dx().len() == before.dx_buffer@.len());
            }
            assert forall|j: int| 0 <= j < self.dr_buffer@.len() implies (
            #[trigger] self.dr_buffer@[j])@.len() >= n by {
                assert(self.dr()[j] == self.dr_buffer@[j]@);
                lemma_rotated_spans(before.dr(), before.m as int, dr_seq, n as int);
            }
            assert(self.dx().len() == rotated(before.dx(), before.m as int, dx_seq).len());
            assert(self.dr().len() == rotated(before.dr(), before.m as int, dr_seq).len());
        }
        self.x_prev = copied(x.as_slice());
        self.r_prev = copied(r.as_slice());
        if n == 1 {
            scalar_extrapolate(x, g, r[0], &self.dx_buffer, &self.dr_buffer);
        } else {
            vector_extrapolate::<F, B>(x, g, &r, &self.dx_buffer, &self.dr_buffer);
        }
        assert(before.step_with(start, g@, r@, dx_seq, dr_seq, *self, x@));
        proof {
            lemma_extrapolated_length::<F, B>(self.dx(), self.dr(), r@, start, g@, x@);
        }
        res
    }
}

proof fn lemma_rotated_spans<F>(history: Seq<Seq<F>>, m: int, v: Seq<F>, n: int)
    requires
        forall|j: int| 0 <= j < history.len() ==> (#[trigger] history[j]).len() >= n,
        v.len() >= n,
        m > 0,
    ensures
        forall|j: int|
            0 <= j < rotated(history, m, v).len() ==> (#[trigger] rotated(history, m, v)[j]).len()
                >= n,
{
}

proof fn lemma_combined_length<F: Scalar>(
    x: Seq<F>,
    c: Seq<F>,
    dx: Seq<Seq<F>>,
    k: int,
    out: Seq<F>,
)
    requires
        combined(x, c, dx, k, out),
    ensures
        out.len() == x.len(),
    decreases k,
{
    if k > 0 {
        let prev = choose|prev: Seq<F>| #[trigger]
            reduced_scaled(prev, c[k - 1], dx[k - 1], out) && combined(x, c, dx, k - 1, prev);
        lemma_combined_length(x, c, dx, k - 1, prev);
    }
}

proof fn lemma_extrapolated_length<F: Scalar, B: Backend<F>>(
    dx: Seq<Seq<F>>,
    dr: Seq<Seq<F>>,
    r: Seq<F>,
    x: Seq<F>,
    g: Seq<F>,
    out: Seq<F>,
)
    requires
        extrapolated::<F, B>(dx, dr, r, x, g, out),
        g.len() == x.len(),
    ensures
        out.len() == x.len(),
{
    if x.len() != 1 && out != g {
        let c = choose|c: Seq<F>| #[trigger]
            coefficients::<F, B>(dr, r, x.len() as int, c) && combined(
                x,
                c,
                dx,
                dx.len() as int,
                out,
            );
        lemma_combined_length(x, c, dx, dx.len() as int, out);
    }
}

/// `g` is `f + x`, elementwise.
pub open spec fn shifted_by<F: Scalar>(f: Seq<F>, x: Seq<F>, g: Seq<F>) -> bool {
    &&& g.len() == x.len()
    &&& forall|i: int| 0 <= i < x.len() ==> adds(f[i], x[i], #[trigger] g[i])
}

/// `f` may be what `func` returns for `x`.
pub open spec fn evaluates<F, G: Fn(&Vec<F>) -> Vec<F>>(func: G, x: Seq<F>, f: Seq<F>) -> bool {
    exists|v: Vec<F>, y: Vec<F>| #[trigger] call_ensures(func, (&v,), y) && v@ == x && y@ == f
}

/// One round of the search for a root of `func`: a step on the fixed point of
/// `func(x) + x`.
pub open spec fn round<F: Scalar, B: Backend<F>, G: Fn(&Vec<F>) -> Vec<F>>(
    func: G,
    before: Anderson<F, B>,
    x: Seq<F>,
    after: Anderson<F, B>,
    out: Seq<F>,
    res: F,
) -> bool {
    exists|f: Seq<F>, g: Seq<F>| #[trigger]
        shifted_by(f, x, g) && evaluates(func, x, f) && before.stepped(x, g, after, out, res)
}

/// `after` and `out` are reached in `k` rounds, none of which met the tolerance.
pub open spec fn rounds<F: Scalar, B: Backend<F>, G: Fn(&Vec<F>) -> Vec<F>>(
    func: G,
    tolerance: F,
    before: Anderson<F, B>,
    x0: Seq<F>,
    k: int,
    after: Anderson<F, B>,
    out: Seq<F>,
) -> bool
    decreases k,
{
    if k <= 0 {
        after == before && out == x0
    } else {
        exists|mid: Anderson<F, B>, x: Seq<F>, res: F| #[trigger]
            round(func, mid, x, after, out, res) && lts(res, tolerance, false) && rounds(
                func,
                tolerance,
                before,
                x0,
                k - 1,
                mid,
                x,
            )
    }
}

/// Round `k` met the tolerance, the ones before it did not.
pub open spec fn met_in_round<F: Scalar, B: Backend<F>, G: Fn(&Vec<F>) -> Vec<F>>(
    func: G,
    tolerance: F,
    before: Anderson<F, B>,
    x0: Seq<F>,
    k: int,
    after: Anderson<F, B>,
    out: Seq<F>,
    res: F,
) -> bool {
    exists|mid: Anderson<F, B>, x: Seq<F>| #[trigger]
        round(func, mid, x, after, out, res) && lts(res, tolerance, true) && rounds(
            func,
            tolerance,
            before,
            x0,
            k,
            mid,
            x,
        )
}

/// No round out of `k` met the tolerance.
pub open spec fn unmet<F: Scalar, B: Backend<F>, G: Fn(&Vec<F>) -> Vec<F>>(
    func: G,
    tolerance: F,
    before: Anderson<F, B>,
    x0: Seq<F>,
    k: int,
    after: Anderson<F, B>,
) -> bool {
    exists|x: Seq<F>| rounds(func, tolerance, before, x0, k, after, x)
}

fn shift_by<F: Scalar>(f: &Vec<F>, x: &Vec<F>) -> (g: Vec<F>)
    requires
        f@.len() >= x@.len(),
    ensures
        shifted_by(f@, x@, g@),
{
    let mut g: Vec<F> = Vec::with_capacity(x.len());
    let mut i: usize = 0;
    while i < x.len()
        invariant
            i <= x@.len() <= f@.len(),
            g@.len() == i,
            forall|k: int| 0 <= k < i ==> adds(f@[k], x@[k], #[trigger] g@[k]),
        decreases x.len() - i,
    {
        g.push(f[i].plus(x[i]));
        i += 1;
    }
    g
}

impl<F: Scalar, B: Backend<F>> Anderson<F, B> {
    /// Searches for a root of `func` from `x0` on. Returns the root, the norm of
    /// its residual and the number of the round that met the tolerance, or the
    /// message that none did.
    pub fn solve<G: Fn(&Vec<F>) -> Vec<F>>(
        &mut self,
        func: G,
        x0: &Vec<F>,
        iterations_max: usize,
        tolerance: F,
    ) -> (r: Result<(Vec<F>, F, usize), String>)
        requires
            old(self).accepts(x0@.len() as int),
            old(self).spans(x0@.len() as int),
            forall|v: Vec<F>| v@.len() == x0@.len() ==> #[trigger] call_requires(func, (&v,)),
            forall|v: Vec<F>, y: Vec<F>|
                v@.len() == x0@.len() && #[trigger] call_ensures(func, (&v,), y) ==> y@.len()
                    >= v@.len(),
        ensures
            r matches Ok(found) ==> found.2 < iterations_max && met_in_round(
                func,
                tolerance,
                *old(self),
                x0@,
                found.2 as int,
                *final(self),
                found.0@,
                found.1,
            ),
            r matches Err(msg) ==> unmet(
                func,
                tolerance,
                *old(self),
                x0@,
                iterations_max as int,
                *final(self),
            ) && msg@ == "did not converge in "@ + decimal(iterations_max as nat) + " steps"@,
    {
        let ghost start = *self;
        let n: usize = x0.len();
        let mut x: Vec<F> = copied(x0.as_slice());
        let mut i: usize = 0;
        while i < iterations_max
            invariant
                i <= iterations_max,
                start == *old(self),
                n == x0@.len(),
                x@.len() == n,
                self.accepts(n as int),
                self.spans(n as int),
                forall|v: Vec<F>| v@.len() == x0@.len() ==> #[trigger] call_requires(func, (&v,)),
                forall|v: Vec<F>, y: Vec<F>|
                    v@.len() == x0@.len() && #[trigger] call_ensures(func, (&v,), y) ==> y@.len()
                        >= v@.len(),
                rounds(func, tolerance, start, x0@, i as int, *self, x@),
            decreases iterations_max - i,
        {
            let ghost mid = *self;
            let ghost prev = x@;
            let f: Vec<F> = func(&x);
            assert(evaluates(func, prev, f@));
            let g: Vec<F> = shift_by(&f, &x);
            let res: F = self.step(&mut x, &g);
            assert(shifted_by(f@, prev, g@));
            assert(round(func, mid, prev, *self, x@, res));
            let met: bool = res.below(tolerance);
            if met {
                return Ok((x, res, i));
            }
            assert(rounds(func, tolerance, start, x0@, i + 1, *self, x@));
            i += 1;
        }
        let mut msg: String = numbered("did not converge in ", iterations_max);
        msg = joined(msg.as_str(), " steps");
        Err(msg)
    }
}

/// The first step after a reset or a change of depth, and every step with depth
/// zero, is a plain fixed-point iteration.
pub proof fn law_first_step_is_plain<F: Scalar, B: Backend<F>>(
    before: Anderson<F, B>,
    x: Seq<F>,
    g: Seq<F>,
    after: Anderson<F, B>,
    out: Seq<F>,
    res: F,
)
    requires
        before.first_call || before.m == 0,
        before.stepped(x, g, after, out, res),
    ensures
        out == g,
        after.dx() == before.dx(),
        after.dr() == before.dr(),
{
}

impl<F: Scalar, B: Backend<F>> Anderson<F, B> {
    /// Both accelerators make the next steps from the same: depth, histories, and
    /// previous iterate and residual unless the next call is the first.
    pub open spec fn alike(&self, other: Self) -> bool {
        &&& self.m == other.m
        &&& self.dx() == other.dx()
        &&& self.dr() == other.dr()
        &&& self.first_call == other.first_call
        &&& !self.first_call ==> self.x_prev@ == other.x_prev@ && self.r_prev@ == other.r_prev@
    }

    /// Step `k` of those on the iterates and evaluations `given`, which lead to the next
    /// iterates and norms `found`.
    pub open spec fn walks_on(
        &self,
        given: Seq<(Seq<F>, Seq<F>)>,
        k: int,
        after: Self,
        found: Seq<(Seq<F>, F)>,
    ) -> bool {
        self.stepped(given[k].0, given[k].1, after, found[k].0, found[k].1)
    }

    /// The first `k` steps, on the iterates and evaluations `given`, lead to `after`
    /// with the next iterates and norms `found`.
    pub open spec fn walks(
        &self,
        given: Seq<(Seq<F>, Seq<F>)>,
        k: int,
        after: Self,
        found: Seq<(Seq<F>, F)>,
    ) -> bool
        decreases k,
    {
        if k <= 0 {
            after == *self
        } else {
            exists|mid: Self| #[trigger]
                mid.walks_on(given, k - 1, after, found) && self.walks(given, k - 1, mid, found)
        }
    }

    proof fn lemma_step_alike(
        &self,
        other: Self,
        x: Seq<F>,
        g: Seq<F>,
        after: Self,
        out: Seq<F>,
        res: F,
    ) -> (twin: Self)
        requires
            self.alike(other),
            self.stepped(x, g, after, out, res),
        ensures
            other.stepped(x, g, twin, out, res),
            after.alike(twin),
    {
        let (r, dx, dr) = choose|r: Seq<F>, dx: Seq<F>, dr: Seq<F>| #[trigger]
            self.step_with(x, g, r, dx, dr, after, out) && differences(g, x, x.len() as int, r)
                && norm_is(r, res);
        let twin = if self.m == 0 {
            other
        } else if self.first_call {
            Anderson {
                dx_buffer: other.dx_buffer,
                dr_buffer: other.dr_buffer,
                lin: other.lin,
                ..after
            }
        } else {
            Anderson { lin: other.lin, ..after }
        };
        assert(other.step_with(x, g, r, dx, dr, twin, out));
        twin
    }

    proof fn lemma_walk_alike(
        &self,
        other: Self,
        given: Seq<(Seq<F>, Seq<F>)>,
        k: int,
        after: Self,
        found: Seq<(Seq<F>, F)>,
    ) -> (twin: Self)
        requires
            self.alike(other),
            self.walks(given, k, after, found),
        ensures
            other.walks(given, k, twin, found),
            after.alike(twin),
        decreases k,
    {
        if k <= 0 {
            other
        } else {
            let mid = choose|mid: Self| #[trigger]
                mid.walks_on(given, k - 1, after, found) && self.walks(given, k - 1, mid, found);
            let twin_mid = self.lemma_walk_alike(other, given, k - 1, mid, found);
            let twin = mid.lemma_step_alike(
                twin_mid,
                given[k - 1].0,
                given[k - 1].1,
                after,
                found[k - 1].0,
                found[k - 1].1,
            );
            assert(twin_mid.walks_on(given, k - 1, twin, found));
            twin
        }
    }
}

/// After a reset an accelerator behaves as a fresh one: whatever steps one with an
/// empty history makes, any other of the same depth with an empty history makes too,
/// with the same iterates and the same norms, and both then go on alike.
pub proof fn law_reset_behaves_as_fresh<F: Scalar, B: Backend<F>>(
    reset: Anderson<F, B>,
    fresh: Anderson<F, B>,
    given: Seq<(Seq<F>, Seq<F>)>,
    k: int,
    after: Anderson<F, B>,
    found: Seq<(Seq<F>, F)>,
)
    requires
        reset.cleared(),
        fresh.cleared(),
        reset.m == fresh.m,
        reset.walks(given, k, after, found),
    ensures
        exists|twin: Anderson<F, B>| #[trigger]
            fresh.walks(given, k, twin, found) && after.alike(twin),
{
    assert(reset.dx() =~= fresh.dx());
    assert(reset.dr() =~= fresh.dr());
    let twin = reset.lemma_walk_alike(fresh, given, k, after, found);
    assert(fresh.walks(given, k, twin, found) && after.alike(twin));
}

} // verus!
