//! Acceleration of a connection that closes an algebraic loop.

use vstd::prelude::*;

use crate::optim::anderson::{Anderson, OPT_HISTORY};
use crate::optim::linsolve::Backend;
use crate::scalar::{adds, counts, divs, mags, muls, roots, subs, zeros, Scalar};
use crate::seqs::copied;

verus! {

/// Accelerates the values that a connection transfers. The values of the
/// connection's source are handed in; what is to be set at its targets is the
/// `history`.
pub struct ConnectionBooster<F: Scalar, B: Backend<F>> {
    /// Last accelerated values of the connection.
    pub history: Vec<F>,
    pub accelerator: Anderson<F, B>,
    /// Absolute and relative tolerance that residuals are weighed with.
    pub atol: F,
    pub rtol: F,
}

/// `scale` is `atol + rtol * |v|`.
pub open spec fn wrms_scaled<F: Scalar>(atol: F, rtol: F, v: F, scale: F) -> bool {
    exists|size: F, w: F| #[trigger]
        adds(atol, w, scale) && #[trigger] muls(rtol, size, w) && mags(v, size)
}

/// `atol + rtol * |v|`.
pub fn wrms_scale<F: Scalar>(atol: F, rtol: F, v: F) -> (scale: F)
    ensures
        wrms_scaled(atol, rtol, v, scale),
{
    let size: F = v.magnitude();
    let w: F = rtol.times(size);
    let scale: F = atol.plus(w);
    assert(adds(atol, w, scale) && muls(rtol, size, w));
    scale
}

/// `s` is `(c - h) / (atol + rtol * |h|)`.
pub open spec fn weighed<F: Scalar>(c: F, h: F, atol: F, rtol: F, s: F) -> bool {
    exists|d: F, scale: F| #[trigger]
        divs(d, scale, s) && subs(c, h, d) && wrms_scaled(atol, rtol, h, scale)
}

/// `sum` is the sum of the squares of the first `k` weighed differences, in order.
pub open spec fn weighed_squares<F: Scalar>(
    current: Seq<F>,
    history: Seq<F>,
    atol: F,
    rtol: F,
    k: int,
    sum: F,
) -> bool
    decreases k,
{
    if k <= 0 {
        zeros(sum)
    } else {
        exists|p: F, s: F, q: F| #[trigger]
            adds(p, q, sum) && #[trigger] muls(s, s, q) && weighed(
                current[k - 1],
                history[k - 1],
                atol,
                rtol,
                s,
            ) && weighed_squares(current, history, atol, rtol, k - 1, p)
    }
}

/// `r` is the square root of the mean `sum / n`.
pub open spec fn root_mean<F: Scalar>(sum: F, n: usize, r: F) -> bool {
    exists|count: F, mean: F| #[trigger]
        divs(sum, count, mean) && counts(n, count) && roots(mean, r)
}

/// `r` is the weighed root-mean-square distance of `current` from `history`.
pub open spec fn wrms_distance<F: Scalar>(
    current: Seq<F>,
    history: Seq<F>,
    atol: F,
    rtol: F,
    n: usize,
    r: F,
) -> bool {
    if n == 0 {
        zeros(r)
    } else {
        exists|sum: F| #[trigger]
            root_mean(sum, n, r) && weighed_squares(current, history, atol, rtol, n as int, sum)
    }
}

/// `out` is `v` cut or padded with zeros to `n` elements.
pub open spec fn resized<F: Scalar>(v: Seq<F>, n: int, out: Seq<F>) -> bool {
    &&& out.len() == n
    &&& forall|i: int|
        #![trigger out[i]]
        0 <= i < n ==> if i < v.len() {
            out[i] == v[i]
        } else {
            zeros(out[i])
        }
}

fn resize<F: Scalar>(v: &mut Vec<F>, n: usize)
    ensures
        resized(old(v)@, n as int, final(v)@),
{
    let ghost before = v@;
    while v.len() > n
        invariant
            v@ == before.take(v@.len() as int),
            v@.len() <= before.len(),
            v@.len() >= n || v@.len() == before.len(),
        decreases v@.len(),
    {
        let _ = v.pop();
        assert(v@ =~= before.take(v@.len() as int));
    }
    while v.len() < n
        invariant
            v@.len() <= n,
            v@.len() >= before.len() || v@.len() == n,
            forall|i: int|
                #![trigger v@[i]]
                0 <= i < v@.len() ==> if i < before.len() {
                    v@[i] == before[i]
                } else {
                    zeros(v@[i])
                },
        decreases n - v@.len(),
    {
        v.push(F::zero());
    }
}

fn distance<F: Scalar>(current: &Vec<F>, history: &Vec<F>, atol: F, rtol: F) -> (r: F)
    requires
        current@.len() == history@.len(),
    ensures
        wrms_distance(current@, history@, atol, rtol, current@.len() as usize, r),
{
    let n: usize = current.len();
    if n == 0 {
        return F::zero();
    }
    let mut sum: F = F::zero();
    let mut k: usize = 0;
    while k < n
        invariant
            k <= n,
            n == current@.len(),
            n == history@.len(),
            weighed_squares(current@, history@, atol, rtol, k as int, sum),
        decreases n - k,
    {
        let scale: F = wrms_scale(atol, rtol, history[k]);
        let d: F = current[k].minus(history[k]);
        let s: F = d.over(scale);
        assert(divs(d, scale, s));
        assert(weighed(current@[k + 1 - 1], history@[k + 1 - 1], atol, rtol, s));
        let q: F = s.times(s);
        let next: F = sum.plus(q);
        assert(adds(sum, q, next) && muls(s, s, q));
        assert(weighed_squares(current@, history@, atol, rtol, k + 1, next));
        sum = next;
        k += 1;
    }
    let count: F = F::from_count(n);
    let mean: F = sum.over(count);
    let r: F = mean.root();
    assert(divs(sum, count, mean));
    assert(root_mean(sum, n, r));
    r
}

impl<F: Scalar, B: Backend<F>> ConnectionBooster<F, B> {
    /// A booster for a connection whose source has the given values.
    pub fn new(values: Vec<F>, atol: F, rtol: F) -> (r: Self)
        ensures
            r.history@ == values@,
            r.accelerator.m == OPT_HISTORY,
            r.accelerator.cleared(),
            r.accelerator.well_formed(),
            r.atol == atol,
            r.rtol == rtol,
    {
        ConnectionBooster { history: values, accelerator: Anderson::with_defaults(), atol, rtol }
    }

    /// Forgets the acceleration and takes over the values of the source.
    pub fn reset(&mut self, values: &Vec<F>)
        ensures
            final(self).history@ == values@,
            final(self).accelerator.cleared(),
            final(self).accelerator.well_formed(),
            old(self).accelerator.keeps(final(self).accelerator),
            final(self).atol == old(self).atol,
            final(self).rtol == old(self).rtol,
    {
        self.accelerator.reset();
        self.history = copied(values.as_slice());
    }

    /// One accelerated transfer of the source's `values`, with the history cut or
    /// padded to `from`.
    pub open spec fn updated_from(
        &self,
        values: Seq<F>,
        from: Seq<F>,
        l2: F,
        after: Self,
        res: F,
    ) -> bool {
        &&& resized(self.history@, values.len() as int, from)
        &&& wrms_distance(values, from, self.atol, self.rtol, values.len() as usize, res)
        &&& self.accelerator.stepped(from, values, after.accelerator, after.history@, l2)
        &&& after.atol == self.atol && after.rtol == self.rtol
    }

    /// One accelerated transfer of the source's `values`: afterwards the history is
    /// what the targets are to be set to. Returns the distance of the values from
    /// the history before, weighed by the tolerances.
    pub fn update(&mut self, values: &Vec<F>) -> (res: F)
        requires
            old(self).accelerator.accepts(values@.len() as int),
        ensures
            exists|from: Seq<F>, l2: F| #[trigger]
                old(self).updated_from(values@, from, l2, *final(self), res),
            final(self).history@.len() == values@.len(),
            final(self).accelerator.well_formed(),
            old(self).accelerator.spans(values@.len() as int) ==> final(self).accelerator.accepts(
                values@.len() as int,
            ) && final(self).accelerator.spans(values@.len() as int),
    {
        if self.history.len() != values.len() {
            resize(&mut self.history, values.len());
        }
        let ghost from = self.history@;
        let res: F = distance(values, &self.history, self.atol, self.rtol);
        let l2: F = self.accelerator.step(&mut self.history, values);
        assert(old(self).updated_from(values@, from, l2, *self, res));
        res
    }
}

} // verus!
