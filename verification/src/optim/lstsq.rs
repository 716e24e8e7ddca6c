//! Least squares over a short history of residual differences.
//!
//! The coefficients come from a truncated pseudo-inverse: directions whose
//! singular value is negligible beside the largest one are dropped, so that
//! nearly equal differences do no harm.

use std::collections::VecDeque;

use vstd::prelude::*;

use crate::matrix::{lemma_earlier_place, place};
use crate::optim::linsolve::Backend;
use crate::scalar::{adds, counts, divs, lts, maxes, muls, ratios, zeros, Scalar};

verus! {

/// Inverse of the distance from one to the next larger double.
pub const EPSILON_INVERSE: u64 = 4_503_599_627_370_496;

/// The contents of a history of vectors.
pub open spec fn contents<F>(v: Seq<Vec<F>>) -> Seq<Seq<F>> {
    v.map_values(|e: Vec<F>| e@)
}

/// The smaller of two sizes.
pub open spec fn lesser(a: int, b: int) -> int {
    if a <= b {
        a
    } else {
        b
    }
}

/// The larger of two sizes.
pub open spec fn greater(a: int, b: int) -> int {
    if a >= b {
        a
    } else {
        b
    }
}

/// `m` is the `n` by `k` matrix whose columns are the history from `start` on.
pub open spec fn columns_are<F>(
    history: Seq<Seq<F>>,
    start: int,
    n: int,
    k: int,
    m: Seq<F>,
) -> bool {
    &&& m.len() == n * k
    &&& forall|i: int, j: int|
        #![trigger m[place(k, i, j)]]
        0 <= i < n && 0 <= j < k ==> m[place(k, i, j)] == history[start + j][i]
}

/// `svd` may be the decomposition of the `rows` by `cols` matrix `m`.
pub open spec fn decomposes<F, B: Backend<F>>(
    m: Seq<F>,
    rows: usize,
    cols: usize,
    svd: Option<B::Svd>,
) -> bool {
    exists|v: Vec<F>| #[trigger] call_ensures(B::thin_svd, (&v, rows, cols), svd) && v@ == m
}

/// `v` is the largest of the first `k` singular values and zero.
pub open spec fn largest_singular<F: Scalar, B: Backend<F>>(svd: B::Svd, k: int, v: F) -> bool
    decreases k,
{
    if k <= 0 {
        zeros(v)
    } else {
        exists|p: F, s: F| #[trigger]
            maxes(p, s, v) && call_ensures(B::singular, (&svd, (k - 1) as usize), s)
                && largest_singular::<F, B>(svd, k - 1, p)
    }
}

/// `v` is the sum of the first `k` products of left singular vector `i` with
/// `res`, in order.
pub open spec fn left_product<F: Scalar, B: Backend<F>>(
    svd: B::Svd,
    res: Seq<F>,
    i: usize,
    k: int,
    v: F,
) -> bool
    decreases k,
{
    if k <= 0 {
        zeros(v)
    } else {
        exists|p: F, u: F, q: F| #[trigger]
            adds(p, q, v) && #[trigger] muls(u, res[k - 1], q) && call_ensures(
                B::left,
                (&svd, (k - 1) as usize, i),
                u,
            ) && left_product::<F, B>(svd, res, i, k - 1, p)
    }
}

/// `v` is the sum of the first `k` products of row `j` of the right singular
/// vectors with `t`, in order.
pub open spec fn right_product<F: Scalar, B: Backend<F>>(
    svd: B::Svd,
    t: Seq<F>,
    j: usize,
    k: int,
    v: F,
) -> bool
    decreases k,
{
    if k <= 0 {
        zeros(v)
    } else {
        exists|p: F, w: F, q: F| #[trigger]
            adds(p, q, v) && #[trigger] muls(w, t[k - 1], q) && call_ensures(
                B::right,
                (&svd, j, (k - 1) as usize),
                w,
            ) && right_product::<F, B>(svd, t, j, k - 1, p)
    }
}

/// `r` is the singular value below which a direction is dropped: the larger size
/// times the machine precision times the largest singular value.
pub open spec fn rank_threshold<F: Scalar>(size: usize, largest: F, r: F) -> bool {
    exists|count: F, eps: F, p: F| #[trigger]
        muls(count, eps, p) && counts(size, count) && ratios(1, EPSILON_INVERSE, eps) && muls(
            p,
            largest,
            r,
        )
}

/// `t` is `dot / s`, or zero if `s` does not exceed the threshold.
pub open spec fn truncated<F: Scalar>(dot: F, s: F, threshold: F, t: F) -> bool {
    exists|keep: bool| #[trigger]
        lts(threshold, s, keep) && if keep {
            divs(dot, s, t)
        } else {
            zeros(t)
        }
}

/// `t` is the weight of direction `i`.
pub open spec fn weight_of<F: Scalar, B: Backend<F>>(
    svd: B::Svd,
    res: Seq<F>,
    n: int,
    i: usize,
    threshold: F,
    t: F,
) -> bool {
    exists|dot: F, s: F| #[trigger]
        truncated(dot, s, threshold, t) && left_product::<F, B>(svd, res, i, n, dot)
            && call_ensures(B::singular, (&svd, i), s)
}

/// `c` applies the truncated pseudo-inverse to `res`, by way of the threshold and
/// the weights `t`.
pub open spec fn pseudo_inverse_with<F: Scalar, B: Backend<F>>(
    svd: B::Svd,
    res: Seq<F>,
    n: int,
    k: int,
    largest: F,
    threshold: F,
    t: Seq<F>,
    c: Seq<F>,
) -> bool {
    &&& largest_singular::<F, B>(svd, k, largest)
    &&& rank_threshold(greater(n, k) as usize, largest, threshold)
    &&& t.len() == k
    &&& forall|i: int|
        0 <= i < k ==> weight_of::<F, B>(svd, res, n, i as usize, threshold, #[trigger] t[i])
    &&& c.len() == k
    &&& forall|j: int|
        0 <= j < k ==> right_product::<F, B>(svd, t, j as usize, k, #[trigger] c[j])
}

/// `c` is the least-squares solution by the decomposition, or zero if there is
/// none.
pub open spec fn fitted_by<F: Scalar, B: Backend<F>>(
    svd: Option<B::Svd>,
    res: Seq<F>,
    n: int,
    k: int,
    c: Seq<F>,
) -> bool {
    match svd {
        None => c.len() == k && forall|j: int| 0 <= j < k ==> zeros(#[trigger] c[j]),
        Some(d) => exists|largest: F, threshold: F, t: Seq<F>| #[trigger]
            pseudo_inverse_with::<F, B>(d, res, n, k, largest, threshold, t, c),
    }
}

/// `c` holds the coefficients of the history that best reproduce `res`. Only the
/// newest `n` entries count; the coefficients of older ones are zero.
pub open spec fn coefficients<F: Scalar, B: Backend<F>>(
    history: Seq<Seq<F>>,
    res: Seq<F>,
    n: int,
    c: Seq<F>,
) -> bool {
    let k = lesser(history.len() as int, n);
    let start = history.len() - k;
    &&& c.len() == history.len()
    &&& forall|j: int| 0 <= j < start ==> zeros(#[trigger] c[j])
    &&& exists|m: Seq<F>, svd: Option<B::Svd>| #[trigger]
        decomposes::<F, B>(m, n as usize, k as usize, svd) && columns_are(history, start, n, k, m)
            && fitted_by::<F, B>(svd, res, n, k, c.skip(start))
}

fn gather_columns<F: Scalar>(history: &VecDeque<Vec<F>>, start: usize, n: usize, k: usize) -> (m:
    Vec<F>)
    requires
        start + k == history@.len(),
        forall|j: int| 0 <= j < history@.len() ==> (#[trigger] history@[j])@.len() >= n,
    ensures
        columns_are(contents(history@), start as int, n as int, k as int, m@),
{
    let total: usize = history.len();
    let mut m: Vec<F> = Vec::new();
    let mut i: usize = 0;
    assert(0 * k == 0) by (nonlinear_arith);
    while i < n
        invariant
            i <= n,
            start + k == history@.len(),
            history@.len() == total,
            forall|j: int| 0 <= j < history@.len() ==> (#[trigger] history@[j])@.len() >= n,
            m@.len() == i * k,
            forall|p: int, q: int|
                #![trigger m@[place(k as int, p, q)]]
                0 <= p < i && 0 <= q < k ==> m@[place(k as int, p, q)] == contents(
                    history@,
                )[start + q][p],
        decreases n - i,
    {
        let mut j: usize = 0;
        while j < k
            invariant
                j <= k,
                i < n,
                start + k == history@.len(),
                history@.len() == total,
                forall|q: int| 0 <= q < history@.len() ==> (#[trigger] history@[q])@.len() >= n,
                m@.len() == i * k + j,
                forall|p: int, q: int|
                    #![trigger m@[place(k as int, p, q)]]
                    0 <= p && 0 <= q < k && (p < i || p == i && q < j) ==> m@[place(
                        k as int,
                        p,
                        q,
                    )] == contents(history@)[start + q][p],
            decreases k - j,
        {
            let ghost before = m@;
            assert(history@[start + j]@.len() >= n);
            let column: &Vec<F> = &history[start + j];
            m.push(column[i]);
            proof {
                assert forall|p: int, q: int|
                    0 <= p && 0 <= q < k && (p < i || p == i && q < j + 1) implies #[trigger] m@[place(
                    k as int,
                    p,
                    q,
                )] == contents(history@)[start + q][p] by {
                    if p < i || q < j {
                        lemma_earlier_place(k as int, p, q, i as int, j as int);
                        assert(m@[place(k as int, p, q)] == before[place(k as int, p, q)]);
                    }
                }
            }
            j += 1;
        }
        assert((i + 1) * k == i * k + k) by (nonlinear_arith);
        i += 1;
    }
    m
}

fn largest<F: Scalar, B: Backend<F>>(svd: &B::Svd, k: usize) -> (v: F)
    ensures
        largest_singular::<F, B>(*svd, k as int, v),
{
    let mut v: F = F::zero();
    let mut i: usize = 0;
    while i < k
        invariant
            i <= k,
            largest_singular::<F, B>(*svd, i as int, v),
        decreases k - i,
    {
        let s: F = B::singular(svd, i);
        let next: F = v.larger(s);
        assert(maxes(v, s, next));
        assert(largest_singular::<F, B>(*svd, i + 1, next));
        v = next;
        i += 1;
    }
    v
}

fn left_dot<F: Scalar, B: Backend<F>>(svd: &B::Svd, res: &Vec<F>, i: usize, n: usize) -> (v: F)
    requires
        n <= res@.len(),
    ensures
        left_product::<F, B>(*svd, res@, i, n as int, v),
{
    let mut v: F = F::zero();
    let mut k: usize = 0;
    while k < n
        invariant
            k <= n <= res@.len(),
            left_product::<F, B>(*svd, res@, i, k as int, v),
        decreases n - k,
    {
        let u: F = B::left(svd, k, i);
        let q: F = u.times(res[k]);
        let next: F = v.plus(q);
        assert(adds(v, q, next) && muls(u, res@[k + 1 - 1], q));
        assert(left_product::<F, B>(*svd, res@, i, k + 1, next));
        v = next;
        k += 1;
    }
    v
}

fn right_dot<F: Scalar, B: Backend<F>>(svd: &B::Svd, t: &Vec<F>, j: usize) -> (v: F)
    ensures
        right_product::<F, B>(*svd, t@, j, t@.len() as int, v),
{
    let mut v: F = F::zero();
    let mut k: usize = 0;
    while k < t.len()
        invariant
            k <= t@.len(),
            right_product::<F, B>(*svd, t@, j, k as int, v),
        decreases t.len() - k,
    {
        let w: F = B::right(svd, j, k);
        let q: F = w.times(t[k]);
        let next: F = v.plus(q);
        assert(adds(v, q, next) && muls(w, t@[k + 1 - 1], q));
        assert(right_product::<F, B>(*svd, t@, j, k + 1, next));
        v = next;
        k += 1;
    }
    v
}

fn weights<F: Scalar, B: Backend<F>>(
    svd: &B::Svd,
    res: &Vec<F>,
    n: usize,
    k: usize,
    threshold: F,
) -> (t: Vec<F>)
    requires
        n <= res@.len(),
    ensures
        t@.len() == k,
        forall|i: int|
            0 <= i < k ==> weight_of::<F, B>(
                *svd,
                res@,
                n as int,
                i as usize,
                threshold,
                #[trigger] t@[i],
            ),
{
    let mut t: Vec<F> = Vec::with_capacity(k);
    let mut i: usize = 0;
    while i < k
        invariant
            i <= k,
            n <= res@.len(),
            t@.len() == i,
            forall|q: int|
                0 <= q < i ==> weight_of::<F, B>(
                    *svd,
                    res@,
                    n as int,
                    q as usize,
                    threshold,
                    #[trigger] t@[q],
                ),
        decreases k - i,
    {
        let dot: F = left_dot::<F, B>(svd, res, i, n);
        let s: F = B::singular(svd, i);
        let keep: bool = threshold.below(s);
        assert(lts(threshold, s, keep));
        let w: F = if keep {
            dot.over(s)
        } else {
            F::zero()
        };
        assert(truncated(dot, s, threshold, w));
        t.push(w);
        i += 1;
    }
    t
}

/// The coefficients of the history that best reproduce `res`.
pub fn lstsq_solve<F: Scalar, B: Backend<F>>(
    history: &VecDeque<Vec<F>>,
    res: &Vec<F>,
    n: usize,
) -> (c: Vec<F>)
    requires
        n <= res@.len(),
        forall|j: int| 0 <= j < history@.len() ==> (#[trigger] history@[j])@.len() >= n,
    ensures
        coefficients::<F, B>(contents(history@), res@, n as int, c@),
{
    let total: usize = history.len();
    let k: usize = if total <= n {
        total
    } else {
        n
    };
    let start: usize = total - k;
    let mut c: Vec<F> = Vec::with_capacity(total);
    while c.len() < start
        invariant
            c@.len() <= start,
            forall|j: int| 0 <= j < c@.len() ==> zeros(#[trigger] c@[j]),
        decreases start - c@.len(),
    {
        c.push(F::zero());
    }
    let m: Vec<F> = gather_columns(history, start, n, k);
    let svd: Option<B::Svd> = B::thin_svd(&m, n, k);
    assert(decomposes::<F, B>(m@, n, k, svd));
    match &svd {
        None => {
            while c.len() < total
                invariant
                    start <= c@.len() <= total,
                    forall|j: int| 0 <= j < c@.len() ==> zeros(#[trigger] c@[j]),
                decreases total - c@.len(),
            {
                c.push(F::zero());
            }
        },
        Some(d) => {
            let top: F = largest::<F, B>(d, k);
            let size: usize = if n >= k {
                n
            } else {
                k
            };
            let count: F = F::from_count(size);
            let eps: F = F::ratio(1, EPSILON_INVERSE);
            let p: F = count.times(eps);
            let threshold: F = p.times(top);
            assert(muls(count, eps, p));
            assert(rank_threshold(size, top, threshold));
            let t: Vec<F> = weights::<F, B>(d, res, n, k, threshold);
            let mut j: usize = 0;
            while j < k
                invariant
                    j <= k,
                    start + k == total,
                    t@.len() == k,
                    c@.len() == start + j,
                    forall|q: int| 0 <= q < start ==> zeros(#[trigger] c@[q]),
                    forall|q: int|
                        #![trigger c@.skip(start as int)[q]]
                        0 <= q < j ==> right_product::<F, B>(
                            *d,
                            t@,
                            q as usize,
                            k as int,
                            c@.skip(start as int)[q],
                        ),
                decreases k - j,
            {
                let v: F = right_dot::<F, B>(d, &t, j);
                let ghost before = c@;
                c.push(v);
                assert forall|q: int| 0 <= q < j + 1 implies right_product::<F, B>(
                    *d,
                    t@,
                    q as usize,
                    k as int,
                    #[trigger] c@.skip(start as int)[q],
                ) by {
                    if q < j {
                        assert(c@.skip(start as int)[q] == before.skip(start as int)[q]);
                    }
                }
                j += 1;
            }
            assert(pseudo_inverse_with::<F, B>(
                *d,
                res@,
                n as int,
                k as int,
                top,
                threshold,
                t@,
                c@.skip(start as int),
            ));
        },
    }
    proof {
        assert(fitted_by::<F, B>(svd, res@, n as int, k as int, c@.skip(start as int)));
        let past = contents(history@);
        assert(lesser(past.len() as int, n as int) == k && past.len() - k == start);
        assert(decomposes::<F, B>(m@, (n as int) as usize, (k as int) as usize, svd));
        assert(c@.len() == past.len());
    }
    c
}

} // verus!
