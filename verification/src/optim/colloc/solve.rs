//! The solver: Newton iteration and refinement of the mesh in turn.

use vstd::prelude::*;

use crate::expr::{evaluates, lit, val, Num, Term};
use crate::optim::colloc::mesh::{
    cube, interp, interpolated, interspersed, law_refinement_keeps_nodes,
    lemma_interspersed_twice, left_slope, left_value, refine, refined, right_slope, right_value,
    square, stands_at,
};
use crate::optim::colloc::newton::{met_after, newton, newton_ends, newton_met};
use crate::optim::colloc::problem::{fun_gives, BvpEquations, BvpFns};
use crate::optim::colloc::residual::{eval_f, interval, interval_is, slopes, Interval};
use crate::optim::linsolve::{Backend, LinearSolver};
use crate::scalar::{lts, Scalar};
use crate::seqs::copied;

verus! {

/// Inverse of the largest tolerance that Newton iterations are given.
pub const NEWTON_TOLERANCE_INVERSE: u64 = 100_000_000;

/// Newton iterations per mesh.
pub const NEWTON_STEPS: usize = 40;

/// A solution on its mesh.
pub struct BvpSolution<F> {
    pub x: Vec<F>,
    /// Values at the nodes, node by node.
    pub y: Vec<F>,
    /// Slopes at the nodes, node by node.
    pub f: Vec<F>,
    pub p: Vec<F>,
    /// Whether the tolerance was met.
    pub converged: bool,
}

/// What is kept between solutions.
pub struct BvpWorkspace<F: Scalar, B: Backend<F>> {
    pub lin: LinearSolver<F, B>,
}

impl<F: Scalar, B: Backend<F>> BvpWorkspace<F, B> {
    pub fn new() -> (r: Self)
        ensures
            r.lin.fresh() && r.lin.plain(),
    {
        BvpWorkspace { lin: LinearSolver::new() }
    }
}

/// Offset of the test points from the midpoint: `sqrt(3 / 7) / 2`.
pub open spec fn test_offset<F>() -> Term<F> {
    lit(1, 2).times(lit(3, 7).root())
}

/// Place of a test point in its interval, right or left of the middle.
pub open spec fn test_place<F>(s: F, right: bool) -> Term<F> {
    if right {
        lit(1, 2).plus(val(s))
    } else {
        lit(1, 2).minus(val(s))
    }
}

/// The cubic at `t`.
pub open spec fn cubic_value<F>(yi: F, yj: F, fi: F, fj: F, h: F, t: F, t2: F, t3: F) -> Term<F> {
    val(yi).times(left_value(t2, t3)).plus(val(yj).times(right_value(t2, t3))).plus(
        val(h).times(val(fi)).times(left_slope(t, t2, t3)),
    ).plus(val(h).times(val(fj)).times(right_slope(t2, t3)))
}

/// The slope of the cubic at `t`:
/// `(yi (-6 t + 6 t^2) + yj (6 t - 6 t^2)) / h + fi (1 - 4 t + 3 t^2)
/// + fj (-2 t + 3 t^2)`.
pub open spec fn cubic_slope<F>(yi: F, yj: F, fi: F, fj: F, h: F, t: F, t2: F) -> Term<F> {
    val(yi).times(lit(6, 1).negated().times(val(t)).plus(lit(6, 1).times(val(t2)))).plus(
        val(yj).times(lit(6, 1).times(val(t)).minus(lit(6, 1).times(val(t2)))),
    ).over(val(h)).plus(
        val(fi).times(
            lit(1, 1).minus(lit(4, 1).times(val(t))).plus(lit(3, 1).times(val(t2))),
        ),
    ).plus(val(fj).times(lit(2, 1).negated().times(val(t)).plus(lit(3, 1).times(val(t2)))))
}

/// A test point: its place, powers of it, and there the cubic, its slope and the
/// right-hand side.
pub struct TestPoint<F> {
    pub t: F,
    pub t2: F,
    pub t3: F,
    pub xt: F,
    pub yt: Vec<F>,
    pub dyt: Vec<F>,
    pub ft: Vec<F>,
}

/// `tp` is a test point of the interval.
pub open spec fn test_point_is<F: Scalar, P: BvpEquations<F>>(
    f: BvpFns<F, P>,
    p: Seq<F>,
    xi: F,
    iv: Interval<F>,
    s: F,
    right: bool,
    tp: TestPoint<F>,
) -> bool {
    let n = f.n_eq as int;
    &&& evaluates(test_place(s, right), tp.t)
    &&& evaluates(square(tp.t), tp.t2)
    &&& evaluates(cube(tp.t), tp.t3)
    &&& evaluates(val(xi).plus(val(tp.t).times(val(iv.h))), tp.xt)
    &&& tp.yt@.len() == n
    &&& forall|k: int|
        0 <= k < n ==> evaluates(
            cubic_value(
                iv.yi@[k],
                iv.yj@[k],
                iv.fi@[k],
                iv.fj@[k],
                iv.h,
                tp.t,
                tp.t2,
                tp.t3,
            ),
            #[trigger] tp.yt@[k],
        )
    &&& tp.dyt@.len() == n
    &&& forall|k: int|
        0 <= k < n ==> evaluates(
            cubic_slope(iv.yi@[k], iv.yj@[k], iv.fi@[k], iv.fj@[k], iv.h, tp.t, tp.t2),
            #[trigger] tp.dyt@[k],
        )
    &&& fun_gives(f.equations, tp.xt, tp.yt@, p, tp.ft@)
}

/// `v - u`.
pub open spec fn off<F>(v: F, u: F) -> Term<F> {
    val(v).minus(val(u))
}

/// The squared mismatch of slopes at a test point, the first `k` components added
/// to `from`.
pub open spec fn mismatch<F>(from: Term<F>, tp: TestPoint<F>, k: int) -> Term<F>
    decreases k,
{
    if k <= 0 {
        from
    } else {
        mismatch(from, tp, k - 1).plus(
            off(tp.dyt@[k - 1], tp.ft@[k - 1]).times(off(tp.dyt@[k - 1], tp.ft@[k - 1])),
        )
    }
}

/// The largest slope at the ends of the interval, over the first `k` components.
pub open spec fn slope_scale<F>(iv: Interval<F>, k: int) -> Term<F>
    decreases k,
{
    if k <= 0 {
        Term::Zero
    } else {
        slope_scale(iv, k - 1).larger(val(iv.fi@[k - 1]).magnitude()).larger(
            val(iv.fj@[k - 1]).magnitude(),
        )
    }
}

/// The residual of an interval: `sqrt(mismatch / 2) / (1 + scale) * h`.
pub open spec fn interval_misfit<F>(
    iv: Interval<F>,
    right: TestPoint<F>,
    left: TestPoint<F>,
    n: int,
) -> Term<F> {
    lit(1, 2).times(mismatch(mismatch(Term::Zero, right, n), left, n)).root().over(
        lit(1, 1).plus(slope_scale(iv, n)),
    ).times(val(iv.h))
}

/// `r` is the residual of interval `i`, by way of the test points.
pub open spec fn misfit_with<F: Scalar, P: BvpEquations<F>>(
    f: BvpFns<F, P>,
    x: Seq<F>,
    y: Seq<F>,
    p: Seq<F>,
    fval: Seq<F>,
    s: F,
    i: int,
    iv: Interval<F>,
    right: TestPoint<F>,
    left: TestPoint<F>,
    r: F,
) -> bool {
    &&& interval_is(x, y, fval, f.n_eq as int, i, iv)
    &&& test_point_is(f, p, x[i], iv, s, true, right)
    &&& test_point_is(f, p, x[i], iv, s, false, left)
    &&& evaluates(interval_misfit(iv, right, left, f.n_eq as int), r)
}

/// `r` is the residual of interval `i`: how far the slope of the cubic is off the
/// right-hand side.
pub open spec fn misfit<F: Scalar, P: BvpEquations<F>>(
    f: BvpFns<F, P>,
    x: Seq<F>,
    y: Seq<F>,
    p: Seq<F>,
    fval: Seq<F>,
    s: F,
    i: int,
    r: F,
) -> bool {
    exists|iv: Interval<F>, right: TestPoint<F>, left: TestPoint<F>| #[trigger]
        misfit_with(f, x, y, p, fval, s, i, iv, right, left, r)
}

/// `out` are the residuals of all intervals.
pub open spec fn misfits<F: Scalar, P: BvpEquations<F>>(
    f: BvpFns<F, P>,
    x: Seq<F>,
    y: Seq<F>,
    p: Seq<F>,
    fval: Seq<F>,
    out: Seq<F>,
) -> bool {
    exists|s: F| #[trigger]
        evaluates(test_offset::<F>(), s) && out.len() == x.len() - 1 && forall|i: int|
            0 <= i < x.len() - 1 ==> misfit(f, x, y, p, fval, s, i, #[trigger] out[i])
}

fn test_point<F: Scalar, P: BvpEquations<F>>(
    f: &BvpFns<F, P>,
    p: &Vec<F>,
    xi: F,
    iv: &Interval<F>,
    s: F,
    right: bool,
) -> (tp: TestPoint<F>)
    requires
        f.shaped(),
        p@.len() == f.n_params,
        iv.yi@.len() == f.n_eq,
        iv.yj@.len() == f.n_eq,
        iv.fi@.len() == f.n_eq,
        iv.fj@.len() == f.n_eq,
    ensures
        test_point_is(*f, p@, xi, *iv, s, right, tp),
        tp.ft@.len() == f.n_eq,
        tp.dyt@.len() == f.n_eq,
{
    let n: usize = f.n_eq;
    let t: F = if right {
        Num::fraction(1, 2).plus(Num::of(s)).value
    } else {
        Num::fraction(1, 2).minus(Num::of(s)).value
    };
    let tn: Num<F> = Num::of(t);
    let t2: F = tn.times(tn).value;
    let t3: F = tn.times(tn).times(tn).value;
    let n2: Num<F> = Num::of(t2);
    let n3: Num<F> = Num::of(t3);
    let hn: Num<F> = Num::of(iv.h);
    let mut yt: Vec<F> = Vec::with_capacity(n);
    let mut dyt: Vec<F> = Vec::with_capacity(n);
    let mut k: usize = 0;
    while k < n
        invariant
            k <= n,
            n == f.n_eq,
            iv.yi@.len() == n,
            iv.yj@.len() == n,
            iv.fi@.len() == n,
            iv.fj@.len() == n,
            tn.ok() && n2.ok() && n3.ok() && hn.ok(),
            tn.term@ == val(t) && n2.term@ == val(t2) && n3.term@ == val(t3),
            hn.term@ == val(iv.h),
            yt@.len() == k,
            dyt@.len() == k,
            forall|q: int|
                0 <= q < k ==> evaluates(
                    cubic_value(
                        iv.yi@[q],
                        iv.yj@[q],
                        iv.fi@[q],
                        iv.fj@[q],
                        iv.h,
                        t,
                        t2,
                        t3,
                    ),
                    #[trigger] yt@[q],
                ),
            forall|q: int|
                0 <= q < k ==> evaluates(
                    cubic_slope(iv.yi@[q], iv.yj@[q], iv.fi@[q], iv.fj@[q], iv.h, t, t2),
                    #[trigger] dyt@[q],
                ),
        decreases n - k,
    {
        let yi: Num<F> = Num::of(iv.yi[k]);
        let yj: Num<F> = Num::of(iv.yj[k]);
        let fi: Num<F> = Num::of(iv.fi[k]);
        let fj: Num<F> = Num::of(iv.fj[k]);
        let w_left: Num<F> = Num::fraction(1, 1).minus(Num::fraction(3, 1).times(n2)).plus(
            Num::fraction(2, 1).times(n3),
        );
        let w_right: Num<F> = Num::fraction(3, 1).times(n2).minus(Num::fraction(2, 1).times(n3));
        let s_left: Num<F> = tn.minus(Num::fraction(2, 1).times(n2)).plus(n3);
        let s_right: Num<F> = n2.negated().plus(n3);
        yt.push(
            yi.times(w_left).plus(yj.times(w_right)).plus(hn.times(fi).times(s_left)).plus(
                hn.times(fj).times(s_right),
            ).value,
        );
        let d_left: Num<F> = Num::fraction(6, 1).negated().times(tn).plus(
            Num::fraction(6, 1).times(n2),
        );
        let d_right: Num<F> = Num::fraction(6, 1).times(tn).minus(Num::fraction(6, 1).times(n2));
        let e_left: Num<F> = Num::fraction(1, 1).minus(Num::fraction(4, 1).times(tn)).plus(
            Num::fraction(3, 1).times(n2),
        );
        let e_right: Num<F> = Num::fraction(2, 1).negated().times(tn).plus(
            Num::fraction(3, 1).times(n2),
        );
        dyt.push(
            yi.times(d_left).plus(yj.times(d_right)).over(hn).plus(fi.times(e_left)).plus(
                fj.times(e_right),
            ).value,
        );
        k += 1;
    }
    let xt: F = Num::of(xi).plus(tn.times(hn)).value;
    let ft: Vec<F> = f.fun(xt, &yt, p);
    TestPoint { t, t2, t3, xt, yt, dyt, ft }
}

fn add_mismatch<F: Scalar>(from: Num<F>, tp: &TestPoint<F>, n: usize) -> (r: Num<F>)
    requires
        from.ok(),
        tp.dyt@.len() == n,
        tp.ft@.len() == n,
    ensures
        r.ok(),
        r.term@ == mismatch(from.term@, *tp, n as int),
{
    let mut acc: Num<F> = from;
    let mut k: usize = 0;
    while k < n
        invariant
            k <= n,
            tp.dyt@.len() == n,
            tp.ft@.len() == n,
            acc.ok(),
            acc.term@ == mismatch(from.term@, *tp, k as int),
        decreases n - k,
    {
        let d: Num<F> = Num::of(tp.dyt[k]).minus(Num::of(tp.ft[k]));
        acc = acc.plus(d.times(d));
        k += 1;
    }
    acc
}

fn interval_scale<F: Scalar>(iv: &Interval<F>, n: usize) -> (r: Num<F>)
    requires
        iv.fi@.len() == n,
        iv.fj@.len() == n,
    ensures
        r.ok(),
        r.term@ == slope_scale(*iv, n as int),
{
    let mut acc: Num<F> = Num::zero();
    let mut k: usize = 0;
    while k < n
        invariant
            k <= n,
            iv.fi@.len() == n,
            iv.fj@.len() == n,
            acc.ok(),
            acc.term@ == slope_scale(*iv, k as int),
        decreases n - k,
    {
        acc = acc.larger(Num::of(iv.fi[k]).magnitude()).larger(Num::of(iv.fj[k]).magnitude());
        k += 1;
    }
    acc
}

/// The residuals of all intervals: how far the slope of the cubic is off the
/// right-hand side at two test points.
pub fn hermite_residual<F: Scalar, P: BvpEquations<F>>(
    x: &Vec<F>,
    y: &Vec<F>,
    fval: &Vec<F>,
    f: &BvpFns<F, P>,
    p: &Vec<F>,
) -> (out: Vec<F>)
    requires
        f.shaped(),
        x@.len() >= 1,
        y@.len() == x@.len() * f.n_eq,
        fval@.len() == x@.len() * f.n_eq,
        p@.len() == f.n_params,
    ensures
        misfits(*f, x@, y@, p@, fval@, out@),
        out@.len() == x@.len() - 1,
{
    let n: usize = f.n_eq;
    let s: F = Num::fraction(1, 2).times(Num::fraction(3, 7).root()).value;
    assert(evaluates(test_offset::<F>(), s));
    let mut out: Vec<F> = Vec::new();
    let mut i: usize = 0;
    while i < x.len() - 1
        invariant
            f.shaped(),
            x@.len() >= 1,
            i <= x@.len() - 1,
            n == f.n_eq,
            y@.len() == x@.len() * f.n_eq,
            fval@.len() == x@.len() * f.n_eq,
            p@.len() == f.n_params,
            out@.len() == i,
            forall|q: int|
                0 <= q < i ==> misfit(*f, x@, y@, p@, fval@, s, q, #[trigger] out@[q]),
        decreases x@.len() - i,
    {
        let iv: Interval<F> = interval(x, y, fval, n, i);
        let right: TestPoint<F> = test_point(f, p, x[i], &iv, s, true);
        let left: TestPoint<F> = test_point(f, p, x[i], &iv, s, false);
        let acc: Num<F> = add_mismatch(add_mismatch(Num::zero(), &right, n), &left, n);
        let scale: Num<F> = interval_scale(&iv, n);
        let r: F = Num::fraction(1, 2).times(acc).root().over(
            Num::fraction(1, 1).plus(scale),
        ).times(Num::of(iv.h)).value;
        assert(misfit_with(*f, x@, y@, p@, fval@, s, i as int, iv, right, left, r));
        out.push(r);
        i += 1;
    }
    out
}

/// The largest of zero and the first `k` values.
pub open spec fn largest_of<F>(v: Seq<F>, k: int) -> Term<F>
    decreases k,
{
    if k <= 0 {
        Term::Zero
    } else {
        largest_of(v, k - 1).larger(val(v[k - 1]))
    }
}

fn largest<F: Scalar>(v: &Vec<F>) -> (r: F)
    ensures
        evaluates(largest_of(v@, v@.len() as int), r),
{
    let mut acc: Num<F> = Num::zero();
    let mut k: usize = 0;
    while k < v.len()
        invariant
            k <= v@.len(),
            acc.ok(),
            acc.term@ == largest_of(v@, k as int),
        decreases v.len() - k,
    {
        acc = acc.larger(Num::of(v[k]));
        k += 1;
    }
    acc.value
}

/// A mesh with the solution and the parameters on it, and the solver.
pub struct BvpState<F: Scalar, B: Backend<F>> {
    pub x: Seq<F>,
    pub y: Seq<F>,
    pub p: Seq<F>,
    pub lin: LinearSolver<F, B>,
}

/// `r` is the tolerance for Newton iterations: the smaller of `tol` and a fixed
/// one.
pub open spec fn newton_tolerance<F: Scalar>(tol: F, r: F) -> bool {
    evaluates(val(tol).smaller(lit(1, NEWTON_TOLERANCE_INVERSE)), r)
}

/// One round on the mesh of `from` ends in `to`, on the same mesh, with the
/// residuals `hres` and the largest of them `worst`; `done` tells whether the
/// tolerance was met.
pub open spec fn round_with<F: Scalar, B: Backend<F>, P: BvpEquations<F>>(
    f: BvpFns<F, P>,
    tol: F,
    from: BvpState<F, B>,
    to: BvpState<F, B>,
    inner: F,
    ok: bool,
    fval: Seq<F>,
    hres: Seq<F>,
    worst: F,
    done: bool,
) -> bool {
    &&& to.x == from.x
    &&& newton_tolerance(tol, inner)
    &&& newton_ends(
        f,
        from.x,
        inner,
        NEWTON_STEPS as int,
        from.y,
        from.p,
        from.lin,
        to.y,
        to.p,
        to.lin,
        ok,
    )
    &&& slopes(f, to.x, to.y, to.p, fval)
    &&& misfits(f, to.x, to.y, to.p, fval, hres)
    &&& evaluates(largest_of(hres, hres.len() as int), worst)
    &&& if done {
        ok && lts(worst, tol, true)
    } else {
        !ok || lts(worst, tol, false)
    }
}

/// One round on the mesh of `from` ends in `to` with the residuals `hres`.
pub open spec fn round<F: Scalar, B: Backend<F>, P: BvpEquations<F>>(
    f: BvpFns<F, P>,
    tol: F,
    from: BvpState<F, B>,
    to: BvpState<F, B>,
    hres: Seq<F>,
    done: bool,
) -> bool {
    exists|inner: F, ok: bool, fval: Seq<F>, worst: F| #[trigger]
        round_with(f, tol, from, to, inner, ok, fval, hres, worst, done)
}

/// `to` is what the next round starts from: the tolerance was not met, the mesh was
/// small enough to be refined, and refining it added nodes.
pub open spec fn goes_on<F: Scalar, B: Backend<F>, P: BvpEquations<F>>(
    f: BvpFns<F, P>,
    tol: F,
    max_nodes: usize,
    from: BvpState<F, B>,
    to: BvpState<F, B>,
) -> bool {
    exists|mid: BvpState<F, B>, hres: Seq<F>| #[trigger]
        round(f, tol, from, mid, hres, false) && from.x.len() < max_nodes && refined(
            mid.x,
            hres,
            tol,
            mid.x.len() - 1,
            to.x,
        ) && to.x.len() != mid.x.len() && interpolated(
            mid.x,
            mid.y,
            to.x,
            f.n_eq as int,
            to.y,
        ) && to.p == mid.p && to.lin == mid.lin
}

/// The round from `from` on is the last: it ends in `to`, with the tolerance met or
/// not. If not, the mesh is too large already, or refining it adds no node, or more
/// than leave the unknowns countable.
pub open spec fn stops<F: Scalar, B: Backend<F>, P: BvpEquations<F>>(
    f: BvpFns<F, P>,
    tol: F,
    max_nodes: usize,
    from: BvpState<F, B>,
    to: BvpState<F, B>,
    done: bool,
) -> bool {
    exists|hres: Seq<F>| #[trigger]
        round(f, tol, from, to, hres, done) && (done || from.x.len() >= max_nodes || exists|
            xn: Seq<F>,
        | #[trigger]
            refines_to(to.x, hres, tol, xn) && (xn.len() == to.x.len() || f.unknowns(
                xn.len() as int,
            ) > usize::MAX))
}

/// `xn` is the refined mesh.
pub open spec fn refines_to<F: Scalar>(x: Seq<F>, hres: Seq<F>, tol: F, xn: Seq<F>) -> bool {
    refined(x, hres, tol, x.len() - 1, xn)
}

/// `to` is reached from `from` in `k` rounds, each of which goes on.
pub open spec fn rounds<F: Scalar, B: Backend<F>, P: BvpEquations<F>>(
    f: BvpFns<F, P>,
    tol: F,
    max_nodes: usize,
    from: BvpState<F, B>,
    k: int,
    to: BvpState<F, B>,
) -> bool
    decreases k,
{
    if k <= 0 {
        to == from
    } else {
        exists|mid: BvpState<F, B>| #[trigger]
            goes_on(f, tol, max_nodes, mid, to) && rounds(f, tol, max_nodes, from, k - 1, mid)
    }
}

/// The rounds from `from` on stop after `k` of them, in `to`.
pub open spec fn stops_after<F: Scalar, B: Backend<F>, P: BvpEquations<F>>(
    f: BvpFns<F, P>,
    tol: F,
    max_nodes: usize,
    from: BvpState<F, B>,
    k: int,
    to: BvpState<F, B>,
    done: bool,
) -> bool {
    exists|mid: BvpState<F, B>| #[trigger]
        stops(f, tol, max_nodes, mid, to, done) && rounds(f, tol, max_nodes, from, k, mid)
}

/// The solution ends in `to`: where the rounds stop, or where the last of them
/// leads.
pub open spec fn solves<F: Scalar, B: Backend<F>, P: BvpEquations<F>>(
    f: BvpFns<F, P>,
    tol: F,
    max_nodes: usize,
    max_rounds: usize,
    from: BvpState<F, B>,
    to: BvpState<F, B>,
    done: bool,
) -> bool {
    ||| exists|k: int|
        0 <= k < max_rounds && #[trigger] stops_after(f, tol, max_nodes, from, k, to, done)
    ||| !done && rounds(f, tol, max_nodes, from, max_rounds as int, to)
}

/// The state that a mesh with a solution on it stands for.
pub open spec fn state_of<F: Scalar, B: Backend<F>>(
    x: Seq<F>,
    y: Seq<F>,
    p: Seq<F>,
    lin: LinearSolver<F, B>,
) -> BvpState<F, B> {
    BvpState { x, y, p, lin }
}

/// Whether the unknowns on a mesh with `nodes` nodes can be counted.
fn countable<F: Scalar, P: BvpEquations<F>>(f: &BvpFns<F, P>, nodes: usize) -> (r: bool)
    ensures
        r == (f.unknowns(nodes as int) <= usize::MAX),
{
    match nodes.checked_mul(f.n_eq) {
        Some(values) => values <= usize::MAX - f.n_params,
        None => {
            assert(f.unknowns(nodes as int) >= nodes * f.n_eq);
            false
        },
    }
}

/// Solves a boundary-value problem from the mesh `x0` with the guess `y0`, `p0` on.
/// Each round is a Newton iteration; the mesh is then refined where the solution
/// misses the differential equation by more than the tolerance, unless that would
/// make more unknowns than can be counted.
pub fn solve_bvp<F: Scalar, B: Backend<F>, P: BvpEquations<F>>(
    f: &BvpFns<F, P>,
    ws: &mut BvpWorkspace<F, B>,
    x0: &Vec<F>,
    y0: &Vec<F>,
    p0: &Vec<F>,
    tol: F,
    max_nodes: usize,
    max_rounds: usize,
) -> (r: BvpSolution<F>)
    requires
        f.shaped(),
        x0@.len() >= 2,
        y0@.len() == x0@.len() * f.n_eq,
        p0@.len() == f.n_params,
        f.unknowns(x0@.len() as int) <= usize::MAX,
        old(ws).lin.plain(),
    ensures
        solves(
            *f,
            tol,
            max_nodes,
            max_rounds,
            state_of(x0@, y0@, p0@, old(ws).lin),
            state_of(r.x@, r.y@, r.p@, final(ws).lin),
            r.converged,
        ),
        slopes(*f, r.x@, r.y@, r.p@, r.f@),
        r.x@.len() >= 2,
        r.y@.len() == r.x@.len() * f.n_eq,
        r.p@.len() == f.n_params,
        final(ws).lin.plain(),
{
    let n: usize = f.n_eq;
    let ghost start = state_of(x0@, y0@, p0@, ws.lin);
    let mut x: Vec<F> = copied(x0.as_slice());
    let mut y: Vec<F> = copied(y0.as_slice());
    let mut p: Vec<F> = copied(p0.as_slice());
    let inner: F = Num::of(tol).smaller(Num::fraction(1, NEWTON_TOLERANCE_INVERSE)).value;
    let mut round_no: usize = 0;
    let mut converged: bool = false;
    while round_no < max_rounds
        invariant_except_break
            round_no <= max_rounds,
            !converged,
            rounds(*f, tol, max_nodes, start, round_no as int, state_of(x@, y@, p@, ws.lin)),
        invariant
            f.shaped(),
            n == f.n_eq,
            x@.len() >= 2,
            y@.len() == x@.len() * n,
            p@.len() == f.n_params,
            f.unknowns(x@.len() as int) <= usize::MAX,
            ws.lin.plain(),
            newton_tolerance(tol, inner),
        ensures
            solves(
                *f,
                tol,
                max_nodes,
                max_rounds,
                start,
                state_of(x@, y@, p@, ws.lin),
                converged,
            ),
        decreases max_rounds - round_no,
    {
        let ghost from = state_of(x@, y@, p@, ws.lin);
        let ok: bool = newton(&x, &mut y, &mut p, f, &mut ws.lin, inner, NEWTON_STEPS);
        let fval: Vec<F> = eval_f(f, &x, &y, &p);
        let hres: Vec<F> = hermite_residual(&x, &y, &fval, f, &p);
        let worst: F = largest(&hres);
        let ghost mid = state_of(x@, y@, p@, ws.lin);
        converged = ok && worst.below(tol);
        proof {
            assert(round_with(
                *f,
                tol,
                from,
                mid,
                inner,
                ok,
                fval@,
                hres@,
                worst,
                converged,
            ));
            assert(round(*f, tol, from, mid, hres@, converged));
        }
        if converged || x.len() >= max_nodes {
            assert(stops(*f, tol, max_nodes, from, mid, converged));
            assert(stops_after(*f, tol, max_nodes, start, round_no as int, mid, converged));
            break;
        }
        let xn: Vec<F> = refine(&x, &hres, tol);
        if xn.len() == x.len() || !countable(f, xn.len()) {
            assert(refines_to(mid.x, hres@, tol, xn@));
            assert(stops(*f, tol, max_nodes, from, mid, converged));
            assert(stops_after(*f, tol, max_nodes, start, round_no as int, mid, converged));
            break;
        }
        let yn: Vec<F> = interp(&x, &y, &xn, n);
        proof {
            let to = state_of(xn@, yn@, p@, ws.lin);
            assert(goes_on(*f, tol, max_nodes, from, to));
            assert(rounds(*f, tol, max_nodes, start, round_no + 1, to));
        }
        y = yn;
        x = xn;
        round_no += 1;
    }
    let fval: Vec<F> = eval_f(f, &x, &y, &p);
    BvpSolution { x, y, f: fval, p, converged }
}

/// The solution on the mesh meets the equations to the Newton tolerance `inner`,
/// and misses the differential equation by less than `tol` on every interval: the
/// largest residual is `worst`.
pub open spec fn within_tolerance<F: Scalar, B: Backend<F>, P: BvpEquations<F>>(
    f: BvpFns<F, P>,
    tol: F,
    s: BvpState<F, B>,
    inner: F,
    fval: Seq<F>,
    hres: Seq<F>,
    worst: F,
) -> bool {
    &&& newton_tolerance(tol, inner)
    &&& newton_met(f, s.x, inner, s.y, s.p)
    &&& slopes(f, s.x, s.y, s.p, fval)
    &&& misfits(f, s.x, s.y, s.p, fval, hres)
    &&& evaluates(largest_of(hres, hres.len() as int), worst)
    &&& lts(worst, tol, true)
}

/// A solution that is reported as converged is within the tolerance on the mesh
/// that it comes with.
pub proof fn law_converged_is_within_tolerance<F: Scalar, B: Backend<F>, P: BvpEquations<F>>(
    f: BvpFns<F, P>,
    tol: F,
    max_nodes: usize,
    max_rounds: usize,
    from: BvpState<F, B>,
    to: BvpState<F, B>,
)
    requires
        solves(f, tol, max_nodes, max_rounds, from, to, true),
    ensures
        exists|inner: F, fval: Seq<F>, hres: Seq<F>, worst: F| #[trigger]
            within_tolerance(f, tol, to, inner, fval, hres, worst),
{
    let k = choose|k: int|
        0 <= k < max_rounds && #[trigger] stops_after(f, tol, max_nodes, from, k, to, true);
    let mid = choose|mid: BvpState<F, B>| #[trigger]
        stops(f, tol, max_nodes, mid, to, true) && rounds(f, tol, max_nodes, from, k, mid);
    let hres = choose|hres: Seq<F>| #[trigger] round(f, tol, mid, to, hres, true);
    let (inner, ok, fval, worst) = choose|inner: F, ok: bool, fval: Seq<F>, worst: F| #[trigger]
        round_with(f, tol, mid, to, inner, ok, fval, hres, worst, true);
    let steps = choose|steps: int|
        0 <= steps < NEWTON_STEPS && #[trigger] met_after(
            f,
            mid.x,
            inner,
            mid.y,
            mid.p,
            mid.lin,
            steps,
            to.y,
            to.p,
            to.lin,
        );
    assert(newton_met(f, to.x, inner, to.y, to.p));
    assert(within_tolerance(f, tol, to, inner, fval, hres, worst));
}

proof fn lemma_rounds_keep_nodes<F: Scalar, B: Backend<F>, P: BvpEquations<F>>(
    f: BvpFns<F, P>,
    tol: F,
    max_nodes: usize,
    from: BvpState<F, B>,
    k: int,
    to: BvpState<F, B>,
)
    requires
        from.x.len() >= 1,
        rounds(f, tol, max_nodes, from, k, to),
    ensures
        to.x.len() >= from.x.len(),
        interspersed(from.x, to.x),
    decreases k,
{
    if k > 0 {
        let mid = choose|mid: BvpState<F, B>| #[trigger]
            goes_on(f, tol, max_nodes, mid, to) && rounds(f, tol, max_nodes, from, k - 1, mid);
        lemma_rounds_keep_nodes(f, tol, max_nodes, from, k - 1, mid);
        let (same, hres) = choose|same: BvpState<F, B>, hres: Seq<F>| #[trigger]
            round(f, tol, mid, same, hres, false) && refined(
                same.x,
                hres,
                tol,
                same.x.len() - 1,
                to.x,
            );
        law_refinement_keeps_nodes(mid.x, hres, tol, to.x);
        lemma_interspersed_twice(from.x, mid.x, to.x);
    } else {
        assert(stands_at(from.x, to.x, Seq::new(from.x.len(), |i: int| i)));
    }
}

/// The mesh of the solution holds the nodes of the mesh that it started from, in the
/// order that they had, and has the same ends.
pub proof fn law_mesh_keeps_nodes<F: Scalar, B: Backend<F>, P: BvpEquations<F>>(
    f: BvpFns<F, P>,
    tol: F,
    max_nodes: usize,
    max_rounds: usize,
    from: BvpState<F, B>,
    to: BvpState<F, B>,
    done: bool,
)
    requires
        from.x.len() >= 1,
        solves(f, tol, max_nodes, max_rounds, from, to, done),
    ensures
        to.x.len() >= from.x.len(),
        interspersed(from.x, to.x),
{
    if exists|k: int|
        0 <= k < max_rounds && #[trigger] stops_after(f, tol, max_nodes, from, k, to, done) {
        let k = choose|k: int|
            0 <= k < max_rounds && #[trigger] stops_after(f, tol, max_nodes, from, k, to, done);
        let mid = choose|mid: BvpState<F, B>| #[trigger]
            stops(f, tol, max_nodes, mid, to, done) && rounds(f, tol, max_nodes, from, k, mid);
        lemma_rounds_keep_nodes(f, tol, max_nodes, from, k, mid);
    } else {
        lemma_rounds_keep_nodes(f, tol, max_nodes, from, max_rounds as int, to);
    }
}

} // verus!
