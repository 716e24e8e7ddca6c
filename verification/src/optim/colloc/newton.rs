//! Damped Newton iteration on one mesh.

use vstd::prelude::*;

use crate::expr::{evaluates, lit, val, Num, Term};
use crate::numeric::{all_finite, norm_is, vec_norm};
use crate::optim::colloc::jacobian::{jacobian, jacobian_is};
use crate::optim::colloc::problem::{BvpEquations, BvpFns};
use crate::optim::colloc::residual::{eval_f, residual, residual_is, slopes};
use crate::optim::linsolve::{factors, serves, solution, Backend, LinearSolver};
use crate::scalar::{finites, lts, Scalar};
use crate::seqs::{append_all, copied, prefix};

verus! {

/// The line search halves its step at most so many times; the step is then below
/// one in sixty-four, and is taken as it is.
pub const MAX_HALVINGS: usize = 7;

/// The equations at a point: `fval` are the slopes at the nodes, `res` are the
/// equations and `norm` is their norm.
pub open spec fn evaluated<F: Scalar, P: BvpEquations<F>>(
    f: BvpFns<F, P>,
    x: Seq<F>,
    y: Seq<F>,
    p: Seq<F>,
    fval: Seq<F>,
    res: Seq<F>,
    norm: F,
) -> bool {
    &&& slopes(f, x, y, p, fval)
    &&& residual_is(f, x, y, p, fval, res)
    &&& norm_is(res, norm)
}

/// `norm` is the norm of the equations at a point.
pub open spec fn norm_at<F: Scalar, P: BvpEquations<F>>(
    f: BvpFns<F, P>,
    x: Seq<F>,
    y: Seq<F>,
    p: Seq<F>,
    norm: F,
) -> bool {
    exists|fval: Seq<F>, res: Seq<F>| #[trigger] evaluated(f, x, y, p, fval, res, norm)
}

/// The equations at a point, as computed.
pub struct Evaluation<F> {
    pub fval: Vec<F>,
    pub res: Vec<F>,
    pub norm: F,
}

fn evaluate<F: Scalar, P: BvpEquations<F>>(
    f: &BvpFns<F, P>,
    x: &Vec<F>,
    y: &Vec<F>,
    p: &Vec<F>,
) -> (e: Evaluation<F>)
    requires
        f.shaped(),
        x@.len() >= 2,
        y@.len() == x@.len() * f.n_eq,
        p@.len() == f.n_params,
    ensures
        evaluated(*f, x@, y@, p@, e.fval@, e.res@, e.norm),
        e.fval@.len() == x@.len() * f.n_eq,
        e.res@.len() == f.unknowns(x@.len() as int),
{
    let fval: Vec<F> = eval_f(f, x, y, p);
    let res: Vec<F> = residual(f, x, y, p, &fval);
    let norm: F = vec_norm(res.as_slice());
    Evaluation { fval, res, norm }
}

/// `v` minus `step` times `d`.
pub open spec fn stepped_back<F>(v: F, step: F, d: F) -> Term<F> {
    val(v).minus(val(step).times(val(d)))
}

/// `trial` is the point `z - step * d`.
pub open spec fn trial_point<F: Scalar>(z: Seq<F>, d: Seq<F>, step: F, trial: Seq<F>) -> bool {
    &&& trial.len() == z.len()
    &&& forall|i: int|
        0 <= i < z.len() ==> evaluates(stepped_back(z[i], step, d[i]), #[trigger] trial[i])
}

fn try_point<F: Scalar>(z: &Vec<F>, d: &Vec<F>, step: F) -> (trial: Vec<F>)
    requires
        d@.len() == z@.len(),
    ensures
        trial_point(z@, d@, step, trial@),
{
    let mut trial: Vec<F> = Vec::with_capacity(z.len());
    let mut i: usize = 0;
    while i < z.len()
        invariant
            i <= z@.len(),
            d@.len() == z@.len(),
            trial@.len() == i,
            forall|k: int|
                0 <= k < i ==> evaluates(stepped_back(z@[k], step, d@[k]), #[trigger] trial@[k]),
        decreases z.len() - i,
    {
        trial.push(Num::of(z[i]).minus(Num::of(step).times(Num::of(d[i]))).value);
        i += 1;
    }
    trial
}

/// The step after `s` halvings of the full one.
pub open spec fn halved<F: Scalar>(s: int, step: F) -> bool
    decreases s,
{
    if s <= 0 {
        evaluates(lit::<F>(1, 1), step)
    } else {
        exists|longer: F| #[trigger]
            evaluates(val(longer).times(lit(1, 2)), step) && halved(s - 1, longer)
    }
}

/// The point `z - step * d` is one with equations of norm `norm`; the first `ny`
/// unknowns are the solution, the others the parameters.
pub open spec fn tried<F: Scalar, P: BvpEquations<F>>(
    f: BvpFns<F, P>,
    x: Seq<F>,
    z: Seq<F>,
    d: Seq<F>,
    step: F,
    trial: Seq<F>,
    norm: F,
) -> bool {
    let ny = x.len() * f.n_eq;
    &&& trial_point(z, d, step, trial)
    &&& norm_at(f, x, trial.take(ny), trial.skip(ny), norm)
}

/// The step after `s` halvings did not reduce the norm below `norm`.
pub open spec fn step_fails<F: Scalar, P: BvpEquations<F>>(
    f: BvpFns<F, P>,
    x: Seq<F>,
    z: Seq<F>,
    d: Seq<F>,
    norm: F,
    s: int,
) -> bool {
    exists|step: F, trial: Seq<F>, reached: F| #[trigger]
        tried(f, x, z, d, step, trial, reached) && halved(s, step) && lts(reached, norm, false)
}

/// `trial` is where the line search from `z` along `d` ends, after `s` halvings:
/// at the first step that reduces the norm below `norm`, or at the last one.
pub open spec fn searched_in<F: Scalar, P: BvpEquations<F>>(
    f: BvpFns<F, P>,
    x: Seq<F>,
    z: Seq<F>,
    d: Seq<F>,
    norm: F,
    s: int,
    trial: Seq<F>,
) -> bool {
    &&& 0 <= s <= MAX_HALVINGS
    &&& forall|q: int| 0 <= q < s ==> #[trigger] step_fails(f, x, z, d, norm, q)
    &&& exists|step: F, reached: F, less: bool| #[trigger]
        tried(f, x, z, d, step, trial, reached) && halved(s, step) && #[trigger] lts(
            reached,
            norm,
            less,
        ) && (less || s == MAX_HALVINGS)
}

/// `trial` is where the line search from `z` along `d` ends.
pub open spec fn searched<F: Scalar, P: BvpEquations<F>>(
    f: BvpFns<F, P>,
    x: Seq<F>,
    z: Seq<F>,
    d: Seq<F>,
    norm: F,
    trial: Seq<F>,
) -> bool {
    exists|s: int| #[trigger] searched_in(f, x, z, d, norm, s, trial)
}

fn skip_of<F: Scalar>(v: &Vec<F>, n: usize) -> (r: Vec<F>)
    requires
        n <= v@.len(),
    ensures
        r@ == v@.skip(n as int),
{
    let mut r: Vec<F> = Vec::with_capacity(v.len() - n);
    let mut i: usize = n;
    while i < v.len()
        invariant
            n <= i <= v@.len(),
            r@ == v@.subrange(n as int, i as int),
        decreases v.len() - i,
    {
        r.push(v[i]);
        assert(v@.subrange(n as int, i + 1) =~= v@.subrange(n as int, i as int).push(v@[i as int]));
        i += 1;
    }
    assert(v@.subrange(n as int, v@.len() as int) =~= v@.skip(n as int));
    r
}

fn search<F: Scalar, P: BvpEquations<F>>(
    f: &BvpFns<F, P>,
    x: &Vec<F>,
    z: &Vec<F>,
    d: &Vec<F>,
    norm: F,
    ny: usize,
) -> (trial: Vec<F>)
    requires
        f.shaped(),
        x@.len() >= 2,
        ny == x@.len() * f.n_eq,
        z@.len() == f.unknowns(x@.len() as int),
        d@.len() == z@.len(),
    ensures
        searched(*f, x@, z@, d@, norm, trial@),
        trial@.len() == z@.len(),
{
    let mut step: F = Num::fraction(1, 1).value;
    let mut s: usize = 0;
    loop
        invariant
            f.shaped(),
            x@.len() >= 2,
            ny == x@.len() * f.n_eq,
            z@.len() == f.unknowns(x@.len() as int),
            d@.len() == z@.len(),
            s <= MAX_HALVINGS,
            halved(s as int, step),
            forall|q: int| 0 <= q < s ==> #[trigger] step_fails(*f, x@, z@, d@, norm, q),
        decreases MAX_HALVINGS - s,
    {
        let trial: Vec<F> = try_point(z, d, step);
        let ty: Vec<F> = prefix(trial.as_slice(), ny);
        let tp: Vec<F> = skip_of(&trial, ny);
        let e: Evaluation<F> = evaluate(f, x, &ty, &tp);
        assert(evaluated(*f, x@, ty@, tp@, e.fval@, e.res@, e.norm));
        assert(norm_at(*f, x@, trial@.take(ny as int), trial@.skip(ny as int), e.norm));
        assert(tried(*f, x@, z@, d@, step, trial@, e.norm));
        let less: bool = e.norm.below(norm);
        assert(lts(e.norm, norm, less));
        if less || s == MAX_HALVINGS {
            assert(searched_in(*f, x@, z@, d@, norm, s as int, trial@));
            return trial;
        }
        assert(step_fails(*f, x@, z@, d@, norm, s as int));
        let longer: F = step;
        step = Num::of(longer).times(Num::fraction(1, 2)).value;
        assert(evaluates(val(longer).times(lit(1, 2)), step));
        assert(halved(s + 1, step));
        s += 1;
    }
}

/// `d` is the Newton direction at a point, by the factorization that the solver
/// `before`, which becomes `after`, has for the Jacobian.
pub open spec fn direction_with<F: Scalar, B: Backend<F>, P: BvpEquations<F>>(
    f: BvpFns<F, P>,
    x: Seq<F>,
    y: Seq<F>,
    p: Seq<F>,
    fval: Seq<F>,
    res: Seq<F>,
    norm: F,
    jac: Seq<F>,
    before: LinearSolver<F, B>,
    after: LinearSolver<F, B>,
    d: Seq<F>,
) -> bool {
    let ndof = f.unknowns(x.len() as int);
    &&& evaluated(f, x, y, p, fval, res, norm)
    &&& jacobian_is(f, x, y, p, fval, jac)
    &&& after.plain()
    &&& serves::<F, B>(jac, ndof as usize, after.factorization())
    &&& before.fresh() ==> factors::<F, B>(jac, ndof as usize, after.factorization())
    &&& d.len() == ndof
    &&& solution::<F, B>(after.factorization(), res, d)
}

/// `d` is the Newton direction at a point with equations of norm `norm`.
pub open spec fn direction<F: Scalar, B: Backend<F>, P: BvpEquations<F>>(
    f: BvpFns<F, P>,
    x: Seq<F>,
    y: Seq<F>,
    p: Seq<F>,
    norm: F,
    before: LinearSolver<F, B>,
    after: LinearSolver<F, B>,
    d: Seq<F>,
) -> bool {
    exists|fval: Seq<F>, res: Seq<F>, jac: Seq<F>| #[trigger]
        direction_with(f, x, y, p, fval, res, norm, jac, before, after, d)
}

/// One Newton step that does not meet the tolerance at `y`, `p` and leads to `yn`,
/// `pn`.
pub open spec fn newton_moves<F: Scalar, B: Backend<F>, P: BvpEquations<F>>(
    f: BvpFns<F, P>,
    x: Seq<F>,
    tol: F,
    y: Seq<F>,
    p: Seq<F>,
    before: LinearSolver<F, B>,
    yn: Seq<F>,
    pn: Seq<F>,
    after: LinearSolver<F, B>,
) -> bool {
    exists|norm: F, d: Seq<F>| #[trigger]
        direction(f, x, y, p, norm, before, after, d) && lts(norm, tol, false) && (forall|i: int|
            0 <= i < d.len() ==> finites(#[trigger] d[i], true)) && searched(
            f,
            x,
            y + p,
            d,
            norm,
            yn + pn,
        ) && yn.len() == y.len()
}

/// `k` Newton steps lead from `y0`, `p0` to `y`, `p`.
pub open spec fn newton_path<F: Scalar, B: Backend<F>, P: BvpEquations<F>>(
    f: BvpFns<F, P>,
    x: Seq<F>,
    tol: F,
    y0: Seq<F>,
    p0: Seq<F>,
    before: LinearSolver<F, B>,
    k: int,
    y: Seq<F>,
    p: Seq<F>,
    after: LinearSolver<F, B>,
) -> bool
    decreases k,
{
    if k <= 0 {
        y == y0 && p == p0 && after == before
    } else {
        exists|ym: Seq<F>, pm: Seq<F>, mid: LinearSolver<F, B>| #[trigger]
            newton_moves(f, x, tol, ym, pm, mid, y, p, after) && newton_path(
                f,
                x,
                tol,
                y0,
                p0,
                before,
                k - 1,
                ym,
                pm,
                mid,
            )
    }
}

/// The tolerance is met at `y`, `p`.
pub open spec fn newton_met<F: Scalar, P: BvpEquations<F>>(
    f: BvpFns<F, P>,
    x: Seq<F>,
    tol: F,
    y: Seq<F>,
    p: Seq<F>,
) -> bool {
    exists|norm: F| #[trigger] norm_at(f, x, y, p, norm) && lts(norm, tol, true)
}

/// The tolerance is not met at `y`, `p`, and the Newton direction there is not
/// finite.
pub open spec fn newton_stuck<F: Scalar, B: Backend<F>, P: BvpEquations<F>>(
    f: BvpFns<F, P>,
    x: Seq<F>,
    tol: F,
    y: Seq<F>,
    p: Seq<F>,
    before: LinearSolver<F, B>,
    after: LinearSolver<F, B>,
) -> bool {
    exists|norm: F, d: Seq<F>| #[trigger]
        direction(f, x, y, p, norm, before, after, d) && lts(norm, tol, false) && (exists|i: int|
            0 <= i < d.len() && finites(#[trigger] d[i], false))
}

/// The tolerance is met after `k` steps.
pub open spec fn met_after<F: Scalar, B: Backend<F>, P: BvpEquations<F>>(
    f: BvpFns<F, P>,
    x: Seq<F>,
    tol: F,
    y0: Seq<F>,
    p0: Seq<F>,
    before: LinearSolver<F, B>,
    k: int,
    y: Seq<F>,
    p: Seq<F>,
    after: LinearSolver<F, B>,
) -> bool {
    newton_path(f, x, tol, y0, p0, before, k, y, p, after) && newton_met(f, x, tol, y, p)
}

/// The iteration gets stuck after `k` steps, with the solver `mid`.
pub open spec fn stuck_after<F: Scalar, B: Backend<F>, P: BvpEquations<F>>(
    f: BvpFns<F, P>,
    x: Seq<F>,
    tol: F,
    y0: Seq<F>,
    p0: Seq<F>,
    before: LinearSolver<F, B>,
    k: int,
    y: Seq<F>,
    p: Seq<F>,
    mid: LinearSolver<F, B>,
    after: LinearSolver<F, B>,
) -> bool {
    newton_path(f, x, tol, y0, p0, before, k, y, p, mid) && newton_stuck(
        f,
        x,
        tol,
        y,
        p,
        mid,
        after,
    )
}

/// The iteration ends at `y`, `p` with the outcome `ok`: true where the tolerance
/// is met within `maxit` steps; false where it gets stuck or runs out of steps.
pub open spec fn newton_ends<F: Scalar, B: Backend<F>, P: BvpEquations<F>>(
    f: BvpFns<F, P>,
    x: Seq<F>,
    tol: F,
    maxit: int,
    y0: Seq<F>,
    p0: Seq<F>,
    before: LinearSolver<F, B>,
    y: Seq<F>,
    p: Seq<F>,
    after: LinearSolver<F, B>,
    ok: bool,
) -> bool {
    if ok {
        exists|k: int|
            0 <= k < maxit && #[trigger] met_after(f, x, tol, y0, p0, before, k, y, p, after)
    } else {
        ||| newton_path(f, x, tol, y0, p0, before, maxit, y, p, after)
        ||| exists|k: int, mid: LinearSolver<F, B>|
            0 <= k < maxit && #[trigger] stuck_after(
                f,
                x,
                tol,
                y0,
                p0,
                before,
                k,
                y,
                p,
                mid,
                after,
            )
    }
}

fn join<F: Scalar>(a: &Vec<F>, b: &Vec<F>) -> (r: Vec<F>)
    ensures
        r@ == a@ + b@,
{
    let mut r: Vec<F> = copied(a.as_slice());
    append_all(&mut r, b);
    r
}

/// Damped Newton iteration on the mesh `x` from `y`, `p` on. Returns whether the
/// norm of the equations fell below the tolerance.
pub fn newton<F: Scalar, B: Backend<F>, P: BvpEquations<F>>(
    x: &Vec<F>,
    y: &mut Vec<F>,
    p: &mut Vec<F>,
    f: &BvpFns<F, P>,
    lin: &mut LinearSolver<F, B>,
    tol: F,
    maxit: usize,
) -> (ok: bool)
    requires
        f.shaped(),
        x@.len() >= 2,
        old(y)@.len() == x@.len() * f.n_eq,
        old(p)@.len() == f.n_params,
        f.unknowns(x@.len() as int) <= usize::MAX,
        old(lin).plain(),
    ensures
        newton_ends(
            *f,
            x@,
            tol,
            maxit as int,
            old(y)@,
            old(p)@,
            *old(lin),
            final(y)@,
            final(p)@,
            *final(lin),
            ok,
        ),
        final(y)@.len() == old(y)@.len(),
        final(p)@.len() == old(p)@.len(),
        final(lin).plain(),
{
    let ghost y0 = y@;
    let ghost p0 = p@;
    let ghost lin0 = *lin;
    let ny: usize = y.len();
    let mut it: usize = 0;
    while it < maxit
        invariant
            it <= maxit,
            f.shaped(),
            x@.len() >= 2,
            ny == x@.len() * f.n_eq,
            y@.len() == ny,
            p@.len() == f.n_params,
            f.unknowns(x@.len() as int) <= usize::MAX,
            lin.plain(),
            y0 == old(y)@,
            y0.len() == ny,
            p0.len() == f.n_params,
            p0 == old(p)@,
            lin0 == *old(lin),
            newton_path(*f, x@, tol, y0, p0, lin0, it as int, y@, p@, *lin),
        decreases maxit - it,
    {
        let e: Evaluation<F> = evaluate(f, x, y, p);
        let met: bool = e.norm.below(tol);
        assert(lts(e.norm, tol, met));
        if met {
            assert(norm_at(*f, x@, y@, p@, e.norm));
            assert(met_after(*f, x@, tol, y0, p0, lin0, it as int, y@, p@, *lin));
            return true;
        }
        let jac: Vec<F> = jacobian(f, x, y, p, &e.fval);
        let ndof: usize = e.res.len();
        let ghost mid = *lin;
        let d: Vec<F> = lin.solve(&jac, &e.res, ndof);
        proof {
            assert(e.res@.take(ndof as int) =~= e.res@);
            assert(direction_with(
                *f,
                x@,
                y@,
                p@,
                e.fval@,
                e.res@,
                e.norm,
                jac@,
                mid,
                *lin,
                d@,
            ));
            assert(direction(*f, x@, y@, p@, e.norm, mid, *lin, d@));
        }
        if !all_finite(d.as_slice()) {
            assert(newton_stuck(*f, x@, tol, y@, p@, mid, *lin));
            assert(stuck_after(*f, x@, tol, y0, p0, lin0, it as int, y@, p@, mid, *lin));
            return false;
        }
        let z: Vec<F> = join(y, p);
        let trial: Vec<F> = search(f, x, &z, &d, e.norm, ny);
        let ghost ym = y@;
        let ghost pm = p@;
        *y = prefix(trial.as_slice(), ny);
        *p = skip_of(&trial, ny);
        proof {
            assert(y@ + p@ =~= trial@);
            assert(newton_moves(*f, x@, tol, ym, pm, mid, y@, p@, *lin));
            assert(newton_path(*f, x@, tol, y0, p0, lin0, it + 1, y@, p@, *lin));
        }
        it += 1;
    }
    false
}

} // verus!
