//! Newton steps, alone or followed by Anderson acceleration, behind one type.

use vstd::prelude::*;

use crate::numeric::{difference, differences, norm_is, vec_norm};
use crate::optim::anderson::{newest, Anderson, OPT_HISTORY};
use crate::optim::linsolve::{
    factors, less_identity, newton_update, serves, serves_shifted, step_factors, Backend, Factored,
    LinearSolver,
};
use crate::scalar::{divs, muls, ones, subs, Scalar};
use crate::seqs::{copied, prefix};

verus! {

/// `inv` is `1 / (jac - 1)`.
pub open spec fn step_inverse<F: Scalar>(jac: F, inv: F) -> bool {
    exists|one: F, d: F, unit: F| #[trigger]
        subs(jac, one, d) && #[trigger] divs(unit, d, inv) && ones(one) && ones(unit)
}

/// `r` is `v - res * inv`.
pub open spec fn scalar_update<F: Scalar>(v: F, res: F, inv: F, r: F) -> bool {
    exists|p: F| #[trigger] subs(v, p, r) && muls(res, inv, p)
}

/// `out` is the scalar Newton step for the residual `r`.
pub open spec fn scalar_updates<F: Scalar>(x: Seq<F>, r: Seq<F>, inv: F, out: Seq<F>) -> bool {
    &&& out.len() == x.len()
    &&& forall|i: int| 0 <= i < x.len() ==> scalar_update(x[i], r[i], inv, #[trigger] out[i])
}

/// `out` is the Newton step from `x` for the fixed point `x = g` whose Jacobian is
/// `jac` in every direction, and `res` is the norm of the residual.
pub open spec fn newton_scalar<F: Scalar>(
    x: Seq<F>,
    g: Seq<F>,
    jac: F,
    out: Seq<F>,
    res: F,
) -> bool {
    exists|r: Seq<F>, inv: F| #[trigger]
        scalar_updates(x, r, inv, out) && differences(g, x, x.len() as int, r) && norm_is(r, res)
            && step_inverse(jac, inv)
}

/// Plain fixed-point iteration: `out` is `g`, and `res` the norm of the residual.
pub open spec fn picard<F: Scalar>(x: Seq<F>, g: Seq<F>, out: Seq<F>, res: F) -> bool {
    &&& out == g.take(x.len() as int)
    &&& exists|r: Seq<F>| #[trigger] differences(g, x, x.len() as int, r) && norm_is(r, res)
}

/// Newton step for the fixed point `x = g` whose Jacobian is `jac` in every
/// direction. Returns the norm of the residual.
pub fn newton_step_scalar_inplace<F: Scalar>(x: &mut Vec<F>, g: &Vec<F>, jac: F) -> (res: F)
    requires
        g@.len() >= old(x)@.len(),
    ensures
        newton_scalar(old(x)@, g@, jac, final(x)@, res),
        final(x)@.len() == old(x)@.len(),
{
    let ghost before = x@;
    let n: usize = x.len();
    let one: F = F::one();
    let d: F = jac.minus(one);
    let unit: F = F::one();
    let inv: F = unit.over(d);
    assert(subs(jac, one, d) && divs(unit, d, inv));
    assert(step_inverse(jac, inv));
    let r: Vec<F> = difference(g.as_slice(), x.as_slice(), n);
    let mut i: usize = 0;
    while i < n
        invariant
            i <= n,
            x@.len() == n,
            before.len() == n,
            r@.len() == n,
            forall|k: int| 0 <= k < i ==> scalar_update(before[k], r@[k], inv, #[trigger] x@[k]),
            forall|k: int| i <= k < n ==> #[trigger] x@[k] == before[k],
        decreases n - i,
    {
        let p: F = r[i].times(inv);
        let v: F = x[i].minus(p);
        assert(subs(before[i as int], p, v));
        x.set(i, v);
        i += 1;
    }
    assert(scalar_updates(before, r@, inv, x@));
    vec_norm(r.as_slice())
}

fn picard_step<F: Scalar>(x: &mut Vec<F>, g: &Vec<F>) -> (res: F)
    requires
        g@.len() >= old(x)@.len(),
    ensures
        picard(old(x)@, g@, final(x)@, res),
        final(x)@.len() == old(x)@.len(),
{
    let n: usize = x.len();
    let r: Vec<F> = difference(g.as_slice(), x.as_slice(), n);
    *x = prefix(g.as_slice(), n);
    vec_norm(r.as_slice())
}

/// The entries of a sparse matrix have their places, which are inside it.
pub open spec fn pattern_fits(rows: Seq<u32>, cols: Seq<u32>, count: int, n: usize) -> bool {
    &&& n * n <= usize::MAX
    &&& rows.len() == count
    &&& cols.len() == count
    &&& forall|k: int| 0 <= k < rows.len() ==> #[trigger] rows[k] < n
    &&& forall|k: int| 0 <= k < cols.len() ==> #[trigger] cols[k] < n
}

/// `out` is the Newton step from `x` for the fixed point `x = g` with the Jacobian
/// `j`, taken by the solver `before`, which becomes `after`.
pub open spec fn matrix_stepped<F: Scalar, B: Backend<F>>(
    before: LinearSolver<F, B>,
    after: LinearSolver<F, B>,
    x: Seq<F>,
    g: Seq<F>,
    j: Seq<F>,
    n: usize,
    out: Seq<F>,
    res: F,
) -> bool {
    &&& after.shifted()
    &&& serves_shifted::<F, B>(j, n, after.factorization())
    &&& before.fresh() ==> exists|a: Seq<F>| #[trigger]
        less_identity(j, n as int, a) && factors::<F, B>(a, n, after.factorization())
    &&& exists|r: Seq<F>| #[trigger]
        differences(g, x, n as int, r) && norm_is(r, res) && newton_update::<F, B>(
            after.factorization(),
            r,
            x,
            out,
        )
}

/// `out` is the Newton step from `x` for the fixed point `x = g`, with the Newton
/// matrix `scale * J - I` given by the entries of `J`.
pub open spec fn sparse_stepped<F: Scalar, B: Backend<F>>(
    after: LinearSolver<F, B>,
    x: Seq<F>,
    g: Seq<F>,
    rows: Seq<u32>,
    cols: Seq<u32>,
    values: Seq<F>,
    scale: F,
    n: usize,
    out: Seq<F>,
    res: F,
) -> bool {
    &&& after.plain() && after.shifted()
    &&& exists|fac: Factored<B::Dense, B::Sparse>, r: Seq<F>| #[trigger]
        step_factors::<F, B>(rows, cols, values, scale, n, fac) && #[trigger] differences(
            g,
            x,
            n as int,
            r,
        ) && norm_is(r, res) && newton_update::<F, B>(fac, r, x, out)
}

/// `out` is the Newton step `x - a^-1 r`, taken by the solver `before`, which
/// becomes `after`.
pub open spec fn residual_stepped<F: Scalar, B: Backend<F>>(
    before: LinearSolver<F, B>,
    after: LinearSolver<F, B>,
    x: Seq<F>,
    r: Seq<F>,
    a: Seq<F>,
    n: usize,
    out: Seq<F>,
    res: F,
) -> bool {
    &&& after.plain()
    &&& serves::<F, B>(a, n, after.factorization())
    &&& before.fresh() ==> factors::<F, B>(a, n, after.factorization())
    &&& newton_update::<F, B>(after.factorization(), r.take(n as int), x, out)
    &&& norm_is(r.take(n as int), res)
}

/// Newton's method without acceleration.
pub struct Newton<F: Scalar, B: Backend<F>> {
    pub lin: LinearSolver<F, B>,
}

impl<F: Scalar, B: Backend<F>> Newton<F, B> {
    pub fn new() -> (r: Self)
        ensures
            r.lin.fresh() && r.lin.plain() && r.lin.shifted(),
    {
        Newton { lin: LinearSolver::new() }
    }

    pub fn with_defaults() -> (r: Self)
        ensures
            r.lin.fresh() && r.lin.plain() && r.lin.shifted(),
    {
        Self::new()
    }

    /// There is no history to forget.
    pub fn reset(&mut self)
        ensures
            *final(self) == *old(self),
    {
    }

    /// One step with a scalar Jacobian; without one, plain fixed-point iteration.
    pub fn step(&mut self, x: &mut Vec<F>, g: &Vec<F>, jac: Option<F>) -> (res: F)
        requires
            g@.len() >= old(x)@.len(),
        ensures
            *final(self) == *old(self),
            match jac {
                None => picard(old(x)@, g@, final(x)@, res),
                Some(j) => newton_scalar(old(x)@, g@, j, final(x)@, res),
            },
            final(x)@.len() == old(x)@.len(),
    {
        match jac {
            None => picard_step(x, g),
            Some(j) => newton_step_scalar_inplace(x, g, j),
        }
    }

    /// One step with the row-major Jacobian; without one, plain fixed-point
    /// iteration.
    pub fn step_matrix(&mut self, x: &mut Vec<F>, g: &Vec<F>, jac: Option<&Vec<F>>, n: usize) -> (res:
        F)
        requires
            jac is None ==> g@.len() >= old(x)@.len(),
            jac matches Some(j) ==> old(self).lin.shifted() && j@.len() == n * n && old(x)@.len()
                >= n && g@.len() >= n,
        ensures
            match jac {
                None => *final(self) == *old(self) && picard(old(x)@, g@, final(x)@, res),
                Some(j) => matrix_stepped(
                    old(self).lin,
                    final(self).lin,
                    old(x)@,
                    g@,
                    j@,
                    n,
                    final(x)@,
                    res,
                ),
            },
    {
        match jac {
            None => picard_step(x, g),
            Some(j) => self.lin.newton_step_matrix(x, g, j, n),
        }
    }

    /// One step with the Newton matrix `scale * J - I`, given by the entries of
    /// `J`.
    pub fn step_matrix_sparse(
        &mut self,
        x: &mut Vec<F>,
        g: &Vec<F>,
        rows: &Vec<u32>,
        cols: &Vec<u32>,
        values: &Vec<F>,
        scale: F,
        n: usize,
    ) -> (res: F)
        requires
            old(self).lin.pattern_kept(),
            pattern_fits(rows@, cols@, values@.len() as int, n),
            old(x)@.len() >= n,
            g@.len() >= n,
        ensures
            sparse_stepped(
                final(self).lin,
                old(x)@,
                g@,
                rows@,
                cols@,
                values@,
                scale,
                n,
                final(x)@,
                res,
            ),
    {
        self.lin.newton_step_matrix_sparse(x, g, rows, cols, values, scale, n)
    }
}

impl<F: Scalar, B: Backend<F>> Default for Newton<F, B> {
    fn default() -> (r: Self)
        ensures
            r.lin.fresh() && r.lin.plain() && r.lin.shifted(),
    {
        Self::new()
    }
}

/// A Newton step where there is a Jacobian, then Anderson acceleration.
pub struct NewtonAnderson<F: Scalar, B: Backend<F>> {
    pub anderson: Anderson<F, B>,
    pub lin: LinearSolver<F, B>,
}

/// `out` is an accelerated step from `mid`, with the evaluation `g`.
pub open spec fn then_accelerated<F: Scalar, B: Backend<F>>(
    before: NewtonAnderson<F, B>,
    after: NewtonAnderson<F, B>,
    mid: Seq<F>,
    g: Seq<F>,
    out: Seq<F>,
    res: F,
) -> bool {
    before.anderson.stepped(mid, g, after.anderson, out, res)
}

impl<F: Scalar, B: Backend<F>> NewtonAnderson<F, B> {
    /// What one step with a scalar Jacobian makes of `x`.
    pub open spec fn scalar_step(
        &self,
        after: Self,
        x: Seq<F>,
        g: Seq<F>,
        jac: Option<F>,
        out: Seq<F>,
        res: F,
    ) -> bool {
        &&& after.lin == self.lin
        &&& match jac {
            None => then_accelerated(*self, after, x, g, out, res),
            Some(j) => exists|mid: Seq<F>, first: F| #[trigger]
                newton_scalar(x, g, j, mid, first) && then_accelerated(
                    *self,
                    after,
                    mid,
                    g,
                    out,
                    res,
                ),
        }
    }

    /// What one step with a row-major Jacobian makes of `x`.
    pub open spec fn matrix_step(
        &self,
        after: Self,
        x: Seq<F>,
        g: Seq<F>,
        jac: Option<&Vec<F>>,
        n: usize,
        out: Seq<F>,
        res: F,
    ) -> bool {
        match jac {
            None => after.lin == self.lin && then_accelerated(*self, after, x, g, out, res),
            Some(j) => exists|mid: Seq<F>, first: F| #[trigger]
                matrix_stepped(self.lin, after.lin, x, g, j@, n, mid, first) && then_accelerated(
                    *self,
                    after,
                    mid,
                    g,
                    out,
                    res,
                ),
        }
    }

    /// What one step with a sparse Jacobian makes of `x`.
    pub open spec fn sparse_step(
        &self,
        after: Self,
        x: Seq<F>,
        g: Seq<F>,
        rows: Seq<u32>,
        cols: Seq<u32>,
        values: Seq<F>,
        scale: F,
        n: usize,
        out: Seq<F>,
        res: F,
    ) -> bool {
        exists|mid: Seq<F>, first: F| #[trigger]
            sparse_stepped(after.lin, x, g, rows, cols, values, scale, n, mid, first)
                && then_accelerated(*self, after, mid, g, out, res)
    }

    pub fn new(m: usize) -> (r: Self)
        ensures
            r.anderson.m == m,
            r.anderson.cleared(),
            r.anderson.well_formed(),
            r.lin.fresh() && r.lin.plain() && r.lin.shifted(),
    {
        NewtonAnderson { anderson: Anderson::new(m), lin: LinearSolver::new() }
    }

    pub fn with_defaults() -> (r: Self)
        ensures
            r.anderson.m == OPT_HISTORY,
            r.anderson.cleared(),
            r.anderson.well_formed(),
            r.lin.fresh() && r.lin.plain() && r.lin.shifted(),
    {
        Self::new(OPT_HISTORY)
    }

    /// Forgets the history; a kept factorization stays.
    pub fn reset(&mut self)
        ensures
            final(self).anderson.cleared(),
            final(self).anderson.well_formed(),
            old(self).anderson.keeps(final(self).anderson),
            final(self).lin == old(self).lin,
    {
        self.anderson.reset();
    }

    /// Changes the depth of the history; entries beyond it leave, oldest first.
    pub fn set_m(&mut self, m: usize)
        requires
            old(self).anderson.well_formed(),
        ensures
            final(self).anderson.m == m,
            final(self).anderson.dx() == newest(
                old(self).anderson.dx(),
                m as int,
            ),
            final(self).anderson.dr() == newest(
                old(self).anderson.dr(),
                m as int,
            ),
            final(self).anderson.first_call,
            final(self).anderson.well_formed(),
            final(self).anderson.lin == old(self).anderson.lin,
            final(self).lin == old(self).lin,
    {
        self.anderson.set_m(m);
    }

    /// One step with a scalar Jacobian, or none.
    pub fn step(&mut self, x: &mut Vec<F>, g: &Vec<F>, jac: Option<F>) -> (res: F)
        requires
            old(x)@.len() == g@.len(),
            old(self).anderson.accepts(old(x)@.len() as int),
        ensures
            old(self).scalar_step(*final(self), old(x)@, g@, jac, final(x)@, res),
            final(x)@.len() == old(x)@.len(),
            final(self).anderson.well_formed(),
    {
        match jac {
            None => self.anderson.step(x, g),
            Some(j) => {
                let ghost start = x@;
                let first: F = newton_step_scalar_inplace(x, g, j);
                assert(newton_scalar(start, g@, j, x@, first));
                self.anderson.step(x, g)
            },
        }
    }

    /// One step with the row-major Jacobian, or none.
    pub fn step_matrix(&mut self, x: &mut Vec<F>, g: &Vec<F>, jac: Option<&Vec<F>>, n: usize) -> (res:
        F)
        requires
            old(x)@.len() == g@.len(),
            old(self).anderson.accepts(old(x)@.len() as int),
            jac matches Some(j) ==> old(self).lin.shifted() && j@.len() == n * n && old(x)@.len()
                >= n,
        ensures
            old(self).matrix_step(*final(self), old(x)@, g@, jac, n, final(x)@, res),
            final(x)@.len() == old(x)@.len(),
            final(self).anderson.well_formed(),
    {
        match jac {
            None => self.anderson.step(x, g),
            Some(j) => {
                let ghost start = x@;
                let ghost lin = self.lin;
                let first: F = self.lin.newton_step_matrix(x, g, j, n);
                let ghost mid = x@;
                let res: F = self.anderson.step(x, g);
                assert(matrix_stepped(lin, self.lin, start, g@, j@, n, mid, first));
                assert(then_accelerated(*old(self), *self, mid, g@, x@, res));
                res
            },
        }
    }

    /// One step with the Newton matrix `scale * J - I`, given by the entries of
    /// `J`.
    pub fn step_matrix_sparse(
        &mut self,
        x: &mut Vec<F>,
        g: &Vec<F>,
        rows: &Vec<u32>,
        cols: &Vec<u32>,
        values: &Vec<F>,
        scale: F,
        n: usize,
    ) -> (res: F)
        requires
            old(x)@.len() == g@.len(),
            old(self).anderson.accepts(old(x)@.len() as int),
            old(self).lin.pattern_kept(),
            pattern_fits(rows@, cols@, values@.len() as int, n),
            old(x)@.len() >= n,
        ensures
            old(self).sparse_step(
                *final(self),
                old(x)@,
                g@,
                rows@,
                cols@,
                values@,
                scale,
                n,
                final(x)@,
                res,
            ),
            final(x)@.len() == old(x)@.len(),
            final(self).anderson.well_formed(),
    {
        let ghost start = x@;
        let first: F = self.lin.newton_step_matrix_sparse(x, g, rows, cols, values, scale, n);
        let ghost mid = x@;
        let res: F = self.anderson.step(x, g);
        assert(sparse_stepped(self.lin, start, g@, rows@, cols@, values@, scale, n, mid, first));
        assert(then_accelerated(*old(self), *self, mid, g@, x@, res));
        res
    }
}

/// One of the accelerators.
pub enum Optimizer<F: Scalar, B: Backend<F>> {
    Anderson(Anderson<F, B>),
    NewtonAnderson(NewtonAnderson<F, B>),
    Newton(Newton<F, B>),
}

impl<F: Scalar, B: Backend<F>> Optimizer<F, B> {
    /// The history that the optimizer keeps, if it keeps one.
    pub open spec fn history(&self) -> Option<Anderson<F, B>> {
        match *self {
            Optimizer::Anderson(a) => Some(a),
            Optimizer::NewtonAnderson(na) => Some(na.anderson),
            Optimizer::Newton(_) => None,
        }
    }

    /// The solver of the Newton steps.
    pub open spec fn solver(&self) -> LinearSolver<F, B> {
        match *self {
            Optimizer::Anderson(a) => a.lin,
            Optimizer::NewtonAnderson(na) => na.lin,
            Optimizer::Newton(ne) => ne.lin,
        }
    }

    /// The next step may be taken in `n` dimensions.
    pub open spec fn accepts(&self, n: int) -> bool {
        self.history() matches Some(a) ==> a.accepts(n)
    }

    /// `other` is the same kind of optimizer.
    pub open spec fn same_kind(&self, other: Self) -> bool {
        match (*self, other) {
            (Optimizer::Anderson(_), Optimizer::Anderson(_)) => true,
            (Optimizer::NewtonAnderson(_), Optimizer::NewtonAnderson(_)) => true,
            (Optimizer::Newton(_), Optimizer::Newton(_)) => true,
            _ => false,
        }
    }

    /// What one step with a scalar Jacobian makes of `x`. Anderson acceleration
    /// alone does not use the Jacobian.
    pub open spec fn scalar_step(
        &self,
        after: Self,
        x: Seq<F>,
        g: Seq<F>,
        jac: Option<F>,
        out: Seq<F>,
        res: F,
    ) -> bool {
        match (*self, after) {
            (Optimizer::Anderson(a), Optimizer::Anderson(b)) => a.stepped(x, g, b, out, res),
            (Optimizer::NewtonAnderson(a), Optimizer::NewtonAnderson(b)) => a.scalar_step(
                b,
                x,
                g,
                jac,
                out,
                res,
            ),
            (Optimizer::Newton(a), Optimizer::Newton(b)) => a == b && match jac {
                None => picard(x, g, out, res),
                Some(j) => newton_scalar(x, g, j, out, res),
            },
            _ => false,
        }
    }

    /// What one step with a row-major Jacobian makes of `x`. Anderson acceleration
    /// alone does not use the Jacobian.
    pub open spec fn matrix_step(
        &self,
        after: Self,
        x: Seq<F>,
        g: Seq<F>,
        jac: Option<&Vec<F>>,
        n: usize,
        out: Seq<F>,
        res: F,
    ) -> bool {
        match (*self, after) {
            (Optimizer::Anderson(a), Optimizer::Anderson(b)) => a.stepped(x, g, b, out, res),
            (Optimizer::NewtonAnderson(a), Optimizer::NewtonAnderson(b)) => a.matrix_step(
                b,
                x,
                g,
                jac,
                n,
                out,
                res,
            ),
            (Optimizer::Newton(a), Optimizer::Newton(b)) => match jac {
                None => a == b && picard(x, g, out, res),
                Some(j) => matrix_stepped(a.lin, b.lin, x, g, j@, n, out, res),
            },
            _ => false,
        }
    }

    /// What one step with a sparse Jacobian makes of `x`. Anderson acceleration
    /// alone does not use the Jacobian.
    pub open spec fn sparse_step(
        &self,
        after: Self,
        x: Seq<F>,
        g: Seq<F>,
        rows: Seq<u32>,
        cols: Seq<u32>,
        values: Seq<F>,
        scale: F,
        n: usize,
        out: Seq<F>,
        res: F,
    ) -> bool {
        match (*self, after) {
            (Optimizer::Anderson(a), Optimizer::Anderson(b)) => a.stepped(x, g, b, out, res),
            (Optimizer::NewtonAnderson(a), Optimizer::NewtonAnderson(b)) => a.sparse_step(
                b,
                x,
                g,
                rows,
                cols,
                values,
                scale,
                n,
                out,
                res,
            ),
            (Optimizer::Newton(_), Optimizer::Newton(b)) => sparse_stepped(
                b.lin,
                x,
                g,
                rows,
                cols,
                values,
                scale,
                n,
                out,
                res,
            ),
            _ => false,
        }
    }

    pub fn default_newton_anderson() -> (r: Self)
        ensures
            r is NewtonAnderson,
            r.history()->Some_0.m == OPT_HISTORY,
            r.history()->Some_0.cleared(),
            r.history()->Some_0.well_formed(),
            r.solver().fresh() && r.solver().plain() && r.solver().shifted(),
    {
        Optimizer::NewtonAnderson(NewtonAnderson::with_defaults())
    }

    /// Forgets the history, if there is one.
    pub fn reset(&mut self)
        ensures
            old(self).same_kind(*final(self)),
            final(self).solver() == old(self).solver(),
            final(self).history() matches Some(a) ==> a.cleared() && a.well_formed()
                && old(self).history()->Some_0.keeps(a),
    {
        match self {
            Optimizer::Anderson(a) => a.reset(),
            Optimizer::NewtonAnderson(na) => na.reset(),
            Optimizer::Newton(ne) => ne.reset(),
        }
    }

    /// Changes the depth of the history, if there is one.
    pub fn set_m(&mut self, m: usize)
        requires
            old(self).history() matches Some(a) ==> a.well_formed(),
        ensures
            old(self).same_kind(*final(self)),
            final(self).solver() == old(self).solver(),
            final(self).history() matches Some(b) ==> b.m == m && b.first_call && b.well_formed()
                && b.dx() == newest(old(self).history()->Some_0.dx(), m as int) && b.dr()
                == newest(old(self).history()->Some_0.dr(), m as int),
    {
        match self {
            Optimizer::Anderson(a) => a.set_m(m),
            Optimizer::NewtonAnderson(na) => na.set_m(m),
            Optimizer::Newton(_) => {},
        }
    }

    /// One step with a scalar Jacobian, or none.
    pub fn step(&mut self, x: &mut Vec<F>, g: &Vec<F>, jac: Option<F>) -> (res: F)
        requires
            old(x)@.len() == g@.len(),
            old(self).accepts(old(x)@.len() as int),
        ensures
            old(self).scalar_step(*final(self), old(x)@, g@, jac, final(x)@, res),
            final(x)@.len() == old(x)@.len(),
    {
        match self {
            Optimizer::Anderson(a) => a.step(x, g),
            Optimizer::NewtonAnderson(na) => na.step(x, g, jac),
            Optimizer::Newton(ne) => ne.step(x, g, jac),
        }
    }

    /// One step with the row-major Jacobian, or none.
    pub fn step_matrix(&mut self, x: &mut Vec<F>, g: &Vec<F>, jac: Option<&Vec<F>>, n: usize) -> (res:
        F)
        requires
            old(x)@.len() == g@.len(),
            old(self).accepts(old(x)@.len() as int),
            !(*old(self) is Anderson) ==> (jac matches Some(j) ==> old(self).solver().shifted()
                && j@.len() == n * n && old(x)@.len() >= n),
        ensures
            old(self).matrix_step(*final(self), old(x)@, g@, jac, n, final(x)@, res),
    {
        match self {
            Optimizer::Anderson(a) => a.step(x, g),
            Optimizer::NewtonAnderson(na) => na.step_matrix(x, g, jac, n),
            Optimizer::Newton(ne) => ne.step_matrix(x, g, jac, n),
        }
    }

    /// One step with the Newton matrix `scale * J - I`, given by the entries of
    /// `J`.
    pub fn step_matrix_sparse(
        &mut self,
        x: &mut Vec<F>,
        g: &Vec<F>,
        rows: &Vec<u32>,
        cols: &Vec<u32>,
        values: &Vec<F>,
        scale: F,
        n: usize,
    ) -> (res: F)
        requires
            old(x)@.len() == g@.len(),
            old(self).accepts(old(x)@.len() as int),
            !(*old(self) is Anderson) ==> old(self).solver().pattern_kept() && pattern_fits(
                rows@,
                cols@,
                values@.len() as int,
                n,
            ) && old(x)@.len() >= n,
        ensures
            old(self).sparse_step(
                *final(self),
                old(x)@,
                g@,
                rows@,
                cols@,
                values@,
                scale,
                n,
                final(x)@,
                res,
            ),
    {
        match self {
            Optimizer::Anderson(a) => a.step(x, g),
            Optimizer::NewtonAnderson(na) => na.step_matrix_sparse(
                x,
                g,
                rows,
                cols,
                values,
                scale,
                n,
            ),
            Optimizer::Newton(ne) => ne.step_matrix_sparse(x, g, rows, cols, values, scale, n),
        }
    }
}

/// `out` is the accelerated step from `x` whose evaluation is the Newton update:
/// first the solver turns from `solver` into `solved` and gives `g` and the norm
/// `res` of the residual, then the history `a`, which becomes `b`, is stepped; `moved`
/// is the norm of that step. `mid` is that history in between; it may hold the solver
/// itself.
pub open spec fn residual_accelerated<F: Scalar, B: Backend<F>>(
    a: Anderson<F, B>,
    solver: LinearSolver<F, B>,
    b: Anderson<F, B>,
    solved: LinearSolver<F, B>,
    x: Seq<F>,
    r: Seq<F>,
    mat: Seq<F>,
    n: usize,
    g: Seq<F>,
    moved: F,
    mid: Anderson<F, B>,
    out: Seq<F>,
    res: F,
) -> bool {
    &&& residual_stepped(solver, solved, x, r, mat, n, g, res)
    &&& mid.m == a.m && mid.first_call == a.first_call
    &&& mid.dx_buffer == a.dx_buffer && mid.dr_buffer == a.dr_buffer
    &&& mid.x_prev == a.x_prev && mid.r_prev == a.r_prev
    &&& mid.stepped(x, g, b, out, moved)
}

/// `out` is the accelerated step from `x` whose evaluation is the Newton update.
pub open spec fn residual_accelerates<F: Scalar, B: Backend<F>>(
    a: Anderson<F, B>,
    solver: LinearSolver<F, B>,
    b: Anderson<F, B>,
    solved: LinearSolver<F, B>,
    x: Seq<F>,
    r: Seq<F>,
    mat: Seq<F>,
    n: usize,
    out: Seq<F>,
    res: F,
) -> bool {
    exists|g: Seq<F>, moved: F, mid: Anderson<F, B>| #[trigger]
        residual_accelerated(a, solver, b, solved, x, r, mat, n, g, moved, mid, out, res)
}

/// What one step on the residual `r` makes of `x`: a Newton update, committed as
/// it is or handed to the accelerator as the evaluation of the fixed point.
pub open spec fn residual_step<F: Scalar, B: Backend<F>>(
    before: Optimizer<F, B>,
    after: Optimizer<F, B>,
    x: Seq<F>,
    r: Seq<F>,
    mat: Seq<F>,
    n: usize,
    out: Seq<F>,
    res: F,
) -> bool {
    match (before, after) {
        (Optimizer::Newton(a), Optimizer::Newton(b)) => residual_stepped(
            a.lin,
            b.lin,
            x,
            r,
            mat,
            n,
            out,
            res,
        ),
        (Optimizer::NewtonAnderson(a), Optimizer::NewtonAnderson(b)) => residual_accelerates(
            a.anderson,
            a.lin,
            b.anderson,
            b.lin,
            x,
            r,
            mat,
            n,
            out,
            res,
        ),
        (Optimizer::Anderson(a), Optimizer::Anderson(b)) => residual_accelerates(
            a,
            a.lin,
            b,
            b.lin,
            x,
            r,
            mat,
            n,
            out,
            res,
        ),
        _ => false,
    }
}

/// One step on the residual `r` of an equation in `x`, whose row-major Jacobian is
/// `mat`. Returns the norm of the residual.
pub fn optimizer_step_residual<F: Scalar, B: Backend<F>>(
    opt: &mut Optimizer<F, B>,
    x: &mut Vec<F>,
    r: &Vec<F>,
    mat: &Vec<F>,
    n: usize,
) -> (res: F)
    requires
        old(opt).accepts(old(x)@.len() as int),
        old(opt).solver().plain(),
        mat@.len() == n * n,
        old(x)@.len() >= n,
        r@.len() >= n,
    ensures
        residual_step(*old(opt), *final(opt), old(x)@, r@, mat@, n, final(x)@, res),
        norm_is(r@.take(n as int), res),
        final(x)@.len() == old(x)@.len(),
{
    let ghost from = x@;
    let mut g: Vec<F> = copied(x.as_slice());
    match opt {
        Optimizer::Newton(ne) => {
            let res: F = ne.lin.newton_solve(&mut g, r, mat, n);
            *x = g;
            res
        },
        Optimizer::NewtonAnderson(na) => {
            let ghost start = *na;
            let res: F = na.lin.newton_solve(&mut g, r, mat, n);
            let ghost mid = na.anderson;
            let moved: F = na.anderson.step(x, &g);
            assert(residual_accelerated(
                start.anderson,
                start.lin,
                na.anderson,
                na.lin,
                from,
                r@,
                mat@,
                n,
                g@,
                moved,
                mid,
                x@,
                res,
            ));
            assert(residual_accelerates(
                start.anderson,
                start.lin,
                na.anderson,
                na.lin,
                from,
                r@,
                mat@,
                n,
                x@,
                res,
            ));
            res
        },
        Optimizer::Anderson(a) => {
            let ghost start = *a;
            let res: F = a.lin.newton_solve(&mut g, r, mat, n);
            let ghost mid = *a;
            let moved: F = a.step(x, &g);
            assert(residual_accelerated(
                start,
                start.lin,
                *a,
                a.lin,
                from,
                r@,
                mat@,
                n,
                g@,
                moved,
                mid,
                x@,
                res,
            ));
            assert(residual_accelerates(
                start,
                start.lin,
                *a,
                a.lin,
                from,
                r@,
                mat@,
                n,
                x@,
                res,
            ));
            res
        },
    }
}

} // verus!
