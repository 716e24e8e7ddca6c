//! Linear solves whose solutions are checked.
//!
//! A factorization does not report a singular matrix: it gives a solution that
//! is not finite or simply wrong. So every solution is put back into the system,
//! and one that does not reproduce the right-hand side is refused.

use vstd::prelude::*;

use crate::error::SimError;
use crate::matrix::{lemma_place_bounds, lemma_place_unique, place, zero_vec};
use crate::optim::linsolve::{factors, solution, Backend, Factored, LinearSolver};
use crate::scalar::{
    adds, finites, lts, mags, muls, ones, ratios, subs, zeros, Scalar,
};

verus! {

/// Inverse of the relative tolerance of the check.
pub const RESIDUAL_TOLERANCE_INVERSE: u64 = 100_000_000;

/// `v` is the sum of the first `p` products of row `i` of the `n` by `n` matrix
/// `sys` with `z`, in order.
pub open spec fn row_sum<F: Scalar>(sys: Seq<F>, z: Seq<F>, n: int, i: int, p: int, v: F) -> bool
    decreases p,
{
    if p <= 0 {
        zeros(v)
    } else {
        exists|s: F, q: F| #[trigger]
            adds(s, q, v) && muls(sys[place(n, i, p - 1)], z[p - 1], q) && row_sum(
                sys,
                z,
                n,
                i,
                p - 1,
                s,
            )
    }
}

/// The test `|acc - b| > tol * (1 + |b|)`, with the listed intermediate values,
/// came out as `r`.
pub open spec fn exceeds_steps<F: Scalar>(
    acc: F,
    b: F,
    d: F,
    gap: F,
    tol: F,
    one: F,
    size: F,
    s: F,
    bound: F,
    r: bool,
) -> bool {
    &&& subs(acc, b, d)
    &&& mags(d, gap)
    &&& ratios(1, RESIDUAL_TOLERANCE_INVERSE, tol)
    &&& ones(one)
    &&& mags(b, size)
    &&& adds(one, size, s)
    &&& muls(tol, s, bound)
    &&& lts(bound, gap, r)
}

/// The test whether `acc` is off `b` by more than the tolerance came out as `r`.
pub open spec fn exceeds<F: Scalar>(acc: F, b: F, r: bool) -> bool {
    exists|d: F, gap: F, tol: F, one: F, size: F, s: F, bound: F| #[trigger]
        exceeds_steps(acc, b, d, gap, tol, one, size, s, bound, r)
}

/// The check of row `i` came out as `ok`, where the row gives `acc`: it fails if
/// `acc` is not finite or is off the right-hand side.
pub open spec fn row_check<F: Scalar>(
    sys: Seq<F>,
    z: Seq<F>,
    rhs: Seq<F>,
    n: int,
    i: int,
    acc: F,
    ok: bool,
) -> bool {
    &&& row_sum(sys, z, n, i, n, acc)
    &&& (finites(acc, false) && !ok) || (finites(acc, true) && exceeds(acc, rhs[i], !ok))
}

/// The check of row `i` may come out as `ok`.
pub open spec fn row_ok<F: Scalar>(sys: Seq<F>, z: Seq<F>, rhs: Seq<F>, n: int, i: int, ok: bool) -> bool {
    exists|acc: F| #[trigger] row_check(sys, z, rhs, n, i, acc, ok)
}

/// Every row of the system reproduces the right-hand side.
pub open spec fn reproduces<F: Scalar>(sys: Seq<F>, z: Seq<F>, rhs: Seq<F>, n: int) -> bool {
    forall|i: int| 0 <= i < n ==> #[trigger] row_ok(sys, z, rhs, n, i, true)
}

/// Some row of the system does not reproduce the right-hand side.
pub open spec fn misses<F: Scalar>(sys: Seq<F>, z: Seq<F>, rhs: Seq<F>, n: int) -> bool {
    exists|i: int| 0 <= i < n && #[trigger] row_ok(sys, z, rhs, n, i, false)
}

fn exceeding<F: Scalar>(acc: F, b: F) -> (r: bool)
    ensures
        exceeds(acc, b, r),
{
    let d: F = acc.minus(b);
    let gap: F = d.magnitude();
    let tol: F = F::ratio(1, RESIDUAL_TOLERANCE_INVERSE);
    let one: F = F::one();
    let size: F = b.magnitude();
    let s: F = one.plus(size);
    let bound: F = tol.times(s);
    let r: bool = bound.below(gap);
    assert(exceeds_steps(acc, b, d, gap, tol, one, size, s, bound, r));
    r
}

/// Whether the system, applied to `z`, reproduces `rhs` to a scaled tolerance.
pub fn residual_ok<F: Scalar>(sys: &[F], z: &[F], rhs: &[F], n: usize) -> (r: bool)
    requires
        sys@.len() == n * n,
        z@.len() == n,
        rhs@.len() == n,
    ensures
        r ==> reproduces(sys@, z@, rhs@, n as int),
        !r ==> misses(sys@, z@, rhs@, n as int),
{
    let size: usize = sys.len();
    let mut i: usize = 0;
    while i < n
        invariant
            i <= n,
            size == n * n,
            sys@.len() == n * n,
            z@.len() == n,
            rhs@.len() == n,
            forall|k: int| 0 <= k < i ==> #[trigger] row_ok(sys@, z@, rhs@, n as int, k, true),
        decreases n - i,
    {
        let mut acc: F = F::zero();
        let mut j: usize = 0;
        while j < n
            invariant
                j <= n,
                i < n,
                size == n * n,
                sys@.len() == n * n,
                z@.len() == n,
                row_sum(sys@, z@, n as int, i as int, j as int, acc),
            decreases n - j,
        {
            proof {
                lemma_place_bounds(n as int, n as int, i as int, j as int);
            }
            let q: F = sys[i * n + j].times(z[j]);
            let next: F = acc.plus(q);
            proof {
                assert(adds(acc, q, next));
                assert(sys@[place(n as int, i as int, j + 1 - 1)] == sys@[i * n + j]);
                assert(row_sum(sys@, z@, n as int, i as int, j + 1, next));
            }
            acc = next;
            j += 1;
        }
        let whole: bool = acc.finite();
        assert(finites(acc, whole));
        if !whole {
            assert(row_check(sys@, z@, rhs@, n as int, i as int, acc, false));
            assert(row_ok(sys@, z@, rhs@, n as int, i as int, false));
            return false;
        }
        let off: bool = exceeding(acc, rhs[i]);
        assert(row_check(sys@, z@, rhs@, n as int, i as int, acc, !off));
        assert(row_ok(sys@, z@, rhs@, n as int, i as int, !off));
        if off {
            return false;
        }
        i += 1;
    }
    true
}

/// `z` is a solution of `sys * z = rhs` that the backend gave, before any check.
pub open spec fn given_solution<F: Scalar, B: Backend<F>>(
    sys: Seq<F>,
    rhs: Seq<F>,
    n: usize,
    z: Seq<F>,
) -> bool {
    &&& z.len() == n
    &&& exists|fac: Factored<B::Dense, B::Sparse>| #[trigger]
        factors::<F, B>(sys, n, fac) && solution::<F, B>(fac, rhs, z)
}

/// `z` is a solution of `sys * z = rhs` that passed the check.
pub open spec fn checked_solution<F: Scalar, B: Backend<F>>(
    sys: Seq<F>,
    rhs: Seq<F>,
    n: usize,
    z: Seq<F>,
) -> bool {
    given_solution::<F, B>(sys, rhs, n, z) && reproduces(sys, z, rhs, n as int)
}

/// `z` is a solution of `sys * z = rhs` that failed the check.
pub open spec fn failed_solution<F: Scalar, B: Backend<F>>(
    sys: Seq<F>,
    rhs: Seq<F>,
    n: usize,
    z: Seq<F>,
) -> bool {
    given_solution::<F, B>(sys, rhs, n, z) && misses(sys, z, rhs, n as int)
}

/// `e` is the first unit vector.
pub open spec fn first_unit<F: Scalar>(n: int, e: Seq<F>) -> bool {
    &&& e.len() == n
    &&& ones(e[0])
    &&& forall|i: int| 1 <= i < n ==> zeros(#[trigger] e[i])
}

/// Refuses a system that is not solved for the first unit vector.
pub fn check_well_posed<F: Scalar, B: Backend<F>>(sys: &Vec<F>, n: usize) -> (r: Result<
    (),
    SimError<F>,
>)
    requires
        sys@.len() == n * n,
    ensures
        n == 0 ==> r is Ok,
        n > 0 && r is Ok ==> exists|e: Seq<F>, z: Seq<F>| #[trigger]
            first_unit(n as int, e) && #[trigger] checked_solution::<F, B>(sys@, e, n, z),
        r is Err ==> r->Err_0 is LinearizationIllPosed && exists|e: Seq<F>, z: Seq<F>| #[trigger]
            first_unit(n as int, e) && #[trigger] failed_solution::<F, B>(sys@, e, n, z),
{
    if n == 0 {
        return Ok(());
    }
    let mut ls: LinearSolver<F, B> = LinearSolver::new();
    let mut e: Vec<F> = zero_vec(n);
    e.set(0, F::one());
    assert(first_unit(n as int, e@));
    let z: Vec<F> = ls.solve(sys, &e, n);
    assert(e@.take(n as int) =~= e@);
    assert(given_solution::<F, B>(sys@, e@, n, z@));
    if residual_ok(sys.as_slice(), z.as_slice(), e.as_slice(), n) {
        assert(checked_solution::<F, B>(sys@, e@, n, z@));
        Ok(())
    } else {
        assert(failed_solution::<F, B>(sys@, e@, n, z@));
        Err(SimError::LinearizationIllPosed)
    }
}

/// Column `j` of a matrix with `n` rows and `cols` columns.
pub open spec fn column<F>(m: Seq<F>, n: int, cols: int, j: int) -> Seq<F> {
    Seq::new(n as nat, |i: int| m[place(cols, i, j)])
}

/// `out` solves `sys * out = rhs` column by column, and every column passed the
/// check.
pub open spec fn solves_columns<F: Scalar, B: Backend<F>>(
    sys: Seq<F>,
    rhs: Seq<F>,
    n: usize,
    cols: int,
    out: Seq<F>,
) -> bool {
    &&& out.len() == n * cols
    &&& forall|j: int|
        #![trigger column(out, n as int, cols, j)]
        0 <= j < cols ==> n == 0 || checked_solution::<F, B>(
            sys,
            column(rhs, n as int, cols, j),
            n,
            column(out, n as int, cols, j),
        )
}

/// Some column of the system failed the check.
pub open spec fn fails_column<F: Scalar, B: Backend<F>>(
    sys: Seq<F>,
    rhs: Seq<F>,
    n: usize,
    cols: int,
) -> bool {
    exists|j: int, z: Seq<F>|
        0 <= j < cols && #[trigger] failed_solution::<F, B>(
            sys,
            column(rhs, n as int, cols, j),
            n,
            z,
        )
}

fn take_column<F: Scalar>(m: &[F], n: usize, cols: usize, j: usize) -> (c: Vec<F>)
    requires
        m@.len() == n * cols,
        j < cols,
    ensures
        c@ == column(m@, n as int, cols as int, j as int),
{
    let size: usize = m.len();
    let mut c: Vec<F> = Vec::with_capacity(n);
    let mut i: usize = 0;
    while i < n
        invariant
            i <= n,
            size == n * cols,
            m@.len() == n * cols,
            j < cols,
            c@.len() == i,
            forall|k: int|
                0 <= k < i ==> #[trigger] c@[k] == m@[place(cols as int, k, j as int)],
        decreases n - i,
    {
        proof {
            lemma_place_bounds(n as int, cols as int, i as int, j as int);
        }
        c.push(m[i * cols + j]);
        i += 1;
    }
    assert(c@ =~= column(m@, n as int, cols as int, j as int));
    c
}

pub(crate) fn put_column<F: Scalar>(m: &mut Vec<F>, n: usize, cols: usize, j: usize, c: &Vec<F>)
    requires
        old(m)@.len() == n * cols,
        c@.len() == n,
        j < cols,
    ensures
        final(m)@.len() == n * cols,
        column(final(m)@, n as int, cols as int, j as int) == c@,
        forall|q: int|
            0 <= q < cols && q != j ==> #[trigger] column(final(m)@, n as int, cols as int, q)
                == column(old(m)@, n as int, cols as int, q),
{
    let ghost before = m@;
    let size: usize = m.len();
    let mut i: usize = 0;
    while i < n
        invariant
            i <= n,
            size == n * cols,
            before.len() == n * cols,
            m@.len() == n * cols,
            c@.len() == n,
            j < cols,
            forall|p: int, q: int|
                #![trigger m@[place(cols as int, p, q)]]
                0 <= p < n && 0 <= q < cols ==> m@[place(cols as int, p, q)] == if q == j && p < i {
                    c@[p]
                } else {
                    before[place(cols as int, p, q)]
                },
        decreases n - i,
    {
        proof {
            lemma_place_bounds(n as int, cols as int, i as int, j as int);
        }
        let ghost prior = m@;
        m.set(i * cols + j, c[i]);
        proof {
            assert forall|p: int, q: int| 0 <= p < n && 0 <= q < cols implies #[trigger] m@[place(
                cols as int,
                p,
                q,
            )] == if q == j && p < i + 1 {
                c@[p]
            } else {
                before[place(cols as int, p, q)]
            } by {
                lemma_place_bounds(n as int, cols as int, p, q);
                if place(cols as int, p, q) == place(cols as int, i as int, j as int) {
                    lemma_place_unique(cols as int, p, q, i as int, j as int);
                } else {
                    assert(m@[place(cols as int, p, q)] == prior[place(cols as int, p, q)]);
                }
            }
        }
        i += 1;
    }
    assert(column(m@, n as int, cols as int, j as int) =~= c@);
    assert forall|q: int| 0 <= q < cols && q != j implies #[trigger] column(
        m@,
        n as int,
        cols as int,
        q,
    ) == column(before, n as int, cols as int, q) by {
        assert(column(m@, n as int, cols as int, q) =~= column(before, n as int, cols as int, q));
    }
}

/// Solves `sys * X = rhs` column by column for the `n` by `n` matrix `sys` and the
/// `n` by `cols` matrix `rhs`. Fails if a column does not pass the check.
pub fn solve_columns<F: Scalar, B: Backend<F>>(
    sys: &Vec<F>,
    rhs: &Vec<F>,
    n: usize,
    cols: usize,
) -> (r: Result<Vec<F>, SimError<F>>)
    requires
        sys@.len() == n * n,
        rhs@.len() == n * cols,
    ensures
        n == 0 || cols == 0 ==> r is Ok,
        r is Ok ==> solves_columns::<F, B>(sys@, rhs@, n, cols as int, r->Ok_0@),
        r is Err ==> r->Err_0 is LinearizationIllPosed && fails_column::<F, B>(
            sys@,
            rhs@,
            n,
            cols as int,
        ),
{
    let size: usize = rhs.len();
    let mut out: Vec<F> = zero_vec(size);
    if n == 0 || cols == 0 {
        return Ok(out);
    }
    let mut ls: LinearSolver<F, B> = LinearSolver::new();
    let mut j: usize = 0;
    while j < cols
        invariant
            j <= cols,
            n > 0,
            sys@.len() == n * n,
            rhs@.len() == n * cols,
            out@.len() == n * cols,
            ls.plain(),
            ls.fresh() || factors::<F, B>(sys@, n, ls.factorization()),
            forall|q: int|
                #![trigger column(out@, n as int, cols as int, q)]
                0 <= q < j ==> checked_solution::<F, B>(
                    sys@,
                    column(rhs@, n as int, cols as int, q),
                    n,
                    column(out@, n as int, cols as int, q),
                ),
        decreases cols - j,
    {
        let col: Vec<F> = take_column(rhs.as_slice(), n, cols, j);
        let z: Vec<F> = ls.solve(sys, &col, n);
        assert(col@.take(n as int) =~= col@);
        assert(given_solution::<F, B>(sys@, col@, n, z@));
        if !residual_ok(sys.as_slice(), z.as_slice(), col.as_slice(), n) {
            assert(failed_solution::<F, B>(
                sys@,
                column(rhs@, n as int, cols as int, j as int),
                n,
                z@,
            ));
            return Err(SimError::LinearizationIllPosed);
        }
        put_column(&mut out, n, cols, j, &z);
        j += 1;
    }
    Ok(out)
}

} // verus!
