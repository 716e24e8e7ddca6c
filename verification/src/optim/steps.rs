//! Laws of single steps, where arithmetic is exact: where they lead and what they measure.

use vstd::prelude::*;

use crate::algebra::{
    lemma_cancels, lemma_distributes, lemma_positive, lemma_reorders, lemma_scales,
    lemma_square, lemma_total_plus, lemma_total_same, lemma_total_scale, lemma_total_single,
    total,
};
use crate::exact::{exact, size};
use crate::matrix::{lemma_place_bounds, place};
use crate::numeric::{differences, norm_is, squares_sum};
use crate::optim::anderson::{
    combined, leading_products, reduced_entry, reduced_scaled, rotated, scalar_extrapolated,
    scalar_extrapolated_with, Anderson, TOLERANCE_INVERSE,
};
use crate::optim::booster::{root_mean, weighed, weighed_squares, wrms_distance, wrms_scaled};
use crate::optim::linsolve::{
    entry_less_identity, factors, less_identity, newton_update, reduced_by, solution, Backend,
    Factored, LinearSolver,
};
use crate::optim::optimizer::{
    matrix_stepped, newton_scalar, picard, residual_stepped, scalar_update, scalar_updates,
    step_inverse,
};
use crate::scalar::{adds, counts, divs, mags, muls, ones, roots, subs, Scalar};

verus! {

/// `r` is the Euclidean length of the first `n` entries of `v`.
pub open spec fn length_of(n: int, v: spec_fn(int) -> real, r: real) -> bool {
    r >= 0real && r * r == total(n, |i: int| v(i) * v(i))
}

proof fn lemma_squares_total<F: Scalar>(num: spec_fn(F) -> real, v: Seq<F>, s: F)
    requires
        exact(num),
        squares_sum(v, s),
    ensures
        num(s) == total(v.len() as int, |i: int| num(v[i]) * num(v[i])),
        num(s) >= 0real,
    decreases v.len(),
{
    let n = v.len() as int;
    let f = |i: int| num(v[i]) * num(v[i]);
    if n > 0 {
        let (p, q) = choose|p: F, q: F| #[trigger]
            adds(p, q, s) && muls(v.last(), v.last(), q) && squares_sum(v.drop_last(), p);
        let rest = v.drop_last();
        lemma_squares_total(num, rest, p);
        let g = |i: int| num(rest[i]) * num(rest[i]);
        assert forall|i: int| 0 <= i < n - 1 implies #[trigger] g(i) == f(i) by {}
        lemma_total_same(n - 1, g, f);
        lemma_square(num(v.last()));
        assert(total(n, f) == total(n - 1, f) + f(n - 1));
    }
}

/// The norm that steps report is the length of the residual `g - x`.
proof fn lemma_residual_length<F: Scalar>(
    num: spec_fn(F) -> real,
    g: Seq<F>,
    x: Seq<F>,
    n: int,
    r: Seq<F>,
    res: F,
)
    requires
        exact(num),
        differences(g, x, n, r),
        norm_is(r, res),
    ensures
        length_of(n, |i: int| num(g[i]) - num(x[i]), num(res)),
{
    let s = choose|s: F| #[trigger] squares_sum(r, s) && roots(s, res);
    lemma_squares_total(num, r, s);
    let d = |i: int| num(g[i]) - num(x[i]);
    let f = |i: int| num(r[i]) * num(r[i]);
    let e = |i: int| d(i) * d(i);
    assert forall|i: int| 0 <= i < n implies #[trigger] f(i) == e(i) by {
        assert(subs(g[i], x[i], r[i]));
    }
    lemma_total_same(n, f, e);
}

/// A plain step goes to the evaluation and reports how far that is.
pub proof fn law_plain_step<F: Scalar>(
    num: spec_fn(F) -> real,
    x: Seq<F>,
    g: Seq<F>,
    out: Seq<F>,
    res: F,
)
    requires
        exact(num),
        g.len() >= x.len(),
        picard(x, g, out, res),
    ensures
        out.len() == x.len(),
        forall|i: int| 0 <= i < x.len() ==> #[trigger] out[i] == g[i],
        length_of(x.len() as int, |i: int| num(g[i]) - num(x[i]), num(res)),
{
    let r = choose|r: Seq<F>| #[trigger]
        differences(g, x, x.len() as int, r) && norm_is(r, res);
    lemma_residual_length(num, g, x, x.len() as int, r, res);
}

/// A Newton step with one slope for all directions leads to where the line through the
/// evaluation with that slope is at its fixed point.
pub proof fn law_scalar_newton_step<F: Scalar>(
    num: spec_fn(F) -> real,
    x: Seq<F>,
    g: Seq<F>,
    jac: F,
    out: Seq<F>,
    res: F,
)
    requires
        exact(num),
        newton_scalar(x, g, jac, out, res),
        num(jac) != 1real,
    ensures
        out.len() == x.len(),
        forall|i: int|
            #![trigger out[i]]
            0 <= i < x.len() ==> num(g[i]) + num(jac) * (num(out[i]) - num(x[i])) == num(out[i]),
        length_of(x.len() as int, |i: int| num(g[i]) - num(x[i]), num(res)),
{
    let (r, inv) = choose|r: Seq<F>, inv: F| #[trigger]
        scalar_updates(x, r, inv, out) && differences(g, x, x.len() as int, r) && norm_is(r, res)
            && step_inverse(jac, inv);
    lemma_residual_length(num, g, x, x.len() as int, r, res);
    let (one, d, unit) = choose|one: F, d: F, unit: F| #[trigger]
        subs(jac, one, d) && #[trigger] divs(unit, d, inv) && ones(one) && ones(unit);
    assert(num(inv) * num(d) == 1real);
    assert forall|i: int|
        #![trigger out[i]]
        0 <= i < x.len() implies num(g[i]) + num(jac) * (num(out[i]) - num(x[i])) == num(
        out[i],
    ) by {
        assert(scalar_update(x[i], r[i], inv, out[i]));
        let p = choose|p: F| #[trigger] subs(x[i], p, out[i]) && muls(r[i], inv, p);
        assert(subs(g[i], x[i], r[i]));
        lemma_reorders(num(r[i]), num(inv), num(d));
        lemma_scales(num(inv) * num(d), 1real, num(r[i]));
        lemma_reorders(num(r[i]), num(inv) * num(d), 1real);
        assert(num(p) * num(d) == num(r[i]));
        let e = num(out[i]) - num(x[i]);
        lemma_scales(e, -num(p), num(d));
        assert((-num(p)) * num(d) == -(num(p) * num(d))) by (nonlinear_arith);
        lemma_distributes(e, num(jac), 1real);
        lemma_scales(num(d), num(jac) - 1real, e);
        lemma_reorders(e, num(d), 1real);
        lemma_reorders(e, num(jac), 1real);
        assert(e * 1real == e);
    }
}

/// The backend solves with the matrix `a`.
pub open spec fn solves_with<F: Scalar, B: Backend<F>>(
    num: spec_fn(F) -> real,
    a: Seq<F>,
    n: usize,
) -> bool {
    forall|fac: Factored<B::Dense, B::Sparse>, rhs: Seq<F>, d: Seq<F>, i: int|
        #![trigger factors::<F, B>(a, n, fac), solution::<F, B>(fac, rhs, d), rhs[i]]
        factors::<F, B>(a, n, fac) && solution::<F, B>(fac, rhs, d) && d.len() == n && rhs.len()
            == n && 0 <= i < n ==> total(
            n as int,
            |k: int| num(a[place(n as int, i, k)]) * num(d[k]),
        ) == num(rhs[i])
}

/// A Newton step on a residual leads to where the linear model of the residual is zero, if
/// the backend solves with its matrix.
pub proof fn law_residual_newton_step<F: Scalar, B: Backend<F>>(
    num: spec_fn(F) -> real,
    before: LinearSolver<F, B>,
    after: LinearSolver<F, B>,
    x: Seq<F>,
    r: Seq<F>,
    a: Seq<F>,
    n: usize,
    out: Seq<F>,
    res: F,
)
    requires
        exact(num),
        before.fresh(),
        x.len() == n,
        r.len() >= n,
        residual_stepped(before, after, x, r, a, n, out, res),
        solves_with::<F, B>(num, a, n),
    ensures
        out.len() == n,
        forall|i: int|
            #![trigger r[i]]
            0 <= i < n ==> num(r[i]) + total(
                n as int,
                |k: int| num(a[place(n as int, i, k)]) * (num(out[k]) - num(x[k])),
            ) == 0real,
        length_of(n as int, |i: int| num(r[i]), num(res)),
{
    let rhs = r.take(n as int);
    let fac = after.factorization();
    let d = choose|d: Seq<F>| #[trigger]
        reduced_by(x, d, out) && d.len() == rhs.len() && solution::<F, B>(fac, rhs, d);
    let s = choose|s: F| #[trigger] squares_sum(rhs, s) && roots(s, res);
    lemma_squares_total(num, rhs, s);
    lemma_total_same(n as int, |i: int| num(rhs[i]) * num(rhs[i]), |i: int| num(r[i]) * num(r[i]));
    let v = |i: int| num(r[i]);
    lemma_total_same(n as int, |i: int| num(r[i]) * num(r[i]), |i: int| v(i) * v(i));
    assert forall|i: int|
        #![trigger r[i]]
        0 <= i < n implies num(r[i]) + total(
        n as int,
        |k: int| num(a[place(n as int, i, k)]) * (num(out[k]) - num(x[k])),
    ) == 0real by {
        assert(rhs[i] == r[i]);
        lemma_step_row(num, n as int, |k: int| num(a[place(n as int, i, k)]), x, d, out);
        let f = |k: int| num(a[place(n as int, i, k)]);
        lemma_total_same(
            n as int,
            |k: int| num(a[place(n as int, i, k)]) * num(d[k]),
            |k: int| f(k) * num(d[k]),
        );
        lemma_total_same(
            n as int,
            |k: int| num(a[place(n as int, i, k)]) * (num(out[k]) - num(x[k])),
            |k: int| f(k) * (num(out[k]) - num(x[k])),
        );
    }
}

proof fn lemma_step_row<F: Scalar>(
    num: spec_fn(F) -> real,
    n: int,
    f: spec_fn(int) -> real,
    x: Seq<F>,
    d: Seq<F>,
    out: Seq<F>,
)
    requires
        exact(num),
        d.len() == n,
        x.len() == n,
        reduced_by(x, d, out),
    ensures
        total(n, |k: int| f(k) * (num(out[k]) - num(x[k]))) == -total(n, |k: int| f(k) * num(d[k])),
{
    let a = |k: int| f(k) * (num(out[k]) - num(x[k]));
    let b = |k: int| f(k) * num(d[k]);
    let c = |k: int| (-1real) * b(k);
    assert forall|k: int| 0 <= k < n implies #[trigger] a(k) == c(k) by {
        assert(subs(x[k], d[k], out[k]));
        let e = num(out[k]) - num(x[k]);
        assert(e == (-1real) * num(d[k]));
        lemma_scales(e, (-1real) * num(d[k]), f(k));
        lemma_reorders(f(k), e, 1real);
        lemma_reorders(-1real, f(k), num(d[k]));
        lemma_reorders(f(k), (-1real) * num(d[k]), 1real);
        lemma_reorders(f(k), -1real, num(d[k]));
    }
    lemma_total_same(n, a, c);
    lemma_total_scale(n, -1real, b);
}

/// A Newton step on a fixed point leads to where the linear model of the evaluation is at
/// its fixed point, if the backend solves with the matrix of the model less the identity.
pub proof fn law_matrix_newton_step<F: Scalar, B: Backend<F>>(
    num: spec_fn(F) -> real,
    before: LinearSolver<F, B>,
    after: LinearSolver<F, B>,
    x: Seq<F>,
    g: Seq<F>,
    j: Seq<F>,
    n: usize,
    out: Seq<F>,
    res: F,
)
    requires
        exact(num),
        before.fresh(),
        x.len() == n,
        matrix_stepped(before, after, x, g, j, n, out, res),
        forall|a: Seq<F>| #[trigger]
            less_identity(j, n as int, a) ==> solves_with::<F, B>(num, a, n),
    ensures
        out.len() == n,
        forall|i: int|
            #![trigger out[i]]
            0 <= i < n ==> num(g[i]) + total(
                n as int,
                |k: int| num(j[place(n as int, i, k)]) * (num(out[k]) - num(x[k])),
            ) == num(out[i]),
        length_of(n as int, |i: int| num(g[i]) - num(x[i]), num(res)),
{
    let m = n as int;
    let fac = after.factorization();
    let a = choose|a: Seq<F>| #[trigger] less_identity(j, m, a) && factors::<F, B>(a, n, fac);
    let r = choose|r: Seq<F>| #[trigger]
        differences(g, x, m, r) && norm_is(r, res) && newton_update::<F, B>(fac, r, x, out);
    let d = choose|d: Seq<F>| #[trigger]
        reduced_by(x, d, out) && d.len() == r.len() && solution::<F, B>(fac, r, d);
    lemma_residual_length(num, g, x, m, r, res);
    assert forall|i: int|
        #![trigger out[i]]
        0 <= i < n implies num(g[i]) + total(
        m,
        |k: int| num(j[place(m, i, k)]) * (num(out[k]) - num(x[k])),
    ) == num(out[i]) by {
        assert(subs(g[i], x[i], r[i]));
        let f = |k: int| num(a[place(m, i, k)]);
        let e = |k: int| num(out[k]) - num(x[k]);
        lemma_step_row(num, m, f, x, d, out);
        lemma_total_same(
            m,
            |k: int| num(a[place(m, i, k)]) * num(d[k]),
            |k: int| f(k) * num(d[k]),
        );
        assert(total(m, |k: int| f(k) * (num(out[k]) - num(x[k]))) == -num(r[i]));
        let fe = |k: int| f(k) * e(k);
        lemma_total_same(m, |k: int| f(k) * (num(out[k]) - num(x[k])), fe);
        let je = |k: int| num(j[place(m, i, k)]) * e(k);
        let ie = |k: int|
            if k == i {
                e(i)
            } else {
                0real
            };
        let diff = |k: int| je(k) - ie(k);
        assert forall|k: int| 0 <= k < m implies #[trigger] fe(k) == diff(k) by {
            lemma_place_bounds(m, m, i, k);
            let at = place(m, i, k);
            assert(at / m == i && at % m == k) by (nonlinear_arith)
                requires
                    at == i * m + k,
                    0 <= k < m,
                    0 <= i,
            ;
            assert(entry_less_identity(j[at], at / m == at % m, a[at]));
            let one = if k == i {
                1real
            } else {
                0real
            };
            assert(f(k) == num(j[at]) - one);
            lemma_distributes(e(k), num(j[at]), one);
            lemma_scales(f(k), num(j[at]) - one, e(k));
            if k == i {
                lemma_scales(one, 1real, e(k));
            } else {
                lemma_scales(one, 0real, e(k));
            }
        }
        lemma_total_same(m, fe, diff);
        lemma_total_plus(m, je, ie);
        lemma_total_single(m, i, ie);
        lemma_total_same(m, |k: int| num(j[place(m, i, k)]) * (num(out[k]) - num(x[k])), je);
    }
}

/// The history after a step: the newest entry is the new one, the others keep their order,
/// and the oldest leaves where there are more than `m`.
pub proof fn law_history_rotates<T>(history: Seq<T>, m: int, v: T)
    requires
        m > 0,
        history.len() <= m,
    ensures
        rotated(history, m, v).len() == if history.len() < m {
            history.len() as int + 1
        } else {
            m
        },
        rotated(history, m, v).last() == v,
        forall|k: int|
            #![trigger rotated(history, m, v)[k]]
            0 <= k < rotated(history, m, v).len() - 1 ==> rotated(history, m, v)[k] == history[k
                + history.len() + 1 - rotated(history, m, v).len()],
{
}

proof fn lemma_leading<F: Scalar>(
    num: spec_fn(F) -> real,
    a: Seq<Seq<F>>,
    b: Seq<Seq<F>>,
    k: int,
    s: F,
)
    requires
        exact(num),
        leading_products(a, b, k, s),
    ensures
        num(s) == total(k, |q: int| num(a[q][0]) * num(b[q][0])),
    decreases k,
{
    let f = |q: int| num(a[q][0]) * num(b[q][0]);
    if k > 0 {
        let (p, q) = choose|p: F, q: F| #[trigger]
            adds(p, q, s) && muls(a[k - 1][0], b[k - 1][0], q) && leading_products(a, b, k - 1, p);
        lemma_leading(num, a, b, k - 1, p);
        assert(total(k, f) == total(k - 1, f) + f(k - 1));
    }
}

/// In one dimension, where residuals change in proportion to iterates, the extrapolation
/// leads to where the residual is zero; unless they hardly change, where it leads to the
/// evaluation.
pub proof fn law_scalar_extrapolation<F: Scalar>(
    num: spec_fn(F) -> real,
    dx: Seq<Seq<F>>,
    dr: Seq<Seq<F>>,
    res: F,
    x: Seq<F>,
    g: Seq<F>,
    out: Seq<F>,
    s: real,
)
    requires
        exact(num),
        scalar_extrapolated(dx, dr, res, x, g, out),
        x.len() == 1,
        forall|k: int|
            #![trigger dr[k]]
            0 <= k < dr.len() ==> num(dr[k][0]) == s * num(dx[k][0]),
    ensures
        ({
            let sum = total(dr.len() as int, |k: int| num(dr[k][0]) * num(dr[k][0]));
            &&& sum * 10000000000000000real <= 1real ==> out == g
            &&& sum * 10000000000000000real > 1real ==> out.len() == 1 && num(res) + s * (num(
                out[0],
            ) - num(x[0])) == 0real
        }),
{
    let (dr2, dr_dx, tol, still) = choose|dr2: F, dr_dx: F, tol: F, still: bool| #[trigger]
        scalar_extrapolated_with(dx, dr, res, x, g, dr2, dr_dx, tol, still, out);
    let n = dr.len() as int;
    lemma_leading(num, dr, dr, n, dr2);
    lemma_leading(num, dr, dx, n, dr_dx);
    assert(TOLERANCE_INVERSE as real == 10000000000000000real);
    assert(num(tol) * 10000000000000000real == 1real);
    if !still {
        let a = |k: int| num(dr[k][0]) * num(dr[k][0]);
        let b = |k: int| num(dr[k][0]) * num(dx[k][0]);
        let sb = |k: int| s * b(k);
        assert forall|k: int| 0 <= k < n implies #[trigger] a(k) == sb(k) by {
            let (u, v) = (num(dr[k][0]), num(dx[k][0]));
            assert(dr[k] == dr[k]);
            lemma_reorders(s, u, v);
            lemma_reorders(u, s, v);
            lemma_scales(u, s * v, u);
            lemma_reorders(u, s * v, 1real);
        }
        lemma_total_same(n, a, sb);
        lemma_total_scale(n, s, b);
        assert(num(dr2) == s * num(dr_dx));
        let (p, step) = choose|p: F, step: F| #[trigger]
            divs(p, dr2, step) && muls(res, dr_dx, p) && subs(x[0], step, out[0]);
        assert(num(dr2) > 0real);
        assert(num(step) * num(dr2) == num(res) * num(dr_dx));
        let (u, w, r, d) = (num(step), num(dr_dx), num(res), num(dr2));
        lemma_reorders(d, u * s, 1real);
        assert(d * (s * u) == d * r) by {
            lemma_reorders(d, s, u);
            lemma_reorders(u, d, 1real);
            lemma_reorders(s, u, d);
            lemma_scales(u * d, r * w, s);
            lemma_reorders(s, u * d, 1real);
            lemma_reorders(s, r, w);
            lemma_reorders(s, r * w, 1real);
            lemma_reorders(r, s, w);
            lemma_scales(d, s * w, r);
            lemma_reorders(r, s * w, 1real);
            lemma_reorders(d, r, 1real);
            assert(s * (u * d) == s * (r * w));
            assert(s * (r * w) == r * (s * w));
            assert(d * (s * u) == s * (d * u));
        }
        lemma_cancels(d, s * u, r);
        let e = num(out[0]) - num(x[0]);
        assert(e == (-1real) * u);
        lemma_reorders(s, -1real, u);
        lemma_scales(e, (-1real) * u, s);
        lemma_reorders(s, e, 1real);
        lemma_reorders(s, (-1real) * u, 1real);
    }
}

/// A step of the combination: `x` less the entries of the history times their coefficients.
pub proof fn law_combination<F: Scalar>(
    num: spec_fn(F) -> real,
    x: Seq<F>,
    c: Seq<F>,
    dx: Seq<Seq<F>>,
    k: int,
    out: Seq<F>,
)
    requires
        exact(num),
        combined(x, c, dx, k, out),
        k >= 0,
    ensures
        out.len() == x.len(),
        forall|i: int|
            #![trigger out[i]]
            0 <= i < x.len() ==> num(out[i]) == num(x[i]) - total(
                k,
                |q: int| num(c[q]) * num(dx[q][i]),
            ),
    decreases k,
{
    if k > 0 {
        let prev = choose|prev: Seq<F>| #[trigger]
            reduced_scaled(prev, c[k - 1], dx[k - 1], out) && combined(x, c, dx, k - 1, prev);
        law_combination(num, x, c, dx, k - 1, prev);
        assert forall|i: int|
            #![trigger out[i]]
            0 <= i < x.len() implies num(out[i]) == num(x[i]) - total(
            k,
            |q: int| num(c[q]) * num(dx[q][i]),
        ) by {
            let f = |q: int| num(c[q]) * num(dx[q][i]);
            assert(num(prev[i]) == num(x[i]) - total(k - 1, f));
            assert(reduced_entry(prev[i], c[k - 1], dx[k - 1][i], out[i]));
            assert(total(k, f) == total(k - 1, f) + f(k - 1));
        }
    }
}

/// The differences that the history takes are those of successive iterates and of
/// successive residuals `g - x`.
pub proof fn law_history_takes_differences<F: Scalar, B: Backend<F>>(
    num: spec_fn(F) -> real,
    before: Anderson<F, B>,
    x: Seq<F>,
    g: Seq<F>,
    after: Anderson<F, B>,
    out: Seq<F>,
    res: F,
)
    requires
        exact(num),
        before.stepped(x, g, after, out, res),
        before.well_formed(),
        before.m > 0,
    ensures
        length_of(x.len() as int, |i: int| num(g[i]) - num(x[i]), num(res)),
        after.x_prev@ == x,
        forall|i: int|
            #![trigger after.r_prev@[i]]
            0 <= i < x.len() ==> num(after.r_prev@[i]) == num(g[i]) - num(x[i]),
        before.first_call ==> out == g && after.dx() == before.dx() && after.dr() == before.dr(),
        !before.first_call ==> after.dx().len() > 0 && after.dr().len() > 0 && forall|i: int|
            #![trigger x[i]]
            0 <= i < x.len() ==> num(after.dx().last()[i]) == num(x[i]) - num(before.x_prev@[i])
                && num(after.dr().last()[i]) == num(g[i]) - num(x[i]) - num(before.r_prev@[i]),
{
    let n = x.len() as int;
    let (r, dx, dr) = choose|r: Seq<F>, dx: Seq<F>, dr: Seq<F>| #[trigger]
        before.step_with(x, g, r, dx, dr, after, out) && differences(g, x, n, r) && norm_is(
            r,
            res,
        );
    lemma_residual_length(num, g, x, n, r, res);
    assert forall|i: int| 0 <= i < n implies num(#[trigger] r[i]) == num(g[i]) - num(x[i]) by {
        assert(subs(g[i], x[i], r[i]));
    }
    if !before.first_call {
        law_history_rotates(before.dx(), before.m as int, dx);
        law_history_rotates(before.dr(), before.m as int, dr);
        assert forall|i: int|
            #![trigger x[i]]
            0 <= i < n implies num(after.dx().last()[i]) == num(x[i]) - num(before.x_prev@[i])
            && num(after.dr().last()[i]) == num(g[i]) - num(x[i]) - num(before.r_prev@[i]) by {
            assert(subs(x[i], before.x_prev@[i], dx[i]));
            assert(subs(r[i], before.r_prev@[i], dr[i]));
        }
    }
}

/// `q` is the difference of value `k` from the history, in units of `atol + rtol * |h|`.
pub open spec fn in_units<F>(
    num: spec_fn(F) -> real,
    c: F,
    h: F,
    atol: F,
    rtol: F,
    q: real,
) -> bool {
    q * (num(atol) + num(rtol) * size(num(h))) == num(c) - num(h)
}

proof fn lemma_weighed_squares<F: Scalar>(
    num: spec_fn(F) -> real,
    current: Seq<F>,
    history: Seq<F>,
    atol: F,
    rtol: F,
    k: int,
    sum: F,
) -> (q: spec_fn(int) -> real)
    requires
        exact(num),
        num(atol) > 0real,
        num(rtol) >= 0real,
        weighed_squares(current, history, atol, rtol, k, sum),
    ensures
        num(sum) == total(k, |i: int| q(i) * q(i)),
        num(sum) >= 0real,
        forall|i: int|
            #![trigger q(i)]
            0 <= i < k ==> in_units(num, current[i], history[i], atol, rtol, q(i)),
    decreases k,
{
    if k <= 0 {
        |i: int| 0real
    } else {
        let (p, s, sq) = choose|p: F, s: F, sq: F| #[trigger]
            adds(p, sq, sum) && #[trigger] muls(s, s, sq) && weighed(
                current[k - 1],
                history[k - 1],
                atol,
                rtol,
                s,
            ) && weighed_squares(current, history, atol, rtol, k - 1, p);
        let before = lemma_weighed_squares(num, current, history, atol, rtol, k - 1, p);
        let (c, h) = (current[k - 1], history[k - 1]);
        let (d, scale) = choose|d: F, scale: F| #[trigger]
            divs(d, scale, s) && subs(c, h, d) && wrms_scaled(atol, rtol, h, scale);
        let (sz, w) = choose|sz: F, w: F| #[trigger]
            adds(atol, w, scale) && #[trigger] muls(rtol, sz, w) && mags(h, sz);
        if num(rtol) > 0real && num(sz) > 0real {
            lemma_positive(num(rtol), num(sz));
        } else if num(rtol) == 0real {
            lemma_scales(num(rtol), 0real, num(sz));
        } else {
            lemma_reorders(num(rtol), num(sz), 1real);
            lemma_scales(num(sz), 0real, num(rtol));
        }
        assert(num(scale) > 0real);
        lemma_square(num(s));
        let q = |i: int|
            if i == k - 1 {
                num(s)
            } else {
                before(i)
            };
        let f = |i: int| q(i) * q(i);
        let g = |i: int| before(i) * before(i);
        assert forall|i: int| 0 <= i < k - 1 implies #[trigger] g(i) == f(i) by {}
        lemma_total_same(k - 1, g, f);
        assert(total(k, f) == total(k - 1, f) + f(k - 1));
        assert forall|i: int|
            #![trigger q(i)]
            0 <= i < k implies in_units(num, current[i], history[i], atol, rtol, q(i)) by {
            if i < k - 1 {
                assert(q(i) == before(i));
            }
        }
        q
    }
}

/// The distance that a transfer reports is the root of the mean square of the differences
/// of the values from the history, each in units of `atol + rtol * |h|`.
pub proof fn law_transfer_distance<F: Scalar>(
    num: spec_fn(F) -> real,
    current: Seq<F>,
    history: Seq<F>,
    atol: F,
    rtol: F,
    n: usize,
    r: F,
) -> (q: spec_fn(int) -> real)
    requires
        exact(num),
        num(atol) > 0real,
        num(rtol) >= 0real,
        wrms_distance(current, history, atol, rtol, n, r),
    ensures
        forall|i: int|
            #![trigger q(i)]
            0 <= i < n ==> in_units(num, current[i], history[i], atol, rtol, q(i)),
        num(r) >= 0real,
        (num(r) * num(r)) * (n as real) == total(n as int, |i: int| q(i) * q(i)),
{
    if n == 0 {
        assert(n as real == 0real);
        lemma_reorders(num(r) * num(r), 0real, 1real);
        lemma_scales(0real, 0real, num(r) * num(r));
        |i: int| 0real
    } else {
        let sum = choose|sum: F| #[trigger]
            root_mean(sum, n, r) && weighed_squares(current, history, atol, rtol, n as int, sum);
        let q = lemma_weighed_squares(num, current, history, atol, rtol, n as int, sum);
        let (count, mean) = choose|count: F, mean: F| #[trigger]
            divs(sum, count, mean) && counts(n, count) && roots(mean, r);
        assert(n as real > 0real);
        if num(mean) < 0real {
            lemma_positive(-num(mean), n as real);
            let (a, b) = (num(mean), n as real);
            assert((-a) * b == -(a * b)) by (nonlinear_arith);
        }
        q
    }
}

} // verus!
