//! Laws of the derivative of the discretized equations, where arithmetic is exact: its rows
//! are how the equations change when the unknowns do.

use vstd::prelude::*;

use crate::algebra::{
    lemma_distributes, lemma_reorders, lemma_scales, lemma_total_inner, lemma_total_plus,
    lemma_total_same, lemma_total_scale, lemma_total_single, lemma_total_split,
    lemma_total_zero, total,
};
use crate::exact::{exact, lemma_literal, lemma_meaning, meaning, rational};
use crate::expr::{evaluates, lit};
use crate::matrix::place;
use crate::optim::colloc::cubic::{ascends, interpolates, lemma_mid, lemma_mid_interpolates};
use crate::optim::colloc::jacobian::{
    boundary_entry, boundary_row, by_left, by_param, by_right, collocation_entry,
    collocation_row, interval_data, interval_rows, jacobian_is, mid_by_left, mid_by_right,
    row_at, slope_by_left, slope_by_param, slope_by_right, Blocks,
};
use crate::optim::colloc::mesh::lemma_node_bounds;
use crate::optim::colloc::problem::{fp_gives, fy_gives, BvpEquations, BvpFns};
use crate::optim::colloc::residual::Interval;
use crate::scalar::Scalar;

verus! {

/// How component `s` of a right-hand side changes, by its derivatives `jac` by the solution
/// and `jp` by the `k` parameters, when the solution changes by `d` and the parameters by
/// `dp`.
pub open spec fn slope_change<F>(
    num: spec_fn(F) -> real,
    jac: Seq<F>,
    n: int,
    jp: Seq<F>,
    k: int,
    s: int,
    d: spec_fn(int) -> real,
    dp: spec_fn(int) -> real,
) -> real {
    total(n, |c: int| num(jac[place(n, s, c)]) * d(c)) + total(
        k,
        |c: int| num(jp[place(k, s, c)]) * dp(c),
    )
}

/// How component `s` of the cubic at the midpoint of an interval of length `h` changes with
/// the values at its ends and with the slopes there.
pub open spec fn mid_change<F>(
    num: spec_fn(F) -> real,
    h: real,
    b: Blocks<F>,
    n: int,
    k: int,
    s: int,
    di: spec_fn(int) -> real,
    dj: spec_fn(int) -> real,
    dp: spec_fn(int) -> real,
) -> real {
    (di(s) + dj(s)) / 2real + (h / 8real) * (slope_change(num, b.ji@, n, b.jpi@, k, s, di, dp)
        - slope_change(num, b.jj@, n, b.jpj@, k, s, dj, dp))
}

/// How collocation equation `r` of an interval of length `h` changes: by the values at its
/// ends, and by the slopes at its ends and at its midpoint.
pub open spec fn collocation_change<F>(
    num: spec_fn(F) -> real,
    h: real,
    b: Blocks<F>,
    n: int,
    k: int,
    r: int,
    di: spec_fn(int) -> real,
    dj: spec_fn(int) -> real,
    dp: spec_fn(int) -> real,
) -> real {
    let mid = |s: int| mid_change(num, h, b, n, k, s, di, dj, dp);
    dj(r) - di(r) - (h / 6real) * (slope_change(num, b.ji@, n, b.jpi@, k, r, di, dp) + 4real
        * slope_change(num, b.jm@, n, b.jmp@, k, r, mid, dp) + slope_change(
        num,
        b.jj@,
        n,
        b.jpj@,
        k,
        r,
        dj,
        dp,
    ))
}

spec fn delta(t: int, c: int) -> real {
    if t == c {
        1real
    } else {
        0real
    }
}

proof fn lemma_delta(n: int, r: int, d: spec_fn(int) -> real)
    requires
        0 <= r < n,
    ensures
        total(n, |c: int| delta(r, c) * d(c)) == d(r),
{
    let f = |c: int| delta(r, c) * d(c);
    assert forall|c: int| 0 <= c < n && c != r implies #[trigger] f(c) == 0real by {
        lemma_scales(delta(r, c), 0real, d(c));
    }
    lemma_scales(delta(r, r), 1real, d(r));
    lemma_total_single(n, r, f);
}

/// Entries `half * delta + w * j`, summed.
proof fn lemma_mid_sum(
    n: int,
    half: real,
    w: real,
    t: int,
    j: spec_fn(int) -> real,
    d: spec_fn(int) -> real,
)
    requires
        0 <= t < n,
        half * 2real == 1real,
    ensures
        total(n, |c: int| (half * delta(t, c) + w * j(c)) * d(c)) == d(t) / 2real + w * total(
            n,
            |c: int| j(c) * d(c),
        ),
{
    let f = |c: int| (half * delta(t, c) + w * j(c)) * d(c);
    let jd = |c: int| j(c) * d(c);
    let a = |c: int| delta(t, c) * d(c);
    let ha = |c: int| half * a(c);
    let wj = |c: int| w * jd(c);
    let both = |c: int| ha(c) + wj(c);
    assert forall|c: int| 0 <= c < n implies #[trigger] f(c) == both(c) by {
        lemma_distributes(d(c), half * delta(t, c), w * j(c));
        lemma_reorders(half, delta(t, c), d(c));
        lemma_reorders(w, j(c), d(c));
    }
    lemma_total_same(n, f, both);
    lemma_total_plus(n, ha, wj);
    lemma_total_scale(n, half, a);
    lemma_total_scale(n, w, jd);
    lemma_delta(n, t, d);
    lemma_scales(2real * half, 1real, d(t));
    lemma_reorders(2real, half, d(t));
}

/// Entries `sign * delta - w * (p + 4 q)`, summed.
proof fn lemma_end_sum(
    n: int,
    sign: real,
    w: real,
    r: int,
    p: spec_fn(int) -> real,
    q: spec_fn(int) -> real,
    d: spec_fn(int) -> real,
)
    requires
        0 <= r < n,
    ensures
        total(n, |c: int| (sign * delta(r, c) - w * (p(c) + 4real * q(c))) * d(c)) == sign * d(r)
            - w * (total(n, |c: int| p(c) * d(c)) + 4real * total(n, |c: int| q(c) * d(c))),
{
    let f = |c: int| (sign * delta(r, c) - w * (p(c) + 4real * q(c))) * d(c);
    let pd = |c: int| p(c) * d(c);
    let qd = |c: int| q(c) * d(c);
    let a = |c: int| delta(r, c) * d(c);
    let sa = |c: int| sign * a(c);
    let q4 = |c: int| 4real * qd(c);
    let pq = |c: int| pd(c) + q4(c);
    let wpq = |c: int| w * pq(c);
    let both = |c: int| sa(c) - wpq(c);
    assert forall|c: int| 0 <= c < n implies #[trigger] f(c) == both(c) by {
        let s = p(c) + 4real * q(c);
        lemma_distributes(d(c), sign * delta(r, c), w * s);
        lemma_reorders(sign, delta(r, c), d(c));
        lemma_reorders(w, s, d(c));
        lemma_distributes(d(c), p(c), 4real * q(c));
        lemma_reorders(4real, q(c), d(c));
        assert(s * d(c) == pq(c));
    }
    lemma_total_same(n, f, both);
    lemma_total_plus(n, sa, wpq);
    lemma_total_scale(n, sign, a);
    lemma_total_scale(n, w, pq);
    lemma_total_plus(n, pd, q4);
    lemma_total_scale(n, 4real, qd);
    lemma_delta(n, r, d);
}

spec fn left_of<F: Scalar>(num: spec_fn(F) -> real, h: F, ji: Seq<F>, n: int) -> spec_fn(int, int) -> real {
    |t: int, c: int|
        meaning(num, lit::<F>(1, 2)) * delta(t, c) + (num(h) / 8real) * num(ji[place(n, t, c)])
}

spec fn right_of<F: Scalar>(num: spec_fn(F) -> real, h: F, jj: Seq<F>, n: int) -> spec_fn(int, int) -> real {
    |t: int, c: int|
        meaning(num, lit::<F>(1, 2)) * delta(t, c) + (-(num(h) / 8real)) * num(jj[place(n, t, c)])
}

spec fn row_of<F>(num: spec_fn(F) -> real, jm: Seq<F>, n: int, r: int) -> spec_fn(int) -> real {
    |t: int| num(jm[place(n, r, t)])
}

proof fn lemma_eight<F: Scalar>(num: spec_fn(F) -> real)
    ensures
        meaning(num, lit::<F>(8, 1)) == 8real,
        meaning(num, lit::<F>(6, 1)) == 6real,
        meaning(num, lit::<F>(4, 1)) == 4real,
        meaning(num, lit::<F>(1, 1)) == 1real,
        meaning(num, lit::<F>(1, 2)) * 2real == 1real,
{
    lemma_literal::<F>(num, 8, 1);
    lemma_literal::<F>(num, 6, 1);
    lemma_literal::<F>(num, 4, 1);
    lemma_literal::<F>(num, 1, 1);
    lemma_literal::<F>(num, 1, 2);
    assert(8u64 as real == 8real && 6u64 as real == 6real && 4u64 as real == 4real && 1u64 as real
        == 1real && 2u64 as real == 2real);
}

proof fn lemma_slope_by_left<F: Scalar>(
    num: spec_fn(F) -> real,
    h: F,
    b: Blocks<F>,
    n: int,
    r: int,
    c: int,
    k: int,
)
    ensures
        rational(num, slope_by_left(h, b, n, r, c, k)),
        meaning(num, slope_by_left(h, b, n, r, c, k)) == total(
            k,
            |t: int| row_of(num, b.jm@, n, r)(t) * left_of(num, h, b.ji@, n)(t, c),
        ),
    decreases k,
{
    let f = |t: int| row_of(num, b.jm@, n, r)(t) * left_of(num, h, b.ji@, n)(t, c);
    if k > 0 {
        lemma_slope_by_left(num, h, b, n, r, c, k - 1);
        lemma_eight::<F>(num);
        reveal_with_fuel(meaning, 6);
        reveal_with_fuel(rational, 6);
        assert(meaning(num, mid_by_left(h, b.ji@, n, k - 1, c)) == left_of(num, h, b.ji@, n)(
            k - 1,
            c,
        ));
        assert(total(k, f) == total(k - 1, f) + f(k - 1));
    }
}

proof fn lemma_slope_by_right<F: Scalar>(
    num: spec_fn(F) -> real,
    h: F,
    b: Blocks<F>,
    n: int,
    r: int,
    c: int,
    k: int,
)
    ensures
        rational(num, slope_by_right(h, b, n, r, c, k)),
        meaning(num, slope_by_right(h, b, n, r, c, k)) == total(
            k,
            |t: int| row_of(num, b.jm@, n, r)(t) * right_of(num, h, b.jj@, n)(t, c),
        ),
    decreases k,
{
    let f = |t: int| row_of(num, b.jm@, n, r)(t) * right_of(num, h, b.jj@, n)(t, c);
    if k > 0 {
        lemma_slope_by_right(num, h, b, n, r, c, k - 1);
        lemma_eight::<F>(num);
        reveal_with_fuel(meaning, 6);
        reveal_with_fuel(rational, 6);
        let (w, j) = (num(h) / 8real, num(b.jj@[place(n, k - 1, c)]));
        assert((-w) * j == -(w * j)) by (nonlinear_arith);
        assert(meaning(num, mid_by_right(h, b.jj@, n, k - 1, c)) == right_of(num, h, b.jj@, n)(
            k - 1,
            c,
        ));
        assert(total(k, f) == total(k - 1, f) + f(k - 1));
    }
}

spec fn param_of<F>(
    num: spec_fn(F) -> real,
    h: F,
    jpi: Seq<F>,
    jpj: Seq<F>,
    k: int,
) -> spec_fn(int, int) -> real {
    |t: int, c: int|
        (-(num(h) / 8real)) * (num(jpj[place(k, t, c)]) - num(jpi[place(k, t, c)]))
}

proof fn lemma_slope_by_param<F: Scalar>(
    num: spec_fn(F) -> real,
    h: F,
    b: Blocks<F>,
    n: int,
    k: int,
    r: int,
    c: int,
    m: int,
)
    ensures
        rational(num, slope_by_param(h, b, n, k, r, c, m)),
        meaning(num, slope_by_param(h, b, n, k, r, c, m)) == total(
            m,
            |t: int| row_of(num, b.jm@, n, r)(t) * param_of(num, h, b.jpi@, b.jpj@, k)(t, c),
        ),
    decreases m,
{
    let f = |t: int| row_of(num, b.jm@, n, r)(t) * param_of(num, h, b.jpi@, b.jpj@, k)(t, c);
    if m > 0 {
        lemma_slope_by_param(num, h, b, n, k, r, c, m - 1);
        lemma_eight::<F>(num);
        reveal_with_fuel(meaning, 6);
        reveal_with_fuel(rational, 6);
        assert(total(m, f) == total(m - 1, f) + f(m - 1));
    }
}

proof fn lemma_entry_left<F: Scalar>(
    num: spec_fn(F) -> real,
    h: F,
    b: Blocks<F>,
    n: int,
    r: int,
    c: int,
    v: F,
)
    requires
        exact(num),
        evaluates(by_left(h, b, n, r, c), v),
    ensures
        num(v) == (-1real) * delta(r, c) - (num(h) / 6real) * (num(b.ji@[place(n, r, c)]) + 4real
            * total(n, |t: int| row_of(num, b.jm@, n, r)(t) * left_of(num, h, b.ji@, n)(t, c))),
{
    lemma_slope_by_left(num, h, b, n, r, c, n);
    lemma_eight::<F>(num);
    reveal_with_fuel(meaning, 6);
    reveal_with_fuel(rational, 6);
    lemma_meaning(num, by_left(h, b, n, r, c), v);
    lemma_scales(
        meaning(num, lit::<F>(4, 1)),
        4real,
        meaning(num, slope_by_left(h, b, n, r, c, n)),
    );
}

proof fn lemma_entry_right<F: Scalar>(
    num: spec_fn(F) -> real,
    h: F,
    b: Blocks<F>,
    n: int,
    r: int,
    c: int,
    v: F,
)
    requires
        exact(num),
        evaluates(by_right(h, b, n, r, c), v),
    ensures
        num(v) == 1real * delta(r, c) - (num(h) / 6real) * (num(b.jj@[place(n, r, c)]) + 4real
            * total(n, |t: int| row_of(num, b.jm@, n, r)(t) * right_of(num, h, b.jj@, n)(t, c))),
{
    lemma_slope_by_right(num, h, b, n, r, c, n);
    lemma_eight::<F>(num);
    reveal_with_fuel(meaning, 6);
    reveal_with_fuel(rational, 6);
    lemma_meaning(num, by_right(h, b, n, r, c), v);
    lemma_scales(
        meaning(num, lit::<F>(4, 1)),
        4real,
        meaning(num, slope_by_right(h, b, n, r, c, n)),
    );
}

proof fn lemma_entry_param<F: Scalar>(
    num: spec_fn(F) -> real,
    h: F,
    b: Blocks<F>,
    n: int,
    k: int,
    r: int,
    c: int,
    v: F,
)
    requires
        exact(num),
        evaluates(by_param(h, b, n, k, r, c), v),
    ensures
        num(v) == -((num(h) / 6real) * (num(b.jpi@[place(k, r, c)]) + 4real * (num(
            b.jmp@[place(k, r, c)],
        ) + total(
            n,
            |t: int| row_of(num, b.jm@, n, r)(t) * param_of(num, h, b.jpi@, b.jpj@, k)(t, c),
        )) + num(b.jpj@[place(k, r, c)]))),
{
    lemma_slope_by_param(num, h, b, n, k, r, c, n);
    lemma_eight::<F>(num);
    reveal_with_fuel(meaning, 7);
    reveal_with_fuel(rational, 7);
    lemma_meaning(num, by_param(h, b, n, k, r, c), v);
    let s = num(b.jmp@[place(k, r, c)]) + meaning(num, slope_by_param(h, b, n, k, r, c, n));
    lemma_scales(meaning(num, lit::<F>(4, 1)), 4real, s);
    let (w, x) = (
        num(h) / 6real,
        num(b.jpi@[place(k, r, c)]) + 4real * s + num(b.jpj@[place(k, r, c)]),
    );
    assert((-w) * x == -(w * x)) by (nonlinear_arith);
}

/// The part of a row that belongs to one end: `sign * delta - w * (j + 4 jm e)`.
proof fn lemma_end_part(
    n: int,
    sign: real,
    w: real,
    half: real,
    w8: real,
    r: int,
    j: spec_fn(int, int) -> real,
    jm: spec_fn(int) -> real,
    e: spec_fn(int, int) -> real,
    l: spec_fn(int) -> real,
    d: spec_fn(int) -> real,
)
    requires
        0 <= r < n,
        half * 2real == 1real,
        forall|t: int, c: int| #[trigger] e(t, c) == half * delta(t, c) + w8 * j(t, c),
        forall|c: int|
            0 <= c < n ==> #[trigger] l(c) == sign * delta(r, c) - w * (j(r, c) + 4real * total(
                n,
                |t: int| jm(t) * e(t, c),
            )),
    ensures
        total(n, |c: int| l(c) * d(c)) == sign * d(r) - w * (total(n, |c: int| j(r, c) * d(c))
            + 4real * total(
            n,
            |t: int| jm(t) * (d(t) / 2real + w8 * total(n, |c: int| j(t, c) * d(c))),
        )),
{
    let p = |c: int| j(r, c);
    let q = |c: int| total(n, |t: int| jm(t) * e(t, c));
    let f = |c: int| l(c) * d(c);
    let g = |c: int| (sign * delta(r, c) - w * (p(c) + 4real * q(c))) * d(c);
    assert forall|c: int| 0 <= c < n implies #[trigger] f(c) == g(c) by {
        assert(l(c) == sign * delta(r, c) - w * (p(c) + 4real * q(c)));
    }
    lemma_total_same(n, f, g);
    lemma_end_sum(n, sign, w, r, p, q, d);
    lemma_total_inner(n, n, jm, e, d);
    lemma_total_same(
        n,
        |c: int| q(c) * d(c),
        |c: int| total(n, |t: int| jm(t) * e(t, c)) * d(c),
    );
    let a = |t: int| jm(t) * total(n, |c: int| e(t, c) * d(c));
    let b = |t: int| jm(t) * (d(t) / 2real + w8 * total(n, |c: int| j(t, c) * d(c)));
    assert forall|t: int| 0 <= t < n implies #[trigger] a(t) == b(t) by {
        let jt = |c: int| j(t, c);
        lemma_mid_sum(n, half, w8, t, jt, d);
        lemma_total_same(
            n,
            |c: int| e(t, c) * d(c),
            |c: int| (half * delta(t, c) + w8 * jt(c)) * d(c),
        );
        lemma_total_same(n, |c: int| jt(c) * d(c), |c: int| j(t, c) * d(c));
    }
    lemma_total_same(n, a, b);
    lemma_total_same(n, |c: int| p(c) * d(c), |c: int| j(r, c) * d(c));
}

/// The part of a row that belongs to the parameters.
proof fn lemma_param_part(
    n: int,
    k: int,
    w: real,
    w8: real,
    pi: spec_fn(int, int) -> real,
    pj: spec_fn(int, int) -> real,
    pm: spec_fn(int) -> real,
    jm: spec_fn(int) -> real,
    r: int,
    e: spec_fn(int, int) -> real,
    l: spec_fn(int) -> real,
    d: spec_fn(int) -> real,
)
    requires
        forall|t: int, c: int| #[trigger] e(t, c) == (-w8) * (pj(t, c) - pi(t, c)),
        forall|c: int|
            0 <= c < k ==> #[trigger] l(c) == -(w * (pi(r, c) + 4real * (pm(c) + total(
                n,
                |t: int| jm(t) * e(t, c),
            )) + pj(r, c))),
    ensures
        total(k, |c: int| l(c) * d(c)) == -(w * (total(k, |c: int| pi(r, c) * d(c)) + 4real * (
        total(k, |c: int| pm(c) * d(c)) + total(
            n,
            |t: int|
                jm(t) * (w8 * (total(k, |c: int| pi(t, c) * d(c)) - total(
                    k,
                    |c: int| pj(t, c) * d(c),
                ))),
        )) + total(k, |c: int| pj(r, c) * d(c)))),
{
    let q = |c: int| total(n, |t: int| jm(t) * e(t, c));
    let f = |c: int| l(c) * d(c);
    let a = |c: int| pi(r, c) * d(c);
    let b = |c: int| pm(c) * d(c);
    let z = |c: int| pj(r, c) * d(c);
    let qd = |c: int| q(c) * d(c);
    let bq = |c: int| b(c) + qd(c);
    let bq4 = |c: int| 4real * bq(c);
    let abq = |c: int| a(c) + bq4(c);
    let all = |c: int| abq(c) + z(c);
    let g = |c: int| (-w) * all(c);
    assert forall|c: int| 0 <= c < k implies #[trigger] f(c) == g(c) by {
        let s = pm(c) + q(c);
        let x = pi(r, c) + 4real * s + pj(r, c);
        assert(l(c) == -(w * x));
        assert((-w) * x == -(w * x)) by (nonlinear_arith);
        lemma_reorders(-w, x, d(c));
        lemma_distributes(d(c), pi(r, c) + 4real * s, pj(r, c));
        lemma_distributes(d(c), pi(r, c), 4real * s);
        lemma_reorders(4real, s, d(c));
        lemma_distributes(d(c), pm(c), q(c));
        assert(x * d(c) == all(c));
        lemma_scales(l(c), (-w) * x, d(c));
    }
    lemma_total_same(k, f, g);
    lemma_total_scale(k, -w, all);
    lemma_total_plus(k, abq, z);
    lemma_total_plus(k, a, bq4);
    lemma_total_scale(k, 4real, bq);
    lemma_total_plus(k, b, qd);
    lemma_total_inner(k, n, jm, e, d);
    lemma_total_same(k, qd, |c: int| total(n, |t: int| jm(t) * e(t, c)) * d(c));
    let u = |t: int| jm(t) * total(k, |c: int| e(t, c) * d(c));
    let v = |t: int|
        jm(t) * (w8 * (total(k, |c: int| pi(t, c) * d(c)) - total(k, |c: int| pj(t, c) * d(c))));
    assert forall|t: int| 0 <= t < n implies #[trigger] u(t) == v(t) by {
        let x = |c: int| pi(t, c) * d(c);
        let y = |c: int| pj(t, c) * d(c);
        let xy = |c: int| x(c) - y(c);
        let ed = |c: int| e(t, c) * d(c);
        let wxy = |c: int| w8 * xy(c);
        assert forall|c: int| 0 <= c < k implies #[trigger] ed(c) == wxy(c) by {
            let (m, o) = (pj(t, c), pi(t, c));
            assert((-w8) * (m - o) == w8 * (o - m)) by (nonlinear_arith);
            lemma_reorders(w8, o - m, d(c));
            lemma_distributes(d(c), o, m);
            assert(e(t, c) == w8 * (o - m));
        }
        lemma_total_same(k, ed, wxy);
        lemma_total_scale(k, w8, xy);
        lemma_total_plus(k, x, y);
    }
    lemma_total_same(n, u, v);
    let whole = total(k, all);
    assert((-w) * whole == -(w * whole)) by (nonlinear_arith);
}

/// A row of the derivative that belongs to collocation: for every change of the unknowns,
/// its product with the change is how the equation changes, by the derivatives of the
/// right-hand side at the ends and at the midpoint.
#[verifier::spinoff_prover]
#[verifier::rlimit(40)]
pub proof fn law_collocation_row_is_derivative<F: Scalar>(
    num: spec_fn(F) -> real,
    h: F,
    b: Blocks<F>,
    n: int,
    k: int,
    ny: int,
    i: int,
    r: int,
    row: Seq<F>,
    d: spec_fn(int) -> real,
)
    requires
        exact(num),
        0 <= k,
        0 <= r < n,
        0 <= i * n,
        i * n + n + n <= ny,
        collocation_row(h, b, n, k, ny, i, r, row),
    ensures
        total(ny + k, |c: int| num(row[c]) * d(c)) == collocation_change(
            num,
            num(h),
            b,
            n,
            k,
            r,
            |c: int| d(i * n + c),
            |c: int| d(i * n + n + c),
            |c: int| d(ny + c),
        ),
{
    let f = |c: int| num(row[c]) * d(c);
    let lo = i * n;
    let di = |c: int| d(i * n + c);
    let dj = |c: int| d(i * n + n + c);
    let dp = |c: int| d(ny + c);
    let rest = ny - (lo + n + n);
    lemma_eight::<F>(num);
    let half = meaning(num, lit::<F>(1, 2));
    let (w, w8) = (num(h) / 6real, num(h) / 8real);
    lemma_total_split(ny, k, f);
    lemma_total_split(lo + n + n, rest, f);
    lemma_total_split(lo + n, n, f);
    lemma_total_split(lo, n, f);
    assert forall|c: int| 0 <= c < lo implies #[trigger] f(c) == 0real by {
        assert(collocation_entry(h, b, n, k, ny, i, r, c, row[c]));
        lemma_scales(num(row[c]), 0real, d(c));
    }
    lemma_total_zero(lo, f);
    let g = |c: int| f(lo + n + n + c);
    assert forall|c: int| 0 <= c < rest implies #[trigger] g(c) == 0real by {
        let q = lo + n + n + c;
        assert(collocation_entry(h, b, n, k, ny, i, r, q, row[q]));
        lemma_scales(num(row[q]), 0real, d(q));
    }
    lemma_total_zero(rest, g);
    let jm = row_of(num, b.jm@, n, r);
    let ji = |t: int, c: int| num(b.ji@[place(n, t, c)]);
    let jj = |t: int, c: int| num(b.jj@[place(n, t, c)]);
    let ll = |c: int| num(row[lo + c]);
    let lr = |c: int| num(row[lo + n + c]);
    let lp = |c: int| num(row[ny + c]);
    let el = left_of(num, h, b.ji@, n);
    let er = right_of(num, h, b.jj@, n);
    assert forall|c: int| 0 <= c < n implies #[trigger] ll(c) == (-1real) * delta(r, c) - w * (ji(
        r,
        c,
    ) + 4real * total(n, |t: int| jm(t) * el(t, c))) by {
        assert(collocation_entry(h, b, n, k, ny, i, r, lo + c, row[lo + c]));
        lemma_entry_left(num, h, b, n, r, c, row[lo + c]);
    }
    lemma_end_part(n, -1real, w, half, w8, r, ji, jm, el, ll, di);
    assert forall|c: int| 0 <= c < n implies #[trigger] lr(c) == 1real * delta(r, c) - w * (jj(
        r,
        c,
    ) + 4real * total(n, |t: int| jm(t) * er(t, c))) by {
        assert(collocation_entry(h, b, n, k, ny, i, r, lo + n + c, row[lo + n + c]));
        lemma_entry_right(num, h, b, n, r, c, row[lo + n + c]);
    }
    lemma_end_part(n, 1real, w, half, -w8, r, jj, jm, er, lr, dj);
    let pi = |t: int, c: int| num(b.jpi@[place(k, t, c)]);
    let pj = |t: int, c: int| num(b.jpj@[place(k, t, c)]);
    let pm = |c: int| num(b.jmp@[place(k, r, c)]);
    let ep = param_of(num, h, b.jpi@, b.jpj@, k);
    assert forall|c: int| 0 <= c < k implies #[trigger] lp(c) == -(w * (pi(r, c) + 4real * (pm(c)
        + total(n, |t: int| jm(t) * ep(t, c))) + pj(r, c))) by {
        assert(collocation_entry(h, b, n, k, ny, i, r, ny + c, row[ny + c]));
        lemma_entry_param(num, h, b, n, k, r, c, row[ny + c]);
    }
    lemma_param_part(n, k, w, w8, pi, pj, pm, jm, r, ep, lp, dp);
    lemma_total_same(n, |c: int| f(lo + c), |c: int| ll(c) * di(c));
    lemma_total_same(n, |c: int| f(lo + n + c), |c: int| lr(c) * dj(c));
    lemma_total_same(k, |c: int| f(ny + c), |c: int| lp(c) * dp(c));
    lemma_collect(num, h, b, n, k, r, di, dj, dp);
}

/// Collects the parts of a row.
proof fn lemma_collect<F: Scalar>(
    num: spec_fn(F) -> real,
    h: F,
    b: Blocks<F>,
    n: int,
    k: int,
    r: int,
    di: spec_fn(int) -> real,
    dj: spec_fn(int) -> real,
    dp: spec_fn(int) -> real,
)
    ensures
        ({
            let (w, w8) = (num(h) / 6real, num(h) / 8real);
            let jm = row_of(num, b.jm@, n, r);
            let ji = |t: int, c: int| num(b.ji@[place(n, t, c)]);
            let jj = |t: int, c: int| num(b.jj@[place(n, t, c)]);
            let pi = |t: int, c: int| num(b.jpi@[place(k, t, c)]);
            let pj = |t: int, c: int| num(b.jpj@[place(k, t, c)]);
            let pm = |c: int| num(b.jmp@[place(k, r, c)]);
            collocation_change(num, num(h), b, n, k, r, di, dj, dp) == ((-1real) * di(r) - w * (
            total(n, |c: int| ji(r, c) * di(c)) + 4real * total(
                n,
                |t: int| jm(t) * (di(t) / 2real + w8 * total(n, |c: int| ji(t, c) * di(c))),
            ))) + (1real * dj(r) - w * (total(n, |c: int| jj(r, c) * dj(c)) + 4real * total(
                n,
                |t: int| jm(t) * (dj(t) / 2real + (-w8) * total(n, |c: int| jj(t, c) * dj(c))),
            ))) + -(w * (total(k, |c: int| pi(r, c) * dp(c)) + 4real * (total(
                k,
                |c: int| pm(c) * dp(c),
            ) + total(
                n,
                |t: int|
                    jm(t) * (w8 * (total(k, |c: int| pi(t, c) * dp(c)) - total(
                        k,
                        |c: int| pj(t, c) * dp(c),
                    ))),
            )) + total(k, |c: int| pj(r, c) * dp(c))))
        }),
{
    let (w, w8) = (num(h) / 6real, num(h) / 8real);
    let jm = row_of(num, b.jm@, n, r);
    let ji = |t: int, c: int| num(b.ji@[place(n, t, c)]);
    let jj = |t: int, c: int| num(b.jj@[place(n, t, c)]);
    let pi = |t: int, c: int| num(b.jpi@[place(k, t, c)]);
    let pj = |t: int, c: int| num(b.jpj@[place(k, t, c)]);
    let pm = |c: int| num(b.jmp@[place(k, r, c)]);
    let ai = |t: int| total(n, |c: int| ji(t, c) * di(c));
    let aj = |t: int| total(n, |c: int| jj(t, c) * dj(c));
    let bi = |t: int| total(k, |c: int| pi(t, c) * dp(c));
    let bj = |t: int| total(k, |c: int| pj(t, c) * dp(c));
    let mid = |s: int| mid_change(num, num(h), b, n, k, s, di, dj, dp);
    let x = |t: int| jm(t) * (di(t) / 2real + w8 * ai(t));
    let y = |t: int| jm(t) * (dj(t) / 2real + (-w8) * aj(t));
    let z = |t: int| jm(t) * (w8 * (bi(t) - bj(t)));
    let xy = |t: int| x(t) + y(t);
    let xyz = |t: int| xy(t) + z(t);
    let m = |t: int| jm(t) * mid(t);
    assert forall|t: int| 0 <= t < n implies #[trigger] m(t) == xyz(t) by {
        lemma_total_same(
            n,
            |c: int| num(b.ji@[place(n, t, c)]) * di(c),
            |c: int| ji(t, c) * di(c),
        );
        lemma_total_same(
            n,
            |c: int| num(b.jj@[place(n, t, c)]) * dj(c),
            |c: int| jj(t, c) * dj(c),
        );
        lemma_total_same(
            k,
            |c: int| num(b.jpi@[place(k, t, c)]) * dp(c),
            |c: int| pi(t, c) * dp(c),
        );
        lemma_total_same(
            k,
            |c: int| num(b.jpj@[place(k, t, c)]) * dp(c),
            |c: int| pj(t, c) * dp(c),
        );
        let (u, v) = (ai(t) + bi(t), aj(t) + bj(t));
        assert(mid(t) == (di(t) + dj(t)) / 2real + w8 * (u - v));
        lemma_distributes(w8, u, v);
        lemma_distributes(w8, ai(t), bi(t));
        lemma_distributes(w8, aj(t), bj(t));
        lemma_distributes(w8, bi(t), bj(t));
        let q = aj(t);
        assert((-w8) * q == -(w8 * q)) by (nonlinear_arith);
        let (p1, p2, p3) = (
            di(t) / 2real + w8 * ai(t),
            dj(t) / 2real + (-w8) * aj(t),
            w8 * (bi(t) - bj(t)),
        );
        assert(mid(t) == p1 + p2 + p3);
        lemma_distributes(jm(t), p1 + p2, p3);
        lemma_distributes(jm(t), p1, p2);
    }
    lemma_total_same(n, m, xyz);
    lemma_total_plus(n, xy, z);
    lemma_total_plus(n, x, y);
    lemma_total_same(n, |c: int| num(b.jm@[place(n, r, c)]) * mid(c), m);
    lemma_total_same(n, |c: int| num(b.ji@[place(n, r, c)]) * di(c), |c: int| ji(r, c) * di(c));
    lemma_total_same(n, |c: int| num(b.jj@[place(n, r, c)]) * dj(c), |c: int| jj(r, c) * dj(c));
    lemma_total_same(k, |c: int| num(b.jpi@[place(k, r, c)]) * dp(c), |c: int| pi(r, c) * dp(c));
    lemma_total_same(k, |c: int| num(b.jpj@[place(k, r, c)]) * dp(c), |c: int| pj(r, c) * dp(c));
    lemma_total_same(k, |c: int| num(b.jmp@[place(k, r, c)]) * dp(c), |c: int| pm(c) * dp(c));
    lemma_total_same(
        n,
        x,
        |t: int| jm(t) * (di(t) / 2real + w8 * total(n, |c: int| ji(t, c) * di(c))),
    );
    lemma_total_same(
        n,
        y,
        |t: int| jm(t) * (dj(t) / 2real + (-w8) * total(n, |c: int| jj(t, c) * dj(c))),
    );
    lemma_total_same(
        n,
        z,
        |t: int|
            jm(t) * (w8 * (total(k, |c: int| pi(t, c) * dp(c)) - total(
                k,
                |c: int| pj(t, c) * dp(c),
            ))),
    );
    let (sx, sy, sz) = (total(n, x), total(n, y), total(n, z));
    let mm = total(k, |c: int| pm(c) * dp(c));
    let s1 = ai(r) + 4real * sx;
    let s2 = aj(r) + 4real * sy;
    let s3 = bi(r) + 4real * (mm + sz) + bj(r);
    lemma_distributes(w, s1 + s2, s3);
    lemma_distributes(w, s1, s2);
    assert(collocation_change(num, num(h), b, n, k, r, di, dj, dp) == dj(r) - di(r) - w * (s1 + s2
        + s3));
}

/// A row of the derivative that belongs to the boundary conditions: its product with a
/// change is how the condition changes with the solution at both ends and the parameters.
pub proof fn law_boundary_row_is_derivative<F: Scalar>(
    num: spec_fn(F) -> real,
    ba: Seq<F>,
    bb: Seq<F>,
    bp: Seq<F>,
    n: int,
    k: int,
    last: int,
    r: int,
    row: Seq<F>,
    d: spec_fn(int) -> real,
)
    requires
        exact(num),
        0 <= k,
        0 <= n <= last,
        boundary_row(ba, bb, bp, n, k, last, r, row),
    ensures
        total(last + n + k, |c: int| num(row[c]) * d(c)) == total(
            n,
            |c: int| num(ba[place(n, r, c)]) * d(c),
        ) + total(n, |c: int| num(bb[place(n, r, c)]) * d(last + c)) + total(
            k,
            |c: int| num(bp[place(k, r, c)]) * d(last + n + c),
        ),
{
    let f = |c: int| num(row[c]) * d(c);
    let mid = last - n;
    lemma_total_split(last + n, k, f);
    lemma_total_split(last, n, f);
    lemma_total_split(n, mid, f);
    let a = |c: int| num(ba[place(n, r, c)]) * d(c);
    assert forall|c: int| 0 <= c < n implies #[trigger] f(c) == a(c) by {
        assert(boundary_entry(ba, bb, bp, n, k, last, r, c, row[c]));
    }
    lemma_total_same(n, f, a);
    let g = |c: int| f(n + c);
    assert forall|c: int| 0 <= c < mid implies #[trigger] g(c) == 0real by {
        assert(boundary_entry(ba, bb, bp, n, k, last, r, n + c, row[n + c]));
        lemma_scales(num(row[n + c]), 0real, d(n + c));
    }
    lemma_total_zero(mid, g);
    let e = |c: int| f(last + c);
    let b = |c: int| num(bb[place(n, r, c)]) * d(last + c);
    assert forall|c: int| 0 <= c < n implies #[trigger] e(c) == b(c) by {
        assert(boundary_entry(ba, bb, bp, n, k, last, r, last + c, row[last + c]));
    }
    lemma_total_same(n, e, b);
    let u = |c: int| f(last + n + c);
    let p = |c: int| num(bp[place(k, r, c)]) * d(last + n + c);
    assert forall|c: int| 0 <= c < k implies #[trigger] u(c) == p(c) by {
        assert(boundary_entry(ba, bb, bp, n, k, last, r, last + n + c, row[last + n + c]));
    }
    lemma_total_same(k, u, p);
}

/// The derivatives of the right-hand side that the equations of interval `i` depend on: at
/// its left end, at its right end and at its midpoint, where the values are `ym`.
pub open spec fn derivatives_at<F: Scalar, P: BvpEquations<F>>(
    num: spec_fn(F) -> real,
    f: BvpFns<F, P>,
    x: Seq<F>,
    y: Seq<F>,
    p: Seq<F>,
    fval: Seq<F>,
    i: int,
    xm: F,
    ym: Seq<F>,
    b: Blocks<F>,
) -> bool {
    let n = f.n_eq as int;
    let (yi, yj) = (y.subrange(i * n, i * n + n), y.subrange(i * n + n, i * n + n + n));
    &&& 2real * num(xm) == num(x[i]) + num(x[i + 1])
    &&& ym.len() == n
    &&& forall|k: int|
        #![trigger ym[k]]
        0 <= k < n ==> interpolates(
            num,
            x,
            y,
            fval,
            n,
            k,
            num(xm),
            num(ym[k]),
        )
    &&& fy_gives(f.equations, x[i], yi, p, b.ji@)
    &&& fy_gives(f.equations, x[i + 1], yj, p, b.jj@)
    &&& fy_gives(f.equations, xm, ym, p, b.jm@)
    &&& f.n_params > 0 ==> {
        &&& fp_gives(f.equations, x[i], yi, p, b.jpi@)
        &&& fp_gives(f.equations, x[i + 1], yj, p, b.jpj@)
        &&& fp_gives(f.equations, xm, ym, p, b.jmp@)
    }
}

/// Row `i * n + r` of the derivative, times a change of the unknowns, is how collocation
/// equation `r` of interval `i` changes.
pub open spec fn interval_row_follows<F: Scalar, P: BvpEquations<F>>(
    num: spec_fn(F) -> real,
    f: BvpFns<F, P>,
    x: Seq<F>,
    jac: Seq<F>,
    i: int,
    r: int,
    b: Blocks<F>,
    d: spec_fn(int) -> real,
) -> bool {
    let (n, k) = (f.n_eq as int, f.n_params as int);
    let ny = x.len() * n;
    total(ny + k, |c: int| num(jac[place(ny + k, i * n + r, c)]) * d(c)) == collocation_change(
        num,
        num(x[i + 1]) - num(x[i]),
        b,
        n,
        k,
        r,
        |c: int| d(i * n + c),
        |c: int| d(i * n + n + c),
        |c: int| d(ny + c),
    )
}

/// The rows of the derivative from `i * n` on are those of the collocation equations of
/// interval `i`: their products with a change of the unknowns are how the equations change,
/// by the derivatives of the right-hand side at the ends and at the midpoint.
pub proof fn law_interval_rows<F: Scalar, P: BvpEquations<F>>(
    num: spec_fn(F) -> real,
    f: BvpFns<F, P>,
    x: Seq<F>,
    y: Seq<F>,
    p: Seq<F>,
    fval: Seq<F>,
    jac: Seq<F>,
    i: int,
    d: spec_fn(int) -> real,
) -> (w: (F, Seq<F>, Blocks<F>))
    requires
        exact(num),
        ascends(num, x),
        y.len() == x.len() * f.n_eq,
        fval.len() == x.len() * f.n_eq,
        f.n_bc + f.n_ic == f.n_eq + f.n_params,
        0 <= i < x.len() - 1,
        jacobian_is(f, x, y, p, fval, jac),
    ensures
        derivatives_at(num, f, x, y, p, fval, i, w.0, w.1, w.2),
        forall|r: int|
            0 <= r < f.n_eq ==> #[trigger] interval_row_follows(num, f, x, jac, i, r, w.2, d),
{
    let (n, k) = (f.n_eq as int, f.n_params as int);
    let ny = x.len() * n;
    let ndof = f.unknowns(x.len() as int);
    assert(interval_rows(f, x, y, p, fval, i, i * n, jac));
    let (iv, b) = choose|iv: Interval<F>, b: Blocks<F>| #[trigger]
        interval_data(f, x, y, p, fval, i, iv, b) && forall|r: int|
            0 <= r < n ==> collocation_row(
                iv.h,
                b,
                n,
                k,
                ny,
                i,
                r,
                #[trigger] row_at(jac, ny + k, i * n, r),
            );
    assert(num(x[i]) < num(x[i + 1]));
    lemma_node_bounds(x.len() as int, i, n);
    lemma_node_bounds(x.len() as int, i + 1, n);
    assert((i + 1) * n == i * n + n) by (nonlinear_arith);
    lemma_mid(num, x[i], x[i + 1], iv.h, iv.xm);
    assert forall|q: int|
        #![trigger iv.ym@[q]]
        0 <= q < n implies interpolates(num, x, y, fval, n, q, num(iv.xm), num(iv.ym@[q])) by {
        lemma_mid_interpolates(num, x, y, fval, n, i, q, iv);
    }
    assert forall|r: int| 0 <= r < n implies #[trigger] interval_row_follows(
        num,
        f,
        x,
        jac,
        i,
        r,
        b,
        d,
    ) by {
        let row = row_at(jac, ndof, i * n, r);
        assert(collocation_row(iv.h, b, n, k, ny, i, r, row));
        law_collocation_row_is_derivative(num, iv.h, b, n, k, ny, i, r, row, d);
        assert(i * n + r < ndof) by (nonlinear_arith)
            requires
                0 <= r < n,
                0 <= i,
                i + 1 < x.len(),
                ndof == x.len() * n + k,
                k >= 0,
        ;
        lemma_node_bounds(ndof, i * n + r, ndof);
        let a = |c: int| num(jac[place(ndof, i * n + r, c)]) * d(c);
        let e = |c: int| num(row[c]) * d(c);
        assert forall|c: int| 0 <= c < ndof implies #[trigger] a(c) == e(c) by {
            assert(row[c] == jac[place(ndof, i * n + r, c)]);
        }
        lemma_total_same(ndof, a, e);
    }
    (iv.xm, iv.ym@, b)
}

} // verus!
