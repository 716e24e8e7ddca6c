//! Laws of the residuals that decide on refinement, where arithmetic is exact: they measure
//! by how much the slopes of the cubics miss the right-hand side between the nodes.

use vstd::prelude::*;

use crate::algebra::{
    lemma_cancels, lemma_distributes, lemma_quotient, lemma_reorders, lemma_scales, lemma_square,
    lemma_weighted, total,
};
use crate::exact::{exact, lemma_literal, lemma_meaning, meaning, rational, size};
use crate::expr::{evaluates, lit, val, Term};
use crate::optim::colloc::cubic::{ascends, lemma_cubic_between, lemma_mid, Cubic};
use crate::optim::colloc::mesh::{
    cube, left_slope, left_value, lemma_node_bounds, right_slope, right_value, square,
};
use crate::optim::colloc::problem::{fun_gives, BvpEquations, BvpFns};
use crate::optim::colloc::residual::{interval_is, Interval};
use crate::optim::colloc::solve::{
    cubic_slope, cubic_value, interval_misfit, largest_of, misfit, misfit_with, mismatch, off,
    slope_scale, test_offset, test_place, test_point_is, TestPoint,
};
use crate::scalar::{divs, muls, ratios, roots, Scalar};

verus! {

/// The largest of zero and the first `k` values.
pub proof fn law_largest_bounds<F: Scalar>(
    num: spec_fn(F) -> real,
    v: Seq<F>,
    k: int,
    r: F,
)
    requires
        exact(num),
        evaluates(largest_of(v, k), r),
    ensures
        num(r) >= 0real,
        forall|i: int| 0 <= i < k ==> num(#[trigger] v[i]) <= num(r),
        num(r) == 0real || exists|i: int| 0 <= i < k && num(#[trigger] v[i]) == num(r),
{
    lemma_largest(num, v, k);
    lemma_meaning(num, largest_of(v, k), r);
}

proof fn lemma_largest<F: Scalar>(num: spec_fn(F) -> real, v: Seq<F>, k: int)
    ensures
        rational(num, largest_of(v, k)),
        meaning(num, largest_of(v, k)) >= 0real,
        forall|i: int| 0 <= i < k ==> num(#[trigger] v[i]) <= meaning(num, largest_of(v, k)),
        meaning(num, largest_of(v, k)) == 0real || exists|i: int|
            0 <= i < k && num(#[trigger] v[i]) == meaning(num, largest_of(v, k)),
    decreases k,
{
    if k > 0 {
        lemma_largest(num, v, k - 1);
        reveal_with_fuel(meaning, 3);
        reveal_with_fuel(rational, 3);
        let (a, b) = (meaning(num, largest_of(v, k - 1)), num(v[k - 1]));
        if b > a {
            assert(num(v[k - 1]) == meaning(num, largest_of(v, k)));
        }
    }
}

/// The test points lie half the root of three sevenths off the middle of the interval.
proof fn lemma_offset<F: Scalar>(num: spec_fn(F) -> real, s: F)
    requires
        exact(num),
        evaluates(test_offset::<F>(), s),
    ensures
        num(s) >= 0real,
        28real * (num(s) * num(s)) == 3real,
{
    reveal_with_fuel(evaluates, 3);
    let root = lit::<F>(3, 7).root();
    let (h, q) = choose|h: F, q: F| #[trigger]
        muls(h, q, s) && evaluates(lit::<F>(1, 2), h) && evaluates(root, q);
    assert(ratios(1, 2, h));
    let m = choose|m: F| #[trigger] roots(m, q) && evaluates(lit::<F>(3, 7), m);
    assert(ratios(3, 7, m));
    assert(1u64 as real == 1real && 2u64 as real == 2real && 3u64 as real == 3real && 7u64 as real
        == 7real);
    let (a, b, c) = (num(h), num(q), num(s));
    assert(num(m) * 7real == 3real);
    assert(b >= 0real && b * b == num(m));
    assert(c == a * b);
    assert(2real * a == 1real);
    lemma_scales(2real * a, 1real, b);
    lemma_reorders(2real, a, b);
    assert(2real * c == b);
    lemma_scales(2real * c, b, b);
    lemma_reorders(b, 2real * c, 1real);
    lemma_reorders(2real, c, b);
    lemma_scales(b, 2real * c, c);
    lemma_reorders(c, b, 1real);
    lemma_reorders(2real, c, c);
}

/// A test point of interval `i`, at the fraction `t` of it: there are the values `yt` and
/// the slopes `dyt` of the piecewise cubic, and the right-hand side `ft`.
pub open spec fn tests_at<F: Scalar, P: BvpEquations<F>>(
    num: spec_fn(F) -> real,
    f: BvpFns<F, P>,
    x: Seq<F>,
    y: Seq<F>,
    p: Seq<F>,
    fval: Seq<F>,
    i: int,
    t: real,
    xt: F,
    yt: Seq<F>,
    dyt: Seq<F>,
    ft: Seq<F>,
) -> bool {
    let n = f.n_eq as int;
    &&& num(xt) == num(x[i]) + t * (num(x[i + 1]) - num(x[i]))
    &&& yt.len() == n
    &&& dyt.len() == n
    &&& fun_gives(f.equations, xt, yt, p, ft)
    &&& forall|k: int| 0 <= k < n ==> #[trigger] lies_on_cubic(num, x, y, fval, n, i, k, t, yt, dyt)
}

/// Component `k` at the fraction `t` of interval `i` has the value and the slope of the
/// cubic of the interval.
pub open spec fn lies_on_cubic<F>(
    num: spec_fn(F) -> real,
    x: Seq<F>,
    y: Seq<F>,
    fval: Seq<F>,
    n: int,
    i: int,
    k: int,
    t: real,
    yt: Seq<F>,
    dyt: Seq<F>,
) -> bool {
    let h = num(x[i + 1]) - num(x[i]);
    exists|c: Cubic| #[trigger]
        c.joins(
            h,
            num(y[i * n + k]),
            num(y[(i + 1) * n + k]),
            num(fval[i * n + k]),
            num(fval[(i + 1) * n + k]),
        ) && num(yt[k]) == c.at(t * h) && num(dyt[k]) == c.slope(t * h)
}

proof fn lemma_test_values<F: Scalar>(
    num: spec_fn(F) -> real,
    yi: F,
    yj: F,
    fi: F,
    fj: F,
    h: F,
    t: F,
    t2: F,
    t3: F,
    v: F,
    dv: F,
) -> (c: Cubic)
    requires
        exact(num),
        num(h) > 0real,
        evaluates(square(t), t2),
        evaluates(cube(t), t3),
        evaluates(cubic_value(yi, yj, fi, fj, h, t, t2, t3), v),
        evaluates(cubic_slope(yi, yj, fi, fj, h, t, t2), dv),
    ensures
        c.joins(num(h), num(yi), num(yj), num(fi), num(fj)),
        num(v) == c.at(num(t) * num(h)),
        num(dv) == c.slope(num(t) * num(h)),
{
    reveal_with_fuel(meaning, 11);
    reveal_with_fuel(rational, 11);
    lemma_literal::<F>(num, 1, 1);
    lemma_literal::<F>(num, 2, 1);
    lemma_literal::<F>(num, 3, 1);
    lemma_literal::<F>(num, 4, 1);
    lemma_literal::<F>(num, 6, 1);
    assert(1u64 as real == 1real && 2u64 as real == 2real && 3u64 as real == 3real && 4u64 as real
        == 4real && 6u64 as real == 6real);
    lemma_meaning(num, square(t), t2);
    lemma_meaning(num, cube(t), t3);
    lemma_meaning(num, cubic_value(yi, yj, fi, fj, h, t, t2, t3), v);
    lemma_meaning(num, cubic_slope(yi, yj, fi, fj, h, t, t2), dv);
    let (two, three, four, six) = (
        meaning(num, lit::<F>(2, 1)),
        meaning(num, lit::<F>(3, 1)),
        meaning(num, lit::<F>(4, 1)),
        meaning(num, lit::<F>(6, 1)),
    );
    let (u, u2, u3, e) = (num(t), num(t2), num(t3), num(h));
    let (a, b, p, q) = (num(yi), num(yj), num(fi), num(fj));
    lemma_scales(three, 3real, u2);
    lemma_scales(two, 2real, u3);
    lemma_scales(two, 2real, u2);
    lemma_scales(four, 4real, u);
    lemma_scales(six, 6real, u);
    lemma_scales(six, 6real, u2);
    lemma_scales(-six, -6real, u);
    lemma_scales(-two, -2real, u);
    let w0 = meaning(num, left_value(t2, t3));
    let w1 = meaning(num, right_value(t2, t3));
    let w2 = meaning(num, left_slope(t, t2, t3));
    let w3 = meaning(num, right_slope(t2, t3));
    assert(w0 == 1real - 3real * u2 + 2real * u3);
    assert(w1 == 3real * u2 - 2real * u3);
    assert(w2 == u - 2real * u2 + u3);
    assert(w3 == -u2 + u3);
    assert(num(v) == a * w0 + b * w1 + (e * p) * w2 + (e * q) * w3);
    lemma_weighted(w0, u, u2, u3, a, 1real, 0real, -3real, 2real);
    lemma_weighted(w1, u, u2, u3, b, 0real, 0real, 3real, -2real);
    lemma_weighted(w2, u, u2, u3, e * p, 0real, 1real, -2real, 1real);
    lemma_weighted(w3, u, u2, u3, e * q, 0real, 0real, -1real, 1real);
    lemma_reorders(a, w0, 1real);
    lemma_reorders(b, w1, 1real);
    lemma_reorders(e * p, w2, 1real);
    lemma_reorders(e * q, w3, 1real);
    let s0 = -6real * u + 6real * u2;
    let s1 = 6real * u - 6real * u2;
    let s2 = 1real - 4real * u + 3real * u2;
    let s3 = -2real * u + 3real * u2;
    let top = a * s0 + b * s1;
    assert((-six) * u + six * u2 == s0);
    assert(num(dv) == top / e + p * s2 + q * s3);
    lemma_quotient(top, e);
    lemma_reorders(e, top / e, 1real);
    lemma_distributes(e, top / e + p * s2, q * s3);
    lemma_distributes(e, top / e, p * s2);
    lemma_reorders(e, p, s2);
    lemma_reorders(e, q, s3);
    lemma_weighted(s0, u, u2, u3, a, 0real, -6real, 6real, 0real);
    lemma_weighted(s1, u, u2, u3, b, 0real, 6real, -6real, 0real);
    lemma_weighted(s2, u, u2, u3, e * p, 1real, -4real, 3real, 0real);
    lemma_weighted(s3, u, u2, u3, e * q, 0real, -2real, 3real, 0real);
    lemma_reorders(a, s0, 1real);
    lemma_reorders(b, s1, 1real);
    lemma_reorders(e * p, s2, 1real);
    lemma_reorders(e * q, s3, 1real);
    let c = lemma_cubic_between(e, a, b, p, q, u);
    assert(u2 == u * u);
    assert(u3 == u * u * u);
    assert(num(v) == c.at(u * e));
    assert(e * num(dv) == e * c.slope(u * e));
    lemma_cancels(e, num(dv), c.slope(u * e));
    c
}

/// A test point of an interval lies on the cubics of the interval, at its fraction.
proof fn lemma_tests_at<F: Scalar, P: BvpEquations<F>>(
    num: spec_fn(F) -> real,
    f: BvpFns<F, P>,
    x: Seq<F>,
    y: Seq<F>,
    p: Seq<F>,
    fval: Seq<F>,
    i: int,
    iv: Interval<F>,
    s: F,
    right: bool,
    tp: TestPoint<F>,
)
    requires
        exact(num),
        0 <= i < x.len() - 1,
        num(x[i]) < num(x[i + 1]),
        y.len() == x.len() * f.n_eq,
        fval.len() == x.len() * f.n_eq,
        interval_is(x, y, fval, f.n_eq as int, i, iv),
        test_point_is(f, p, x[i], iv, s, right, tp),
    ensures
        tests_at(num, f, x, y, p, fval, i, num(tp.t), tp.xt, tp.yt@, tp.dyt@, tp.ft@),
        2real * num(tp.t) == if right {
            1real + 2real * num(s)
        } else {
            1real - 2real * num(s)
        },
{
    let n = f.n_eq as int;
    lemma_mid(num, x[i], x[i + 1], iv.h, iv.xm);
    assert(2real * num(tp.t) == if right {
        1real + 2real * num(s)
    } else {
        1real - 2real * num(s)
    } && num(tp.xt) == num(x[i]) + num(tp.t) * num(iv.h)) by {
        reveal_with_fuel(meaning, 4);
        reveal_with_fuel(rational, 4);
        lemma_literal::<F>(num, 1, 2);
        assert(1u64 as real == 1real && 2u64 as real == 2real);
        lemma_meaning(num, test_place(s, right), tp.t);
        lemma_meaning(num, val(x[i]).plus(val(tp.t).times(val(iv.h))), tp.xt);
    }
    lemma_node_bounds(x.len() as int, i, n);
    lemma_node_bounds(x.len() as int, i + 1, n);
    assert forall|k: int| 0 <= k < n implies #[trigger] lies_on_cubic(
        num,
        x,
        y,
        fval,
        n,
        i,
        k,
        num(tp.t),
        tp.yt@,
        tp.dyt@,
    ) by {
        let (yi, yj) = (y[i * n + k], y[(i + 1) * n + k]);
        let (fi, fj) = (fval[i * n + k], fval[(i + 1) * n + k]);
        assert(iv.yi@[k] == yi && iv.yj@[k] == yj && iv.fi@[k] == fi && iv.fj@[k] == fj);
        assert(evaluates(
            cubic_value(yi, yj, fi, fj, iv.h, tp.t, tp.t2, tp.t3),
            tp.yt@[k],
        ));
        assert(evaluates(cubic_slope(yi, yj, fi, fj, iv.h, tp.t, tp.t2), tp.dyt@[k]));
        let c = lemma_test_values(
            num,
            yi,
            yj,
            fi,
            fj,
            iv.h,
            tp.t,
            tp.t2,
            tp.t3,
            tp.yt@[k],
            tp.dyt@[k],
        );
    }
}

/// By how much slopes are off, squared and summed.
pub open spec fn off_squares<F>(num: spec_fn(F) -> real, dyt: Seq<F>, ft: Seq<F>, n: int) -> real {
    total(n, |k: int| (num(dyt[k]) - num(ft[k])) * (num(dyt[k]) - num(ft[k])))
}

proof fn lemma_mismatch<F: Scalar>(
    num: spec_fn(F) -> real,
    from: Term<F>,
    tp: TestPoint<F>,
    k: int,
)
    requires
        rational(num, from),
        meaning(num, from) >= 0real,
    ensures
        rational(num, mismatch(from, tp, k)),
        meaning(num, mismatch(from, tp, k)) == meaning(num, from) + off_squares(
            num,
            tp.dyt@,
            tp.ft@,
            k,
        ),
        meaning(num, mismatch(from, tp, k)) >= 0real,
    decreases k,
{
    let f = |k: int| (num(tp.dyt@[k]) - num(tp.ft@[k])) * (num(tp.dyt@[k]) - num(tp.ft@[k]));
    if k > 0 {
        lemma_mismatch(num, from, tp, k - 1);
        reveal_with_fuel(meaning, 4);
        reveal_with_fuel(rational, 4);
        assert(meaning(num, off(tp.dyt@[k - 1], tp.ft@[k - 1])) == num(tp.dyt@[k - 1]) - num(
            tp.ft@[k - 1],
        ));
        lemma_square(num(tp.dyt@[k - 1]) - num(tp.ft@[k - 1]));
        assert(total(k, f) == total(k - 1, f) + f(k - 1));
    }
}

/// `scale` is the size of the largest slope at the ends of interval `i`.
pub open spec fn largest_slope<F>(
    num: spec_fn(F) -> real,
    fi: Seq<F>,
    fj: Seq<F>,
    n: int,
    scale: real,
) -> bool {
    &&& scale >= 0real
    &&& forall|k: int|
        #![trigger fi[k]]
        0 <= k < n ==> size(num(fi[k])) <= scale && size(num(fj[k])) <= scale
    &&& scale == 0real || exists|k: int|
        #![trigger fi[k]]
        0 <= k < n && (size(num(fi[k])) == scale || size(num(fj[k])) == scale)
}

proof fn lemma_slope_scale<F: Scalar>(num: spec_fn(F) -> real, iv: Interval<F>, k: int)
    ensures
        rational(num, slope_scale(iv, k)),
        largest_slope(num, iv.fi@, iv.fj@, k, meaning(num, slope_scale(iv, k))),
    decreases k,
{
    if k > 0 {
        lemma_slope_scale(num, iv, k - 1);
        reveal_with_fuel(meaning, 4);
        reveal_with_fuel(rational, 4);
        let a = meaning(num, slope_scale(iv, k - 1));
        let m = meaning(num, slope_scale(iv, k));
        let (u, v) = (iv.fi@[k - 1], iv.fj@[k - 1]);
        assert(m >= a && m >= size(num(u)) && m >= size(num(v)));
        assert(m == a || m == size(num(u)) || m == size(num(v)));
    }
}

/// The residual of an interval: twice the square of it, in units of one plus the largest
/// slope at its ends, is the square of its length times the squares of what the slopes of
/// the cubics are off the right-hand side at the two test points, which lie half the root
/// of three sevenths right and left of the middle.
pub proof fn law_residual_measures_slopes<F: Scalar, P: BvpEquations<F>>(
    num: spec_fn(F) -> real,
    f: BvpFns<F, P>,
    x: Seq<F>,
    y: Seq<F>,
    p: Seq<F>,
    fval: Seq<F>,
    s: F,
    i: int,
    r: F,
) -> (w: (TestPoint<F>, TestPoint<F>, real))
    requires
        exact(num),
        ascends(num, x),
        0 <= i < x.len() - 1,
        y.len() == x.len() * f.n_eq,
        fval.len() == x.len() * f.n_eq,
        evaluates(test_offset::<F>(), s),
        misfit(f, x, y, p, fval, s, i, r),
    ensures
        num(s) >= 0real && 28real * (num(s) * num(s)) == 3real,
        2real * num(w.0.t) == 1real + 2real * num(s),
        2real * num(w.1.t) == 1real - 2real * num(s),
        tests_at(num, f, x, y, p, fval, i, num(w.0.t), w.0.xt, w.0.yt@, w.0.dyt@, w.0.ft@),
        tests_at(num, f, x, y, p, fval, i, num(w.1.t), w.1.xt, w.1.yt@, w.1.dyt@, w.1.ft@),
        largest_slope(
            num,
            fval.subrange(i * f.n_eq, i * f.n_eq + f.n_eq),
            fval.subrange((i + 1) * f.n_eq, (i + 1) * f.n_eq + f.n_eq),
            f.n_eq as int,
            w.2,
        ),
        ({
            let h = num(x[i + 1]) - num(x[i]);
            let a = num(r) * (1real + w.2);
            2real * (a * a) == (h * h) * (off_squares(num, w.0.dyt@, w.0.ft@, f.n_eq as int)
                + off_squares(num, w.1.dyt@, w.1.ft@, f.n_eq as int))
        }),
{
    let n = f.n_eq as int;
    let (iv, right, left) = choose|iv: Interval<F>, right: TestPoint<F>, left: TestPoint<F>| #[trigger]
        misfit_with(f, x, y, p, fval, s, i, iv, right, left, r);
    assert(num(x[i]) < num(x[i + 1]));
    lemma_offset(num, s);
    lemma_tests_at(num, f, x, y, p, fval, i, iv, s, true, right);
    lemma_tests_at(num, f, x, y, p, fval, i, iv, s, false, left);
    lemma_mid(num, x[i], x[i + 1], iv.h, iv.xm);
    lemma_slope_scale(num, iv, n);
    let scale = meaning(num, slope_scale(iv, n));
    lemma_misfit_value(num, iv, right, left, n, r);
    (right, left, scale)
}

proof fn lemma_misfit_value<F: Scalar>(
    num: spec_fn(F) -> real,
    iv: Interval<F>,
    right: TestPoint<F>,
    left: TestPoint<F>,
    n: int,
    r: F,
)
    requires
        exact(num),
        evaluates(interval_misfit(iv, right, left, n), r),
    ensures
        ({
            let a = num(r) * (1real + meaning(num, slope_scale(iv, n)));
            let h = num(iv.h);
            2real * (a * a) == (h * h) * (off_squares(num, right.dyt@, right.ft@, n) + off_squares(
                num,
                left.dyt@,
                left.ft@,
                n,
            ))
        }),
{
    lemma_slope_scale(num, iv, n);
    let scale = meaning(num, slope_scale(iv, n));
    let sum = mismatch(mismatch(Term::Zero, right, n), left, n);
    let under = lit::<F>(1, 2).times(sum);
    let low = lit::<F>(1, 1).plus(slope_scale(iv, n));
    let quot = under.root().over(low);
    reveal_with_fuel(evaluates, 2);
    let (g, e) = choose|g: F, e: F| #[trigger]
        muls(g, e, r) && evaluates(quot, g) && evaluates(val(iv.h), e);
    assert(e == iv.h);
    let (t, d) = choose|t: F, d: F| #[trigger]
        divs(t, d, g) && evaluates(under.root(), t) && evaluates(low, d);
    let m = choose|m: F| #[trigger] roots(m, t) && evaluates(under, m);
    lemma_mismatch(num, Term::Zero, right, n);
    lemma_mismatch(num, mismatch(Term::Zero, right, n), left, n);
    reveal_with_fuel(meaning, 3);
    reveal_with_fuel(rational, 3);
    lemma_literal::<F>(num, 1, 1);
    lemma_literal::<F>(num, 1, 2);
    assert(1u64 as real == 1real && 2u64 as real == 2real);
    lemma_meaning(num, under, m);
    lemma_meaning(num, low, d);
    let (half, total_off) = (meaning(num, lit::<F>(1, 2)), meaning(num, sum));
    assert(half * 2real == 1real);
    lemma_scales(2real * half, 1real, total_off);
    lemma_reorders(2real, half, total_off);
    assert(2real * num(m) == total_off);
    assert(num(d) == 1real + scale);
    let (h, u, v, w) = (num(iv.h), num(t), num(g), num(d));
    assert(v * w == u);
    assert(u * u == num(m));
    let a = num(r) * w;
    assert(num(r) == v * h);
    lemma_reorders(v, h, w);
    assert(a == u * h);
    lemma_reorders(u, h, u * h);
    lemma_reorders(h, u, h);
    lemma_reorders(u, u, h * h);
    assert(a * a == (u * u) * (h * h));
    lemma_reorders(u * u, h * h, 1real);
    lemma_scales(u * u, num(m), h * h);
    lemma_reorders(2real, num(m), h * h);
    lemma_scales(2real * num(m), total_off, h * h);
    lemma_reorders(h * h, total_off, 1real);
}

} // verus!
