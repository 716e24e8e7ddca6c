//! The cubics that a solution consists of, and laws of what the equations say of them,
//! where arithmetic is exact.

use vstd::prelude::*;

use crate::algebra::{
    lemma_cancels, lemma_combines, lemma_distributes, lemma_positive, lemma_powers,
    lemma_quotient, lemma_reorders, lemma_scales, lemma_square, lemma_square_bounds,
    lemma_weighted,
};
use crate::exact::{exact, lemma_literal, lemma_meaning, meaning, rational, size};
use crate::expr::{evaluates, lit, val};
use crate::numeric::{norm_is, squares_sum};
use crate::optim::colloc::mesh::{
    brackets, cube, fraction_into, left_slope, left_value, lemma_node_bounds, node, right_slope,
    right_value, square, weighs, weighs_with, Weights,
};
use crate::optim::colloc::newton::{evaluated, newton_met, norm_at};
use crate::optim::colloc::problem::{bc_gives, fun_gives, ic_gives, BvpEquations, BvpFns};
use crate::optim::colloc::residual::{
    at_port, at_ports, collocates, collocation, interval_is, interval_residual, length,
    mid_value, midpoint, port_value, residual_parts, slopes, Interval,
};
use crate::optim::colloc::solve::{
    law_converged_is_within_tolerance, solves, within_tolerance, BvpState,
    NEWTON_TOLERANCE_INVERSE,
};
use crate::optim::linsolve::Backend;
use crate::scalar::{adds, lts, muls, roots, zeros, Scalar};

verus! {

/// A cubic polynomial, by its coefficients.
pub struct Cubic {
    pub c0: real,
    pub c1: real,
    pub c2: real,
    pub c3: real,
}

impl Cubic {
    /// The value at `s`.
    pub open spec fn at(self, s: real) -> real {
        self.c0 + self.c1 * s + self.c2 * (s * s) + self.c3 * (s * s * s)
    }

    /// The slope at `s`.
    pub open spec fn slope(self, s: real) -> real {
        self.c1 + 2real * self.c2 * s + 3real * self.c3 * (s * s)
    }

    /// The cubic leads from the value `yi` with the slope `fi` at the left end of an
    /// interval of length `h` to the value `yj` with the slope `fj` at its right end.
    pub open spec fn joins(self, h: real, yi: real, yj: real, fi: real, fj: real) -> bool {
        &&& self.at(0real) == yi
        &&& self.at(h) == yj
        &&& self.slope(0real) == fi
        &&& self.slope(h) == fj
    }
}

spec fn joining(h: real, yi: real, yj: real, fi: real, fj: real) -> Cubic {
    Cubic {
        c0: yi,
        c1: fi,
        c2: (3real * (yj - yi) - 2real * (h * fi) - h * fj) / (h * h),
        c3: (2real * (yi - yj) + h * fi + h * fj) / (h * h * h),
    }
}

proof fn lemma_scaled(h: real, yi: real, yj: real, fi: real, fj: real)
    requires
        h > 0real,
    ensures
        ({
            let c = joining(h, yi, yj, fi, fj);
            &&& c.c2 * (h * h) == 3real * (yj - yi) - 2real * (h * fi) - h * fj
            &&& c.c3 * (h * h * h) == 2real * (yi - yj) + h * fi + h * fj
        }),
{
    lemma_positive(h, h);
    lemma_positive(h * h, h);
    lemma_quotient(3real * (yj - yi) - 2real * (h * fi) - h * fj, h * h);
    lemma_quotient(2real * (yi - yj) + h * fi + h * fj, h * h * h);
}

/// The value and the slope at the fraction `t` of the interval.
proof fn lemma_along(h: real, yi: real, yj: real, fi: real, fj: real, t: real)
    requires
        h > 0real,
    ensures
        ({
            let c = joining(h, yi, yj, fi, fj);
            let (t2, t3) = (t * t, t * t * t);
            let (a, b) = (h * fi, h * fj);
            &&& c.at(t * h) == (yi - 3real * (t2 * yi) + 2real * (t3 * yi)) + (3real * (t2 * yj)
                - 2real * (t3 * yj)) + ((t * a) - 2real * (t2 * a) + (t3 * a)) + ((t3 * b) - (t2
                * b))
            &&& h * c.slope(t * h) == a + 6real * (t * yj) - 6real * (t * yi) - 4real * (t * a)
                - 2real * (t * b) + 6real * (t2 * yi) - 6real * (t2 * yj) + 3real * (t2 * a) + 3real
                * (t2 * b)
        }),
{
    lemma_scaled(h, yi, yj, fi, fj);
    let c = joining(h, yi, yj, fi, fj);
    let (t2, t3) = (t * t, t * t * t);
    let (a, b) = (h * fi, h * fj);
    let (c2, c3) = (c.c2, c.c3);
    let (p, q) = (c2 * (h * h), c3 * (h * h * h));
    let s = t * h;
    lemma_powers(t, h);
    lemma_reorders(c2, h * h, t2);
    lemma_reorders(c3, h * h * h, t3);
    assert(c2 * (s * s) == p * t2);
    assert(c3 * (s * s * s) == q * t3);
    lemma_combines(t2, yi, yj, a, b, (-3real, 3real, -2real, -1real));
    lemma_combines(t3, yi, yj, a, b, (2real, -2real, 1real, 1real));
    lemma_reorders(fi, t, h);
    lemma_reorders(h, fi, 1real);
    assert(fi * s == t * a);
    lemma_combines(t, yi, yj, a, b, (-3real, 3real, -2real, -1real));
    lemma_combines(t2, yi, yj, a, b, (2real, -2real, 1real, 1real));
    assert(h * (c2 * s) == t * p) by {
        lemma_reorders(h, c2, s);
        lemma_reorders(h, t, h);
        lemma_reorders(c2, t, h * h);
        assert(h * s == t * (h * h));
    }
    assert(h * (c3 * (s * s)) == t2 * q) by {
        lemma_reorders(h, c3, s * s);
        lemma_reorders(h, h * h, t2);
        lemma_reorders(h, h, h);
        assert(h * (s * s) == (h * h * h) * t2);
        lemma_reorders(c3, h * h * h, t2);
        lemma_reorders(t2, q, 1real);
    }
    let (u, v) = (c2 * s, c3 * (s * s));
    lemma_reorders(2real, c2, s);
    lemma_reorders(3real, c3, s * s);
    lemma_combines(h, fi, u, v, 0real, (1real, 2real, 3real, 0real));
    assert(c.slope(s) == 1real * fi + 2real * u + 3real * v + 0real * 0real);
}

/// There is such a cubic.
proof fn lemma_joins(h: real, yi: real, yj: real, fi: real, fj: real)
    requires
        h > 0real,
    ensures
        joining(h, yi, yj, fi, fj).joins(h, yi, yj, fi, fj),
{
    let c = joining(h, yi, yj, fi, fj);
    lemma_along(h, yi, yj, fi, fj, 1real);
    assert(1real * h == h);
    assert(1real * 1real == 1real);
    lemma_cancels(h, c.slope(h), fj);
}

/// A cubic over an interval, with its value and slope at the fraction `t`.
pub(crate) proof fn lemma_cubic_between(
    h: real,
    yi: real,
    yj: real,
    fi: real,
    fj: real,
    t: real,
) -> (c: Cubic)
    requires
        h > 0real,
    ensures
        c.joins(h, yi, yj, fi, fj),
        ({
            let (t2, t3) = (t * t, t * t * t);
            let (a, b) = (h * fi, h * fj);
            &&& c.at(t * h) == (yi - 3real * (t2 * yi) + 2real * (t3 * yi)) + (3real * (t2 * yj)
                - 2real * (t3 * yj)) + ((t * a) - 2real * (t2 * a) + (t3 * a)) + ((t3 * b) - (t2
                * b))
            &&& h * c.slope(t * h) == a + 6real * (t * yj) - 6real * (t * yi) - 4real * (t * a)
                - 2real * (t * b) + 6real * (t2 * yi) - 6real * (t2 * yj) + 3real * (t2 * a) + 3real
                * (t2 * b)
        }),
{
    lemma_joins(h, yi, yj, fi, fj);
    lemma_along(h, yi, yj, fi, fj, t);
    joining(h, yi, yj, fi, fj)
}

/// The nodes of the mesh ascend.
pub open spec fn ascends<F>(num: spec_fn(F) -> real, x: Seq<F>) -> bool {
    forall|i: int, j: int|
        #![trigger x[i], x[j]]
        0 <= i < j < x.len() ==> num(x[i]) < num(x[j])
}

/// `v` is the value at `xq` of component `k` of the piecewise cubic that has the values `y`
/// and the slopes `f` at the nodes `x`, by way of interval `j` and its cubic. Outside of
/// the mesh the first and the last cubic go on.
pub open spec fn on_cubic<F>(
    num: spec_fn(F) -> real,
    x: Seq<F>,
    y: Seq<F>,
    f: Seq<F>,
    n: int,
    k: int,
    xq: real,
    j: int,
    c: Cubic,
    v: real,
) -> bool {
    &&& 0 <= j < x.len() - 1
    &&& j == 0 || num(x[j]) <= xq
    &&& j == x.len() - 2 || xq <= num(x[j + 1])
    &&& c.joins(
        num(x[j + 1]) - num(x[j]),
        num(y[j * n + k]),
        num(y[(j + 1) * n + k]),
        num(f[j * n + k]),
        num(f[(j + 1) * n + k]),
    )
    &&& v == c.at(xq - num(x[j]))
}

/// `v` is the value at `xq` of component `k` of the piecewise cubic.
pub open spec fn interpolates<F>(
    num: spec_fn(F) -> real,
    x: Seq<F>,
    y: Seq<F>,
    f: Seq<F>,
    n: int,
    k: int,
    xq: real,
    v: real,
) -> bool {
    exists|j: int, c: Cubic| #[trigger] on_cubic(num, x, y, f, n, k, xq, j, c, v)
}

pub(crate) proof fn lemma_into<F: Scalar>(num: spec_fn(F) -> real, a: F, h: F, xq: F, t: F)
    requires
        exact(num),
        fraction_into(a, h, xq, t),
        num(h) > 0real,
    ensures
        num(t) * num(h) == num(xq) - num(a),
{
    let (z, positive) = choose|z: F, positive: bool| #[trigger]
        lts(z, h, positive) && zeros(z) && if positive {
            evaluates(val(xq).minus(val(a)).over(val(h)), t)
        } else {
            zeros(t)
        };
    reveal_with_fuel(meaning, 4);
    reveal_with_fuel(rational, 4);
    lemma_meaning(num, val(xq).minus(val(a)).over(val(h)), t);
    lemma_quotient(num(xq) - num(a), num(h));
}

proof fn lemma_weights<F: Scalar>(
    num: spec_fn(F) -> real,
    x: Seq<F>,
    xq: F,
    t: F,
    t2: F,
    t3: F,
    w: Weights<F>,
)
    requires
        exact(num),
        weighs_with(x, xq, t, t2, t3, w),
        num(x[w.j as int]) < num(x[w.j + 1]),
    ensures
        num(w.h) == num(x[w.j + 1]) - num(x[w.j as int]),
        num(t) * num(w.h) == num(xq) - num(x[w.j as int]),
        ({
            let (u, u2, u3) = (num(t), num(t) * num(t), num(t) * num(t) * num(t));
            &&& num(w.h00) == 1real - 3real * u2 + 2real * u3
            &&& num(w.h01) == 3real * u2 - 2real * u3
            &&& num(w.h10) == u - 2real * u2 + u3
            &&& num(w.h11) == u3 - u2
        }),
{
    reveal_with_fuel(meaning, 6);
    reveal_with_fuel(rational, 6);
    lemma_meaning(num, val(x[w.j + 1]).minus(val(x[w.j as int])), w.h);
    lemma_into(num, x[w.j as int], w.h, xq, t);
    lemma_meaning(num, square(t), t2);
    lemma_meaning(num, cube(t), t3);
    lemma_meaning(num, left_value(t2, t3), w.h00);
    lemma_meaning(num, right_value(t2, t3), w.h01);
    lemma_meaning(num, left_slope(t, t2, t3), w.h10);
    lemma_meaning(num, right_slope(t2, t3), w.h11);
    assert(1u64 as real == 1real && 2u64 as real == 2real && 3u64 as real == 3real);
    lemma_literal::<F>(num, 1, 1);
    lemma_literal::<F>(num, 2, 1);
    lemma_literal::<F>(num, 3, 1);
    let (two, three) = (meaning(num, lit::<F>(2, 1)), meaning(num, lit::<F>(3, 1)));
    lemma_scales(three, 3real, num(t2));
    lemma_scales(two, 2real, num(t2));
    lemma_scales(two, 2real, num(t3));
}

/// A cubic is given by its values and slopes at the ends.
proof fn lemma_cubic_unique(c: Cubic, h: real, s: real, t: real)
    requires
        h > 0real,
        t * h == s,
    ensures
        c.at(s) == joining(h, c.at(0real), c.at(h), c.slope(0real), c.slope(h)).at(s),
{
    let (yi, yj, fi, fj) = (c.at(0real), c.at(h), c.slope(0real), c.slope(h));
    let g = joining(h, yi, yj, fi, fj);
    lemma_scaled(h, yi, yj, fi, fj);
    let (c1, c2, c3) = (c.c1, c.c2, c.c3);
    let (h2, h3) = (h * h, h * h * h);
    lemma_scales(0real, 0real, c1);
    lemma_reorders(c1, 0real, 1real);
    lemma_reorders(c2, 0real * 0real, 1real);
    lemma_scales(0real * 0real, 0real, c2);
    lemma_reorders(c3, 0real * 0real * 0real, 1real);
    lemma_scales(0real * 0real * 0real, 0real, c3);
    assert(yi == c.c0);
    lemma_reorders(2real * c2, 0real, 1real);
    lemma_scales(0real, 0real, 2real * c2);
    lemma_reorders(3real * c3, 0real * 0real, 1real);
    lemma_scales(0real * 0real, 0real, 3real * c3);
    assert(fi == c1);
    let (p, q) = (c2 * h2, c3 * h3);
    lemma_reorders(h, c1, 1real);
    assert(h * fi == c1 * h);
    assert(yj == yi + h * fi + p + q);
    lemma_reorders(2real, c2, h);
    lemma_reorders(3real, c3, h2);
    let (u, v) = (c2 * h, c3 * h2);
    assert(fj == c1 + 2real * u + 3real * v);
    lemma_distributes(h, c1 + 2real * u, 3real * v);
    lemma_distributes(h, c1, 2real * u);
    lemma_reorders(h, 2real, u);
    lemma_reorders(h, 3real, v);
    lemma_reorders(h, c2, h);
    lemma_reorders(h, c3, h2);
    lemma_reorders(h, h2, 1real);
    assert(h * u == p);
    assert(h * v == q);
    assert(h * fj == h * fi + 2real * p + 3real * q);
    assert(g.c2 * h2 == p);
    assert(g.c3 * h3 == q);
    lemma_powers(t, h);
    lemma_reorders(c2, h2, t * t);
    lemma_reorders(g.c2, h2, t * t);
    lemma_reorders(c3, h3, t * t * t);
    lemma_reorders(g.c3, h3, t * t * t);
    lemma_scales(g.c2 * h2, p, t * t);
    lemma_scales(g.c3 * h3, q, t * t * t);
    assert(s * s == h2 * (t * t));
    assert(s * s * s == h3 * (t * t * t));
}

/// The weights of a point on the mesh give any cubic over its interval there.
pub(crate) proof fn lemma_weights_join<F: Scalar>(
    num: spec_fn(F) -> real,
    x: Seq<F>,
    xq: F,
    w: Weights<F>,
    c: Cubic,
)
    requires
        exact(num),
        ascends(num, x),
        weighs(x, xq, w),
    ensures
        ({
            let j = w.j as int;
            let (a, b) = (num(x[j]), num(x[j + 1]));
            &&& 0 <= j < x.len() - 1
            &&& j == 0 || a <= num(xq)
            &&& j == x.len() - 2 || num(xq) <= b
            &&& num(w.h) == b - a
            &&& num(w.h00) * c.at(0real) + num(w.h01) * c.at(b - a) + num(w.h) * (num(w.h10)
                * c.slope(0real) + num(w.h11) * c.slope(b - a)) == c.at(num(xq) - a)
        }),
{
    let (t, t2, t3) = choose|t: F, t2: F, t3: F| #[trigger] weighs_with(x, xq, t, t2, t3, w);
    let j = w.j as int;
    assert(brackets(x, xq, j));
    assert(num(x[j]) < num(x[j + 1]));
    lemma_weights(num, x, xq, t, t2, t3, w);
    assert(j == 0 || lts(x[j], xq, true));
    assert(j == x.len() - 2 || lts(x[j + 1], xq, false));
    let h = num(w.h);
    let (yi, yj, fi, fj) = (c.at(0real), c.at(h), c.slope(0real), c.slope(h));
    let (u, u2, u3) = (num(t), num(t) * num(t), num(t) * num(t) * num(t));
    lemma_cubic_unique(c, h, u * h, u);
    lemma_along(h, yi, yj, fi, fj, u);
    lemma_weighted(num(w.h00), u, u2, u3, yi, 1real, 0real, -3real, 2real);
    lemma_weighted(num(w.h01), u, u2, u3, yj, 0real, 0real, 3real, -2real);
    lemma_weighted(num(w.h10), u, u2, u3, h * fi, 0real, 1real, -2real, 1real);
    lemma_weighted(num(w.h11), u, u2, u3, h * fj, 0real, 0real, -1real, 1real);
    lemma_distributes(h, num(w.h10) * fi, num(w.h11) * fj);
    lemma_reorders(h, num(w.h10), fi);
    lemma_reorders(h, num(w.h11), fj);
}

/// One component at one port.
proof fn lemma_at_port<F: Scalar>(
    num: spec_fn(F) -> real,
    x: Seq<F>,
    y: Seq<F>,
    f: Seq<F>,
    n: int,
    k: int,
    xq: F,
    out: Seq<F>,
)
    requires
        exact(num),
        ascends(num, x),
        0 <= k < n,
        y.len() == x.len() * n,
        f.len() == x.len() * n,
        at_port(x, y, f, n, xq, out),
    ensures
        out.len() == n,
        interpolates(num, x, y, f, n, k, num(xq), num(out[k])),
        forall|i: int|
            #![trigger x[i]]
            0 <= i < x.len() && num(xq) == num(x[i]) ==> num(out[k]) == num(y[i * n + k]),
{
    let w = choose|w: Weights<F>| #[trigger]
        weighs(x, xq, w) && out.len() == n && forall|k: int|
            0 <= k < n ==> evaluates(
                port_value(
                    w,
                    node(y, w.j as int, n)[k],
                    node(y, w.j + 1, n)[k],
                    node(f, w.j as int, n)[k],
                    node(f, w.j + 1, n)[k],
                ),
                #[trigger] out[k],
            );
    let (t, t2, t3) = choose|t: F, t2: F, t3: F| #[trigger] weighs_with(x, xq, t, t2, t3, w);
    let j = w.j as int;
    assert(num(x[j]) < num(x[j + 1]));
    lemma_weights(num, x, xq, t, t2, t3, w);
    lemma_node_bounds(x.len() as int, j, n);
    lemma_node_bounds(x.len() as int, j + 1, n);
    let (yi, yj) = (y[j * n + k], y[(j + 1) * n + k]);
    let (fi, fj) = (f[j * n + k], f[(j + 1) * n + k]);
    reveal_with_fuel(meaning, 6);
    reveal_with_fuel(rational, 6);
    assert(evaluates(port_value(w, yi, yj, fi, fj), out[k]));
    lemma_meaning(num, port_value(w, yi, yj, fi, fj), out[k]);
    let h = num(w.h);
    let c = joining(h, num(yi), num(yj), num(fi), num(fj));
    lemma_joins(h, num(yi), num(yj), num(fi), num(fj));
    lemma_along(h, num(yi), num(yj), num(fi), num(fj), num(t));
    let (a, b) = (num(yi), num(yj));
    let (p, q) = (num(fi), num(fj));
    let (u, u2, u3) = (num(t), num(t) * num(t), num(t) * num(t) * num(t));
    assert(num(out[k]) == num(w.h00) * a + num(w.h01) * b + h * (num(w.h10) * p + num(w.h11) * q));
    lemma_weighted(num(w.h00), u, u2, u3, a, 1real, 0real, -3real, 2real);
    lemma_weighted(num(w.h01), u, u2, u3, b, 0real, 0real, 3real, -2real);
    lemma_weighted(num(w.h10), u, u2, u3, h * p, 0real, 1real, -2real, 1real);
    lemma_weighted(num(w.h11), u, u2, u3, h * q, 0real, 0real, -1real, 1real);
    lemma_distributes(h, num(w.h10) * p, num(w.h11) * q);
    lemma_reorders(h, num(w.h10), p);
    lemma_reorders(h, num(w.h11), q);
    assert(num(out[k]) == c.at(u * h));
    assert(brackets(x, xq, j));
    assert(j == 0 || lts(x[j], xq, true));
    assert(j == x.len() - 2 || lts(x[j + 1], xq, false));
    assert(on_cubic(num, x, y, f, n, k, num(xq), j, c, num(out[k])));
    assert forall|i: int|
        #![trigger x[i]]
        0 <= i < x.len() && num(xq) == num(x[i]) implies num(out[k]) == num(y[i * n + k]) by {
        if i < j {
            assert(num(x[i]) < num(x[j]));
        } else if i > j + 1 {
            assert(num(x[j + 1]) < num(x[i]));
        }
    }
}

/// What the interior conditions are given: the values `q * n` to `q * n + n` are those of
/// the piecewise cubic at port `q`, and the solution itself where the port is a node.
pub proof fn law_ports_by_position<F: Scalar>(
    num: spec_fn(F) -> real,
    x: Seq<F>,
    y: Seq<F>,
    f: Seq<F>,
    n: int,
    ports: Seq<F>,
    out: Seq<F>,
)
    requires
        exact(num),
        ascends(num, x),
        n >= 0,
        y.len() == x.len() * n,
        f.len() == x.len() * n,
        at_ports(x, y, f, n, ports, out),
    ensures
        out.len() == ports.len() * n,
        forall|q: int, k: int|
            #![trigger out[q * n + k]]
            0 <= q < ports.len() && 0 <= k < n ==> interpolates(
                num,
                x,
                y,
                f,
                n,
                k,
                num(ports[q]),
                num(out[q * n + k]),
            ),
        forall|q: int, i: int, k: int|
            #![trigger ports[q], x[i], out[q * n + k]]
            0 <= q < ports.len() && 0 <= i < x.len() && 0 <= k < n && num(ports[q]) == num(x[i])
                ==> num(out[q * n + k]) == num(y[i * n + k]),
{
    assert forall|q: int, k: int|
        #![trigger out[q * n + k]]
        0 <= q < ports.len() && 0 <= k < n implies interpolates(
        num,
        x,
        y,
        f,
        n,
        k,
        num(ports[q]),
        num(out[q * n + k]),
    ) && forall|i: int|
        #![trigger x[i]]
        0 <= i < x.len() && num(ports[q]) == num(x[i]) ==> num(out[q * n + k]) == num(
            y[i * n + k],
        ) by {
        let part = node(out, q, n);
        lemma_node_bounds(ports.len() as int, q, n);
        assert(at_port(x, y, f, n, ports[q], part));
        lemma_at_port(num, x, y, f, n, k, ports[q], part);
        assert(part[k] == out[q * n + k]);
    }
}

/// Half of the way: the cubic at the midpoint.
proof fn lemma_midway(h: real, yi: real, yj: real, fi: real, fj: real)
    requires
        h > 0real,
    ensures
        ({
            let c = joining(h, yi, yj, fi, fj);
            let s = h / 2real;
            &&& c.at(s) == (yi + yj) / 2real + (h * fi - h * fj) / 8real
            &&& h * c.slope(s) == 3real * (yj - yi) / 2real - (h * fi + h * fj) / 4real
        }),
{
    let t = 1real / 2real;
    lemma_along(h, yi, yj, fi, fj, t);
    let (t2, t3) = (t * t, t * t * t);
    let (a, b) = (h * fi, h * fj);
    lemma_halves(yi);
    lemma_halves(yj);
    lemma_halves(a);
    lemma_halves(b);
    lemma_halves(h);
    assert(t * h == h / 2real);
}

proof fn lemma_halves(a: real)
    ensures
        ({
            let t = 1real / 2real;
            &&& t * a == a / 2real
            &&& (t * t) * a == a / 4real
            &&& (t * t * t) * a == a / 8real
        }),
{
    let t = 1real / 2real;
    lemma_scales(2real * t, 1real, a);
    lemma_reorders(2real, t, a);
    let a2 = t * a;
    lemma_scales(2real * t, 1real, a2);
    lemma_reorders(2real, t, a2);
    lemma_reorders(t, t, a);
    let a3 = t * a2;
    lemma_scales(2real * t, 1real, a3);
    lemma_reorders(2real, t, a3);
    lemma_reorders(t * t, t, a);
    lemma_reorders(t, t, a2);
}

/// What a collocation equation says of component `k` of an interval from `xi` to `xj` of
/// length `h`: `c` is its cubic, the right-hand side `fm` was asked at the midpoint `xm` of
/// the interval and at the values `ym` of the cubics there, and `res` is by how much the
/// slope of the cubic there is off, times two thirds of the length.
pub open spec fn tells_slope<F>(
    num: spec_fn(F) -> real,
    x: Seq<F>,
    y: Seq<F>,
    f: Seq<F>,
    n: int,
    i: int,
    k: int,
    ym: Seq<F>,
    fm: Seq<F>,
    res: F,
    c: Cubic,
) -> bool {
    let h = num(x[i + 1]) - num(x[i]);
    &&& c.joins(
        h,
        num(y[i * n + k]),
        num(y[(i + 1) * n + k]),
        num(f[i * n + k]),
        num(f[(i + 1) * n + k]),
    )
    &&& num(ym[k]) == c.at(h / 2real)
    &&& 3real * num(res) == 2real * (h * (c.slope(h / 2real) - num(fm[k])))
}

/// A collocation equation tells the slope of some cubic that joins the nodes.
pub open spec fn tells_some_slope<F>(
    num: spec_fn(F) -> real,
    x: Seq<F>,
    y: Seq<F>,
    f: Seq<F>,
    n: int,
    i: int,
    k: int,
    ym: Seq<F>,
    fm: Seq<F>,
    res: F,
) -> bool {
    exists|c: Cubic| #[trigger] tells_slope(num, x, y, f, n, i, k, ym, fm, res, c)
}

/// What the collocation equations of an interval say: the right-hand side is asked at its
/// midpoint.
pub open spec fn tells_slopes<F: Scalar, P: BvpEquations<F>>(
    num: spec_fn(F) -> real,
    f: BvpFns<F, P>,
    x: Seq<F>,
    y: Seq<F>,
    p: Seq<F>,
    fval: Seq<F>,
    i: int,
    xm: F,
    ym: Seq<F>,
    fm: Seq<F>,
    res: Seq<F>,
) -> bool {
    &&& 2real * num(xm) == num(x[i]) + num(x[i + 1])
    &&& ym.len() == f.n_eq
    &&& res.len() == f.n_eq
    &&& fun_gives(f.equations, xm, ym, p, fm)
    &&& forall|k: int|
        #![trigger res[k]]
        0 <= k < f.n_eq ==> tells_some_slope(
            num,
            x,
            y,
            fval,
            f.n_eq as int,
            i,
            k,
            ym,
            fm,
            res[k],
        )
}

/// The collocation equations of an interval tell by how much the slopes of the cubics at
/// its midpoint are off the right-hand side there.
pub proof fn law_collocation_tells_slopes<F: Scalar, P: BvpEquations<F>>(
    num: spec_fn(F) -> real,
    f: BvpFns<F, P>,
    x: Seq<F>,
    y: Seq<F>,
    p: Seq<F>,
    fval: Seq<F>,
    i: int,
    res: Seq<F>,
)
    requires
        exact(num),
        ascends(num, x),
        y.len() == x.len() * f.n_eq,
        fval.len() == x.len() * f.n_eq,
        0 <= i < x.len() - 1,
        interval_residual(f, x, y, p, fval, i, res),
    ensures
        exists|xm: F, ym: Seq<F>, fm: Seq<F>| #[trigger]
            tells_slopes(num, f, x, y, p, fval, i, xm, ym, fm, res),
{
    let n = f.n_eq as int;
    let (iv, fm) = choose|iv: Interval<F>, fm: Seq<F>| #[trigger]
        collocates(iv, fm, n, res) && interval_is(x, y, fval, n, i, iv) && fun_gives(
            f.equations,
            iv.xm,
            iv.ym@,
            p,
            fm,
        );
    assert(num(x[i]) < num(x[i + 1]));
    assert forall|k: int|
        #![trigger res[k]]
        0 <= k < n implies tells_some_slope(
        num,
        x,
        y,
        fval,
        n,
        i,
        k,
        iv.ym@,
        fm,
        res[k],
    ) by {
        lemma_tells_slope(num, x, y, fval, n, i, k, iv, fm, res);
    }
    lemma_mid(num, x[i], x[i + 1], iv.h, iv.xm);
    assert(tells_slopes(num, f, x, y, p, fval, i, iv.xm, iv.ym@, fm, res));
}

pub(crate) proof fn lemma_mid<F: Scalar>(num: spec_fn(F) -> real, a: F, b: F, h: F, xm: F)
    requires
        exact(num),
        evaluates(length(a, b), h),
        evaluates(midpoint(a, h), xm),
    ensures
        num(h) == num(b) - num(a),
        2real * num(xm) == num(a) + num(b),
{
    reveal_with_fuel(meaning, 4);
    reveal_with_fuel(rational, 4);
    lemma_literal::<F>(num, 1, 2);
    assert(1u64 as real == 1real && 2u64 as real == 2real);
    lemma_meaning(num, length(a, b), h);
    lemma_meaning(num, midpoint(a, h), xm);
    lemma_half_of(meaning(num, lit::<F>(1, 2)), num(h));
}

proof fn lemma_mid_value<F: Scalar>(
    num: spec_fn(F) -> real,
    yi: F,
    yj: F,
    fi: F,
    fj: F,
    h: F,
    ym: F,
)
    requires
        exact(num),
        evaluates(mid_value(yi, yj, fi, fj, h), ym),
    ensures
        num(ym) == (num(yi) + num(yj)) / 2real + (num(h) * num(fi) - num(h) * num(fj)) / 8real,
{
    reveal_with_fuel(meaning, 6);
    reveal_with_fuel(rational, 6);
    lemma_literal::<F>(num, 1, 2);
    lemma_literal::<F>(num, 8, 1);
    assert(1u64 as real == 1real && 2u64 as real == 2real && 8u64 as real == 8real);
    lemma_meaning(num, mid_value(yi, yj, fi, fj, h), ym);
    lemma_half_of(meaning(num, lit::<F>(1, 2)), num(yi) + num(yj));
    lemma_eighth(num(h), meaning(num, lit::<F>(8, 1)), num(fj) - num(fi));
    lemma_distributes(num(h), num(fj), num(fi));
}

/// The values at the midpoint of an interval are those of the piecewise cubic there.
pub(crate) proof fn lemma_mid_interpolates<F: Scalar>(
    num: spec_fn(F) -> real,
    x: Seq<F>,
    y: Seq<F>,
    fval: Seq<F>,
    n: int,
    i: int,
    k: int,
    iv: Interval<F>,
)
    requires
        exact(num),
        0 <= i < x.len() - 1,
        num(x[i]) < num(x[i + 1]),
        y.len() == x.len() * n,
        fval.len() == x.len() * n,
        0 <= k < n,
        interval_is(x, y, fval, n, i, iv),
    ensures
        interpolates(num, x, y, fval, n, k, num(iv.xm), num(iv.ym@[k])),
{
    lemma_node_bounds(x.len() as int, i, n);
    lemma_node_bounds(x.len() as int, i + 1, n);
    lemma_mid(num, x[i], x[i + 1], iv.h, iv.xm);
    let (yi, yj) = (y[i * n + k], y[(i + 1) * n + k]);
    let (fi, fj) = (fval[i * n + k], fval[(i + 1) * n + k]);
    assert(iv.yi@[k] == yi && iv.yj@[k] == yj && iv.fi@[k] == fi && iv.fj@[k] == fj);
    let h = num(iv.h);
    let c = joining(h, num(yi), num(yj), num(fi), num(fj));
    lemma_joins(h, num(yi), num(yj), num(fi), num(fj));
    lemma_midway(h, num(yi), num(yj), num(fi), num(fj));
    lemma_mid_value(num, yi, yj, fi, fj, iv.h, iv.ym@[k]);
    assert(num(iv.xm) - num(x[i]) == h / 2real);
    assert(on_cubic(num, x, y, fval, n, k, num(iv.xm), i, c, num(iv.ym@[k])));
}

proof fn lemma_collocation<F: Scalar>(
    num: spec_fn(F) -> real,
    yi: F,
    yj: F,
    fi: F,
    fm: F,
    fj: F,
    h: F,
    res: F,
)
    requires
        exact(num),
        evaluates(collocation(yi, yj, fi, fm, fj, h), res),
    ensures
        num(res) == num(yj) - num(yi) - (num(h) * num(fi) + 4real * (num(h) * num(fm)) + num(h)
            * num(fj)) / 6real,
{
    reveal_with_fuel(meaning, 7);
    reveal_with_fuel(rational, 7);
    lemma_literal::<F>(num, 4, 1);
    lemma_literal::<F>(num, 6, 1);
    assert(4u64 as real == 4real && 6u64 as real == 6real);
    lemma_meaning(num, collocation(yi, yj, fi, fm, fj, h), res);
    let four = meaning(num, lit::<F>(4, 1));
    let (e, u, v, w) = (num(h), num(fi), num(fj), num(fm));
    lemma_sixth(e, meaning(num, lit::<F>(6, 1)), u + four * w + v);
    lemma_distributes(e, u + four * w, v);
    lemma_distributes(e, u, four * w);
    lemma_reorders(e, four, w);
    lemma_scales(four, 4real, e * w);
}

proof fn lemma_tells_slope<F: Scalar>(
    num: spec_fn(F) -> real,
    x: Seq<F>,
    y: Seq<F>,
    fval: Seq<F>,
    n: int,
    i: int,
    k: int,
    iv: Interval<F>,
    fm: Seq<F>,
    res: Seq<F>,
)
    requires
        exact(num),
        0 <= i < x.len() - 1,
        num(x[i]) < num(x[i + 1]),
        y.len() == x.len() * n,
        fval.len() == x.len() * n,
        0 <= k < n,
        collocates(iv, fm, n, res),
        interval_is(x, y, fval, n, i, iv),
    ensures
        tells_some_slope(num, x, y, fval, n, i, k, iv.ym@, fm, res[k]),
{
    lemma_node_bounds(x.len() as int, i, n);
    lemma_node_bounds(x.len() as int, i + 1, n);
    lemma_mid(num, x[i], x[i + 1], iv.h, iv.xm);
    let (yi, yj) = (y[i * n + k], y[(i + 1) * n + k]);
    let (fi, fj) = (fval[i * n + k], fval[(i + 1) * n + k]);
    assert(iv.yi@[k] == yi && iv.yj@[k] == yj && iv.fi@[k] == fi && iv.fj@[k] == fj);
    let h = num(iv.h);
    let c = joining(h, num(yi), num(yj), num(fi), num(fj));
    lemma_joins(h, num(yi), num(yj), num(fi), num(fj));
    lemma_midway(h, num(yi), num(yj), num(fi), num(fj));
    lemma_mid_value(num, yi, yj, fi, fj, iv.h, iv.ym@[k]);
    lemma_collocation(num, yi, yj, fi, fm[k], fj, iv.h, res[k]);
    lemma_distributes(h, c.slope(h / 2real), num(fm[k]));
    assert(tells_slope(num, x, y, fval, n, i, k, iv.ym@, fm, res[k], c));
}

proof fn lemma_half_of(half: real, a: real)
    requires
        half * 2real == 1real,
    ensures
        half * a == a / 2real,
{
    lemma_scales(2real * half, 1real, a);
    lemma_reorders(2real, half, a);
}

proof fn lemma_eighth(h: real, d: real, a: real)
    requires
        d == 8real,
    ensures
        (h / d) * a == (h * a) / 8real,
{
    lemma_parts(h, d, a, 8real);
}

proof fn lemma_sixth(h: real, d: real, a: real)
    requires
        d == 6real,
    ensures
        (h / d) * a == (h * a) / 6real,
{
    lemma_parts(h, d, a, 6real);
}

proof fn lemma_parts(h: real, d: real, a: real, e: real)
    requires
        d == e,
        e > 0real,
    ensures
        (h / d) * a == (h * a) / e,
{
    lemma_quotient(h, e);
    lemma_quotient(h * a, e);
    let q = h / e;
    lemma_reorders(e, q, a);
    lemma_reorders(q, e, 1real);
    lemma_scales(e * q, h, a);
    lemma_reorders(e, (h * a) / e, 1real);
    lemma_cancels(e, q * a, (h * a) / e);
}

/// Every entry is smaller than `bound`.
pub open spec fn below<F>(num: spec_fn(F) -> real, v: Seq<F>, bound: real) -> bool {
    forall|i: int| 0 <= i < v.len() ==> size(num(#[trigger] v[i])) < bound
}

proof fn lemma_squares<F: Scalar>(num: spec_fn(F) -> real, v: Seq<F>, s: F)
    requires
        exact(num),
        squares_sum(v, s),
    ensures
        num(s) >= 0real,
        forall|i: int|
            #![trigger v[i]]
            0 <= i < v.len() ==> num(v[i]) * num(v[i]) <= num(s),
    decreases v.len(),
{
    if v.len() > 0 {
        let (p, q) = choose|p: F, q: F| #[trigger]
            adds(p, q, s) && muls(v.last(), v.last(), q) && squares_sum(v.drop_last(), p);
        let rest = v.drop_last();
        lemma_squares(num, rest, p);
        lemma_square(num(v.last()));
        assert forall|i: int|
            #![trigger v[i]]
            0 <= i < v.len() implies num(v[i]) * num(v[i]) <= num(s) by {
            if i < v.len() - 1 {
                assert(rest[i] == v[i]);
            }
        }
    }
}

/// Where arithmetic is exact, no entry is larger than the norm.
proof fn lemma_norm_bounds<F: Scalar>(num: spec_fn(F) -> real, v: Seq<F>, r: F)
    requires
        exact(num),
        norm_is(v, r),
    ensures
        forall|i: int|
            #![trigger v[i]]
            0 <= i < v.len() ==> size(num(v[i])) <= num(r),
{
    let s = choose|s: F| #[trigger] squares_sum(v, s) && roots(s, r);
    lemma_squares(num, v, s);
    assert forall|i: int|
        #![trigger v[i]]
        0 <= i < v.len() implies size(num(v[i])) <= num(r) by {
        lemma_square_bounds(num(v[i]), num(r));
    }
}

/// `v` holds the values of the solution at the ports, port by port.
pub open spec fn values_at_ports<F, P: BvpEquations<F>>(
    num: spec_fn(F) -> real,
    f: BvpFns<F, P>,
    x: Seq<F>,
    y: Seq<F>,
    fval: Seq<F>,
    v: Seq<F>,
) -> bool {
    let n = f.n_eq as int;
    &&& v.len() == f.x_ports@.len() * n
    &&& forall|q: int, k: int|
        #![trigger v[q * n + k]]
        0 <= q < f.x_ports@.len() && 0 <= k < n ==> interpolates(
            num,
            x,
            y,
            fval,
            n,
            k,
            num(f.x_ports@[q]),
            num(v[q * n + k]),
        )
}

/// The interior conditions hold, to less than `bound`, of the solution at the ports.
pub open spec fn interior_met<F: Scalar, P: BvpEquations<F>>(
    num: spec_fn(F) -> real,
    f: BvpFns<F, P>,
    x: Seq<F>,
    y: Seq<F>,
    p: Seq<F>,
    fval: Seq<F>,
    bound: real,
) -> bool {
    f.n_ic > 0 ==> exists|v: Seq<F>, ic: Seq<F>| #[trigger]
        ic_gives(f.equations, v, p, ic) && values_at_ports(num, f, x, y, fval, v) && below(
            num,
            ic,
            bound,
        )
}

/// The boundary conditions hold, to less than `bound`, of the solution at both ends.
pub open spec fn boundary_met<F: Scalar, P: BvpEquations<F>>(
    num: spec_fn(F) -> real,
    f: BvpFns<F, P>,
    y: Seq<F>,
    p: Seq<F>,
    bound: real,
) -> bool {
    exists|bc: Seq<F>| #[trigger]
        bc_gives(
            f.equations,
            y.take(f.n_eq as int),
            y.skip(y.len() - f.n_eq),
            p,
            bc,
        ) && below(num, bc, bound)
}

/// The slopes of the cubics of interval `i` meet the right-hand side at its midpoint, to
/// less than `bound` in the measure of the equations.
pub open spec fn interval_met<F: Scalar, P: BvpEquations<F>>(
    num: spec_fn(F) -> real,
    f: BvpFns<F, P>,
    x: Seq<F>,
    y: Seq<F>,
    p: Seq<F>,
    fval: Seq<F>,
    i: int,
    bound: real,
) -> bool {
    exists|xm: F, ym: Seq<F>, fm: Seq<F>, res: Seq<F>| #[trigger]
        tells_slopes(num, f, x, y, p, fval, i, xm, ym, fm, res) && below(num, res, bound)
}

/// The differential equation holds at the nodes, by `fval`, and to less than `bound` at
/// every midpoint, and so do the boundary and interior conditions.
pub open spec fn conditions_met<F: Scalar, P: BvpEquations<F>>(
    num: spec_fn(F) -> real,
    f: BvpFns<F, P>,
    x: Seq<F>,
    y: Seq<F>,
    p: Seq<F>,
    fval: Seq<F>,
    bound: real,
) -> bool {
    &&& slopes(f, x, y, p, fval)
    &&& forall|i: int|
        0 <= i < x.len() - 1 ==> #[trigger] interval_met(num, f, x, y, p, fval, i, bound)
    &&& boundary_met(num, f, y, p, bound)
    &&& interior_met(num, f, x, y, p, fval, bound)
}

/// Where the norm of all equations is below the tolerance, all conditions are met.
pub proof fn law_small_norm_meets_conditions<F: Scalar, P: BvpEquations<F>>(
    num: spec_fn(F) -> real,
    f: BvpFns<F, P>,
    x: Seq<F>,
    tol: F,
    y: Seq<F>,
    p: Seq<F>,
)
    requires
        exact(num),
        ascends(num, x),
        x.len() >= 2,
        y.len() == x.len() * f.n_eq,
        newton_met(f, x, tol, y, p),
    ensures
        exists|fval: Seq<F>| #[trigger] conditions_met(num, f, x, y, p, fval, num(tol)),
{
    let n = f.n_eq as int;
    let norm = choose|norm: F| #[trigger] norm_at(f, x, y, p, norm) && lts(norm, tol, true);
    let (fval, res) = choose|fval: Seq<F>, res: Seq<F>| #[trigger]
        evaluated(f, x, y, p, fval, res, norm);
    lemma_norm_bounds(num, res, norm);
    let (col, bc, ic) = choose|col: Seq<F>, bc: Seq<F>, ic: Seq<F>| #[trigger]
        residual_parts(f, x, y, p, fval, col, bc, ic, res);
    assert forall|i: int| 0 <= i < col.len() implies size(num(#[trigger] col[i])) < num(tol) by {
        assert(res[i] == col[i]);
    }
    assert forall|i: int| 0 <= i < bc.len() implies size(num(#[trigger] bc[i])) < num(tol) by {
        assert(res[col.len() + i] == bc[i]);
    }
    assert forall|i: int| 0 <= i < ic.len() implies size(num(#[trigger] ic[i])) < num(tol) by {
        assert(res[col.len() + bc.len() + i] == ic[i]);
    }
    assert forall|i: int| 0 <= i < x.len() - 1 implies #[trigger] interval_met(
        num,
        f,
        x,
        y,
        p,
        fval,
        i,
        num(tol),
    ) by {
        let part = node(col, i, n);
        lemma_node_bounds(x.len() - 1, i, n);
        assert(interval_residual(f, x, y, p, fval, i, part));
        law_collocation_tells_slopes(num, f, x, y, p, fval, i, part);
        assert(below(num, part, num(tol)));
    }
    lemma_node_bounds(x.len() as int, x.len() - 1, n);
    lemma_last_node(x.len() as int, n);
    assert(node(y, 0, n) =~= y.take(n));
    assert(node(y, x.len() - 1, n) =~= y.skip(y.len() - n));
    assert(boundary_met(num, f, y, p, num(tol)));
    if f.n_ic > 0 {
        let ports = choose|ports: Seq<F>| #[trigger]
            at_ports(x, y, fval, n, f.x_ports@, ports) && ic_gives(f.equations, ports, p, ic);
        law_ports_by_position(num, x, y, fval, n, f.x_ports@, ports);
        assert(values_at_ports(num, f, x, y, fval, ports));
        assert(interior_met(num, f, x, y, p, fval, num(tol)));
    }
    assert(conditions_met(num, f, x, y, p, fval, num(tol)));
}

proof fn lemma_last_node(nodes: int, n: int)
    ensures
        (nodes - 1) * n + n == nodes * n,
        0 * n == 0,
{
    assert((nodes - 1) * n + n == nodes * n) by (nonlinear_arith);
    assert(0 * n == 0) by (nonlinear_arith);
}

/// A solution that is reported as converged meets the problem: the differential equation
/// at the nodes and, within the tolerance, at every midpoint, the boundary conditions at
/// both ends, and the interior conditions of its values at the ports in the order of the
/// ports.
pub proof fn law_converged_meets_conditions<F: Scalar, B: Backend<F>, P: BvpEquations<F>>(
    num: spec_fn(F) -> real,
    f: BvpFns<F, P>,
    tol: F,
    max_nodes: usize,
    max_rounds: usize,
    from: BvpState<F, B>,
    to: BvpState<F, B>,
)
    requires
        exact(num),
        solves(f, tol, max_nodes, max_rounds, from, to, true),
        ascends(num, to.x),
        to.x.len() >= 2,
        to.y.len() == to.x.len() * f.n_eq,
    ensures
        exists|fval: Seq<F>, bound: real| #[trigger]
            conditions_met(num, f, to.x, to.y, to.p, fval, bound) && bound <= num(tol) && bound
                * 100000000real <= 1real,
{
    law_converged_is_within_tolerance(f, tol, max_nodes, max_rounds, from, to);
    let (inner, fval, hres, worst) = choose|inner: F, fval: Seq<F>, hres: Seq<F>, worst: F| #[trigger]
        within_tolerance(f, tol, to, inner, fval, hres, worst);
    law_small_norm_meets_conditions(num, f, to.x, inner, to.y, to.p);
    reveal_with_fuel(meaning, 3);
    reveal_with_fuel(rational, 3);
    lemma_literal::<F>(num, 1, NEWTON_TOLERANCE_INVERSE);
    assert(1u64 as real == 1real && NEWTON_TOLERANCE_INVERSE as real == 100000000real);
    lemma_meaning(num, val(tol).smaller(lit(1, NEWTON_TOLERANCE_INVERSE)), inner);
    let slopes_there = choose|fval: Seq<F>| #[trigger]
        conditions_met(num, f, to.x, to.y, to.p, fval, num(inner));
}

} // verus!
