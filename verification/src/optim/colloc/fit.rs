//! Laws of meshes, where arithmetic is exact: interpolation is along straight lines,
//! refinement parts intervals evenly, and residuals measure slopes.

use vstd::prelude::*;

use crate::algebra::{lemma_quotient, lemma_reorders, lemma_scales};
use crate::exact::{exact, lemma_literal, lemma_meaning, meaning, rational};
use crate::expr::{evaluates, lit, val};
use crate::optim::colloc::cubic::{ascends, lemma_into};
use crate::optim::colloc::mesh::{
    between, brackets, hundredfold, inserted, interpolated, interpolated_at, interpolated_with,
    is_prefix, lemma_node_bounds, node, part_point, refined,
};
use crate::scalar::{lts, Scalar};

verus! {

/// `v` is the value at `xq` of component `k` on the straight lines between the nodes, by
/// way of interval `j`.
pub open spec fn on_line<F>(
    num: spec_fn(F) -> real,
    x: Seq<F>,
    y: Seq<F>,
    n: int,
    k: int,
    xq: real,
    j: int,
    v: real,
) -> bool {
    let (a, b) = (num(y[j * n + k]), num(y[(j + 1) * n + k]));
    &&& 0 <= j < x.len() - 1
    &&& j == 0 || num(x[j]) <= xq
    &&& j == x.len() - 2 || xq <= num(x[j + 1])
    &&& (v - a) * (num(x[j + 1]) - num(x[j])) == (b - a) * (xq - num(x[j]))
}

/// `v` is the value at `xq` of component `k` on the straight lines between the nodes.
pub open spec fn on_lines<F>(
    num: spec_fn(F) -> real,
    x: Seq<F>,
    y: Seq<F>,
    n: int,
    k: int,
    xq: real,
    v: real,
) -> bool {
    exists|j: int| #[trigger] on_line(num, x, y, n, k, xq, j, v)
}

proof fn lemma_on_lines<F: Scalar>(
    num: spec_fn(F) -> real,
    x: Seq<F>,
    y: Seq<F>,
    n: int,
    k: int,
    xq: F,
    out: Seq<F>,
)
    requires
        exact(num),
        ascends(num, x),
        0 <= k < n,
        y.len() == x.len() * n,
        interpolated_at(x, y, xq, n, out),
    ensures
        out.len() == n,
        on_lines(num, x, y, n, k, num(xq), num(out[k])),
{
    let (j, h, t) = choose|j: int, h: F, t: F| #[trigger]
        interpolated_with(x, y, xq, n, j, h, t, out);
    assert(brackets(x, xq, j));
    assert(num(x[j]) < num(x[j + 1]));
    reveal_with_fuel(meaning, 5);
    reveal_with_fuel(rational, 5);
    lemma_meaning(num, val(x[j + 1]).minus(val(x[j])), h);
    lemma_into(num, x[j], h, xq, t);
    lemma_node_bounds(x.len() as int, j, n);
    lemma_node_bounds(x.len() as int, j + 1, n);
    let (a, b) = (y[j * n + k], y[(j + 1) * n + k]);
    assert(node(y, j, n)[k] == a && node(y, j + 1, n)[k] == b);
    assert(evaluates(between(a, b, t), out[k]));
    lemma_meaning(num, between(a, b, t), out[k]);
    let d = num(b) - num(a);
    assert(num(out[k]) - num(a) == num(t) * d);
    lemma_reorders(num(t), d, num(h));
    lemma_reorders(d, num(t), num(h));
    lemma_scales(num(out[k]) - num(a), num(t) * d, num(h));
    lemma_scales(num(t) * num(h), num(xq) - num(x[j]), d);
    lemma_reorders(d, num(t) * num(h), 1real);
    lemma_reorders(d, num(xq) - num(x[j]), 1real);
    assert(j == 0 || lts(x[j], xq, true));
    assert(j == x.len() - 2 || lts(x[j + 1], xq, false));
    assert(on_line(num, x, y, n, k, num(xq), j, num(out[k])));
}

/// On a new mesh the solution lies on the straight lines between the old nodes, node by
/// node and component by component.
pub proof fn law_interpolation_is_linear<F: Scalar>(
    num: spec_fn(F) -> real,
    x: Seq<F>,
    y: Seq<F>,
    xn: Seq<F>,
    n: int,
    yn: Seq<F>,
)
    requires
        exact(num),
        ascends(num, x),
        n >= 0,
        y.len() == x.len() * n,
        interpolated(x, y, xn, n, yn),
    ensures
        yn.len() == xn.len() * n,
        forall|i: int, k: int|
            #![trigger yn[i * n + k]]
            0 <= i < xn.len() && 0 <= k < n ==> on_lines(
                num,
                x,
                y,
                n,
                k,
                num(xn[i]),
                num(yn[i * n + k]),
            ),
{
    assert forall|i: int, k: int|
        #![trigger yn[i * n + k]]
        0 <= i < xn.len() && 0 <= k < n implies on_lines(
        num,
        x,
        y,
        n,
        k,
        num(xn[i]),
        num(yn[i * n + k]),
    ) by {
        let part = node(yn, i, n);
        lemma_node_bounds(xn.len() as int, i, n);
        assert(interpolated_at(x, y, xn[i], n, part));
        lemma_on_lines(num, x, y, n, k, xn[i], part);
    }
}

/// `points` part the interval from `a` to `b` as its residual asks: not at all where it is
/// within the tolerance, in halves where it is not, in thirds where it is more than a
/// hundred times as large.
pub open spec fn parts_evenly<F>(
    num: spec_fn(F) -> real,
    a: real,
    b: real,
    res: real,
    tol: real,
    points: Seq<F>,
) -> bool {
    &&& res <= tol ==> points.len() == 0
    &&& tol < res <= 100real * tol ==> points.len() == 1 && 2real * num(points[0]) == a + b
    &&& tol < res && 100real * tol < res ==> points.len() == 2 && 3real * num(points[0]) == 2real
        * a + b && 3real * num(points[1]) == a + 2real * b
}

proof fn lemma_part_point<F: Scalar>(
    num: spec_fn(F) -> real,
    a: F,
    b: F,
    j: u64,
    parts: u64,
    v: F,
)
    requires
        exact(num),
        parts > 0,
        evaluates(part_point(a, b, j, parts), v),
    ensures
        (num(v) - num(a)) * (parts as real) == (j as real) * (num(b) - num(a)),
{
    reveal_with_fuel(meaning, 6);
    reveal_with_fuel(rational, 6);
    lemma_literal::<F>(num, j, 1);
    lemma_literal::<F>(num, parts, 1);
    lemma_meaning(num, part_point(a, b, j, parts), v);
    let (d, q, m) = (num(b) - num(a), j as real, parts as real);
    lemma_reorders(d, q, 1real);
    lemma_quotient(d * q, m);
    assert(meaning(num, lit::<F>(j, 1)) == q);
    assert(meaning(num, lit::<F>(parts, 1)) == m);
    assert(num(v) - num(a) == (d * q) / m);
}

proof fn lemma_parts_evenly<F: Scalar>(
    num: spec_fn(F) -> real,
    a: F,
    b: F,
    res: F,
    tol: F,
    points: Seq<F>,
)
    requires
        exact(num),
        inserted(a, b, res, tol, points),
    ensures
        parts_evenly(num, num(a), num(b), num(res), num(tol), points),
{
    let off = choose|off: bool| #[trigger]
        lts(tol, res, off) && if !off {
            points.len() == 0
        } else {
            exists|bound: F, far: bool| #[trigger]
                lts(bound, res, far) && hundredfold(tol, bound) && if far {
                    &&& points.len() == 2
                    &&& evaluates(part_point(a, b, 1, 3), points[0])
                    &&& evaluates(part_point(a, b, 2, 3), points[1])
                } else {
                    &&& points.len() == 1
                    &&& evaluates(part_point(a, b, 1, 2), points[0])
                }
        };
    if off {
        let (bound, far) = choose|bound: F, far: bool| #[trigger]
            lts(bound, res, far) && hundredfold(tol, bound) && if far {
                &&& points.len() == 2
                &&& evaluates(part_point(a, b, 1, 3), points[0])
                &&& evaluates(part_point(a, b, 2, 3), points[1])
            } else {
                &&& points.len() == 1
                &&& evaluates(part_point(a, b, 1, 2), points[0])
            };
        reveal_with_fuel(meaning, 3);
        reveal_with_fuel(rational, 3);
        lemma_literal::<F>(num, 100, 1);
        assert(100u64 as real == 100real && 1u64 as real == 1real && 2u64 as real == 2real && 3u64
            as real == 3real);
        lemma_meaning(num, lit(100, 1).times(val(tol)), bound);
        lemma_scales(meaning(num, lit::<F>(100, 1)), 100real, num(tol));
        if far {
            lemma_part_point(num, a, b, 1, 3, points[0]);
            lemma_part_point(num, a, b, 2, 3, points[1]);
        } else {
            lemma_part_point(num, a, b, 1, 2, points[0]);
        }
    }
}

/// What stands between nodes `i` and `i + 1` of the old mesh parts that interval.
pub open spec fn parted<F>(
    num: spec_fn(F) -> real,
    x: Seq<F>,
    res: Seq<F>,
    tol: real,
    xn: Seq<F>,
    at: Seq<int>,
    i: int,
) -> bool {
    at[i] < at[i + 1] && parts_evenly(
        num,
        num(x[i]),
        num(x[i + 1]),
        num(res[i]),
        tol,
        xn.subrange(at[i] + 1, at[i + 1]),
    )
}

/// The refined mesh: node `i` of the old mesh stands at `at[i]` of the new one, and what
/// stands between parts the interval.
pub open spec fn refines_evenly<F>(
    num: spec_fn(F) -> real,
    x: Seq<F>,
    res: Seq<F>,
    tol: real,
    k: int,
    xn: Seq<F>,
    at: Seq<int>,
) -> bool {
    &&& at.len() == k + 1
    &&& at[0] == 0
    &&& at[k] == xn.len() - 1
    &&& forall|i: int| 0 <= i <= k ==> 0 <= #[trigger] at[i] < xn.len() && xn[at[i]] == x[i]
    &&& forall|i: int| 0 <= i < k ==> #[trigger] parted(num, x, res, tol, xn, at, i)
}

/// Refinement parts every interval as its residual asks, and keeps the nodes in between.
pub proof fn law_refinement_parts_evenly<F: Scalar>(
    num: spec_fn(F) -> real,
    x: Seq<F>,
    res: Seq<F>,
    tol: F,
    k: int,
    xn: Seq<F>,
) -> (at: Seq<int>)
    requires
        exact(num),
        0 <= k < x.len(),
        refined(x, res, tol, k, xn),
    ensures
        refines_evenly(num, x, res, num(tol), k, xn, at),
    decreases k,
{
    if k == 0 {
        let at = seq![0int];
        assert(at.len() == 1 && at[0] == 0);
        assert(xn.len() == 1 && xn[0] == x[0]);
        assert(refines_evenly(num, x, res, num(tol), k, xn, at));
        at
    } else {
        let (prev, points) = choose|prev: Seq<F>, points: Seq<F>|
            xn == prev + points + seq![x[k]] && #[trigger] inserted(
                x[k - 1],
                x[k],
                res[k - 1],
                tol,
                points,
            ) && #[trigger] is_prefix(prev, xn) && refined(x, res, tol, k - 1, prev);
        let before = law_refinement_parts_evenly(num, x, res, tol, k - 1, prev);
        lemma_parts_evenly(num, x[k - 1], x[k], res[k - 1], tol, points);
        let at = before.push(xn.len() - 1);
        assert forall|i: int| 0 <= i <= k implies 0 <= #[trigger] at[i] < xn.len() && xn[at[i]]
            == x[i] by {
            if i < k {
                assert(at[i] == before[i]);
                assert(xn[at[i]] == prev[before[i]]);
            }
        }
        assert forall|i: int| 0 <= i < k implies #[trigger] parted(
            num,
            x,
            res,
            num(tol),
            xn,
            at,
            i,
        ) by {
            assert(at[i] == before[i]);
            assert(0 <= before[i] < prev.len());
            let next = i + 1;
            if i < k - 1 {
                assert(parted(num, x, res, num(tol), prev, before, i));
                assert(0 <= before[next] < prev.len());
                assert(at[next] == before[next]);
                assert(xn.subrange(at[i] + 1, at[next]) =~= prev.subrange(
                    before[i] + 1,
                    before[next],
                ));
            } else {
                assert(xn.subrange(at[i] + 1, at[next]) =~= points);
            }
        }
        assert(at[0] == before[0]);
        assert(refines_evenly(num, x, res, num(tol), k, xn, at));
        at
    }
}

} // verus!
