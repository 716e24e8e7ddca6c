//! Meshes: places on them, interpolation between them, and their refinement.

use vstd::prelude::*;

use crate::expr::{evaluates, lit, val, Num, Term};
use crate::scalar::{lts, zeros, Scalar};
use crate::seqs::append_all;

verus! {

/// The values of node `i`, with `n` values per node.
pub open spec fn node<F>(v: Seq<F>, i: int, n: int) -> Seq<F> {
    v.subrange(i * n, i * n + n)
}

/// The values of node `i`.
pub fn node_of<F: Scalar>(v: &Vec<F>, i: usize, n: usize, nodes: usize) -> (r: Vec<F>)
    requires
        i < nodes,
        v@.len() == nodes * n,
    ensures
        r@ == node(v@, i as int, n as int),
        r@.len() == n,
{
    let size: usize = v.len();
    let mut r: Vec<F> = Vec::with_capacity(n);
    let mut k: usize = 0;
    proof {
        lemma_node_bounds(nodes as int, i as int, n as int);
    }
    while k < n
        invariant
            k <= n,
            i < nodes,
            size == nodes * n,
            v@.len() == size,
            i * n + n <= size,
            0 <= i * n,
            r@ == v@.subrange(i * n, i * n + k),
        decreases n - k,
    {
        r.push(v[i * n + k]);
        assert(v@.subrange(i * n, i * n + k + 1) =~= v@.subrange(i * n, i * n + k).push(
            v@[i * n + k],
        ));
        k += 1;
    }
    r
}

/// A node lies inside the values of all nodes.
pub proof fn lemma_node_bounds(nodes: int, i: int, n: int)
    requires
        0 <= i < nodes,
        0 <= n,
    ensures
        0 <= i * n,
        i * n + n <= nodes * n,
{
    assert(0 <= i * n && i * n + n <= nodes * n) by (nonlinear_arith)
        requires
            0 <= i < nodes,
            0 <= n,
    ;
}

/// Interval `j` of the mesh is the one that `xq` falls into: the first whose right
/// end is not below `xq`, or the last.
pub open spec fn brackets<F: Scalar>(x: Seq<F>, xq: F, j: int) -> bool {
    &&& 0 <= j < x.len() - 1
    &&& forall|i: int| 1 <= i <= j ==> lts(#[trigger] x[i], xq, true)
    &&& j + 1 == x.len() - 1 || lts(x[j + 1], xq, false)
}

/// The interval that `xq` falls into.
pub fn bracket<F: Scalar>(x: &Vec<F>, xq: F) -> (j: usize)
    requires
        x@.len() >= 2,
    ensures
        brackets(x@, xq, j as int),
{
    let last: usize = x.len() - 1;
    let mut j: usize = 0;
    while j + 1 < last
        invariant
            x@.len() >= 2,
            last == x@.len() - 1,
            j < last,
            forall|i: int| 1 <= i <= j ==> lts(#[trigger] x@[i], xq, true),
        decreases last - j,
    {
        let before: bool = x[j + 1].below(xq);
        assert(lts(x@[j + 1], xq, before));
        if !before {
            return j;
        }
        j += 1;
    }
    j
}

/// `t` is how far `xq` is into the interval from `a` to `b` of length `h`; zero if
/// the length is not positive.
pub open spec fn fraction_into<F: Scalar>(a: F, h: F, xq: F, t: F) -> bool {
    exists|z: F, positive: bool| #[trigger]
        lts(z, h, positive) && zeros(z) && if positive {
            evaluates(val(xq).minus(val(a)).over(val(h)), t)
        } else {
            zeros(t)
        }
}

/// How far `xq` is into the interval from `a` on of length `h`.
pub fn into_interval<F: Scalar>(a: F, h: F, xq: F) -> (t: F)
    ensures
        fraction_into(a, h, xq, t),
{
    let z: F = F::zero();
    let positive: bool = z.below(h);
    assert(lts(z, h, positive));
    if positive {
        Num::of(xq).minus(Num::of(a)).over(Num::of(h)).value
    } else {
        F::zero()
    }
}

/// `t * t`.
pub open spec fn square<F>(t: F) -> Term<F> {
    val(t).times(val(t))
}

/// `t * t * t`.
pub open spec fn cube<F>(t: F) -> Term<F> {
    val(t).times(val(t)).times(val(t))
}

/// Weight of the left value: `1 - 3 t^2 + 2 t^3`.
pub open spec fn left_value<F>(t2: F, t3: F) -> Term<F> {
    lit(1, 1).minus(lit(3, 1).times(val(t2))).plus(lit(2, 1).times(val(t3)))
}

/// Weight of the right value: `3 t^2 - 2 t^3`.
pub open spec fn right_value<F>(t2: F, t3: F) -> Term<F> {
    lit(3, 1).times(val(t2)).minus(lit(2, 1).times(val(t3)))
}

/// Weight of the left slope: `t - 2 t^2 + t^3`.
pub open spec fn left_slope<F>(t: F, t2: F, t3: F) -> Term<F> {
    val(t).minus(lit(2, 1).times(val(t2))).plus(val(t3))
}

/// Weight of the right slope: `-t^2 + t^3`.
pub open spec fn right_slope<F>(t2: F, t3: F) -> Term<F> {
    val(t2).negated().plus(val(t3))
}

/// Place of a point on a mesh: its interval, the length of that, and the weights of
/// the values and slopes at its ends.
#[derive(Clone, Copy)]
pub struct Weights<F> {
    pub j: usize,
    pub h: F,
    pub h00: F,
    pub h01: F,
    pub h10: F,
    pub h11: F,
}

/// The weights of the cubic at the fraction `t` of the interval.
pub open spec fn weighs_with<F: Scalar>(
    x: Seq<F>,
    xq: F,
    t: F,
    t2: F,
    t3: F,
    w: Weights<F>,
) -> bool {
    &&& brackets(x, xq, w.j as int)
    &&& evaluates(val(x[w.j + 1]).minus(val(x[w.j as int])), w.h)
    &&& fraction_into(x[w.j as int], w.h, xq, t)
    &&& evaluates(square(t), t2)
    &&& evaluates(cube(t), t3)
    &&& evaluates(left_value(t2, t3), w.h00)
    &&& evaluates(right_value(t2, t3), w.h01)
    &&& evaluates(left_slope(t, t2, t3), w.h10)
    &&& evaluates(right_slope(t2, t3), w.h11)
}

/// `w` places `xq` on the mesh.
pub open spec fn weighs<F: Scalar>(x: Seq<F>, xq: F, w: Weights<F>) -> bool {
    exists|t: F, t2: F, t3: F| #[trigger] weighs_with(x, xq, t, t2, t3, w)
}

/// Places `xq` on the mesh.
pub fn hermite_weights<F: Scalar>(x: &Vec<F>, xq: F) -> (w: Weights<F>)
    requires
        x@.len() >= 2,
    ensures
        weighs(x@, xq, w),
{
    let nodes: usize = x.len();
    let j: usize = bracket(x, xq);
    assert(j + 1 < nodes);
    let h: F = Num::of(x[j + 1]).minus(Num::of(x[j])).value;
    let t: F = into_interval(x[j], h, xq);
    let tn: Num<F> = Num::of(t);
    let t2: F = tn.times(tn).value;
    let t3: F = tn.times(tn).times(tn).value;
    let n2: Num<F> = Num::of(t2);
    let n3: Num<F> = Num::of(t3);
    let h00: F = Num::fraction(1, 1).minus(Num::fraction(3, 1).times(n2)).plus(
        Num::fraction(2, 1).times(n3),
    ).value;
    let h01: F = Num::fraction(3, 1).times(n2).minus(Num::fraction(2, 1).times(n3)).value;
    let h10: F = tn.minus(Num::fraction(2, 1).times(n2)).plus(n3).value;
    let h11: F = n2.negated().plus(n3).value;
    let w: Weights<F> = Weights { j, h, h00, h01, h10, h11 };
    assert(weighs_with(x@, xq, t, t2, t3, w));
    w
}

/// Value between `a` and `b`: `a + frac * (b - a)`.
pub open spec fn between<F>(a: F, b: F, frac: F) -> Term<F> {
    val(a).plus(val(frac).times(val(b).minus(val(a))))
}

/// `out` holds the values at `xv` of the piecewise linear function through the old
/// nodes, by way of the interval `j`, its length `h` and the fraction `t`.
pub open spec fn interpolated_with<F: Scalar>(
    x_old: Seq<F>,
    y_old: Seq<F>,
    xv: F,
    n: int,
    j: int,
    h: F,
    t: F,
    out: Seq<F>,
) -> bool {
    &&& brackets(x_old, xv, j)
    &&& evaluates(val(x_old[j + 1]).minus(val(x_old[j])), h)
    &&& fraction_into(x_old[j], h, xv, t)
    &&& out.len() == n
    &&& forall|k: int|
        0 <= k < n ==> evaluates(
            between(node(y_old, j, n)[k], node(y_old, j + 1, n)[k], t),
            #[trigger] out[k],
        )
}

/// `out` holds the interpolated values at `xv`.
pub open spec fn interpolated_at<F: Scalar>(
    x_old: Seq<F>,
    y_old: Seq<F>,
    xv: F,
    n: int,
    out: Seq<F>,
) -> bool {
    exists|j: int, h: F, t: F| #[trigger]
        interpolated_with(x_old, y_old, xv, n, j, h, t, out)
}

/// `y` holds the interpolated values at all nodes of the new mesh.
pub open spec fn interpolated<F: Scalar>(
    x_old: Seq<F>,
    y_old: Seq<F>,
    x_new: Seq<F>,
    n: int,
    y: Seq<F>,
) -> bool {
    &&& y.len() == x_new.len() * n
    &&& forall|i: int|
        #![trigger node(y, i, n)]
        0 <= i < x_new.len() ==> interpolated_at(x_old, y_old, x_new[i], n, node(y, i, n))
}

fn interp_at<F: Scalar>(x_old: &Vec<F>, y_old: &Vec<F>, xv: F, n: usize) -> (out: Vec<F>)
    requires
        x_old@.len() >= 2,
        y_old@.len() == x_old@.len() * n,
    ensures
        interpolated_at(x_old@, y_old@, xv, n as int, out@),
        out@.len() == n,
{
    let nodes: usize = x_old.len();
    let j: usize = bracket(x_old, xv);
    let h: F = Num::of(x_old[j + 1]).minus(Num::of(x_old[j])).value;
    let t: F = into_interval(x_old[j], h, xv);
    let a: Vec<F> = node_of(y_old, j, n, nodes);
    let b: Vec<F> = node_of(y_old, j + 1, n, nodes);
    let mut out: Vec<F> = Vec::with_capacity(n);
    let mut k: usize = 0;
    while k < n
        invariant
            k <= n,
            a@.len() == n,
            b@.len() == n,
            out@.len() == k,
            forall|q: int| 0 <= q < k ==> evaluates(between(a@[q], b@[q], t), #[trigger] out@[q]),
        decreases n - k,
    {
        let an: Num<F> = Num::of(a[k]);
        out.push(an.plus(Num::of(t).times(Num::of(b[k]).minus(an))).value);
        k += 1;
    }
    assert(interpolated_with(x_old@, y_old@, xv, n as int, j as int, h, t, out@));
    out
}

/// Appending a node leaves the earlier ones as they are.
pub proof fn lemma_append_node<F>(v: Seq<F>, part: Seq<F>, count: int, n: int)
    requires
        0 <= n,
        0 <= count,
        v.len() == count * n,
        part.len() == n,
    ensures
        (v + part).len() == (count + 1) * n,
        node(v + part, count, n) == part,
        forall|i: int| 0 <= i < count ==> #[trigger] node(v + part, i, n) == node(v, i, n),
{
    assert((count + 1) * n == count * n + n) by (nonlinear_arith);
    assert(node(v + part, count, n) =~= part);
    assert forall|i: int| 0 <= i < count implies #[trigger] node(v + part, i, n) == node(v, i, n) by {
        lemma_node_bounds(count, i, n);
        assert(node(v + part, i, n) =~= node(v, i, n));
    }
}

/// The values of the piecewise linear function through the old nodes at all nodes
/// of the new mesh.
pub fn interp<F: Scalar>(x_old: &Vec<F>, y_old: &Vec<F>, x_new: &Vec<F>, n: usize) -> (y: Vec<F>)
    requires
        x_old@.len() >= 2,
        y_old@.len() == x_old@.len() * n,
    ensures
        interpolated(x_old@, y_old@, x_new@, n as int, y@),
{
    let mut y: Vec<F> = Vec::new();
    let mut i: usize = 0;
    assert(0 * n == 0) by (nonlinear_arith);
    while i < x_new.len()
        invariant
            i <= x_new@.len(),
            x_old@.len() >= 2,
            y_old@.len() == x_old@.len() * n,
            y@.len() == i * n,
            forall|q: int|
                #![trigger node(y@, q, n as int)]
                0 <= q < i ==> interpolated_at(
                    x_old@,
                    y_old@,
                    x_new@[q],
                    n as int,
                    node(y@, q, n as int),
                ),
        decreases x_new.len() - i,
    {
        let part: Vec<F> = interp_at(x_old, y_old, x_new[i], n);
        proof {
            lemma_append_node(y@, part@, i as int, n as int);
        }
        append_all(&mut y, &part);
        i += 1;
    }
    y
}

/// Point `j` of `parts` equal parts of the interval from `a` to `b`:
/// `a + (b - a) * j / parts`.
pub open spec fn part_point<F>(a: F, b: F, j: u64, parts: u64) -> Term<F> {
    val(a).plus(val(b).minus(val(a)).times(lit(j, 1)).over(lit(parts, 1)))
}

/// `bound` is a hundred times `tol`.
pub open spec fn hundredfold<F: Scalar>(tol: F, bound: F) -> bool {
    evaluates(lit(100, 1).times(val(tol)), bound)
}

/// `points` is what is inserted into the interval from `a` to `b` with residual
/// `res`: nothing, its midpoint, or two points where the residual is far off.
pub open spec fn inserted<F: Scalar>(a: F, b: F, res: F, tol: F, points: Seq<F>) -> bool {
    exists|off: bool| #[trigger]
        lts(tol, res, off) && if !off {
            points.len() == 0
        } else {
            exists|bound: F, far: bool| #[trigger]
                lts(bound, res, far) && hundredfold(tol, bound) && if far {
                    &&& points.len() == 2
                    &&& evaluates(part_point(a, b, 1, 3), points[0])
                    &&& evaluates(part_point(a, b, 2, 3), points[1])
                } else {
                    &&& points.len() == 1
                    &&& evaluates(part_point(a, b, 1, 2), points[0])
                }
        }
}

/// `xn` is the refinement of the first `k` intervals of the mesh.
pub open spec fn refined<F: Scalar>(
    x: Seq<F>,
    res: Seq<F>,
    tol: F,
    k: int,
    xn: Seq<F>,
) -> bool
    decreases k,
{
    if k <= 0 {
        xn == seq![x[0]]
    } else {
        exists|prev: Seq<F>, points: Seq<F>|
            xn == prev + points + seq![x[k]] && #[trigger] inserted(
                x[k - 1],
                x[k],
                res[k - 1],
                tol,
                points,
            ) && #[trigger] is_prefix(prev, xn) && refined(x, res, tol, k - 1, prev)
    }
}

/// `a` starts `b`.
pub open spec fn is_prefix<F>(a: Seq<F>, b: Seq<F>) -> bool {
    a.len() <= b.len() && a == b.take(a.len() as int)
}

fn insert<F: Scalar>(a: F, b: F, res: F, tol: F) -> (points: Vec<F>)
    ensures
        inserted(a, b, res, tol, points@),
        points@.len() <= 2,
{
    let mut points: Vec<F> = Vec::new();
    let off: bool = tol.below(res);
    assert(lts(tol, res, off));
    if off {
        let bound: F = Num::fraction(100, 1).times(Num::of(tol)).value;
        let far: bool = bound.below(res);
        assert(lts(bound, res, far) && hundredfold(tol, bound));
        let an: Num<F> = Num::of(a);
        let width: Num<F> = Num::of(b).minus(an);
        if far {
            points.push(
                an.plus(width.times(Num::fraction(1, 1)).over(Num::fraction(3, 1))).value,
            );
            points.push(
                an.plus(width.times(Num::fraction(2, 1)).over(Num::fraction(3, 1))).value,
            );
        } else {
            points.push(
                an.plus(width.times(Num::fraction(1, 1)).over(Num::fraction(2, 1))).value,
            );
        }
    }
    points
}

/// The mesh with points inserted where the residual exceeds the tolerance.
pub fn refine<F: Scalar>(x: &Vec<F>, res: &Vec<F>, tol: F) -> (xn: Vec<F>)
    requires
        x@.len() >= 1,
        res@.len() == x@.len() - 1,
    ensures
        refined(x@, res@, tol, x@.len() - 1, xn@),
        x@.len() <= xn@.len() <= 3 * x@.len(),
{
    let mut xn: Vec<F> = Vec::new();
    xn.push(x[0]);
    assert(xn@ =~= seq![x@[0]]);
    let mut i: usize = 0;
    while i < x.len() - 1
        invariant
            x@.len() >= 1,
            i <= x@.len() - 1,
            res@.len() == x@.len() - 1,
            refined(x@, res@, tol, i as int, xn@),
            i + 1 <= xn@.len() <= 3 * i + 1,
        decreases x@.len() - i,
    {
        let ghost prev = xn@;
        let points: Vec<F> = insert(x[i], x[i + 1], res[i], tol);
        append_all(&mut xn, &points);
        xn.push(x[i + 1]);
        proof {
            assert(xn@ =~= prev + points@ + seq![x@[i + 1]]);
            assert(xn@.take(prev.len() as int) =~= prev);
            assert(is_prefix(prev, xn@));
            assert(inserted(x@[i + 1 - 1], x@[i + 1], res@[i + 1 - 1], tol, points@));
            assert(refined(x@, res@, tol, i + 1, xn@));
        }
        i += 1;
    }
    xn
}

/// The elements of `x` stand in `xn` at the places `at`, in the order that they had.
pub open spec fn stands_at<F>(x: Seq<F>, xn: Seq<F>, at: Seq<int>) -> bool {
    &&& at.len() == x.len()
    &&& forall|i: int, j: int| 0 <= i < j < at.len() ==> at[i] < at[j]
    &&& forall|i: int|
        0 <= i < at.len() ==> 0 <= #[trigger] at[i] < xn.len() && xn[at[i]] == x[i]
}

/// `xn` holds the elements of `x` in the order that they had, and others between them.
pub open spec fn interspersed<F>(x: Seq<F>, xn: Seq<F>) -> bool {
    &&& exists|at: Seq<int>| #[trigger] stands_at(x, xn, at)
    &&& x.len() > 0 ==> xn.len() > 0 && xn[0] == x[0] && xn.last() == x.last()
}

proof fn lemma_refined_keeps<F: Scalar>(
    x: Seq<F>,
    res: Seq<F>,
    tol: F,
    k: int,
    xn: Seq<F>,
) -> (at: Seq<int>)
    requires
        0 <= k < x.len(),
        refined(x, res, tol, k, xn),
    ensures
        xn.len() >= k + 1,
        xn[0] == x[0],
        xn.last() == x[k],
        stands_at(x.take(k + 1), xn, at),
    decreases k,
{
    if k > 0 {
        let (prev, points) = choose|prev: Seq<F>, points: Seq<F>|
            xn == prev + points + seq![x[k]] && #[trigger] inserted(
                x[k - 1],
                x[k],
                res[k - 1],
                tol,
                points,
            ) && #[trigger] is_prefix(prev, xn) && refined(x, res, tol, k - 1, prev);
        let before = lemma_refined_keeps(x, res, tol, k - 1, prev);
        let at = before.push(xn.len() - 1);
        let part = x.take(k + 1);
        assert forall|i: int| 0 <= i < at.len() implies 0 <= #[trigger] at[i] < xn.len()
            && xn[at[i]] == part[i] by {
            if i < k {
                assert(at[i] == before[i]);
                assert(prev[before[i]] == x.take(k)[i]);
            }
        }
        assert forall|i: int, j: int| 0 <= i < j < at.len() implies at[i] < at[j] by {
            assert(at[i] == before[i] && before[i] < prev.len());
        }
        at
    } else {
        let at = seq![0int];
        assert(stands_at(x.take(1), xn, at));
        at
    }
}

/// Refinement keeps every node of the mesh in its order, and its ends.
pub proof fn law_refinement_keeps_nodes<F: Scalar>(
    x: Seq<F>,
    res: Seq<F>,
    tol: F,
    xn: Seq<F>,
)
    requires
        x.len() >= 1,
        refined(x, res, tol, x.len() - 1, xn),
    ensures
        xn.len() >= x.len(),
        interspersed(x, xn),
{
    let at = lemma_refined_keeps(x, res, tol, x.len() - 1, xn);
    assert(x.take(x.len() as int) =~= x);
    assert(stands_at(x, xn, at));
}

/// What holds the elements of what holds the elements of `x`, in order, holds those of
/// `x` in order.
pub proof fn lemma_interspersed_twice<F>(x: Seq<F>, y: Seq<F>, z: Seq<F>)
    requires
        interspersed(x, y),
        interspersed(y, z),
    ensures
        interspersed(x, z),
{
    let p = choose|at: Seq<int>| #[trigger] stands_at(x, y, at);
    let q = choose|at: Seq<int>| #[trigger] stands_at(y, z, at);
    let at = Seq::new(x.len(), |i: int| q[p[i]]);
    assert forall|i: int| 0 <= i < at.len() implies 0 <= #[trigger] at[i] < z.len() && z[at[i]]
        == x[i] by {
        assert(0 <= p[i] < y.len());
        assert(0 <= q[p[i]] < z.len());
    }
    assert forall|i: int, j: int| 0 <= i < j < at.len() implies at[i] < at[j] by {
        assert(0 <= p[i] < y.len() && 0 <= p[j] < y.len());
        assert(p[i] < p[j]);
    }
    assert(stands_at(x, z, at));
}

} // verus!
