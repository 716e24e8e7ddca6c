//! The equations of a discretized problem: collocation on each interval, then
//! boundary conditions, then interior conditions.

use vstd::prelude::*;

use crate::expr::{evaluates, lit, val, Num, Term};
use crate::optim::colloc::mesh::{
    hermite_weights, lemma_append_node, node, node_of, weighs, Weights,
};
use crate::optim::colloc::problem::{bc_gives, fun_gives, ic_gives, BvpEquations, BvpFns};
use crate::scalar::Scalar;
use crate::seqs::append_all;

verus! {

/// Length of an interval: `b - a`.
pub open spec fn length<F>(a: F, b: F) -> Term<F> {
    val(b).minus(val(a))
}

/// Midpoint of an interval: `a + h / 2`.
pub open spec fn midpoint<F>(a: F, h: F) -> Term<F> {
    val(a).plus(lit(1, 2).times(val(h)))
}

/// Value of the cubic at the midpoint: `(yi + yj) / 2 - h / 8 * (fj - fi)`.
pub open spec fn mid_value<F>(yi: F, yj: F, fi: F, fj: F, h: F) -> Term<F> {
    lit(1, 2).times(val(yi).plus(val(yj))).minus(
        val(h).over(lit(8, 1)).times(val(fj).minus(val(fi))),
    )
}

/// `out` is the cubic at the midpoint.
pub open spec fn mid_values<F: Scalar>(
    yi: Seq<F>,
    yj: Seq<F>,
    fi: Seq<F>,
    fj: Seq<F>,
    h: F,
    n: int,
    out: Seq<F>,
) -> bool {
    &&& out.len() == n
    &&& forall|k: int|
        0 <= k < n ==> evaluates(mid_value(yi[k], yj[k], fi[k], fj[k], h), #[trigger] out[k])
}

/// Collocation equation: `yj - yi - h / 6 * (fi + 4 fm + fj)`.
pub open spec fn collocation<F>(yi: F, yj: F, fi: F, fm: F, fj: F, h: F) -> Term<F> {
    val(yj).minus(val(yi)).minus(
        val(h).over(lit(6, 1)).times(val(fi).plus(lit(4, 1).times(val(fm))).plus(val(fj))),
    )
}

/// `fval` holds the right-hand sides at all nodes.
pub open spec fn slopes<F: Scalar, P: BvpEquations<F>>(
    f: BvpFns<F, P>,
    x: Seq<F>,
    y: Seq<F>,
    p: Seq<F>,
    fval: Seq<F>,
) -> bool {
    let n = f.n_eq as int;
    &&& fval.len() == x.len() * n
    &&& forall|i: int|
        #![trigger node(fval, i, n)]
        0 <= i < x.len() ==> fun_gives(f.equations, x[i], node(y, i, n), p, node(fval, i, n))
}

/// The right-hand sides at all nodes.
pub fn eval_f<F: Scalar, P: BvpEquations<F>>(
    f: &BvpFns<F, P>,
    x: &Vec<F>,
    y: &Vec<F>,
    p: &Vec<F>,
) -> (fval: Vec<F>)
    requires
        f.shaped(),
        y@.len() == x@.len() * f.n_eq,
        p@.len() == f.n_params,
    ensures
        slopes(*f, x@, y@, p@, fval@),
{
    let n: usize = f.n_eq;
    let mut fval: Vec<F> = Vec::new();
    let mut i: usize = 0;
    assert(0 * n == 0) by (nonlinear_arith);
    while i < x.len()
        invariant
            i <= x@.len(),
            n == f.n_eq,
            f.shaped(),
            y@.len() == x@.len() * n,
            p@.len() == f.n_params,
            fval@.len() == i * n,
            forall|q: int|
                #![trigger node(fval@, q, n as int)]
                0 <= q < i ==> fun_gives(
                    f.equations,
                    x@[q],
                    node(y@, q, n as int),
                    p@,
                    node(fval@, q, n as int),
                ),
        decreases x.len() - i,
    {
        let yi: Vec<F> = node_of(y, i, n, x.len());
        let part: Vec<F> = f.fun(x[i], &yi, p);
        proof {
            lemma_append_node(fval@, part@, i as int, n as int);
        }
        append_all(&mut fval, &part);
        i += 1;
    }
    fval
}

/// An interval with what the equations use of it.
pub struct Interval<F> {
    pub h: F,
    pub xm: F,
    pub yi: Vec<F>,
    pub yj: Vec<F>,
    pub fi: Vec<F>,
    pub fj: Vec<F>,
    /// The cubic at the midpoint.
    pub ym: Vec<F>,
}

/// `iv` is interval `i` of the mesh.
pub open spec fn interval_is<F: Scalar>(
    x: Seq<F>,
    y: Seq<F>,
    fval: Seq<F>,
    n: int,
    i: int,
    iv: Interval<F>,
) -> bool {
    &&& evaluates(length(x[i], x[i + 1]), iv.h)
    &&& evaluates(midpoint(x[i], iv.h), iv.xm)
    &&& iv.yi@ == node(y, i, n)
    &&& iv.yj@ == node(y, i + 1, n)
    &&& iv.fi@ == node(fval, i, n)
    &&& iv.fj@ == node(fval, i + 1, n)
    &&& mid_values(iv.yi@, iv.yj@, iv.fi@, iv.fj@, iv.h, n, iv.ym@)
}

/// Interval `i` of the mesh.
pub fn interval<F: Scalar>(x: &Vec<F>, y: &Vec<F>, fval: &Vec<F>, n: usize, i: usize) -> (iv:
    Interval<F>)
    requires
        i + 1 < x@.len(),
        y@.len() == x@.len() * n,
        fval@.len() == x@.len() * n,
    ensures
        interval_is(x@, y@, fval@, n as int, i as int, iv),
        iv.yi@.len() == n,
        iv.yj@.len() == n,
        iv.fi@.len() == n,
        iv.fj@.len() == n,
        iv.ym@.len() == n,
{
    let nodes: usize = x.len();
    let h: F = Num::of(x[i + 1]).minus(Num::of(x[i])).value;
    let hn: Num<F> = Num::of(h);
    let xm: F = Num::of(x[i]).plus(Num::fraction(1, 2).times(hn)).value;
    let yi: Vec<F> = node_of(y, i, n, nodes);
    let yj: Vec<F> = node_of(y, i + 1, n, nodes);
    let fi: Vec<F> = node_of(fval, i, n, nodes);
    let fj: Vec<F> = node_of(fval, i + 1, n, nodes);
    let mut ym: Vec<F> = Vec::with_capacity(n);
    let mut k: usize = 0;
    while k < n
        invariant
            k <= n,
            yi@.len() == n,
            yj@.len() == n,
            fi@.len() == n,
            fj@.len() == n,
            hn.ok(),
            hn.term@ == val(h),
            ym@.len() == k,
            forall|q: int|
                0 <= q < k ==> evaluates(
                    mid_value(yi@[q], yj@[q], fi@[q], fj@[q], h),
                    #[trigger] ym@[q],
                ),
        decreases n - k,
    {
        let mean: Num<F> = Num::fraction(1, 2).times(Num::of(yi[k]).plus(Num::of(yj[k])));
        let bend: Num<F> = hn.over(Num::fraction(8, 1)).times(
            Num::of(fj[k]).minus(Num::of(fi[k])),
        );
        ym.push(mean.minus(bend).value);
        k += 1;
    }
    Interval { h, xm, yi, yj, fi, fj, ym }
}

/// `out` are the collocation equations of the interval with midpoint slopes `fm`.
pub open spec fn collocates<F: Scalar>(iv: Interval<F>, fm: Seq<F>, n: int, out: Seq<F>) -> bool {
    &&& out.len() == n
    &&& forall|k: int|
        0 <= k < n ==> evaluates(
            collocation(iv.yi@[k], iv.yj@[k], iv.fi@[k], fm[k], iv.fj@[k], iv.h),
            #[trigger] out[k],
        )
}

/// `out` are the collocation equations of interval `i`.
pub open spec fn interval_residual<F: Scalar, P: BvpEquations<F>>(
    f: BvpFns<F, P>,
    x: Seq<F>,
    y: Seq<F>,
    p: Seq<F>,
    fval: Seq<F>,
    i: int,
    out: Seq<F>,
) -> bool {
    exists|iv: Interval<F>, fm: Seq<F>| #[trigger]
        collocates(iv, fm, f.n_eq as int, out) && interval_is(x, y, fval, f.n_eq as int, i, iv)
            && fun_gives(f.equations, iv.xm, iv.ym@, p, fm)
}

/// Value of the cubic at a port: `h00 yj + h01 yk + h (h10 fj + h11 fk)`.
pub open spec fn port_value<F>(w: Weights<F>, yj: F, yk: F, fj: F, fk: F) -> Term<F> {
    val(w.h00).times(val(yj)).plus(val(w.h01).times(val(yk))).plus(
        val(w.h).times(val(w.h10).times(val(fj)).plus(val(w.h11).times(val(fk)))),
    )
}

/// `out` is the cubic at the port `xq`.
pub open spec fn at_port<F: Scalar>(
    x: Seq<F>,
    y: Seq<F>,
    fval: Seq<F>,
    n: int,
    xq: F,
    out: Seq<F>,
) -> bool {
    exists|w: Weights<F>| #[trigger]
        weighs(x, xq, w) && out.len() == n && forall|k: int|
            0 <= k < n ==> evaluates(
                port_value(
                    w,
                    node(y, w.j as int, n)[k],
                    node(y, w.j + 1, n)[k],
                    node(fval, w.j as int, n)[k],
                    node(fval, w.j + 1, n)[k],
                ),
                #[trigger] out[k],
            )
}

/// `out` is the cubic at all ports.
pub open spec fn at_ports<F: Scalar>(
    x: Seq<F>,
    y: Seq<F>,
    fval: Seq<F>,
    n: int,
    ports: Seq<F>,
    out: Seq<F>,
) -> bool {
    &&& out.len() == ports.len() * n
    &&& forall|q: int|
        #![trigger node(out, q, n)]
        0 <= q < ports.len() ==> at_port(x, y, fval, n, ports[q], node(out, q, n))
}

fn port_at<F: Scalar>(x: &Vec<F>, y: &Vec<F>, fval: &Vec<F>, n: usize, xq: F) -> (out: Vec<F>)
    requires
        x@.len() >= 2,
        y@.len() == x@.len() * n,
        fval@.len() == x@.len() * n,
    ensures
        at_port(x@, y@, fval@, n as int, xq, out@),
        out@.len() == n,
{
    let nodes: usize = x.len();
    let w: Weights<F> = hermite_weights(x, xq);
    assert(w.j + 1 < nodes);
    let yj: Vec<F> = node_of(y, w.j, n, nodes);
    let yk: Vec<F> = node_of(y, w.j + 1, n, nodes);
    let fj: Vec<F> = node_of(fval, w.j, n, nodes);
    let fk: Vec<F> = node_of(fval, w.j + 1, n, nodes);
    let mut out: Vec<F> = Vec::with_capacity(n);
    let mut k: usize = 0;
    while k < n
        invariant
            k <= n,
            yj@.len() == n,
            yk@.len() == n,
            fj@.len() == n,
            fk@.len() == n,
            out@.len() == k,
            forall|q: int|
                0 <= q < k ==> evaluates(
                    port_value(w, yj@[q], yk@[q], fj@[q], fk@[q]),
                    #[trigger] out@[q],
                ),
        decreases n - k,
    {
        let values: Num<F> = Num::of(w.h00).times(Num::of(yj[k])).plus(
            Num::of(w.h01).times(Num::of(yk[k])),
        );
        let bend: Num<F> = Num::of(w.h).times(
            Num::of(w.h10).times(Num::of(fj[k])).plus(Num::of(w.h11).times(Num::of(fk[k]))),
        );
        out.push(values.plus(bend).value);
        k += 1;
    }
    out
}

/// The cubic at all ports.
pub fn port_values<F: Scalar>(
    x: &Vec<F>,
    y: &Vec<F>,
    fval: &Vec<F>,
    n: usize,
    ports: &Vec<F>,
) -> (out: Vec<F>)
    requires
        x@.len() >= 2,
        y@.len() == x@.len() * n,
        fval@.len() == x@.len() * n,
    ensures
        at_ports(x@, y@, fval@, n as int, ports@, out@),
{
    let mut out: Vec<F> = Vec::new();
    let mut q: usize = 0;
    assert(0 * n == 0) by (nonlinear_arith);
    while q < ports.len()
        invariant
            q <= ports@.len(),
            x@.len() >= 2,
            y@.len() == x@.len() * n,
            fval@.len() == x@.len() * n,
            out@.len() == q * n,
            forall|i: int|
                #![trigger node(out@, i, n as int)]
                0 <= i < q ==> at_port(
                    x@,
                    y@,
                    fval@,
                    n as int,
                    ports@[i],
                    node(out@, i, n as int),
                ),
        decreases ports.len() - q,
    {
        let part: Vec<F> = port_at(x, y, fval, n, ports[q]);
        proof {
            lemma_append_node(out@, part@, q as int, n as int);
        }
        append_all(&mut out, &part);
        q += 1;
    }
    out
}

/// `col` are the collocation equations of all intervals.
pub open spec fn collocations<F: Scalar, P: BvpEquations<F>>(
    f: BvpFns<F, P>,
    x: Seq<F>,
    y: Seq<F>,
    p: Seq<F>,
    fval: Seq<F>,
    col: Seq<F>,
) -> bool {
    let n = f.n_eq as int;
    &&& col.len() == (x.len() - 1) * n
    &&& forall|i: int|
        #![trigger node(col, i, n)]
        0 <= i < x.len() - 1 ==> interval_residual(f, x, y, p, fval, i, node(col, i, n))
}

/// `ic` are the interior conditions, if there are any.
pub open spec fn interior_conditions<F: Scalar, P: BvpEquations<F>>(
    f: BvpFns<F, P>,
    x: Seq<F>,
    y: Seq<F>,
    p: Seq<F>,
    fval: Seq<F>,
    ic: Seq<F>,
) -> bool {
    if f.n_ic > 0 {
        exists|ports: Seq<F>| #[trigger]
            at_ports(x, y, fval, f.n_eq as int, f.x_ports@, ports) && ic_gives(
                f.equations,
                ports,
                p,
                ic,
            )
    } else {
        ic.len() == 0
    }
}

/// `out` are all equations, in parts: collocation, boundary and interior.
pub open spec fn residual_parts<F: Scalar, P: BvpEquations<F>>(
    f: BvpFns<F, P>,
    x: Seq<F>,
    y: Seq<F>,
    p: Seq<F>,
    fval: Seq<F>,
    col: Seq<F>,
    bc: Seq<F>,
    ic: Seq<F>,
    out: Seq<F>,
) -> bool {
    let n = f.n_eq as int;
    &&& collocations(f, x, y, p, fval, col)
    &&& bc_gives(f.equations, node(y, 0, n), node(y, x.len() - 1, n), p, bc)
    &&& interior_conditions(f, x, y, p, fval, ic)
    &&& out == col + bc + ic
}

/// `out` are all equations at `y` and `p`, with the slopes `fval` at the nodes.
pub open spec fn residual_is<F: Scalar, P: BvpEquations<F>>(
    f: BvpFns<F, P>,
    x: Seq<F>,
    y: Seq<F>,
    p: Seq<F>,
    fval: Seq<F>,
    out: Seq<F>,
) -> bool {
    exists|col: Seq<F>, bc: Seq<F>, ic: Seq<F>| #[trigger]
        residual_parts(f, x, y, p, fval, col, bc, ic, out)
}

fn collocate<F: Scalar, P: BvpEquations<F>>(
    f: &BvpFns<F, P>,
    x: &Vec<F>,
    y: &Vec<F>,
    p: &Vec<F>,
    fval: &Vec<F>,
    i: usize,
) -> (out: Vec<F>)
    requires
        f.shaped(),
        i + 1 < x@.len(),
        y@.len() == x@.len() * f.n_eq,
        fval@.len() == x@.len() * f.n_eq,
        p@.len() == f.n_params,
    ensures
        interval_residual(*f, x@, y@, p@, fval@, i as int, out@),
        out@.len() == f.n_eq,
{
    let n: usize = f.n_eq;
    let iv: Interval<F> = interval(x, y, fval, n, i);
    let fm: Vec<F> = f.fun(iv.xm, &iv.ym, p);
    let mut out: Vec<F> = Vec::with_capacity(n);
    let mut k: usize = 0;
    while k < n
        invariant
            k <= n,
            iv.yi@.len() == n,
            iv.yj@.len() == n,
            iv.fi@.len() == n,
            iv.fj@.len() == n,
            fm@.len() == n,
            out@.len() == k,
            forall|q: int|
                0 <= q < k ==> evaluates(
                    collocation(iv.yi@[q], iv.yj@[q], iv.fi@[q], fm@[q], iv.fj@[q], iv.h),
                    #[trigger] out@[q],
                ),
        decreases n - k,
    {
        let slope: Num<F> = Num::of(iv.fi[k]).plus(
            Num::fraction(4, 1).times(Num::of(fm[k])),
        ).plus(Num::of(iv.fj[k]));
        let step: Num<F> = Num::of(iv.h).over(Num::fraction(6, 1)).times(slope);
        out.push(Num::of(iv.yj[k]).minus(Num::of(iv.yi[k])).minus(step).value);
        k += 1;
    }
    assert(collocates(iv, fm@, n as int, out@));
    out
}

/// All equations at `y` and `p`, with the slopes `fval` at the nodes.
pub fn residual<F: Scalar, P: BvpEquations<F>>(
    f: &BvpFns<F, P>,
    x: &Vec<F>,
    y: &Vec<F>,
    p: &Vec<F>,
    fval: &Vec<F>,
) -> (out: Vec<F>)
    requires
        f.shaped(),
        x@.len() >= 2,
        y@.len() == x@.len() * f.n_eq,
        fval@.len() == x@.len() * f.n_eq,
        p@.len() == f.n_params,
    ensures
        residual_is(*f, x@, y@, p@, fval@, out@),
        out@.len() == f.unknowns(x@.len() as int),
{
    let n: usize = f.n_eq;
    let nodes: usize = x.len();
    let mut out: Vec<F> = Vec::new();
    let mut i: usize = 0;
    assert(0 * n == 0) by (nonlinear_arith);
    while i < nodes - 1
        invariant
            nodes == x@.len(),
            nodes >= 2,
            i <= nodes - 1,
            n == f.n_eq,
            f.shaped(),
            y@.len() == x@.len() * n,
            fval@.len() == x@.len() * n,
            p@.len() == f.n_params,
            out@.len() == i * n,
            forall|q: int|
                #![trigger node(out@, q, n as int)]
                0 <= q < i ==> interval_residual(
                    *f,
                    x@,
                    y@,
                    p@,
                    fval@,
                    q,
                    node(out@, q, n as int),
                ),
        decreases nodes - i,
    {
        let part: Vec<F> = collocate(f, x, y, p, fval, i);
        proof {
            lemma_append_node(out@, part@, i as int, n as int);
        }
        append_all(&mut out, &part);
        i += 1;
    }
    let ghost col = out@;
    let ya: Vec<F> = node_of(y, 0, n, nodes);
    let yb: Vec<F> = node_of(y, nodes - 1, n, nodes);
    let bc: Vec<F> = f.boundary(&ya, &yb, p);
    append_all(&mut out, &bc);
    let mut ic: Vec<F> = Vec::new();
    if f.n_ic > 0 {
        let ports: Vec<F> = port_values(x, y, fval, n, &f.x_ports);
        ic = f.interior(&ports, p);
    }
    append_all(&mut out, &ic);
    proof {
        assert(residual_parts(*f, x@, y@, p@, fval@, col, bc@, ic@, out@));
        assert((nodes - 1) * n + n == nodes * n) by (nonlinear_arith)
            requires
                nodes >= 1,
        ;
    }
    out
}

} // verus!
