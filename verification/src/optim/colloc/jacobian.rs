//! The derivative of the discretized equations by the solution at all nodes and by
//! the parameters.

use vstd::prelude::*;

use crate::expr::{evaluates, lit, val, Num, Term};
use crate::matrix::{lemma_place_bounds, place};
use crate::optim::colloc::mesh::{
    hermite_weights, lemma_append_node, lemma_node_bounds, node, node_of, weighs,
    Weights,
};
use crate::optim::colloc::problem::{
    bc_p_gives, bc_ya_gives, bc_yb_gives, fp_gives, fy_gives, ic_p_gives, ic_y_gives, BvpEquations,
    BvpFns,
};
use crate::optim::colloc::residual::{
    at_ports, interval, interval_is, port_values, Interval,
};
use crate::scalar::{zeros, Scalar};
use crate::seqs::append_all;

verus! {

/// Entry of the identity.
pub open spec fn unit<F>(diagonal: bool) -> Term<F> {
    if diagonal {
        lit(1, 1)
    } else {
        Term::Zero
    }
}

fn unit_of<F: Scalar>(diagonal: bool) -> (r: Num<F>)
    ensures
        r.ok(),
        r.term@ == unit::<F>(diagonal),
{
    if diagonal {
        Num::fraction(1, 1)
    } else {
        Num::zero()
    }
}

/// Derivatives of the right-hand side at the ends and at the midpoint of an
/// interval: by the solution, and by the parameters if there are any.
pub struct Blocks<F> {
    pub ji: Vec<F>,
    pub jj: Vec<F>,
    pub jm: Vec<F>,
    pub jpi: Vec<F>,
    pub jpj: Vec<F>,
    pub jmp: Vec<F>,
}

/// The matrices have the sizes of `n` equations and `k` parameters.
pub open spec fn blocks_sized<F>(b: Blocks<F>, n: int, k: int) -> bool {
    &&& b.ji@.len() >= n * n
    &&& b.jj@.len() >= n * n
    &&& b.jm@.len() >= n * n
    &&& k > 0 ==> b.jpi@.len() >= n * k && b.jpj@.len() >= n * k && b.jmp@.len() >= n * k
}

/// `iv` and `b` are interval `i` and the derivatives on it.
pub open spec fn interval_data<F: Scalar, P: BvpEquations<F>>(
    f: BvpFns<F, P>,
    x: Seq<F>,
    y: Seq<F>,
    p: Seq<F>,
    fval: Seq<F>,
    i: int,
    iv: Interval<F>,
    b: Blocks<F>,
) -> bool {
    &&& interval_is(x, y, fval, f.n_eq as int, i, iv)
    &&& fy_gives(f.equations, x[i], iv.yi@, p, b.ji@)
    &&& fy_gives(f.equations, x[i + 1], iv.yj@, p, b.jj@)
    &&& fy_gives(f.equations, iv.xm, iv.ym@, p, b.jm@)
    &&& f.n_params > 0 ==> {
        &&& fp_gives(f.equations, x[i], iv.yi@, p, b.jpi@)
        &&& fp_gives(f.equations, x[i + 1], iv.yj@, p, b.jpj@)
        &&& fp_gives(f.equations, iv.xm, iv.ym@, p, b.jmp@)
    }
}

/// Derivative of the midpoint value by the left value: `I / 2 + h / 8 Ji`.
pub open spec fn mid_by_left<F>(h: F, ji: Seq<F>, n: int, t: int, c: int) -> Term<F> {
    lit(1, 2).times(unit(t == c)).plus(val(h).over(lit(8, 1)).times(val(ji[place(n, t, c)])))
}

/// Derivative of the midpoint value by the right value: `I / 2 - h / 8 Jj`.
pub open spec fn mid_by_right<F>(h: F, jj: Seq<F>, n: int, t: int, c: int) -> Term<F> {
    lit(1, 2).times(unit(t == c)).minus(val(h).over(lit(8, 1)).times(val(jj[place(n, t, c)])))
}

/// Derivative of the midpoint slope by the left value, the first `k` products.
pub open spec fn slope_by_left<F>(
    h: F,
    b: Blocks<F>,
    n: int,
    r: int,
    c: int,
    k: int,
) -> Term<F>
    decreases k,
{
    if k <= 0 {
        Term::Zero
    } else {
        slope_by_left(h, b, n, r, c, k - 1).plus(
            val(b.jm@[place(n, r, k - 1)]).times(mid_by_left(h, b.ji@, n, k - 1, c)),
        )
    }
}

/// Derivative of the midpoint slope by the right value, the first `k` products.
pub open spec fn slope_by_right<F>(
    h: F,
    b: Blocks<F>,
    n: int,
    r: int,
    c: int,
    k: int,
) -> Term<F>
    decreases k,
{
    if k <= 0 {
        Term::Zero
    } else {
        slope_by_right(h, b, n, r, c, k - 1).plus(
            val(b.jm@[place(n, r, k - 1)]).times(mid_by_right(h, b.jj@, n, k - 1, c)),
        )
    }
}

/// Derivative of a collocation equation by the left value:
/// `-I - h / 6 (Ji + 4 Jm (I / 2 + h / 8 Ji))`.
pub open spec fn by_left<F>(h: F, b: Blocks<F>, n: int, r: int, c: int) -> Term<F> {
    unit(r == c).negated().minus(
        val(h).over(lit(6, 1)).times(
            val(b.ji@[place(n, r, c)]).plus(lit(4, 1).times(slope_by_left(h, b, n, r, c, n))),
        ),
    )
}

/// Derivative of a collocation equation by the right value:
/// `I - h / 6 (Jj + 4 Jm (I / 2 - h / 8 Jj))`.
pub open spec fn by_right<F>(h: F, b: Blocks<F>, n: int, r: int, c: int) -> Term<F> {
    unit(r == c).minus(
        val(h).over(lit(6, 1)).times(
            val(b.jj@[place(n, r, c)]).plus(lit(4, 1).times(slope_by_right(h, b, n, r, c, n))),
        ),
    )
}

/// Derivative of the midpoint slope by a parameter through the midpoint value, the
/// first `m` products.
pub open spec fn slope_by_param<F>(
    h: F,
    b: Blocks<F>,
    n: int,
    k: int,
    r: int,
    c: int,
    m: int,
) -> Term<F>
    decreases m,
{
    if m <= 0 {
        Term::Zero
    } else {
        slope_by_param(h, b, n, k, r, c, m - 1).plus(
            val(b.jm@[place(n, r, m - 1)]).times(
                val(h).over(lit(8, 1)).negated().times(
                    val(b.jpj@[place(k, m - 1, c)]).minus(val(b.jpi@[place(k, m - 1, c)])),
                ),
            ),
        )
    }
}

/// Derivative of a collocation equation by a parameter:
/// `-h / 6 (Jpi + 4 (Jpm - h / 8 Jm (Jpj - Jpi)) + Jpj)`.
pub open spec fn by_param<F>(h: F, b: Blocks<F>, n: int, k: int, r: int, c: int) -> Term<F> {
    val(h).over(lit(6, 1)).negated().times(
        val(b.jpi@[place(k, r, c)]).plus(
            lit(4, 1).times(
                val(b.jmp@[place(k, r, c)]).plus(slope_by_param(h, b, n, k, r, c, n)),
            ),
        ).plus(val(b.jpj@[place(k, r, c)])),
    )
}

/// `v` is the derivative of equation `r` of interval `i` by unknown `c`, of which
/// the first `ny` are the solution.
pub open spec fn collocation_entry<F: Scalar>(
    h: F,
    b: Blocks<F>,
    n: int,
    k: int,
    ny: int,
    i: int,
    r: int,
    c: int,
    v: F,
) -> bool {
    if i * n <= c < i * n + n {
        evaluates(by_left(h, b, n, r, c - i * n), v)
    } else if i * n + n <= c < i * n + n + n {
        evaluates(by_right(h, b, n, r, c - i * n - n), v)
    } else if c >= ny {
        evaluates(by_param(h, b, n, k, r, c - ny), v)
    } else {
        zeros(v)
    }
}

/// `row` holds the derivatives of equation `r` of interval `i`.
pub open spec fn collocation_row<F: Scalar>(
    h: F,
    b: Blocks<F>,
    n: int,
    k: int,
    ny: int,
    i: int,
    r: int,
    row: Seq<F>,
) -> bool {
    &&& row.len() == ny + k
    &&& forall|c: int|
        0 <= c < ny + k ==> collocation_entry(h, b, n, k, ny, i, r, c, #[trigger] row[c])
}

fn left_entry<F: Scalar>(h: F, b: &Blocks<F>, n: usize, r: usize, c: usize) -> (v: F)
    requires
        b.ji@.len() >= n * n,
        b.jm@.len() >= n * n,
        r < n,
        c < n,
    ensures
        evaluates(by_left(h, *b, n as int, r as int, c as int), v),
{
    let size: usize = b.ji.len();
    let hn: Num<F> = Num::of(h);
    let mut acc: Num<F> = Num::zero();
    let mut t: usize = 0;
    while t < n
        invariant
            t <= n,
            size >= n * n,
            b.ji@.len() == size,
            b.jm@.len() >= n * n,
            r < n,
            c < n,
            hn.ok(),
            hn.term@ == val(h),
            acc.ok(),
            acc.term@ == slope_by_left(h, *b, n as int, r as int, c as int, t as int),
        decreases n - t,
    {
        proof {
            lemma_place_bounds(n as int, n as int, t as int, c as int);
            lemma_place_bounds(n as int, n as int, r as int, t as int);
        }
        let d: Num<F> = Num::fraction(1, 2).times(unit_of(t == c)).plus(
            hn.over(Num::fraction(8, 1)).times(Num::of(b.ji[t * n + c])),
        );
        acc = acc.plus(Num::of(b.jm[r * n + t]).times(d));
        t += 1;
    }
    proof {
        lemma_place_bounds(n as int, n as int, r as int, c as int);
    }
    unit_of(r == c).negated().minus(
        hn.over(Num::fraction(6, 1)).times(
            Num::of(b.ji[r * n + c]).plus(Num::fraction(4, 1).times(acc)),
        ),
    ).value
}

fn right_entry<F: Scalar>(h: F, b: &Blocks<F>, n: usize, r: usize, c: usize) -> (v: F)
    requires
        b.jj@.len() >= n * n,
        b.jm@.len() >= n * n,
        r < n,
        c < n,
    ensures
        evaluates(by_right(h, *b, n as int, r as int, c as int), v),
{
    let size: usize = b.jj.len();
    let hn: Num<F> = Num::of(h);
    let mut acc: Num<F> = Num::zero();
    let mut t: usize = 0;
    while t < n
        invariant
            t <= n,
            size >= n * n,
            b.jj@.len() == size,
            b.jm@.len() >= n * n,
            r < n,
            c < n,
            hn.ok(),
            hn.term@ == val(h),
            acc.ok(),
            acc.term@ == slope_by_right(h, *b, n as int, r as int, c as int, t as int),
        decreases n - t,
    {
        proof {
            lemma_place_bounds(n as int, n as int, t as int, c as int);
            lemma_place_bounds(n as int, n as int, r as int, t as int);
        }
        let d: Num<F> = Num::fraction(1, 2).times(unit_of(t == c)).minus(
            hn.over(Num::fraction(8, 1)).times(Num::of(b.jj[t * n + c])),
        );
        acc = acc.plus(Num::of(b.jm[r * n + t]).times(d));
        t += 1;
    }
    proof {
        lemma_place_bounds(n as int, n as int, r as int, c as int);
    }
    unit_of(r == c).minus(
        hn.over(Num::fraction(6, 1)).times(
            Num::of(b.jj[r * n + c]).plus(Num::fraction(4, 1).times(acc)),
        ),
    ).value
}

fn param_entry<F: Scalar>(h: F, b: &Blocks<F>, n: usize, k: usize, r: usize, c: usize) -> (v: F)
    requires
        b.jm@.len() >= n * n,
        b.jpi@.len() >= n * k,
        b.jpj@.len() >= n * k,
        b.jmp@.len() >= n * k,
        r < n,
        c < k,
    ensures
        evaluates(by_param(h, *b, n as int, k as int, r as int, c as int), v),
{
    let size: usize = b.jpi.len();
    let size_m: usize = b.jm.len();
    let hn: Num<F> = Num::of(h);
    let mut acc: Num<F> = Num::zero();
    let mut t: usize = 0;
    while t < n
        invariant
            t <= n,
            size_m >= n * n,
            size >= n * k,
            b.jm@.len() == size_m,
            b.jpi@.len() == size,
            b.jpj@.len() >= n * k,
            r < n,
            c < k,
            hn.ok(),
            hn.term@ == val(h),
            acc.ok(),
            acc.term@ == slope_by_param(
                h,
                *b,
                n as int,
                k as int,
                r as int,
                c as int,
                t as int,
            ),
        decreases n - t,
    {
        proof {
            lemma_place_bounds(n as int, k as int, t as int, c as int);
            lemma_place_bounds(n as int, n as int, r as int, t as int);
        }
        let d: Num<F> = hn.over(Num::fraction(8, 1)).negated().times(
            Num::of(b.jpj[t * k + c]).minus(Num::of(b.jpi[t * k + c])),
        );
        acc = acc.plus(Num::of(b.jm[r * n + t]).times(d));
        t += 1;
    }
    proof {
        lemma_place_bounds(n as int, k as int, r as int, c as int);
    }
    let mid: Num<F> = Num::of(b.jmp[r * k + c]).plus(acc);
    hn.over(Num::fraction(6, 1)).negated().times(
        Num::of(b.jpi[r * k + c]).plus(Num::fraction(4, 1).times(mid)).plus(
            Num::of(b.jpj[r * k + c]),
        ),
    ).value
}

fn build_collocation_row<F: Scalar>(
    h: F,
    b: &Blocks<F>,
    n: usize,
    k: usize,
    ny: usize,
    i: usize,
    r: usize,
) -> (row: Vec<F>)
    requires
        blocks_sized(*b, n as int, k as int),
        r < n,
        i * n + n + n <= ny,
        ny + k <= usize::MAX,
    ensures
        collocation_row(h, *b, n as int, k as int, ny as int, i as int, r as int, row@),
{
    assert(0 <= i * n) by (nonlinear_arith);
    let left: usize = i * n;
    let right: usize = left + n;
    let past: usize = right + n;
    let mut row: Vec<F> = Vec::with_capacity(ny + k);
    let mut c: usize = 0;
    while c < ny + k
        invariant
            c <= ny + k <= usize::MAX,
            left == i * n,
            right == left + n,
            past == right + n,
            past <= ny,
            r < n,
            blocks_sized(*b, n as int, k as int),
            row@.len() == c,
            forall|q: int|
                0 <= q < c ==> collocation_entry(
                    h,
                    *b,
                    n as int,
                    k as int,
                    ny as int,
                    i as int,
                    r as int,
                    q,
                    #[trigger] row@[q],
                ),
        decreases ny + k - c,
    {
        let v: F = if left <= c && c < right {
            left_entry(h, b, n, r, c - left)
        } else if right <= c && c < past {
            right_entry(h, b, n, r, c - right)
        } else if c >= ny {
            param_entry(h, b, n, k, r, c - ny)
        } else {
            F::zero()
        };
        row.push(v);
        c += 1;
    }
    row
}

/// Derivatives of the boundary conditions by both ends, and by the parameters if
/// there are any.
pub open spec fn boundary_data<F: Scalar, P: BvpEquations<F>>(
    f: BvpFns<F, P>,
    x: Seq<F>,
    y: Seq<F>,
    p: Seq<F>,
    ba: Seq<F>,
    bb: Seq<F>,
    bp: Seq<F>,
) -> bool {
    let n = f.n_eq as int;
    let (ya, yb) = (node(y, 0, n), node(y, x.len() - 1, n));
    &&& bc_ya_gives(f.equations, ya, yb, p, ba)
    &&& bc_yb_gives(f.equations, ya, yb, p, bb)
    &&& f.n_params > 0 ==> bc_p_gives(f.equations, ya, yb, p, bp)
}

/// `v` is the derivative of boundary condition `r` by unknown `c`; the solution at
/// the right end begins at `last`.
pub open spec fn boundary_entry<F: Scalar>(
    ba: Seq<F>,
    bb: Seq<F>,
    bp: Seq<F>,
    n: int,
    k: int,
    last: int,
    r: int,
    c: int,
    v: F,
) -> bool {
    if c < n {
        v == ba[place(n, r, c)]
    } else if last <= c < last + n {
        v == bb[place(n, r, c - last)]
    } else if c >= last + n {
        v == bp[place(k, r, c - last - n)]
    } else {
        zeros(v)
    }
}

/// `row` holds the derivatives of boundary condition `r`.
pub open spec fn boundary_row<F: Scalar>(
    ba: Seq<F>,
    bb: Seq<F>,
    bp: Seq<F>,
    n: int,
    k: int,
    last: int,
    r: int,
    row: Seq<F>,
) -> bool {
    &&& row.len() == last + n + k
    &&& forall|c: int|
        0 <= c < last + n + k ==> boundary_entry(ba, bb, bp, n, k, last, r, c, #[trigger] row[c])
}

fn build_boundary_row<F: Scalar>(
    ba: &Vec<F>,
    bb: &Vec<F>,
    bp: &Vec<F>,
    n: usize,
    k: usize,
    last: usize,
    r: usize,
    n_bc: usize,
) -> (row: Vec<F>)
    requires
        r < n_bc,
        n <= last,
        ba@.len() >= n_bc * n,
        bb@.len() >= n_bc * n,
        k > 0 ==> bp@.len() >= n_bc * k,
        last + n + k <= usize::MAX,
    ensures
        boundary_row(ba@, bb@, bp@, n as int, k as int, last as int, r as int, row@),
{
    let size: usize = ba.len();
    let size_p: usize = bp.len();
    let total: usize = last + n + k;
    let mut row: Vec<F> = Vec::with_capacity(total);
    let mut c: usize = 0;
    while c < total
        invariant
            c <= total,
            total == last + n + k,
            r < n_bc,
            n <= last,
            ba@.len() == size,
            size >= n_bc * n,
            bb@.len() >= n_bc * n,
            bp@.len() == size_p,
            k > 0 ==> size_p >= n_bc * k,
            row@.len() == c,
            forall|q: int|
                0 <= q < c ==> boundary_entry(
                    ba@,
                    bb@,
                    bp@,
                    n as int,
                    k as int,
                    last as int,
                    r as int,
                    q,
                    #[trigger] row@[q],
                ),
        decreases total - c,
    {
        let v: F = if c < n {
            proof {
                lemma_place_bounds(n_bc as int, n as int, r as int, c as int);
            }
            ba[r * n + c]
        } else if last <= c && c < last + n {
            proof {
                lemma_place_bounds(n_bc as int, n as int, r as int, c - last);
            }
            bb[r * n + (c - last)]
        } else if c >= last + n {
            proof {
                lemma_place_bounds(n_bc as int, k as int, r as int, c - last - n);
            }
            bp[r * k + (c - last - n)]
        } else {
            F::zero()
        };
        row.push(v);
        c += 1;
    }
    row
}

/// A port with its weights and the derivatives of the right-hand side at the ends
/// of its interval, by the solution and, if there are any, by the parameters.
pub struct Port<F> {
    pub w: Weights<F>,
    pub jl: Vec<F>,
    pub jr: Vec<F>,
    pub jpl: Vec<F>,
    pub jpr: Vec<F>,
}

/// `port` is the port at `xq`.
pub open spec fn port_is<F: Scalar, P: BvpEquations<F>>(
    f: BvpFns<F, P>,
    x: Seq<F>,
    y: Seq<F>,
    p: Seq<F>,
    xq: F,
    port: Port<F>,
) -> bool {
    let n = f.n_eq as int;
    let j = port.w.j as int;
    &&& weighs(x, xq, port.w)
    &&& fy_gives(f.equations, x[j], node(y, j, n), p, port.jl@)
    &&& fy_gives(f.equations, x[j + 1], node(y, j + 1, n), p, port.jr@)
    &&& f.n_params > 0 ==> {
        &&& fp_gives(f.equations, x[j], node(y, j, n), p, port.jpl@)
        &&& fp_gives(f.equations, x[j + 1], node(y, j + 1, n), p, port.jpr@)
    }
}

/// Derivatives of the interior conditions by the ports, which are listed, and by
/// the parameters if there are any.
pub open spec fn interior_data<F: Scalar, P: BvpEquations<F>>(
    f: BvpFns<F, P>,
    x: Seq<F>,
    y: Seq<F>,
    p: Seq<F>,
    fval: Seq<F>,
    values: Seq<F>,
    ports: Seq<Port<F>>,
    icy: Seq<F>,
    icp: Seq<F>,
) -> bool {
    &&& at_ports(x, y, fval, f.n_eq as int, f.x_ports@, values)
    &&& ic_y_gives(f.equations, values, p, icy)
    &&& f.n_params > 0 ==> ic_p_gives(f.equations, values, p, icp)
    &&& ports.len() == f.x_ports@.len()
    &&& forall|q: int|
        0 <= q < ports.len() ==> port_is(f, x, y, p, f.x_ports@[q], #[trigger] ports[q])
}

/// Derivative of an interior condition by the solution at one end of a port's
/// interval, the first `m` products: `w (hv I + h hs J)` summed over the components
/// of the port, where `hv` and `hs` are the weights of value and slope.
pub open spec fn by_port_end<F>(
    icy: Seq<F>,
    base: int,
    h: F,
    hv: F,
    hs: F,
    jac: Seq<F>,
    n: int,
    c: int,
    m: int,
) -> Term<F>
    decreases m,
{
    if m <= 0 {
        Term::Zero
    } else {
        by_port_end(icy, base, h, hv, hs, jac, n, c, m - 1).plus(
            val(icy[base + m - 1]).times(
                val(hv).times(unit(m - 1 == c)).plus(
                    val(h).times(val(hs)).times(val(jac[place(n, m - 1, c)])),
                ),
            ),
        )
    }
}

/// Derivative of interior condition `r` by unknown `c` of the solution, over the
/// first `m` of `np` ports.
pub open spec fn by_solution<F>(
    icy: Seq<F>,
    ports: Seq<Port<F>>,
    np: int,
    n: int,
    r: int,
    c: int,
    m: int,
) -> Term<F>
    decreases m,
{
    if m <= 0 {
        Term::Zero
    } else {
        let before = by_solution(icy, ports, np, n, r, c, m - 1);
        let port = ports[m - 1];
        let w = port.w;
        let base = r * (np * n) + (m - 1) * n;
        let left = w.j * n;
        if left <= c < left + n {
            before.plus(by_port_end(icy, base, w.h, w.h00, w.h10, port.jl@, n, c - left, n))
        } else if left + n <= c < left + n + n {
            before.plus(
                by_port_end(icy, base, w.h, w.h01, w.h11, port.jr@, n, c - left - n, n),
            )
        } else {
            before
        }
    }
}

/// Derivative of an interior condition by parameter `c` of `k` through the values at
/// one port, which depend on it by the slopes at the ends of the port's interval; the
/// first `m` components.
pub open spec fn by_port_slopes<F>(
    icy: Seq<F>,
    base: int,
    port: Port<F>,
    k: int,
    c: int,
    m: int,
) -> Term<F>
    decreases m,
{
    if m <= 0 {
        Term::Zero
    } else {
        by_port_slopes(icy, base, port, k, c, m - 1).plus(
            val(icy[base + m - 1]).times(
                val(port.w.h).times(
                    val(port.w.h10).times(val(port.jpl@[place(k, m - 1, c)])).plus(
                        val(port.w.h11).times(val(port.jpr@[place(k, m - 1, c)])),
                    ),
                ),
            ),
        )
    }
}

/// Derivative of interior condition `r` by parameter `c` of `k`: its own, and that
/// through the values at the first `m` of `np` ports.
pub open spec fn by_parameter<F>(
    icy: Seq<F>,
    icp: Seq<F>,
    ports: Seq<Port<F>>,
    np: int,
    n: int,
    k: int,
    r: int,
    c: int,
    m: int,
) -> Term<F>
    decreases m,
{
    if m <= 0 {
        val(icp[place(k, r, c)])
    } else {
        by_parameter(icy, icp, ports, np, n, k, r, c, m - 1).plus(
            by_port_slopes(icy, r * (np * n) + (m - 1) * n, ports[m - 1], k, c, n),
        )
    }
}

/// `row` holds the derivatives of interior condition `r`.
pub open spec fn interior_row<F: Scalar>(
    icy: Seq<F>,
    icp: Seq<F>,
    ports: Seq<Port<F>>,
    n: int,
    k: int,
    ny: int,
    r: int,
    row: Seq<F>,
) -> bool {
    &&& row.len() == ny + k
    &&& forall|c: int|
        #![trigger row[c]]
        0 <= c < ny + k ==> if c < ny {
            evaluates(
                by_solution(icy, ports, ports.len() as int, n, r, c, ports.len() as int),
                row[c],
            )
        } else {
            evaluates(
                by_parameter(
                    icy,
                    icp,
                    ports,
                    ports.len() as int,
                    n,
                    k,
                    r,
                    c - ny,
                    ports.len() as int,
                ),
                row[c],
            )
        }
}

fn port_end<F: Scalar>(
    icy: &Vec<F>,
    base: usize,
    h: F,
    hv: F,
    hs: F,
    jac: &Vec<F>,
    n: usize,
    c: usize,
) -> (v: Num<F>)
    requires
        base + n <= icy@.len(),
        jac@.len() >= n * n,
        c < n,
    ensures
        v.ok(),
        v.term@ == by_port_end(
            icy@,
            base as int,
            h,
            hv,
            hs,
            jac@,
            n as int,
            c as int,
            n as int,
        ),
{
    let size: usize = jac.len();
    let reach: usize = icy.len();
    let mut acc: Num<F> = Num::zero();
    let mut q: usize = 0;
    while q < n
        invariant
            q <= n,
            reach == icy@.len(),
            base + n <= reach,
            size == jac@.len(),
            size >= n * n,
            c < n,
            acc.ok(),
            acc.term@ == by_port_end(
                icy@,
                base as int,
                h,
                hv,
                hs,
                jac@,
                n as int,
                c as int,
                q as int,
            ),
        decreases n - q,
    {
        proof {
            lemma_place_bounds(n as int, n as int, q as int, c as int);
        }
        let slope: Num<F> = Num::of(h).times(Num::of(hs)).times(Num::of(jac[q * n + c]));
        let value: Num<F> = Num::of(hv).times(unit_of(q == c));
        acc = acc.plus(Num::of(icy[base + q]).times(value.plus(slope)));
        q += 1;
    }
    acc
}

/// The derivatives at every port have `n` by `n` entries, or `n` by `k` for the
/// parameters, and its interval is one of the mesh with `nodes` nodes.
pub open spec fn ports_sized<F>(ports: Seq<Port<F>>, n: int, k: int, nodes: int) -> bool {
    forall|q: int|
        #![trigger ports[q]]
        0 <= q < ports.len() ==> ports[q].jl@.len() >= n * n && ports[q].jr@.len() >= n * n && (k
            > 0 ==> ports[q].jpl@.len() >= n * k && ports[q].jpr@.len() >= n * k)
            && ports[q].w.j + 1 < nodes
}

fn port_slopes<F: Scalar>(
    icy: &Vec<F>,
    base: usize,
    port: &Port<F>,
    n: usize,
    k: usize,
    c: usize,
) -> (v: Num<F>)
    requires
        base + n <= icy@.len(),
        port.jpl@.len() >= n * k,
        port.jpr@.len() >= n * k,
        c < k,
    ensures
        v.ok(),
        v.term@ == by_port_slopes(icy@, base as int, *port, k as int, c as int, n as int),
{
    let left: usize = port.jpl.len();
    let right: usize = port.jpr.len();
    let reach: usize = icy.len();
    let mut acc: Num<F> = Num::zero();
    let mut q: usize = 0;
    while q < n
        invariant
            q <= n,
            reach == icy@.len(),
            base + n <= reach,
            left == port.jpl@.len(),
            right == port.jpr@.len(),
            left >= n * k,
            right >= n * k,
            c < k,
            acc.ok(),
            acc.term@ == by_port_slopes(
                icy@,
                base as int,
                *port,
                k as int,
                c as int,
                q as int,
            ),
        decreases n - q,
    {
        proof {
            lemma_place_bounds(n as int, k as int, q as int, c as int);
        }
        let l: Num<F> = Num::of(port.w.h10).times(Num::of(port.jpl[q * k + c]));
        let r: Num<F> = Num::of(port.w.h11).times(Num::of(port.jpr[q * k + c]));
        acc = acc.plus(Num::of(icy[base + q]).times(Num::of(port.w.h).times(l.plus(r))));
        q += 1;
    }
    acc
}

fn parameter_entry<F: Scalar>(
    icy: &Vec<F>,
    icp: &Vec<F>,
    ports: &Vec<Port<F>>,
    n: usize,
    k: usize,
    r: usize,
    c: usize,
    n_ic: usize,
    nodes: usize,
) -> (v: F)
    requires
        r < n_ic,
        icy@.len() >= n_ic * (ports@.len() * n),
        icp@.len() >= n_ic * k,
        ports_sized(ports@, n as int, k as int, nodes as int),
        c < k,
    ensures
        evaluates(
            by_parameter(
                icy@,
                icp@,
                ports@,
                ports@.len() as int,
                n as int,
                k as int,
                r as int,
                c as int,
                ports@.len() as int,
            ),
            v,
        ),
{
    let np: usize = ports.len();
    let reach: usize = icy.len();
    let size: usize = icp.len();
    proof {
        lemma_place_bounds(n_ic as int, k as int, r as int, c as int);
    }
    let mut acc: Num<F> = Num::of(icp[r * k + c]);
    let mut m: usize = 0;
    while m < np
        invariant
            m <= np,
            np == ports@.len(),
            r < n_ic,
            reach == icy@.len(),
            reach >= n_ic * (np * n),
            ports_sized(ports@, n as int, k as int, nodes as int),
            c < k,
            acc.ok(),
            acc.term@ == by_parameter(
                icy@,
                icp@,
                ports@,
                np as int,
                n as int,
                k as int,
                r as int,
                c as int,
                m as int,
            ),
        decreases np - m,
    {
        proof {
            lemma_port_base(n_ic as int, np as int, n as int, r as int, m as int);
        }
        let base: usize = r * (np * n) + m * n;
        acc = acc.plus(port_slopes(icy, base, &ports[m], n, k, c));
        m += 1;
    }
    acc.value
}

fn solution_entry<F: Scalar>(
    icy: &Vec<F>,
    ports: &Vec<Port<F>>,
    n: usize,
    r: usize,
    c: usize,
    n_ic: usize,
    k: usize,
    nodes: usize,
    ny: usize,
) -> (v: F)
    requires
        r < n_ic,
        icy@.len() >= n_ic * (ports@.len() * n),
        ports_sized(ports@, n as int, k as int, nodes as int),
        ny == nodes * n,
        c < ny,
    ensures
        evaluates(
            by_solution(
                icy@,
                ports@,
                ports@.len() as int,
                n as int,
                r as int,
                c as int,
                ports@.len() as int,
            ),
            v,
        ),
{
    let np: usize = ports.len();
    let reach: usize = icy.len();
    let mut acc: Num<F> = Num::zero();
    let mut m: usize = 0;
    while m < np
        invariant
            m <= np,
            np == ports@.len(),
            r < n_ic,
            reach == icy@.len(),
            reach >= n_ic * (np * n),
            ports_sized(ports@, n as int, k as int, nodes as int),
            ny == nodes * n,
            c < ny,
            acc.ok(),
            acc.term@ == by_solution(
                icy@,
                ports@,
                np as int,
                n as int,
                r as int,
                c as int,
                m as int,
            ),
        decreases np - m,
    {
        proof {
            lemma_port_base(n_ic as int, np as int, n as int, r as int, m as int);
            lemma_node_bounds(nodes as int, ports@[m as int].w.j as int, n as int);
            lemma_node_bounds(nodes as int, ports@[m as int].w.j + 1, n as int);
            let j = ports@[m as int].w.j as int;
            assert((j + 1) * n == j * n + n) by (nonlinear_arith);
        }
        let port: &Port<F> = &ports[m];
        let w: Weights<F> = port.w;
        let base: usize = r * (np * n) + m * n;
        let left: usize = w.j * n;
        let right: usize = left + n;
        if left <= c && c < right {
            acc = acc.plus(port_end(icy, base, w.h, w.h00, w.h10, &port.jl, n, c - left));
        } else if right <= c && c < right + n {
            acc = acc.plus(port_end(icy, base, w.h, w.h01, w.h11, &port.jr, n, c - right));
        }
        m += 1;
    }
    acc.value
}

proof fn lemma_port_base(n_ic: int, np: int, n: int, r: int, m: int)
    requires
        0 <= r < n_ic,
        0 <= m < np,
        0 <= n,
    ensures
        0 <= np * n,
        0 <= m * n,
        0 <= r * (np * n),
        r * (np * n) + m * n + n <= n_ic * (np * n),
        np * n <= n_ic * (np * n),
{
    lemma_node_bounds(np, m, n);
    assert(0 <= np * n) by (nonlinear_arith)
        requires
            0 <= np,
            0 <= n,
    ;
    lemma_node_bounds(n_ic, r, np * n);
    assert(np * n <= n_ic * (np * n)) by (nonlinear_arith)
        requires
            1 <= n_ic,
            0 <= np * n,
    ;
}

fn build_interior_row<F: Scalar>(
    icy: &Vec<F>,
    icp: &Vec<F>,
    ports: &Vec<Port<F>>,
    n: usize,
    k: usize,
    nodes: usize,
    ny: usize,
    r: usize,
    n_ic: usize,
) -> (row: Vec<F>)
    requires
        r < n_ic,
        icy@.len() >= n_ic * (ports@.len() * n),
        k > 0 ==> icp@.len() >= n_ic * k,
        ports_sized(ports@, n as int, k as int, nodes as int),
        ny == nodes * n,
        ny + k <= usize::MAX,
    ensures
        interior_row(icy@, icp@, ports@, n as int, k as int, ny as int, r as int, row@),
{
    let mut row: Vec<F> = Vec::with_capacity(ny + k);
    let mut c: usize = 0;
    while c < ny + k
        invariant
            c <= ny + k <= usize::MAX,
            r < n_ic,
            icy@.len() >= n_ic * (ports@.len() * n),
            k > 0 ==> icp@.len() >= n_ic * k,
            ports_sized(ports@, n as int, k as int, nodes as int),
            ny == nodes * n,
            row@.len() == c,
            forall|q: int|
                #![trigger row@[q]]
                0 <= q < c ==> if q < ny {
                    evaluates(
                        by_solution(
                            icy@,
                            ports@,
                            ports@.len() as int,
                            n as int,
                            r as int,
                            q,
                            ports@.len() as int,
                        ),
                        row@[q],
                    )
                } else {
                    evaluates(
                        by_parameter(
                            icy@,
                            icp@,
                            ports@,
                            ports@.len() as int,
                            n as int,
                            k as int,
                            r as int,
                            q - ny,
                            ports@.len() as int,
                        ),
                        row@[q],
                    )
                },
        decreases ny + k - c,
    {
        let v: F = if c < ny {
            solution_entry(icy, ports, n, r, c, n_ic, k, nodes, ny)
        } else {
            parameter_entry(icy, icp, ports, n, k, r, c - ny, n_ic, nodes)
        };
        let ghost before = row@;
        row.push(v);
        assert forall|q: int| 0 <= q < c implies #[trigger] row@[q] == before[q] by {}
        c += 1;
    }
    row
}

/// Row `r` of the rows from `base` on, with `ndof` columns.
pub open spec fn row_at<F>(jac: Seq<F>, ndof: int, base: int, r: int) -> Seq<F> {
    node(jac, base + r, ndof)
}

/// The rows from `base` on hold the derivatives of the equations of interval `i`.
pub open spec fn interval_rows<F: Scalar, P: BvpEquations<F>>(
    f: BvpFns<F, P>,
    x: Seq<F>,
    y: Seq<F>,
    p: Seq<F>,
    fval: Seq<F>,
    i: int,
    base: int,
    jac: Seq<F>,
) -> bool {
    let (n, k) = (f.n_eq as int, f.n_params as int);
    let ny = x.len() * n;
    exists|iv: Interval<F>, b: Blocks<F>| #[trigger]
        interval_data(f, x, y, p, fval, i, iv, b) && forall|r: int|
            0 <= r < n ==> collocation_row(
                iv.h,
                b,
                n,
                k,
                ny,
                i,
                r,
                #[trigger] row_at(jac, ny + k, base, r),
            )
}

/// The rows from `base` on hold the derivatives of the boundary conditions.
pub open spec fn boundary_rows<F: Scalar, P: BvpEquations<F>>(
    f: BvpFns<F, P>,
    x: Seq<F>,
    y: Seq<F>,
    p: Seq<F>,
    base: int,
    jac: Seq<F>,
) -> bool {
    let (n, k) = (f.n_eq as int, f.n_params as int);
    let last = (x.len() - 1) * n;
    exists|ba: Seq<F>, bb: Seq<F>, bp: Seq<F>| #[trigger]
        boundary_data(f, x, y, p, ba, bb, bp) && forall|r: int|
            0 <= r < f.n_bc ==> boundary_row(
                ba,
                bb,
                bp,
                n,
                k,
                last,
                r,
                #[trigger] row_at(jac, x.len() * n + k, base, r),
            )
}

/// The rows from `base` on hold the derivatives of the interior conditions.
pub open spec fn interior_rows<F: Scalar, P: BvpEquations<F>>(
    f: BvpFns<F, P>,
    x: Seq<F>,
    y: Seq<F>,
    p: Seq<F>,
    fval: Seq<F>,
    base: int,
    jac: Seq<F>,
) -> bool {
    let (n, k) = (f.n_eq as int, f.n_params as int);
    let ny = x.len() * n;
    f.n_ic > 0 ==> exists|values: Seq<F>, ports: Seq<Port<F>>, icy: Seq<F>, icp: Seq<F>| #[trigger]
        interior_data(f, x, y, p, fval, values, ports, icy, icp) && forall|r: int|
            0 <= r < f.n_ic ==> interior_row(
                icy,
                icp,
                ports,
                n,
                k,
                ny,
                r,
                #[trigger] row_at(jac, ny + k, base, r),
            )
}

/// `jac` is the row-major derivative of all equations by all unknowns.
pub open spec fn jacobian_is<F: Scalar, P: BvpEquations<F>>(
    f: BvpFns<F, P>,
    x: Seq<F>,
    y: Seq<F>,
    p: Seq<F>,
    fval: Seq<F>,
    jac: Seq<F>,
) -> bool {
    let n = f.n_eq as int;
    let ndof = f.unknowns(x.len() as int);
    let base = (x.len() - 1) * n;
    &&& jac.len() == ndof * ndof
    &&& forall|i: int|
        0 <= i < x.len() - 1 ==> #[trigger] interval_rows(f, x, y, p, fval, i, i * n, jac)
    &&& boundary_rows(f, x, y, p, base, jac)
    &&& interior_rows(f, x, y, p, fval, base + f.n_bc, jac)
}

/// `after` is `before` with more rows; the first `count` are as they were.
pub open spec fn rows_kept<F>(before: Seq<F>, after: Seq<F>, count: int, ndof: int) -> bool {
    forall|r: int| 0 <= r < count ==> #[trigger] node(after, r, ndof) == node(before, r, ndof)
}

proof fn lemma_interval_kept<F: Scalar, P: BvpEquations<F>>(
    f: BvpFns<F, P>,
    x: Seq<F>,
    y: Seq<F>,
    p: Seq<F>,
    fval: Seq<F>,
    i: int,
    before: Seq<F>,
    after: Seq<F>,
    count: int,
)
    requires
        interval_rows(f, x, y, p, fval, i, i * f.n_eq, before),
        rows_kept(before, after, count, f.unknowns(x.len() as int)),
        0 <= i,
        (i + 1) * f.n_eq <= count,
    ensures
        interval_rows(f, x, y, p, fval, i, i * f.n_eq, after),
{
    let (n, k) = (f.n_eq as int, f.n_params as int);
    let ny = x.len() * n;
    let (iv, b) = choose|iv: Interval<F>, b: Blocks<F>| #[trigger]
        interval_data(f, x, y, p, fval, i, iv, b) && forall|r: int|
            0 <= r < n ==> collocation_row(
                iv.h,
                b,
                n,
                k,
                ny,
                i,
                r,
                #[trigger] row_at(before, ny + k, i * n, r),
            );
    assert((i + 1) * n == i * n + n && 0 <= i * n) by (nonlinear_arith)
        requires
            0 <= i,
            0 <= n,
    ;
    assert forall|r: int| 0 <= r < n implies collocation_row(
        iv.h,
        b,
        n,
        k,
        ny,
        i,
        r,
        #[trigger] row_at(after, ny + k, i * n, r),
    ) by {
        assert(node(after, i * n + r, ny + k) == node(before, i * n + r, ny + k));
        assert(row_at(before, ny + k, i * n, r) == row_at(after, ny + k, i * n, r));
    }
}

proof fn lemma_boundary_kept<F: Scalar, P: BvpEquations<F>>(
    f: BvpFns<F, P>,
    x: Seq<F>,
    y: Seq<F>,
    p: Seq<F>,
    base: int,
    before: Seq<F>,
    after: Seq<F>,
)
    requires
        boundary_rows(f, x, y, p, base, before),
        rows_kept(before, after, base + f.n_bc, f.unknowns(x.len() as int)),
        0 <= base,
    ensures
        boundary_rows(f, x, y, p, base, after),
{
    let (n, k) = (f.n_eq as int, f.n_params as int);
    let last = (x.len() - 1) * n;
    let ndof = x.len() * n + k;
    let (ba, bb, bp) = choose|ba: Seq<F>, bb: Seq<F>, bp: Seq<F>| #[trigger]
        boundary_data(f, x, y, p, ba, bb, bp) && forall|r: int|
            0 <= r < f.n_bc ==> boundary_row(
                ba,
                bb,
                bp,
                n,
                k,
                last,
                r,
                #[trigger] row_at(before, ndof, base, r),
            );
    assert forall|r: int| 0 <= r < f.n_bc implies boundary_row(
        ba,
        bb,
        bp,
        n,
        k,
        last,
        r,
        #[trigger] row_at(after, ndof, base, r),
    ) by {
        assert(node(after, base + r, ndof) == node(before, base + r, ndof));
        assert(row_at(before, ndof, base, r) == row_at(after, ndof, base, r));
    }
}

fn blocks_of<F: Scalar, P: BvpEquations<F>>(
    f: &BvpFns<F, P>,
    x: &Vec<F>,
    p: &Vec<F>,
    i: usize,
    iv: &Interval<F>,
) -> (b: Blocks<F>)
    requires
        f.shaped(),
        i + 1 < x@.len(),
        p@.len() == f.n_params,
        iv.yi@.len() == f.n_eq,
        iv.yj@.len() == f.n_eq,
        iv.ym@.len() == f.n_eq,
    ensures
        blocks_sized(b, f.n_eq as int, f.n_params as int),
        fy_gives(f.equations, x@[i as int], iv.yi@, p@, b.ji@),
        fy_gives(f.equations, x@[i + 1], iv.yj@, p@, b.jj@),
        fy_gives(f.equations, iv.xm, iv.ym@, p@, b.jm@),
        f.n_params > 0 ==> {
            &&& fp_gives(f.equations, x@[i as int], iv.yi@, p@, b.jpi@)
            &&& fp_gives(f.equations, x@[i + 1], iv.yj@, p@, b.jpj@)
            &&& fp_gives(f.equations, iv.xm, iv.ym@, p@, b.jmp@)
        },
{
    let nodes: usize = x.len();
    assert(i + 1 < nodes);
    let ji: Vec<F> = f.fy(x[i], &iv.yi, p);
    let jj: Vec<F> = f.fy(x[i + 1], &iv.yj, p);
    let jm: Vec<F> = f.fy(iv.xm, &iv.ym, p);
    if f.n_params > 0 {
        let jpi: Vec<F> = f.fp(x[i], &iv.yi, p);
        let jpj: Vec<F> = f.fp(x[i + 1], &iv.yj, p);
        let jmp: Vec<F> = f.fp(iv.xm, &iv.ym, p);
        Blocks { ji, jj, jm, jpi, jpj, jmp }
    } else {
        Blocks { ji, jj, jm, jpi: Vec::new(), jpj: Vec::new(), jmp: Vec::new() }
    }
}

fn push_interval<F: Scalar, P: BvpEquations<F>>(
    f: &BvpFns<F, P>,
    x: &Vec<F>,
    y: &Vec<F>,
    p: &Vec<F>,
    fval: &Vec<F>,
    i: usize,
    jac: &mut Vec<F>,
)
    requires
        f.shaped(),
        i + 1 < x@.len(),
        y@.len() == x@.len() * f.n_eq,
        fval@.len() == x@.len() * f.n_eq,
        p@.len() == f.n_params,
        f.unknowns(x@.len() as int) <= usize::MAX,
        old(jac)@.len() == (i * f.n_eq) * f.unknowns(x@.len() as int),
    ensures
        final(jac)@.len() == ((i + 1) * f.n_eq) * f.unknowns(x@.len() as int),
        rows_kept(old(jac)@, final(jac)@, i * f.n_eq, f.unknowns(x@.len() as int)),
        interval_rows(*f, x@, y@, p@, fval@, i as int, i * f.n_eq, final(jac)@),
{
    let n: usize = f.n_eq;
    let k: usize = f.n_params;
    let ny: usize = y.len();
    let ghost ndof = f.unknowns(x@.len() as int);
    let ghost base = i * n;
    let ghost before = jac@;
    let iv: Interval<F> = interval(x, y, fval, n, i);
    let b: Blocks<F> = blocks_of(f, x, p, i, &iv);
    proof {
        assert(interval_data(*f, x@, y@, p@, fval@, i as int, iv, b));
        lemma_node_bounds(x@.len() as int, i + 1, n as int);
        assert((i + 1) * n == i * n + n && 0 <= i * n) by (nonlinear_arith);
    }
    let mut r: usize = 0;
    while r < n
        invariant
            r <= n,
            n == f.n_eq,
            k == f.n_params,
            ny == x@.len() * n,
            ndof == ny + k,
            ndof <= usize::MAX,
            base == i * n,
            0 <= base,
            i * n + n + n <= ny,
            blocks_sized(b, n as int, k as int),
            jac@.len() == (base + r) * ndof,
            rows_kept(before, jac@, base, ndof),
            forall|q: int|
                0 <= q < r ==> collocation_row(
                    iv.h,
                    b,
                    n as int,
                    k as int,
                    ny as int,
                    i as int,
                    q,
                    #[trigger] row_at(jac@, ndof, base, q),
                ),
        decreases n - r,
    {
        let row: Vec<F> = build_collocation_row(iv.h, &b, n, k, ny, i, r);
        let ghost prior = jac@;
        proof {
            lemma_append_node(prior, row@, base + r, ndof);
        }
        append_all(jac, &row);
        proof {
            assert forall|q: int| 0 <= q < r + 1 implies collocation_row(
                iv.h,
                b,
                n as int,
                k as int,
                ny as int,
                i as int,
                q,
                #[trigger] row_at(jac@, ndof, base, q),
            ) by {
                if q < r {
                    assert(node(jac@, base + q, ndof) == node(prior, base + q, ndof));
                    assert(row_at(prior, ndof, base, q) == row_at(jac@, ndof, base, q));
                }
            }
            assert forall|q: int| 0 <= q < base implies #[trigger] node(jac@, q, ndof) == node(
                before,
                q,
                ndof,
            ) by {
                assert(node(prior, q, ndof) == node(before, q, ndof));
            }
        }
        r += 1;
    }
}

fn push_boundary<F: Scalar, P: BvpEquations<F>>(
    f: &BvpFns<F, P>,
    x: &Vec<F>,
    y: &Vec<F>,
    p: &Vec<F>,
    jac: &mut Vec<F>,
)
    requires
        f.shaped(),
        x@.len() >= 2,
        y@.len() == x@.len() * f.n_eq,
        p@.len() == f.n_params,
        f.unknowns(x@.len() as int) <= usize::MAX,
        old(jac)@.len() == ((x@.len() - 1) * f.n_eq) * f.unknowns(x@.len() as int),
    ensures
        final(jac)@.len() == ((x@.len() - 1) * f.n_eq + f.n_bc) * f.unknowns(x@.len() as int),
        rows_kept(
            old(jac)@,
            final(jac)@,
            (x@.len() - 1) * f.n_eq,
            f.unknowns(x@.len() as int),
        ),
        boundary_rows(*f, x@, y@, p@, (x@.len() - 1) * f.n_eq, final(jac)@),
{
    let n: usize = f.n_eq;
    let k: usize = f.n_params;
    let nodes: usize = x.len();
    let ghost ndof = f.unknowns(x@.len() as int);
    let ghost before = jac@;
    proof {
        assert((nodes - 1) * n + n == nodes * n && n <= (nodes - 1) * n) by (nonlinear_arith)
            requires
                nodes >= 2,
        ;
    }
    let last: usize = (nodes - 1) * n;
    let ya: Vec<F> = node_of(y, 0, n, nodes);
    let yb: Vec<F> = node_of(y, nodes - 1, n, nodes);
    let ba: Vec<F> = f.boundary_ya(&ya, &yb, p);
    let bb: Vec<F> = f.boundary_yb(&ya, &yb, p);
    let mut bp: Vec<F> = Vec::new();
    if k > 0 {
        bp = f.boundary_p(&ya, &yb, p);
    }
    assert(boundary_data(*f, x@, y@, p@, ba@, bb@, bp@));
    let mut r: usize = 0;
    while r < f.n_bc
        invariant
            r <= f.n_bc,
            n == f.n_eq,
            k == f.n_params,
            ndof == last + n + k,
            ndof <= usize::MAX,
            n <= last,
            ba@.len() >= f.n_bc * n,
            bb@.len() >= f.n_bc * n,
            k > 0 ==> bp@.len() >= f.n_bc * k,
            jac@.len() == (last + r) * ndof,
            rows_kept(before, jac@, last as int, ndof),
            forall|q: int|
                0 <= q < r ==> boundary_row(
                    ba@,
                    bb@,
                    bp@,
                    n as int,
                    k as int,
                    last as int,
                    q,
                    #[trigger] row_at(jac@, ndof, last as int, q),
                ),
        decreases f.n_bc - r,
    {
        let row: Vec<F> = build_boundary_row(&ba, &bb, &bp, n, k, last, r, f.n_bc);
        let ghost prior = jac@;
        proof {
            lemma_append_node(prior, row@, last + r, ndof);
        }
        append_all(jac, &row);
        proof {
            assert forall|q: int| 0 <= q < r + 1 implies boundary_row(
                ba@,
                bb@,
                bp@,
                n as int,
                k as int,
                last as int,
                q,
                #[trigger] row_at(jac@, ndof, last as int, q),
            ) by {
                if q < r {
                    assert(node(jac@, last + q, ndof) == node(prior, last + q, ndof));
                    assert(row_at(prior, ndof, last as int, q) == row_at(
                        jac@,
                        ndof,
                        last as int,
                        q,
                    ));
                }
            }
            assert forall|q: int| 0 <= q < last implies #[trigger] node(jac@, q, ndof) == node(
                before,
                q,
                ndof,
            ) by {
                assert(node(prior, q, ndof) == node(before, q, ndof));
            }
        }
        r += 1;
    }
}

fn list_ports<F: Scalar, P: BvpEquations<F>>(
    f: &BvpFns<F, P>,
    x: &Vec<F>,
    y: &Vec<F>,
    p: &Vec<F>,
) -> (ports: Vec<Port<F>>)
    requires
        f.shaped(),
        x@.len() >= 2,
        y@.len() == x@.len() * f.n_eq,
        p@.len() == f.n_params,
    ensures
        ports@.len() == f.x_ports@.len(),
        forall|q: int|
            0 <= q < ports@.len() ==> port_is(*f, x@, y@, p@, f.x_ports@[q], #[trigger] ports@[q]),
        ports_sized(ports@, f.n_eq as int, f.n_params as int, x@.len() as int),
{
    let n: usize = f.n_eq;
    let nodes: usize = x.len();
    let mut ports: Vec<Port<F>> = Vec::new();
    let mut q: usize = 0;
    while q < f.x_ports.len()
        invariant
            q <= f.x_ports@.len(),
            n == f.n_eq,
            nodes == x@.len(),
            f.shaped(),
            nodes >= 2,
            y@.len() == x@.len() * f.n_eq,
            p@.len() == f.n_params,
            ports@.len() == q,
            forall|i: int|
                0 <= i < q ==> port_is(*f, x@, y@, p@, f.x_ports@[i], #[trigger] ports@[i]),
            ports_sized(ports@, n as int, f.n_params as int, nodes as int),
        decreases f.x_ports@.len() - q,
    {
        let w: Weights<F> = hermite_weights(x, f.x_ports[q]);
        assert(w.j + 1 < nodes);
        let yl: Vec<F> = node_of(y, w.j, n, nodes);
        let yr: Vec<F> = node_of(y, w.j + 1, n, nodes);
        let jl: Vec<F> = f.fy(x[w.j], &yl, p);
        let jr: Vec<F> = f.fy(x[w.j + 1], &yr, p);
        let mut jpl: Vec<F> = Vec::new();
        let mut jpr: Vec<F> = Vec::new();
        if f.n_params > 0 {
            jpl = f.fp(x[w.j], &yl, p);
            jpr = f.fp(x[w.j + 1], &yr, p);
        }
        ports.push(Port { w, jl, jr, jpl, jpr });
        q += 1;
    }
    ports
}

fn push_interior<F: Scalar, P: BvpEquations<F>>(
    f: &BvpFns<F, P>,
    x: &Vec<F>,
    y: &Vec<F>,
    p: &Vec<F>,
    fval: &Vec<F>,
    base: usize,
    jac: &mut Vec<F>,
)
    requires
        f.shaped(),
        x@.len() >= 2,
        y@.len() == x@.len() * f.n_eq,
        fval@.len() == x@.len() * f.n_eq,
        p@.len() == f.n_params,
        f.unknowns(x@.len() as int) <= usize::MAX,
        old(jac)@.len() == base * f.unknowns(x@.len() as int),
    ensures
        final(jac)@.len() == (base + f.n_ic) * f.unknowns(x@.len() as int),
        rows_kept(old(jac)@, final(jac)@, base as int, f.unknowns(x@.len() as int)),
        interior_rows(*f, x@, y@, p@, fval@, base as int, final(jac)@),
{
    let n: usize = f.n_eq;
    let k: usize = f.n_params;
    let nodes: usize = x.len();
    let ny: usize = y.len();
    let ghost ndof = f.unknowns(x@.len() as int);
    let ghost before = jac@;
    if f.n_ic == 0 {
        return;
    }
    let values: Vec<F> = port_values(x, y, fval, n, &f.x_ports);
    let icy: Vec<F> = f.interior_y(&values, p);
    let ports: Vec<Port<F>> = list_ports(f, x, y, p);
    let mut icp: Vec<F> = Vec::new();
    if k > 0 {
        icp = f.interior_p(&values, p);
    }
    assert(interior_data(*f, x@, y@, p@, fval@, values@, ports@, icy@, icp@));
    let mut r: usize = 0;
    while r < f.n_ic
        invariant
            r <= f.n_ic,
            n == f.n_eq,
            k == f.n_params,
            ny == nodes * n,
            ndof == ny + k,
            ndof <= usize::MAX,
            icy@.len() >= f.n_ic * (ports@.len() * n),
            k > 0 ==> icp@.len() >= f.n_ic * k,
            ports_sized(ports@, n as int, k as int, nodes as int),
            jac@.len() == (base + r) * ndof,
            rows_kept(before, jac@, base as int, ndof),
            forall|q: int|
                0 <= q < r ==> interior_row(
                    icy@,
                    icp@,
                    ports@,
                    n as int,
                    k as int,
                    ny as int,
                    q,
                    #[trigger] row_at(jac@, ndof, base as int, q),
                ),
        decreases f.n_ic - r,
    {
        let row: Vec<F> = build_interior_row(&icy, &icp, &ports, n, k, nodes, ny, r, f.n_ic);
        let ghost prior = jac@;
        proof {
            lemma_append_node(prior, row@, base + r, ndof);
        }
        append_all(jac, &row);
        proof {
            assert forall|q: int| 0 <= q < r + 1 implies interior_row(
                icy@,
                icp@,
                ports@,
                n as int,
                k as int,
                ny as int,
                q,
                #[trigger] row_at(jac@, ndof, base as int, q),
            ) by {
                if q < r {
                    assert(node(jac@, base + q, ndof) == node(prior, base + q, ndof));
                    assert(row_at(prior, ndof, base as int, q) == row_at(
                        jac@,
                        ndof,
                        base as int,
                        q,
                    ));
                }
            }
            assert forall|q: int| 0 <= q < base implies #[trigger] node(jac@, q, ndof) == node(
                before,
                q,
                ndof,
            ) by {
                assert(node(prior, q, ndof) == node(before, q, ndof));
            }
        }
        r += 1;
    }
}

/// The row-major derivative of all equations by all unknowns.
pub fn jacobian<F: Scalar, P: BvpEquations<F>>(
    f: &BvpFns<F, P>,
    x: &Vec<F>,
    y: &Vec<F>,
    p: &Vec<F>,
    fval: &Vec<F>,
) -> (jac: Vec<F>)
    requires
        f.shaped(),
        x@.len() >= 2,
        y@.len() == x@.len() * f.n_eq,
        fval@.len() == x@.len() * f.n_eq,
        p@.len() == f.n_params,
        f.unknowns(x@.len() as int) <= usize::MAX,
    ensures
        jacobian_is(*f, x@, y@, p@, fval@, jac@),
{
    let n: usize = f.n_eq;
    let nodes: usize = x.len();
    let ghost ndof = f.unknowns(x@.len() as int);
    let mut jac: Vec<F> = Vec::new();
    let mut i: usize = 0;
    assert((0 * n) * ndof == 0) by (nonlinear_arith);
    while i < nodes - 1
        invariant
            nodes == x@.len(),
            nodes >= 2,
            i <= nodes - 1,
            n == f.n_eq,
            f.shaped(),
            y@.len() == x@.len() * n,
            fval@.len() == x@.len() * n,
            p@.len() == f.n_params,
            ndof == f.unknowns(x@.len() as int),
            ndof <= usize::MAX,
            jac@.len() == (i * n) * ndof,
            forall|q: int|
                0 <= q < i ==> #[trigger] interval_rows(
                    *f,
                    x@,
                    y@,
                    p@,
                    fval@,
                    q,
                    q * n,
                    jac@,
                ),
        decreases nodes - i,
    {
        let ghost before = jac@;
        push_interval(f, x, y, p, fval, i, &mut jac);
        proof {
            assert forall|q: int| 0 <= q < i + 1 implies #[trigger] interval_rows(
                *f,
                x@,
                y@,
                p@,
                fval@,
                q,
                q * n,
                jac@,
            ) by {
                if q < i {
                    assert(interval_rows(*f, x@, y@, p@, fval@, q, q * n, before));
                    assert((q + 1) * n <= i * n) by (nonlinear_arith)
                        requires
                            q + 1 <= i,
                            0 <= n,
                    ;
                    lemma_interval_kept(*f, x@, y@, p@, fval@, q, before, jac@, i * n);
                }
            }
        }
        i += 1;
    }
    proof {
        assert((nodes - 1) * n + n == nodes * n && 0 <= (nodes - 1) * n) by (nonlinear_arith)
            requires
                nodes >= 2,
        ;
    }
    let ghost first = jac@;
    push_boundary(f, x, y, p, &mut jac);
    let ghost second = jac@;
    let base: usize = (nodes - 1) * n + f.n_bc;
    push_interior(f, x, y, p, fval, base, &mut jac);
    proof {
        let m = (nodes - 1) * n;
        assert forall|q: int| 0 <= q < nodes - 1 implies #[trigger] interval_rows(
            *f,
            x@,
            y@,
            p@,
            fval@,
            q,
            q * n,
            jac@,
        ) by {
            assert(interval_rows(*f, x@, y@, p@, fval@, q, q * n, first));
            assert((q + 1) * n <= m) by (nonlinear_arith)
                requires
                    q + 1 <= nodes - 1,
                    0 <= n,
                    m == (nodes - 1) * n,
            ;
            lemma_interval_kept(*f, x@, y@, p@, fval@, q, first, second, m);
            lemma_interval_kept(*f, x@, y@, p@, fval@, q, second, jac@, base as int);
        }
        lemma_boundary_kept(*f, x@, y@, p@, m, second, jac@);
    }
    jac
}

} // verus!
