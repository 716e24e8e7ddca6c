//! Laws of the derivative of the interior conditions, where arithmetic is exact.

use vstd::prelude::*;

use crate::algebra::{
    lemma_distributes, lemma_reorders, lemma_scales, lemma_total_inner, lemma_total_plus,
    lemma_total_same, lemma_total_scale, lemma_total_single, lemma_total_split,
    lemma_total_zero, total,
};
use crate::exact::{exact, lemma_literal, lemma_meaning, meaning, rational};
use crate::expr::evaluates;
use crate::matrix::place;
use crate::optim::colloc::cubic::{ascends, lemma_weights_join, Cubic};
use crate::optim::colloc::derivative::slope_change;
use crate::optim::colloc::jacobian::{
    by_parameter, by_port_end, by_port_slopes, by_solution, interior_data, interior_row,
    port_is, unit, Port,
};
use crate::optim::colloc::problem::{BvpEquations, BvpFns};
use crate::scalar::Scalar;

verus! {

/// How component `s` of the solution at a port changes: by the values at the ends of its
/// interval, and by the slopes there.
pub open spec fn port_change<F>(
    num: spec_fn(F) -> real,
    port: Port<F>,
    n: int,
    k: int,
    s: int,
    dl: spec_fn(int) -> real,
    dr: spec_fn(int) -> real,
    dp: spec_fn(int) -> real,
) -> real {
    num(port.w.h00) * dl(s) + num(port.w.h01) * dr(s) + num(port.w.h) * (num(port.w.h10)
        * slope_change(num, port.jl@, n, port.jpl@, k, s, dl, dp) + num(port.w.h11) * slope_change(
        num,
        port.jr@,
        n,
        port.jpr@,
        k,
        s,
        dr,
        dp,
    ))
}

/// How interior condition `r` changes through port `q` of `np`.
pub open spec fn change_by_port<F>(
    num: spec_fn(F) -> real,
    icy: Seq<F>,
    port: Port<F>,
    np: int,
    n: int,
    k: int,
    ny: int,
    r: int,
    q: int,
    d: spec_fn(int) -> real,
) -> real {
    let left = port.w.j * n;
    total(
        n,
        |s: int|
            num(icy[r * (np * n) + q * n + s]) * port_change(
                num,
                port,
                n,
                k,
                s,
                |c: int| d(left + c),
                |c: int| d(left + n + c),
                |c: int| d(ny + c),
            ),
    )
}

spec fn delta(t: int, c: int) -> real {
    if t == c {
        1real
    } else {
        0real
    }
}

spec fn entries<F>(num: spec_fn(F) -> real, icy: Seq<F>, base: int) -> spec_fn(int) -> real {
    |s: int| num(icy[base + s])
}

spec fn end_of<F>(
    num: spec_fn(F) -> real,
    h: F,
    hv: F,
    hs: F,
    jac: Seq<F>,
    n: int,
) -> spec_fn(int, int) -> real {
    |s: int, c: int|
        num(hv) * delta(s, c) + (num(h) * num(hs)) * num(jac[place(n, s, c)])
}

proof fn lemma_port_end<F: Scalar>(
    num: spec_fn(F) -> real,
    icy: Seq<F>,
    base: int,
    h: F,
    hv: F,
    hs: F,
    jac: Seq<F>,
    n: int,
    c: int,
    m: int,
)
    ensures
        rational(num, by_port_end(icy, base, h, hv, hs, jac, n, c, m)),
        meaning(num, by_port_end(icy, base, h, hv, hs, jac, n, c, m)) == total(
            m,
            |s: int| entries(num, icy, base)(s) * end_of(num, h, hv, hs, jac, n)(s, c),
        ),
    decreases m,
{
    let f = |s: int| entries(num, icy, base)(s) * end_of(num, h, hv, hs, jac, n)(s, c);
    if m > 0 {
        lemma_port_end(num, icy, base, h, hv, hs, jac, n, c, m - 1);
        lemma_literal::<F>(num, 1, 1);
        assert(1u64 as real == 1real);
        reveal_with_fuel(meaning, 6);
        reveal_with_fuel(rational, 6);
        assert(icy[base + m - 1] == icy[base + (m - 1)]);
        assert(meaning(num, unit::<F>(m - 1 == c)) == delta(m - 1, c));
        assert(total(m, f) == total(m - 1, f) + f(m - 1));
    }
}

/// Entries `v * delta + w * j`, summed.
proof fn lemma_unit_sum(
    n: int,
    v: real,
    w: real,
    t: int,
    j: spec_fn(int) -> real,
    d: spec_fn(int) -> real,
)
    requires
        0 <= t < n,
    ensures
        total(n, |c: int| (v * delta(t, c) + w * j(c)) * d(c)) == v * d(t) + w * total(
            n,
            |c: int| j(c) * d(c),
        ),
{
    let f = |c: int| (v * delta(t, c) + w * j(c)) * d(c);
    let jd = |c: int| j(c) * d(c);
    let a = |c: int| delta(t, c) * d(c);
    let va = |c: int| v * a(c);
    let wj = |c: int| w * jd(c);
    let both = |c: int| va(c) + wj(c);
    assert forall|c: int| 0 <= c < n implies #[trigger] f(c) == both(c) by {
        lemma_distributes(d(c), v * delta(t, c), w * j(c));
        lemma_reorders(v, delta(t, c), d(c));
        lemma_reorders(w, j(c), d(c));
    }
    lemma_total_same(n, f, both);
    lemma_total_plus(n, va, wj);
    lemma_total_scale(n, v, a);
    lemma_total_scale(n, w, jd);
    assert forall|c: int| 0 <= c < n && c != t implies #[trigger] a(c) == 0real by {
        lemma_scales(delta(t, c), 0real, d(c));
    }
    lemma_scales(delta(t, t), 1real, d(t));
    lemma_total_single(n, t, a);
}

/// What one end of a port's interval contributes.
spec fn end_share<F>(
    num: spec_fn(F) -> real,
    h: F,
    hv: F,
    hs: F,
    jac: Seq<F>,
    n: int,
    d: spec_fn(int) -> real,
) -> spec_fn(int) -> real {
    |s: int|
        num(hv) * d(s) + (num(h) * num(hs)) * total(n, |c: int| num(jac[place(n, s, c)]) * d(c))
}

proof fn lemma_end_share<F: Scalar>(
    num: spec_fn(F) -> real,
    icy: Seq<F>,
    base: int,
    h: F,
    hv: F,
    hs: F,
    jac: Seq<F>,
    n: int,
    d: spec_fn(int) -> real,
)
    ensures
        total(
            n,
            |c: int| meaning(num, by_port_end(icy, base, h, hv, hs, jac, n, c, n)) * d(c),
        ) == total(
            n,
            |s: int| entries(num, icy, base)(s) * end_share(num, h, hv, hs, jac, n, d)(s),
        ),
{
    let u = entries(num, icy, base);
    let e = end_of(num, h, hv, hs, jac, n);
    let f = |c: int| meaning(num, by_port_end(icy, base, h, hv, hs, jac, n, c, n)) * d(c);
    let g = |c: int| total(n, |t: int| u(t) * e(t, c)) * d(c);
    assert forall|c: int| 0 <= c < n implies #[trigger] f(c) == g(c) by {
        lemma_port_end(num, icy, base, h, hv, hs, jac, n, c, n);
        lemma_total_same(
            n,
            |s: int| entries(num, icy, base)(s) * end_of(num, h, hv, hs, jac, n)(s, c),
            |t: int| u(t) * e(t, c),
        );
    }
    lemma_total_same(n, f, g);
    lemma_total_inner(n, n, u, e, d);
    let a = |t: int| u(t) * total(n, |c: int| e(t, c) * d(c));
    let b = |s: int| u(s) * end_share(num, h, hv, hs, jac, n, d)(s);
    assert forall|t: int| 0 <= t < n implies #[trigger] a(t) == b(t) by {
        let j = |c: int| num(jac[place(n, t, c)]);
        lemma_unit_sum(n, num(hv), num(h) * num(hs), t, j, d);
        lemma_total_same(
            n,
            |c: int| e(t, c) * d(c),
            |c: int| (num(hv) * delta(t, c) + (num(h) * num(hs)) * j(c)) * d(c),
        );
        lemma_total_same(n, |c: int| j(c) * d(c), |c: int| num(jac[place(n, t, c)]) * d(c));
    }
    lemma_total_same(n, a, b);
    lemma_total_same(
        n,
        b,
        |s: int| entries(num, icy, base)(s) * end_share(num, h, hv, hs, jac, n, d)(s),
    );
}

/// What the solution contributes through one port.
spec fn solution_share<F>(
    num: spec_fn(F) -> real,
    icy: Seq<F>,
    port: Port<F>,
    np: int,
    n: int,
    r: int,
    q: int,
    d: spec_fn(int) -> real,
) -> real {
    let left = port.w.j * n;
    let base = r * (np * n) + q * n;
    let w = port.w;
    total(
        n,
        |s: int|
            entries(num, icy, base)(s) * end_share(
                num,
                w.h,
                w.h00,
                w.h10,
                port.jl@,
                n,
                |c: int| d(left + c),
            )(s),
    ) + total(
        n,
        |s: int|
            entries(num, icy, base)(s) * end_share(
                num,
                w.h,
                w.h01,
                w.h11,
                port.jr@,
                n,
                |c: int| d(left + n + c),
            )(s),
    )
}

proof fn lemma_by_solution<F: Scalar>(
    num: spec_fn(F) -> real,
    icy: Seq<F>,
    ports: Seq<Port<F>>,
    np: int,
    n: int,
    ny: int,
    r: int,
    m: int,
    d: spec_fn(int) -> real,
)
    requires
        0 <= n,
        0 <= m <= ports.len(),
        forall|q: int|
            #![trigger ports[q]]
            0 <= q < ports.len() ==> 0 <= ports[q].w.j * n && ports[q].w.j * n + n + n <= ny,
    ensures
        forall|c: int| rational(num, #[trigger] by_solution(icy, ports, np, n, r, c, m)),
        total(ny, |c: int| meaning(num, by_solution(icy, ports, np, n, r, c, m)) * d(c)) == total(
            m,
            |q: int| solution_share(num, icy, ports[q], np, n, r, q, d),
        ),
    decreases m,
{
    let f = |c: int| meaning(num, by_solution(icy, ports, np, n, r, c, m)) * d(c);
    let shares = |q: int| solution_share(num, icy, ports[q], np, n, r, q, d);
    if m <= 0 {
        assert forall|c: int| 0 <= c < ny implies #[trigger] f(c) == 0real by {
            lemma_scales(0real, 0real, d(c));
        }
        lemma_total_zero(ny, f);
    } else {
        lemma_by_solution(num, icy, ports, np, n, ny, r, m - 1, d);
        let port = ports[m - 1];
        let w = port.w;
        let base = r * (np * n) + (m - 1) * n;
        let left = w.j * n;
        let before = |c: int| meaning(num, by_solution(icy, ports, np, n, r, c, m - 1)) * d(c);
        let el = |c: int|
            meaning(num, by_port_end(icy, base, w.h, w.h00, w.h10, port.jl@, n, c, n));
        let er = |c: int|
            meaning(num, by_port_end(icy, base, w.h, w.h01, w.h11, port.jr@, n, c, n));
        let g = |c: int|
            if left <= c < left + n {
                el(c - left) * d(c)
            } else if left + n <= c < left + n + n {
                er(c - left - n) * d(c)
            } else {
                0real
            };
        let both = |c: int| before(c) + g(c);
        assert forall|c: int| rational(
            num,
            #[trigger] by_solution(icy, ports, np, n, r, c, m),
        ) by {
            lemma_port_end(num, icy, base, w.h, w.h00, w.h10, port.jl@, n, c - left, n);
            lemma_port_end(num, icy, base, w.h, w.h01, w.h11, port.jr@, n, c - left - n, n);
            reveal_with_fuel(rational, 2);
            assert(rational(num, by_solution(icy, ports, np, n, r, c, m - 1)));
        }
        assert forall|c: int| 0 <= c < ny implies #[trigger] f(c) == both(c) by {
            reveal_with_fuel(meaning, 2);
            let x = meaning(num, by_solution(icy, ports, np, n, r, c, m - 1));
            if left <= c < left + n {
                lemma_distributes(d(c), x, el(c - left));
            } else if left + n <= c < left + n + n {
                lemma_distributes(d(c), x, er(c - left - n));
            }
        }
        lemma_total_same(ny, f, both);
        lemma_total_plus(ny, before, g);
        let rest = ny - (left + n + n);
        lemma_total_split(left + n + n, rest, g);
        lemma_total_split(left + n, n, g);
        lemma_total_split(left, n, g);
        lemma_total_zero(left, g);
        lemma_total_zero(rest, |c: int| g(left + n + n + c));
        let dl = |c: int| d(left + c);
        let dr = |c: int| d(left + n + c);
        lemma_total_same(n, |c: int| g(left + c), |c: int| el(c) * dl(c));
        lemma_total_same(n, |c: int| g(left + n + c), |c: int| er(c) * dr(c));
        lemma_end_share(num, icy, base, w.h, w.h00, w.h10, port.jl@, n, dl);
        lemma_end_share(num, icy, base, w.h, w.h01, w.h11, port.jr@, n, dr);
        lemma_total_same(
            n,
            |c: int| el(c) * dl(c),
            |c: int|
                meaning(num, by_port_end(icy, base, w.h, w.h00, w.h10, port.jl@, n, c, n)) * dl(c),
        );
        lemma_total_same(
            n,
            |c: int| er(c) * dr(c),
            |c: int|
                meaning(num, by_port_end(icy, base, w.h, w.h01, w.h11, port.jr@, n, c, n)) * dr(c),
        );
        assert(shares(m - 1) == total(n, |c: int| el(c) * dl(c)) + total(
            n,
            |c: int| er(c) * dr(c),
        ));
        assert(total(m, shares) == total(m - 1, shares) + shares(m - 1));
    }
}

/// What the parameters contribute through the slopes at the ends of a port's interval.
spec fn slopes_share<F>(num: spec_fn(F) -> real, port: Port<F>, k: int) -> spec_fn(
    int,
    int,
) -> real {
    |s: int, c: int|
        num(port.w.h) * (num(port.w.h10) * num(port.jpl@[place(k, s, c)]) + num(port.w.h11) * num(
            port.jpr@[place(k, s, c)],
        ))
}

proof fn lemma_port_slopes<F: Scalar>(
    num: spec_fn(F) -> real,
    icy: Seq<F>,
    base: int,
    port: Port<F>,
    k: int,
    c: int,
    m: int,
)
    ensures
        rational(num, by_port_slopes(icy, base, port, k, c, m)),
        meaning(num, by_port_slopes(icy, base, port, k, c, m)) == total(
            m,
            |s: int| entries(num, icy, base)(s) * slopes_share(num, port, k)(s, c),
        ),
    decreases m,
{
    let f = |s: int| entries(num, icy, base)(s) * slopes_share(num, port, k)(s, c);
    if m > 0 {
        lemma_port_slopes(num, icy, base, port, k, c, m - 1);
        reveal_with_fuel(meaning, 6);
        reveal_with_fuel(rational, 6);
        assert(icy[base + m - 1] == icy[base + (m - 1)]);
        assert(total(m, f) == total(m - 1, f) + f(m - 1));
    }
}

/// What the parameters contribute through one port.
spec fn param_share<F>(
    num: spec_fn(F) -> real,
    icy: Seq<F>,
    port: Port<F>,
    np: int,
    n: int,
    k: int,
    r: int,
    q: int,
    dp: spec_fn(int) -> real,
) -> real {
    let base = r * (np * n) + q * n;
    total(
        n,
        |s: int|
            entries(num, icy, base)(s) * total(k, |c: int| slopes_share(num, port, k)(s, c) * dp(c)),
    )
}

proof fn lemma_by_parameter<F: Scalar>(
    num: spec_fn(F) -> real,
    icy: Seq<F>,
    icp: Seq<F>,
    ports: Seq<Port<F>>,
    np: int,
    n: int,
    k: int,
    r: int,
    m: int,
    dp: spec_fn(int) -> real,
)
    requires
        0 <= m,
    ensures
        forall|c: int| rational(num, #[trigger] by_parameter(icy, icp, ports, np, n, k, r, c, m)),
        total(k, |c: int| meaning(num, by_parameter(icy, icp, ports, np, n, k, r, c, m)) * dp(c))
            == total(k, |c: int| num(icp[place(k, r, c)]) * dp(c)) + total(
            m,
            |q: int| param_share(num, icy, ports[q], np, n, k, r, q, dp),
        ),
    decreases m,
{
    let f = |c: int| meaning(num, by_parameter(icy, icp, ports, np, n, k, r, c, m)) * dp(c);
    let shares = |q: int| param_share(num, icy, ports[q], np, n, k, r, q, dp);
    if m <= 0 {
        lemma_total_same(k, f, |c: int| num(icp[place(k, r, c)]) * dp(c));
    } else {
        lemma_by_parameter(num, icy, icp, ports, np, n, k, r, m - 1, dp);
        let base = r * (np * n) + (m - 1) * n;
        let port = ports[m - 1];
        let before = |c: int|
            meaning(num, by_parameter(icy, icp, ports, np, n, k, r, c, m - 1)) * dp(c);
        let u = entries(num, icy, base);
        let e = slopes_share(num, port, k);
        let g = |c: int| total(n, |t: int| u(t) * e(t, c)) * dp(c);
        let both = |c: int| before(c) + g(c);
        assert forall|c: int| rational(
            num,
            #[trigger] by_parameter(icy, icp, ports, np, n, k, r, c, m),
        ) by {
            lemma_port_slopes(num, icy, base, port, k, c, n);
            reveal_with_fuel(rational, 2);
            assert(rational(num, by_parameter(icy, icp, ports, np, n, k, r, c, m - 1)));
        }
        assert forall|c: int| 0 <= c < k implies #[trigger] f(c) == both(c) by {
            lemma_port_slopes(num, icy, base, port, k, c, n);
            lemma_total_same(
                n,
                |s: int| entries(num, icy, base)(s) * slopes_share(num, port, k)(s, c),
                |t: int| u(t) * e(t, c),
            );
            reveal_with_fuel(meaning, 2);
            lemma_distributes(
                dp(c),
                meaning(num, by_parameter(icy, icp, ports, np, n, k, r, c, m - 1)),
                meaning(num, by_port_slopes(icy, base, port, k, c, n)),
            );
        }
        lemma_total_same(k, f, both);
        lemma_total_plus(k, before, g);
        lemma_total_inner(k, n, u, e, dp);
        lemma_total_same(
            n,
            |t: int| u(t) * total(k, |c: int| e(t, c) * dp(c)),
            |s: int|
                entries(num, icy, base)(s) * total(
                    k,
                    |c: int| slopes_share(num, port, k)(s, c) * dp(c),
                ),
        );
        assert(shares(m - 1) == total(k, g));
        assert(total(m, shares) == total(m - 1, shares) + shares(m - 1));
    }
}

/// The shares of one port together.
proof fn lemma_port_shares<F: Scalar>(
    num: spec_fn(F) -> real,
    icy: Seq<F>,
    port: Port<F>,
    np: int,
    n: int,
    k: int,
    ny: int,
    r: int,
    q: int,
    d: spec_fn(int) -> real,
)
    ensures
        solution_share(num, icy, port, np, n, r, q, d) + param_share(
            num,
            icy,
            port,
            np,
            n,
            k,
            r,
            q,
            |c: int| d(ny + c),
        ) == change_by_port(num, icy, port, np, n, k, ny, r, q, d),
{
    let left = port.w.j * n;
    let base = r * (np * n) + q * n;
    let w = port.w;
    let dl = |c: int| d(left + c);
    let dr = |c: int| d(left + n + c);
    let dp = |c: int| d(ny + c);
    let u = entries(num, icy, base);
    let sl = end_share(num, w.h, w.h00, w.h10, port.jl@, n, dl);
    let sr = end_share(num, w.h, w.h01, w.h11, port.jr@, n, dr);
    let sp = |s: int| total(k, |c: int| slopes_share(num, port, k)(s, c) * dp(c));
    let a = |s: int| u(s) * sl(s);
    let b = |s: int| u(s) * sr(s);
    let e = |s: int| u(s) * sp(s);
    let ab = |s: int| a(s) + b(s);
    let abe = |s: int| ab(s) + e(s);
    let g = |s: int|
        num(icy[r * (np * n) + q * n + s]) * port_change(
            num,
            port,
            n,
            k,
            s,
            |c: int| d(left + c),
            |c: int| d(left + n + c),
            |c: int| d(ny + c),
        );
    assert forall|s: int| 0 <= s < n implies #[trigger] abe(s) == g(s) by {
        let pl = |c: int| num(port.jpl@[place(k, s, c)]) * dp(c);
        let pr = |c: int| num(port.jpr@[place(k, s, c)]) * dp(c);
        let (h, x, y) = (num(w.h), num(w.h10), num(w.h11));
        let al = total(n, |c: int| num(port.jl@[place(n, s, c)]) * dl(c));
        let ar = total(n, |c: int| num(port.jr@[place(n, s, c)]) * dr(c));
        let xl = |c: int| x * pl(c);
        let yr = |c: int| y * pr(c);
        let xy = |c: int| xl(c) + yr(c);
        let hxy = |c: int| h * xy(c);
        let f = |c: int| slopes_share(num, port, k)(s, c) * dp(c);
        assert forall|c: int| 0 <= c < k implies #[trigger] f(c) == hxy(c) by {
            let (m, o) = (num(port.jpl@[place(k, s, c)]), num(port.jpr@[place(k, s, c)]));
            lemma_reorders(h, x * m + y * o, dp(c));
            lemma_distributes(dp(c), x * m, y * o);
            lemma_reorders(x, m, dp(c));
            lemma_reorders(y, o, dp(c));
        }
        lemma_total_same(k, f, hxy);
        lemma_total_scale(k, h, xy);
        lemma_total_plus(k, xl, yr);
        lemma_total_scale(k, x, pl);
        lemma_total_scale(k, y, pr);
        let (tl, tr) = (total(k, pl), total(k, pr));
        assert(sp(s) == h * (x * tl + y * tr));
        lemma_reorders(h, x, al);
        lemma_reorders(h, y, ar);
        lemma_distributes(x, al, tl);
        lemma_distributes(y, ar, tr);
        lemma_distributes(h, x * (al + tl), y * (ar + tr));
        lemma_distributes(h, x * al, x * tl);
        lemma_distributes(h, y * ar, y * tr);
        lemma_distributes(h, x * tl, y * tr);
        let pc = port_change(num, port, n, k, s, dl, dr, dp);
        assert(slope_change(num, port.jl@, n, port.jpl@, k, s, dl, dp) == al + tl);
        assert(slope_change(num, port.jr@, n, port.jpr@, k, s, dr, dp) == ar + tr);
        assert(pc == sl(s) + sr(s) + sp(s));
        lemma_distributes(u(s), sl(s) + sr(s), sp(s));
        lemma_distributes(u(s), sl(s), sr(s));
        assert(u(s) == num(icy[r * (np * n) + q * n + s]));
    }
    lemma_total_same(n, abe, g);
    lemma_total_plus(n, ab, e);
    lemma_total_plus(n, a, b);
    lemma_total_same(
        n,
        a,
        |s: int|
            entries(num, icy, base)(s) * end_share(num, w.h, w.h00, w.h10, port.jl@, n, dl)(s),
    );
    lemma_total_same(
        n,
        b,
        |s: int|
            entries(num, icy, base)(s) * end_share(num, w.h, w.h01, w.h11, port.jr@, n, dr)(s),
    );
    lemma_total_same(
        n,
        e,
        |s: int|
            entries(num, icy, base)(s) * total(k, |c: int| slopes_share(num, port, k)(s, c) * dp(c)),
    );
    assert(solution_share(num, icy, port, np, n, r, q, d) == total(n, a) + total(n, b));
    assert(param_share(num, icy, port, np, n, k, r, q, dp) == total(n, e));
    assert(change_by_port(num, icy, port, np, n, k, ny, r, q, d) == total(n, g));
}

/// A row of the derivative that belongs to the interior conditions: for every change of
/// the unknowns, its product with the change is how the condition changes, port by port in
/// their order, with the solution at the ports and with the parameters.
pub proof fn law_interior_row_is_derivative<F: Scalar>(
    num: spec_fn(F) -> real,
    icy: Seq<F>,
    icp: Seq<F>,
    ports: Seq<Port<F>>,
    n: int,
    k: int,
    ny: int,
    r: int,
    row: Seq<F>,
    d: spec_fn(int) -> real,
)
    requires
        exact(num),
        0 <= n,
        0 <= k,
        0 <= ny,
        forall|q: int|
            #![trigger ports[q]]
            0 <= q < ports.len() ==> 0 <= ports[q].w.j * n && ports[q].w.j * n + n + n <= ny,
        interior_row(icy, icp, ports, n, k, ny, r, row),
    ensures
        total(ny + k, |c: int| num(row[c]) * d(c)) == total(
            ports.len() as int,
            |q: int| change_by_port(num, icy, ports[q], ports.len() as int, n, k, ny, r, q, d),
        ) + total(k, |c: int| num(icp[place(k, r, c)]) * d(ny + c)),
{
    let np = ports.len() as int;
    let f = |c: int| num(row[c]) * d(c);
    let dp = |c: int| d(ny + c);
    lemma_total_split(ny, k, f);
    lemma_by_solution(num, icy, ports, np, n, ny, r, np, d);
    lemma_by_parameter(num, icy, icp, ports, np, n, k, r, np, dp);
    let a = |c: int| meaning(num, by_solution(icy, ports, np, n, r, c, np)) * d(c);
    assert forall|c: int| 0 <= c < ny implies #[trigger] f(c) == a(c) by {
        let t = by_solution(icy, ports, np, n, r, c, np);
        assert(evaluates(t, row[c]));
        assert(rational(num, t));
        lemma_meaning(num, t, row[c]);
    }
    lemma_total_same(ny, f, a);
    let g = |c: int| f(ny + c);
    let b = |c: int| meaning(num, by_parameter(icy, icp, ports, np, n, k, r, c, np)) * dp(c);
    assert forall|c: int| 0 <= c < k implies #[trigger] g(c) == b(c) by {
        let t = by_parameter(icy, icp, ports, np, n, k, r, c, np);
        assert(evaluates(t, row[ny + c]));
        assert(rational(num, t));
        lemma_meaning(num, t, row[ny + c]);
    }
    lemma_total_same(k, g, b);
    let x = |q: int| solution_share(num, icy, ports[q], np, n, r, q, d);
    let y = |q: int| param_share(num, icy, ports[q], np, n, k, r, q, dp);
    let xy = |q: int| x(q) + y(q);
    let z = |q: int| change_by_port(num, icy, ports[q], np, n, k, ny, r, q, d);
    assert forall|q: int| 0 <= q < np implies #[trigger] xy(q) == z(q) by {
        lemma_port_shares(num, icy, ports[q], np, n, k, ny, r, q, d);
    }
    lemma_total_plus(np, x, y);
    lemma_total_same(np, xy, z);
    lemma_total_same(
        k,
        |c: int| num(icp[place(k, r, c)]) * dp(c),
        |c: int| num(icp[place(k, r, c)]) * d(ny + c),
    );
    lemma_total_same(
        np,
        z,
        |q: int| change_by_port(num, icy, ports[q], ports.len() as int, n, k, ny, r, q, d),
    );
    lemma_total_same(ny + k, f, |c: int| num(row[c]) * d(c));
}

/// The weights of port `q` of the derivative are those of the cubics at port `q` of the
/// problem: on any cubic over the interval that the port falls into, the values and slopes
/// at its ends times the weights are the value at the port.
pub proof fn law_derivative_ports_by_position<F: Scalar, P: BvpEquations<F>>(
    num: spec_fn(F) -> real,
    f: BvpFns<F, P>,
    x: Seq<F>,
    y: Seq<F>,
    p: Seq<F>,
    fval: Seq<F>,
    values: Seq<F>,
    ports: Seq<Port<F>>,
    icy: Seq<F>,
    icp: Seq<F>,
    q: int,
    c: Cubic,
)
    requires
        exact(num),
        ascends(num, x),
        interior_data(f, x, y, p, fval, values, ports, icy, icp),
        0 <= q < f.x_ports@.len(),
    ensures
        ports.len() == f.x_ports@.len(),
        ({
            let w = ports[q].w;
            let j = w.j as int;
            let (a, b) = (num(x[j]), num(x[j + 1]));
            &&& 0 <= j < x.len() - 1
            &&& j == 0 || a <= num(f.x_ports@[q])
            &&& j == x.len() - 2 || num(f.x_ports@[q]) <= b
            &&& num(w.h) == b - a
            &&& num(w.h00) * c.at(0real) + num(w.h01) * c.at(b - a) + num(w.h) * (num(w.h10)
                * c.slope(0real) + num(w.h11) * c.slope(b - a)) == c.at(num(f.x_ports@[q]) - a)
        }),
{
    assert(port_is(f, x, y, p, f.x_ports@[q], ports[q]));
    lemma_weights_join(num, x, f.x_ports@[q], ports[q].w, c);
}

} // verus!
