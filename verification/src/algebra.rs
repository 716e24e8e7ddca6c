//! Identities of real arithmetic.

use vstd::prelude::*;

use crate::exact::size;

verus! {

/// A product distributes over a sum and over a difference.
pub proof fn lemma_distributes(a: real, b: real, c: real)
    ensures
        a * (b + c) == a * b + a * c,
        a * (b - c) == a * b - a * c,
        (b + c) * a == b * a + c * a,
        (b - c) * a == b * a - c * a,
{
    assert(a * (b + c) == a * b + a * c) by (nonlinear_arith);
    assert(a * (b - c) == a * b - a * c) by (nonlinear_arith);
    assert((b + c) * a == b * a + c * a) by (nonlinear_arith);
    assert((b - c) * a == b * a - c * a) by (nonlinear_arith);
}

/// Products may be reordered.
pub proof fn lemma_reorders(a: real, b: real, c: real)
    ensures
        a * b == b * a,
        a * (b * c) == (a * b) * c,
        a * (b * c) == b * (a * c),
        (a * b) * c == (a * c) * b,
{
    assert(a * b == b * a) by (nonlinear_arith);
    assert(a * (b * c) == (a * b) * c) by (nonlinear_arith);
    assert(a * (b * c) == b * (a * c)) by (nonlinear_arith);
    assert((a * b) * c == (a * c) * b) by (nonlinear_arith);
}

/// A product of positive numbers is positive.
pub proof fn lemma_positive(a: real, b: real)
    requires
        a > 0real,
        b > 0real,
    ensures
        a * b > 0real,
{
    assert(a * b > 0real) by (nonlinear_arith)
        requires
            a > 0real,
            b > 0real,
    ;
}

/// A square is not negative.
pub proof fn lemma_square(a: real)
    ensures
        a * a >= 0real,
{
    if a > 0real {
        lemma_positive(a, a);
    } else if a < 0real {
        lemma_positive(-a, -a);
        assert((-a) * (-a) == a * a) by (nonlinear_arith);
    } else {
        lemma_scales(a, 0real, a);
    }
}

/// Of two squares the larger belongs to the number that is larger in size.
pub proof fn lemma_square_bounds(a: real, r: real)
    requires
        r >= 0real,
        a * a <= r * r,
    ensures
        size(a) <= r,
{
    let b = size(a);
    assert((-a) * (-a) == a * a) by (nonlinear_arith);
    if b > r {
        let d = b - r;
        lemma_distributes(b, b, r);
        lemma_distributes(r, b, r);
        lemma_reorders(b, r, 1real);
        lemma_positive(d, b);
        lemma_reorders(b, d, 1real);
        if r > 0real {
            lemma_positive(r, d);
        } else {
            lemma_scales(r, 0real, d);
        }
    }
}

/// A quotient times the divisor.
pub proof fn lemma_quotient(a: real, d: real)
    requires
        d > 0real,
    ensures
        (a / d) * d == a,
{
    assert((a / d) * d == a) by (nonlinear_arith)
        requires
            d > 0real,
    ;
}

/// A positive factor can be dropped.
pub proof fn lemma_cancels(h: real, a: real, b: real)
    requires
        h > 0real,
        h * a == h * b,
    ensures
        a == b,
{
    lemma_distributes(h, a, b);
    let d = a - b;
    assert(h * d == 0real);
    if d > 0real {
        lemma_positive(h, d);
    } else if d < 0real {
        lemma_positive(h, -d);
        assert(h * (-d) == -(h * d)) by (nonlinear_arith);
    }
}

/// Equal factors give equal products.
pub proof fn lemma_scales(d: real, k: real, u: real)
    requires
        d == k,
    ensures
        d * u == k * u,
{
}

/// A product distributes over a combination of four numbers.
pub proof fn lemma_combines(t: real, a: real, b: real, c: real, d: real, k: (real, real, real, real))
    ensures
        t * (k.0 * a + k.1 * b + k.2 * c + k.3 * d) == k.0 * (t * a) + k.1 * (t * b) + k.2 * (t * c)
            + k.3 * (t * d),
        (k.0 * a + k.1 * b + k.2 * c + k.3 * d) * t == k.0 * (t * a) + k.1 * (t * b) + k.2 * (t * c)
            + k.3 * (t * d),
{
    let (a1, b1, c1, d1) = (k.0 * a, k.1 * b, k.2 * c, k.3 * d);
    lemma_distributes(t, a1, b1);
    lemma_distributes(t, a1 + b1, c1);
    lemma_distributes(t, a1 + b1 + c1, d1);
    lemma_reorders(t, k.0, a);
    lemma_reorders(t, k.1, b);
    lemma_reorders(t, k.2, c);
    lemma_reorders(t, k.3, d);
    lemma_reorders(t, a1 + b1 + c1 + d1, 1real);
}

/// A number that is a combination of powers, times another.
pub proof fn lemma_weighted(
    d: real,
    u: real,
    u2: real,
    u3: real,
    a: real,
    k0: real,
    k1: real,
    k2: real,
    k3: real,
)
    requires
        d == k0 + k1 * u + k2 * u2 + k3 * u3,
    ensures
        d * a == k0 * a + k1 * (u * a) + k2 * (u2 * a) + k3 * (u3 * a),
{
    lemma_combines(a, 1real, u, u2, u3, (k0, k1, k2, k3));
    let e = k0 * 1real + k1 * u + k2 * u2 + k3 * u3;
    assert(k0 * 1real == k0);
    lemma_scales(d, e, a);
    lemma_reorders(a, u, 1real);
    lemma_reorders(a, u2, 1real);
    lemma_reorders(a, u3, 1real);
    lemma_reorders(k0, a, 1real);
    assert(a * 1real == a);
    assert(k0 * (a * 1real) == k0 * a);
}

/// Powers of a product.
pub proof fn lemma_powers(t: real, h: real)
    ensures
        (t * h) * (t * h) == (h * h) * (t * t),
        (t * h) * (t * h) * (t * h) == (h * h * h) * (t * t * t),
{
    let s = t * h;
    lemma_reorders(s, t, h);
    lemma_reorders(t, t, h);
    lemma_reorders(t * t, h, h);
    assert(s * s == (t * t) * (h * h)) by {
        lemma_reorders(s, h, t);
        lemma_reorders(t, h, t);
        lemma_reorders(t * t, h, h);
    }
    let (t2, h2) = (t * t, h * h);
    lemma_reorders(t2, h2, s);
    lemma_reorders(h2, t, h);
    lemma_reorders(h2, h, t);
    assert((t2 * h2) * (t * h) == (h2 * h) * (t2 * t)) by {
        lemma_reorders(t2, h2, t * h);
        lemma_reorders(h2, t, h);
        lemma_reorders(t2, h2 * h, t);
        lemma_reorders(h2, h, t);
        lemma_reorders(t2, t, h2 * h);
        lemma_reorders(h2 * h, t2, t);
        lemma_reorders(h2, t2, 1real);
    }
}

/// The sum of `f(0)` to `f(n - 1)`.
pub open spec fn total(n: int, f: spec_fn(int) -> real) -> real
    decreases n,
{
    if n <= 0 {
        0real
    } else {
        total(n - 1, f) + f(n - 1)
    }
}

/// Equal terms have equal sums.
pub proof fn lemma_total_same(n: int, f: spec_fn(int) -> real, g: spec_fn(int) -> real)
    requires
        forall|i: int| 0 <= i < n ==> #[trigger] f(i) == g(i),
    ensures
        total(n, f) == total(n, g),
    decreases n,
{
    if n > 0 {
        lemma_total_same(n - 1, f, g);
        assert(f(n - 1) == g(n - 1));
    }
}

/// Sums of zeros are zero.
pub proof fn lemma_total_zero(n: int, f: spec_fn(int) -> real)
    requires
        forall|i: int| 0 <= i < n ==> #[trigger] f(i) == 0real,
    ensures
        total(n, f) == 0real,
    decreases n,
{
    if n > 0 {
        lemma_total_zero(n - 1, f);
        assert(f(n - 1) == 0real);
    }
}

/// Sums can be added term by term.
pub proof fn lemma_total_plus(n: int, f: spec_fn(int) -> real, g: spec_fn(int) -> real)
    ensures
        total(n, |i: int| f(i) + g(i)) == total(n, f) + total(n, g),
        total(n, |i: int| f(i) - g(i)) == total(n, f) - total(n, g),
    decreases n,
{
    if n > 0 {
        lemma_total_plus(n - 1, f, g);
    }
}

/// A factor can be drawn out of a sum.
pub proof fn lemma_total_scale(n: int, c: real, f: spec_fn(int) -> real)
    ensures
        total(n, |i: int| c * f(i)) == c * total(n, f),
    decreases n,
{
    if n > 0 {
        lemma_total_scale(n - 1, c, f);
        lemma_distributes(c, total(n - 1, f), f(n - 1));
    } else {
        assert(c * 0real == 0real) by (nonlinear_arith);
    }
}

/// Only one term counts.
pub proof fn lemma_total_single(n: int, j: int, f: spec_fn(int) -> real)
    requires
        0 <= j < n,
        forall|i: int| 0 <= i < n && i != j ==> #[trigger] f(i) == 0real,
    ensures
        total(n, f) == f(j),
    decreases n,
{
    if j == n - 1 {
        lemma_total_zero(n - 1, f);
    } else {
        lemma_total_single(n - 1, j, f);
        assert(f(n - 1) == 0real);
    }
}

/// Sums of sums can be taken in either order.
pub proof fn lemma_total_swap(n: int, m: int, f: spec_fn(int, int) -> real)
    ensures
        total(n, |i: int| total(m, |j: int| f(i, j))) == total(
            m,
            |j: int| total(n, |i: int| f(i, j)),
        ),
    decreases n,
{
    let rows = |i: int| total(m, |j: int| f(i, j));
    if n <= 0 {
        lemma_total_zero(m, |j: int| total(n, |i: int| f(i, j)));
    } else {
        lemma_total_swap(n - 1, m, f);
        let before = |j: int| total(n - 1, |i: int| f(i, j));
        let last = |j: int| f(n - 1, j);
        lemma_total_plus(m, before, last);
        let both = |j: int| before(j) + last(j);
        let cols = |j: int| total(n, |i: int| f(i, j));
        assert forall|j: int| 0 <= j < m implies #[trigger] cols(j) == both(j) by {}
        lemma_total_same(m, cols, both);
        lemma_total_same(m, |j: int| f(n - 1, j), last);
        assert(rows(n - 1) == total(m, last));
    }
}

/// A sum can be taken in two parts.
pub proof fn lemma_total_split(a: int, b: int, f: spec_fn(int) -> real)
    requires
        0 <= a,
        0 <= b,
    ensures
        total(a + b, f) == total(a, f) + total(b, |i: int| f(a + i)),
    decreases b,
{
    let g = |i: int| f(a + i);
    if b > 0 {
        lemma_total_split(a, b - 1, f);
        assert(g(b - 1) == f(a + b - 1));
    }
}

/// A sum over products with sums, with the inner sums taken first.
pub proof fn lemma_total_inner(
    n: int,
    m: int,
    u: spec_fn(int) -> real,
    e: spec_fn(int, int) -> real,
    d: spec_fn(int) -> real,
)
    ensures
        total(n, |c: int| total(m, |t: int| u(t) * e(t, c)) * d(c)) == total(
            m,
            |t: int| u(t) * total(n, |c: int| e(t, c) * d(c)),
        ),
{
    let g = |c: int, t: int| (u(t) * e(t, c)) * d(c);
    let left = |c: int| total(m, |t: int| u(t) * e(t, c)) * d(c);
    let rows = |c: int| total(m, |t: int| g(c, t));
    assert forall|c: int| 0 <= c < n implies #[trigger] left(c) == rows(c) by {
        let inner = |t: int| u(t) * e(t, c);
        lemma_total_scale(m, d(c), inner);
        let a = |t: int| d(c) * inner(t);
        let b = |t: int| g(c, t);
        assert forall|t: int| 0 <= t < m implies #[trigger] a(t) == b(t) by {
            lemma_reorders(d(c), inner(t), 1real);
        }
        lemma_total_same(m, a, b);
        lemma_reorders(d(c), total(m, inner), 1real);
    }
    lemma_total_same(n, left, rows);
    lemma_total_swap(n, m, g);
    let cols = |t: int| total(n, |c: int| g(c, t));
    let right = |t: int| u(t) * total(n, |c: int| e(t, c) * d(c));
    assert forall|t: int| 0 <= t < m implies #[trigger] cols(t) == right(t) by {
        let inner = |c: int| e(t, c) * d(c);
        lemma_total_scale(n, u(t), inner);
        let a = |c: int| u(t) * inner(c);
        let b = |c: int| g(c, t);
        assert forall|c: int| 0 <= c < n implies #[trigger] a(c) == b(c) by {
            lemma_reorders(u(t), e(t, c), d(c));
        }
        lemma_total_same(n, a, b);
    }
    lemma_total_same(m, cols, right);
}

} // verus!
