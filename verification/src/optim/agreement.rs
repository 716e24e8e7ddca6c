//! Newton steps on sparse and on dense matrices agree.

use vstd::prelude::*;

use crate::numeric::differences;
use crate::optim::linsolve::{
    cols_of, dense_factors, entry_less_identity, factors, gathered, less_identity, minus_one,
    newton_update, reduced_by, rows_of, scattered, solution, sparse_factors, step_entries,
    step_factors, Backend, Factored, Triplet,
};
use crate::scalar::{adds, eqs, muls, negs, nonzeros, ones, subs, zeros, Scalar};

verus! {

/// What exact arithmetic adds with.
#[verifier::reject_recursive_types(F)]
pub struct Sums<F> {
    pub zero: F,
    pub unit: F,
    pub plus: spec_fn(F, F) -> F,
    pub opposite: spec_fn(F) -> F,
}

/// Addition is exact: it is commutative and associative, zero is neutral, taking away
/// is adding the opposite, each operation has one outcome, and numbers that compare
/// equal are equal.
pub open spec fn exact<F: Scalar>(e: Sums<F>) -> bool {
    &&& forall|v: F| #[trigger] zeros(v) ==> v == e.zero
    &&& forall|v: F| #[trigger] ones(v) ==> v == e.unit
    &&& forall|a: F, b: F, v: F| #[trigger] adds(a, b, v) ==> v == (e.plus)(a, b)
    &&& forall|a: F, b: F, v: F| #[trigger] subs(a, b, v) ==> v == (e.plus)(a, (e.opposite)(b))
    &&& forall|a: F, v: F| #[trigger] negs(a, v) ==> v == (e.opposite)(a)
    &&& forall|a: F, b: F, u: F, v: F|
        #![trigger muls(a, b, u), muls(a, b, v)]
        muls(a, b, u) && muls(a, b, v) ==> u == v
    &&& forall|a: F, b: F| #[trigger] eqs(a, b, true) ==> a == b
    &&& forall|a: F, b: F| #[trigger] (e.plus)(a, b) == (e.plus)(b, a)
    &&& forall|a: F, b: F, c: F|
        #![trigger (e.plus)((e.plus)(a, b), c)]
        (e.plus)((e.plus)(a, b), c) == (e.plus)(a, (e.plus)(b, c))
    &&& forall|a: F| #[trigger] (e.plus)(a, e.zero) == a
    &&& (e.opposite)(e.zero) == e.zero
}

/// Sum of those of the first `k` entries that are at place `at`.
pub open spec fn total<F>(e: Sums<F>, entries: Seq<Triplet<F>>, n: int, at: int, k: int) -> F
    decreases k,
{
    if k <= 0 {
        e.zero
    } else {
        let before = total(e, entries, n, at, k - 1);
        if entries[k - 1].row * n + entries[k - 1].col == at {
            (e.plus)(before, entries[k - 1].value)
        } else {
            before
        }
    }
}

/// The entries add up to the row-major matrix `a`, those at the same place too.
pub open spec fn adds_up<F>(e: Sums<F>, entries: Seq<Triplet<F>>, n: int, a: Seq<F>) -> bool {
    &&& a.len() == n * n
    &&& forall|at: int|
        0 <= at < n * n ==> #[trigger] a[at] == total(e, entries, n, at, entries.len() as int)
}

/// `lu` factors entries that add up to `a`.
pub open spec fn sums_to<F: Scalar, B: Backend<F>>(
    e: Sums<F>,
    entries: Seq<Triplet<F>>,
    rows: Seq<u32>,
    cols: Seq<u32>,
    n: usize,
    a: Seq<F>,
    lu: B::Sparse,
) -> bool {
    sparse_factors::<F, B>(entries, n, rows, cols, lu) && adds_up(e, entries, n as int, a)
}

/// `fac` is a factorization of the matrix `a`, dense or sparse.
pub open spec fn denotes<F: Scalar, B: Backend<F>>(
    e: Sums<F>,
    a: Seq<F>,
    n: usize,
    fac: Factored<B::Dense, B::Sparse>,
) -> bool {
    match fac {
        Factored::Empty => false,
        Factored::Dense(lu) => dense_factors::<F, B>(a, n, lu),
        Factored::Sparse(lu) => exists|entries: Seq<Triplet<F>>, rows: Seq<u32>, cols: Seq<u32>|
            #[trigger]
            sums_to::<F, B>(e, entries, rows, cols, n, a, lu),
    }
}

/// The backend solves by the matrix alone: whatever the factorization, dense or
/// sparse, it finds one solution for each right-hand side. Entries of a sparse matrix
/// that are at the same place add up.
pub open spec fn faithful<F: Scalar, B: Backend<F>>(e: Sums<F>) -> bool {
    forall|
        a: Seq<F>,
        n: usize,
        f: Factored<B::Dense, B::Sparse>,
        g: Factored<B::Dense, B::Sparse>,
        rhs: Seq<F>,
        y: Seq<F>,
        z: Seq<F>,
    |
        #![trigger
            denotes::<F, B>(e, a, n, f),
            denotes::<F, B>(e, a, n, g),
            solution::<F, B>(f, rhs, y),
            solution::<F, B>(g, rhs, z)
        ]
        denotes::<F, B>(e, a, n, f) && denotes::<F, B>(e, a, n, g) && solution::<F, B>(f, rhs, y)
            && solution::<F, B>(g, rhs, z) && y.len() == z.len() ==> y == z
}

/// Sum of those of the first `k` values that are at place `at`.
pub open spec fn spread<F>(
    e: Sums<F>,
    rows: Seq<u32>,
    cols: Seq<u32>,
    values: Seq<F>,
    n: int,
    at: int,
    k: int,
) -> F
    decreases k,
{
    if k <= 0 {
        e.zero
    } else {
        let before = spread(e, rows, cols, values, n, at, k - 1);
        if rows[k - 1] * n + cols[k - 1] == at {
            (e.plus)(before, values[k - 1])
        } else {
            before
        }
    }
}

/// `scaled` are the values times `scale`.
pub open spec fn scales<F: Scalar>(scale: F, values: Seq<F>, scaled: Seq<F>) -> bool {
    &&& scaled.len() == values.len()
    &&& forall|k: int| 0 <= k < values.len() ==> muls(scale, values[k], #[trigger] scaled[k])
}

/// `j` is the row-major matrix with the given values at the given places.
pub open spec fn dense_form<F>(
    e: Sums<F>,
    rows: Seq<u32>,
    cols: Seq<u32>,
    values: Seq<F>,
    n: int,
    j: Seq<F>,
) -> bool {
    &&& j.len() == n * n
    &&& forall|at: int|
        0 <= at < n * n ==> #[trigger] j[at] == spread(
            e,
            rows,
            cols,
            values,
            n,
            at,
            values.len() as int,
        )
}

/// `j` less the identity.
spec fn lessened<F>(e: Sums<F>, j: Seq<F>, n: int) -> Seq<F> {
    Seq::new(
        j.len(),
        |at: int|
            if at / n == at % n {
                (e.plus)(j[at], (e.opposite)(e.unit))
            } else {
                j[at]
            },
    )
}

proof fn lemma_total_prefix<F>(
    e: Sums<F>,
    entries: Seq<Triplet<F>>,
    others: Seq<Triplet<F>>,
    n: int,
    at: int,
    k: int,
)
    requires
        k <= entries.len(),
        k <= others.len(),
        forall|i: int| 0 <= i < k ==> entries[i] == others[i],
    ensures
        total(e, entries, n, at, k) == total(e, others, n, at, k),
    decreases k,
{
    if k > 0 {
        lemma_total_prefix(e, entries, others, n, at, k - 1);
    }
}

proof fn lemma_step_values<F: Scalar>(
    e: Sums<F>,
    rows: Seq<u32>,
    cols: Seq<u32>,
    values: Seq<F>,
    scale: F,
    scaled: Seq<F>,
    n: int,
    entries: Seq<Triplet<F>>,
    at: int,
    k: int,
)
    requires
        exact(e),
        scales(scale, values, scaled),
        step_entries(rows, cols, values, scale, n, entries),
        0 <= k <= values.len(),
        0 <= n,
    ensures
        total(e, entries, n, at, k) == spread(e, rows, cols, scaled, n, at, k),
    decreases k,
{
    if k > 0 {
        lemma_step_values(e, rows, cols, values, scale, scaled, n, entries, at, k - 1);
        let t = entries[k - 1];
        assert(muls(scale, values[k - 1], t.value));
        assert(muls(scale, values[k - 1], scaled[k - 1]));
    }
}

/// A place on the diagonal.
proof fn lemma_diagonal(n: int, at: int, i: int)
    requires
        0 <= at < n * n,
        0 <= i < n,
    ensures
        i * n + i == at <==> at / n == at % n && at / n == i,
{
    assert(n > 0);
    assert(at == (at / n) * n + at % n && 0 <= at % n < n) by (nonlinear_arith)
        requires
            n > 0,
    ;
    let q = at / n;
    let r = at % n;
    assert(i * n + i == at <==> q == r && q == i) by (nonlinear_arith)
        requires
            at == q * n + r,
            0 <= r < n,
            0 <= i < n,
    ;
}

proof fn lemma_step_identity<F: Scalar>(
    e: Sums<F>,
    rows: Seq<u32>,
    cols: Seq<u32>,
    values: Seq<F>,
    scale: F,
    n: int,
    entries: Seq<Triplet<F>>,
    at: int,
    i: int,
)
    requires
        exact(e),
        step_entries(rows, cols, values, scale, n, entries),
        0 <= at < n * n,
        0 <= i <= n,
    ensures
        total(e, entries, n, at, values.len() + i) == {
            let before = total(e, entries, n, at, values.len() as int);
            if at / n == at % n && at / n < i {
                (e.plus)(before, (e.opposite)(e.unit))
            } else {
                before
            }
        },
    decreases i,
{
    if i > 0 {
        lemma_step_identity(e, rows, cols, values, scale, n, entries, at, i - 1);
        lemma_diagonal(n, at, i - 1);
        let t = entries[values.len() + i - 1];
        assert(t.row == i - 1 && t.col == i - 1 && minus_one(t.value));
        let o = choose|o: F| #[trigger] negs(o, t.value) && ones(o);
        assert(t.value == (e.opposite)(e.unit));
        assert(0 <= at / n) by (nonlinear_arith)
            requires
                0 <= at,
                n > 0,
        ;
    } else {
        assert(0 <= at / n) by (nonlinear_arith)
            requires
                0 <= at < n * n,
                0 <= n,
        ;
    }
}

proof fn lemma_scattered<F: Scalar>(
    e: Sums<F>,
    rows: Seq<u32>,
    cols: Seq<u32>,
    values: Seq<F>,
    scale: F,
    scaled: Seq<F>,
    n: int,
    k: int,
    a: Seq<F>,
)
    requires
        exact(e),
        scales(scale, values, scaled),
        rows.len() == values.len(),
        cols.len() == values.len(),
        forall|i: int| 0 <= i < rows.len() ==> #[trigger] rows[i] < n,
        forall|i: int| 0 <= i < cols.len() ==> #[trigger] cols[i] < n,
        0 <= k <= values.len(),
        0 <= n,
        scattered(rows, cols, values, scale, n, k, a),
    ensures
        a.len() == n * n,
        forall|at: int|
            0 <= at < n * n ==> #[trigger] a[at] == (e.plus)(
                if at / n == at % n {
                    (e.opposite)(e.unit)
                } else {
                    e.zero
                },
                spread(e, rows, cols, scaled, n, at, k),
            ),
    decreases k,
{
    if k > 0 {
        let place = rows[k - 1] * n + cols[k - 1];
        let (before, p, v) = choose|before: Seq<F>, p: F, v: F|
            muls(scale, values[k - 1], p) && #[trigger] adds(before[place], p, v) && a
                == before.update(place, v) && scattered(
                rows,
                cols,
                values,
                scale,
                n,
                k - 1,
                before,
            );
        lemma_scattered(e, rows, cols, values, scale, scaled, n, k - 1, before);
        let (row, col) = (rows[k - 1] as int, cols[k - 1] as int);
        assert(0 <= row * n + col < n * n) by (nonlinear_arith)
            requires
                0 <= row < n,
                0 <= col < n,
        ;
        assert(muls(scale, values[k - 1], scaled[k - 1]));
        assert(p == scaled[k - 1]);
    } else {
        assert forall|at: int| 0 <= at < n * n implies #[trigger] a[at] == (e.plus)(
            if at / n == at % n {
                (e.opposite)(e.unit)
            } else {
                e.zero
            },
            e.zero,
        ) by {
            if at / n == at % n {
                assert(minus_one(a[at]));
                let o = choose|o: F| #[trigger] negs(o, a[at]) && ones(o);
                assert(a[at] == (e.opposite)(e.unit));
            }
        }
    }
}

proof fn lemma_step_denotes<F: Scalar, B: Backend<F>>(
    e: Sums<F>,
    rows: Seq<u32>,
    cols: Seq<u32>,
    values: Seq<F>,
    scale: F,
    scaled: Seq<F>,
    n: usize,
    j: Seq<F>,
    fac: Factored<B::Dense, B::Sparse>,
)
    requires
        exact(e),
        scales(scale, values, scaled),
        rows.len() == values.len(),
        cols.len() == values.len(),
        forall|i: int| 0 <= i < rows.len() ==> #[trigger] rows[i] < n,
        forall|i: int| 0 <= i < cols.len() ==> #[trigger] cols[i] < n,
        dense_form(e, rows, cols, scaled, n as int, j),
        step_factors::<F, B>(rows, cols, values, scale, n, fac),
    ensures
        denotes::<F, B>(e, lessened(e, j, n as int), n, fac),
{
    let m = lessened(e, j, n as int);
    let size = n as int;
    match fac {
        Factored::Empty => {},
        Factored::Sparse(lu) => {
            let entries = choose|entries: Seq<Triplet<F>>| #[trigger]
                step_entries(rows, cols, values, scale, size, entries) && sparse_factors::<F, B>(
                    entries,
                    n,
                    rows,
                    cols,
                    lu,
                );
            assert forall|at: int| 0 <= at < size * size implies #[trigger] m[at] == total(
                e,
                entries,
                size,
                at,
                entries.len() as int,
            ) by {
                lemma_step_values(
                    e,
                    rows,
                    cols,
                    values,
                    scale,
                    scaled,
                    size,
                    entries,
                    at,
                    values.len() as int,
                );
                lemma_step_identity(e, rows, cols, values, scale, size, entries, at, size);
                assert(at / size < size) by (nonlinear_arith)
                    requires
                        0 <= at < size * size,
                        0 <= size,
                ;
                assert(j[at] == spread(e, rows, cols, scaled, size, at, scaled.len() as int));
            }
            assert(sums_to::<F, B>(e, entries, rows, cols, n, m, lu));
        },
        Factored::Dense(lu) => {
            let a = choose|a: Seq<F>| #[trigger]
                scattered(rows, cols, values, scale, size, values.len() as int, a)
                    && dense_factors::<F, B>(a, n, lu);
            lemma_scattered(
                e,
                rows,
                cols,
                values,
                scale,
                scaled,
                size,
                values.len() as int,
                a,
            );
            assert forall|at: int| 0 <= at < size * size implies a[at] == m[at] by {
                assert(j[at] == spread(e, rows, cols, scaled, size, at, scaled.len() as int));
            }
            assert(a =~= m);
        },
    }
}

proof fn lemma_gathered<F: Scalar>(
    e: Sums<F>,
    a: Seq<F>,
    n: usize,
    k: int,
    entries: Seq<Triplet<F>>,
    at: int,
)
    requires
        exact(e),
        a.len() == n * n,
        0 <= k <= n * n,
        0 <= at < n * n,
        gathered(a, n as int, k, entries),
    ensures
        total(e, entries, n as int, at, entries.len() as int) == if at < k {
            a[at]
        } else {
            e.zero
        },
    decreases k,
{
    let size = n as int;
    if k > 0 {
        let hit = choose|hit: bool| #[trigger]
            nonzeros(a[k - 1], hit) && if hit {
                entries.len() > 0 && entries.last() == (Triplet {
                    row: ((k - 1) / size) as usize,
                    col: ((k - 1) % size) as usize,
                    value: a[k - 1],
                }) && gathered(a, size, k - 1, entries.drop_last())
            } else {
                gathered(a, size, k - 1, entries)
            };
        if hit {
            let shorter = entries.drop_last();
            lemma_gathered(e, a, n, k - 1, shorter, at);
            lemma_total_prefix(e, entries, shorter, size, at, shorter.len() as int);
            let q = k - 1;
            assert(size > 0 && 0 <= q / size < size && 0 <= q % size < size && (q / size) * size + q
                % size == q) by (nonlinear_arith)
                requires
                    0 <= q < size * size,
                    0 <= size,
            ;
            let t = entries[entries.len() - 1];
            assert(t.row == q / size && t.col == q % size);
            assert(t.row * size + t.col == q);
            assert((e.plus)(e.zero, a[q]) == (e.plus)(a[q], e.zero));
        } else {
            lemma_gathered(e, a, n, k - 1, entries, at);
            let z = choose|z: F| #[trigger] zeros(z) && eqs(a[k - 1], z, true);
            assert(a[k - 1] == e.zero);
        }
    }
}

proof fn lemma_factors_denote<F: Scalar, B: Backend<F>>(
    e: Sums<F>,
    a: Seq<F>,
    n: usize,
    fac: Factored<B::Dense, B::Sparse>,
)
    requires
        exact(e),
        a.len() == n * n,
        factors::<F, B>(a, n, fac),
    ensures
        denotes::<F, B>(e, a, n, fac),
{
    match fac {
        Factored::Empty => {},
        Factored::Dense(_) => {},
        Factored::Sparse(lu) => {
            let entries = choose|entries: Seq<Triplet<F>>| #[trigger]
                gathered(a, n as int, n * n, entries) && sparse_factors::<F, B>(
                    entries,
                    n,
                    rows_of(entries),
                    cols_of(entries),
                    lu,
                );
            assert forall|at: int| 0 <= at < n * n implies #[trigger] a[at] == total(
                e,
                entries,
                n as int,
                at,
                entries.len() as int,
            ) by {
                lemma_gathered(e, a, n, n * n, entries, at);
            }
            assert(sums_to::<F, B>(
                e,
                entries,
                rows_of(entries),
                cols_of(entries),
                n,
                a,
                lu,
            ));
        },
    }
}

proof fn lemma_less_identity<F: Scalar>(e: Sums<F>, j: Seq<F>, n: int, a: Seq<F>)
    requires
        exact(e),
        less_identity(j, n, a),
    ensures
        a == lessened(e, j, n),
{
    let m = lessened(e, j, n);
    assert forall|at: int| 0 <= at < a.len() implies a[at] == m[at] by {
        let diagonal = at / n == at % n;
        assert(entry_less_identity(j[at], diagonal, a[at]));
        let i = choose|i: F| #[trigger]
            subs(j[at], i, a[at]) && if diagonal {
                ones(i)
            } else {
                zeros(i)
            };
        assert(a[at] == (e.plus)(j[at], (e.opposite)(i)));
    }
    assert(a =~= m);
}

/// A Newton step on the places and values of a Jacobian and one on its dense form
/// agree, where addition is exact and the backend solves by the matrix alone. So do the
/// residuals whose norms the steps return.
pub proof fn law_sparse_and_dense_steps_agree<F: Scalar, B: Backend<F>>(
    e: Sums<F>,
    rows: Seq<u32>,
    cols: Seq<u32>,
    values: Seq<F>,
    scale: F,
    scaled: Seq<F>,
    n: usize,
    j: Seq<F>,
    a: Seq<F>,
    sparse: Factored<B::Dense, B::Sparse>,
    dense: Factored<B::Dense, B::Sparse>,
    g: Seq<F>,
    x: Seq<F>,
    r: Seq<F>,
    s: Seq<F>,
    y: Seq<F>,
    z: Seq<F>,
)
    requires
        exact(e),
        faithful::<F, B>(e),
        rows.len() == values.len(),
        cols.len() == values.len(),
        forall|i: int| 0 <= i < rows.len() ==> #[trigger] rows[i] < n,
        forall|i: int| 0 <= i < cols.len() ==> #[trigger] cols[i] < n,
        scales(scale, values, scaled),
        dense_form(e, rows, cols, scaled, n as int, j),
        step_factors::<F, B>(rows, cols, values, scale, n, sparse),
        differences(g, x, n as int, r),
        newton_update::<F, B>(sparse, r, x, y),
        less_identity(j, n as int, a),
        factors::<F, B>(a, n, dense),
        differences(g, x, n as int, s),
        newton_update::<F, B>(dense, s, x, z),
    ensures
        y == z,
        r == s,
{
    lemma_step_denotes::<F, B>(e, rows, cols, values, scale, scaled, n, j, sparse);
    lemma_less_identity(e, j, n as int, a);
    lemma_factors_denote::<F, B>(e, a, n, dense);
    assert(r =~= s) by {
        assert forall|i: int| 0 <= i < n implies r[i] == s[i] by {
            assert(subs(g[i], x[i], r[i]) && subs(g[i], x[i], s[i]));
        }
    }
    let c = choose|c: Seq<F>| #[trigger]
        reduced_by(x, c, y) && c.len() == r.len() && solution::<F, B>(sparse, r, c);
    let d = choose|d: Seq<F>| #[trigger]
        reduced_by(x, d, z) && d.len() == s.len() && solution::<F, B>(dense, s, d);
    assert(c == d);
    assert forall|i: int| 0 <= i < x.len() implies y[i] == z[i] by {
        if i < c.len() {
            assert(subs(x[i], c[i], y[i]) && subs(x[i], d[i], z[i]));
        } else {
            assert(y[i] == x[i] && z[i] == x[i]);
        }
    }
    assert(y =~= z);
}

} // verus!
