//! Dense row-major matrices over [`Scalar`].

use vstd::prelude::*;

use crate::scalar::{adds, muls, nonzero, nonzeros, ones, subs, zeros, Scalar};

verus! {

/// Place of row `i` and column `j` in a matrix with `cols` columns.
pub open spec fn place(cols: int, i: int, j: int) -> int {
    i * cols + j
}

/// A place inside the matrix.
pub proof fn lemma_place_bounds(rows: int, cols: int, i: int, j: int)
    requires
        0 <= i < rows,
        0 <= j < cols,
    ensures
        0 <= place(cols, i, j) < rows * cols,
        0 <= i * cols <= place(cols, i, j),
{
    assert(0 <= i * cols && i * cols + j < rows * cols) by (nonlinear_arith)
        requires
            0 <= i < rows,
            0 <= j < cols,
    ;
}

/// Different rows or columns have different places.
pub proof fn lemma_place_unique(cols: int, i: int, j: int, p: int, q: int)
    requires
        0 <= j < cols,
        0 <= q < cols,
        0 <= i,
        0 <= p,
        place(cols, i, j) == place(cols, p, q),
    ensures
        i == p,
        j == q,
{
    assert(i == p) by (nonlinear_arith)
        requires
            0 <= j < cols,
            0 <= q < cols,
            0 <= i,
            0 <= p,
            i * cols + j == p * cols + q,
    ;
}

/// `v` is the sum of the first `p` products of row `i` of `a` with column `j` of
/// `b`, in order; a factor of `a` that passes for zero is left out.
pub open spec fn row_product<F: Scalar>(
    a: Seq<F>,
    b: Seq<F>,
    k: int,
    cols: int,
    i: int,
    j: int,
    p: int,
    v: F,
) -> bool
    decreases p,
{
    if p <= 0 {
        zeros(v)
    } else {
        let left = a[place(k, i, p - 1)];
        let right = b[place(cols, p - 1, j)];
        ||| nonzeros(left, false) && row_product(a, b, k, cols, i, j, p - 1, v)
        ||| nonzeros(left, true) && exists|s: F, q: F| #[trigger]
            adds(s, q, v) && muls(left, right, q) && row_product(a, b, k, cols, i, j, p - 1, s)
    }
}

/// `out` is the product of the `rows` by `k` matrix `a` and the `k` by `cols`
/// matrix `b`.
pub open spec fn product<F: Scalar>(
    a: Seq<F>,
    b: Seq<F>,
    rows: int,
    k: int,
    cols: int,
    out: Seq<F>,
) -> bool {
    &&& out.len() == rows * cols
    &&& forall|i: int, j: int|
        #![trigger out[place(cols, i, j)]]
        0 <= i < rows && 0 <= j < cols ==> row_product(
            a,
            b,
            k,
            cols,
            i,
            j,
            k,
            out[place(cols, i, j)],
        )
}

fn dot_row<F: Scalar>(a: &[F], b: &[F], k: usize, cols: usize, i: usize, j: usize, rows: usize) -> (v: F)
    requires
        a@.len() == rows * k,
        b@.len() == k * cols,
        i < rows,
        j < cols,
    ensures
        row_product(a@, b@, k as int, cols as int, i as int, j as int, k as int, v),
{
    let size_a: usize = a.len();
    let size_b: usize = b.len();
    let mut v: F = F::zero();
    let mut p: usize = 0;
    while p < k
        invariant
            p <= k,
            size_a == rows * k,
            size_b == k * cols,
            a@.len() == rows * k,
            b@.len() == k * cols,
            i < rows,
            j < cols,
            row_product(a@, b@, k as int, cols as int, i as int, j as int, p as int, v),
        decreases k - p,
    {
        proof {
            lemma_place_bounds(rows as int, k as int, i as int, p as int);
            lemma_place_bounds(k as int, cols as int, p as int, j as int);
        }
        let left: F = a[i * k + p];
        let right: F = b[p * cols + j];
        let ghost before = v;
        let hit: bool = nonzero(left);
        if hit {
            let q: F = left.times(right);
            v = v.plus(q);
            assert(adds(before, q, v));
        }
        assert(a@[place(k as int, i as int, p + 1 - 1)] == left);
        assert(b@[place(cols as int, p + 1 - 1, j as int)] == right);
        assert(row_product(a@, b@, k as int, cols as int, i as int, j as int, p + 1, v));
        p += 1;
    }
    v
}

/// The product of the `rows` by `k` matrix `a` and the `k` by `cols` matrix `b`.
pub fn matmul<F: Scalar>(a: &[F], b: &[F], rows: usize, k: usize, cols: usize) -> (out: Vec<F>)
    requires
        a@.len() == rows * k,
        b@.len() == k * cols,
        rows * cols <= usize::MAX,
    ensures
        product(a@, b@, rows as int, k as int, cols as int, out@),
{
    let mut out: Vec<F> = Vec::new();
    let mut i: usize = 0;
    assert(0 * cols == 0) by (nonlinear_arith);
    while i < rows
        invariant
            i <= rows,
            a@.len() == rows * k,
            b@.len() == k * cols,
            out@.len() == i * cols,
            forall|p: int, q: int|
                #![trigger out@[place(cols as int, p, q)]]
                0 <= p < i && 0 <= q < cols ==> row_product(
                    a@,
                    b@,
                    k as int,
                    cols as int,
                    p,
                    q,
                    k as int,
                    out@[place(cols as int, p, q)],
                ),
        decreases rows - i,
    {
        let mut j: usize = 0;
        while j < cols
            invariant
                j <= cols,
                i < rows,
                a@.len() == rows * k,
                b@.len() == k * cols,
                out@.len() == i * cols + j,
                forall|p: int, q: int|
                    #![trigger out@[place(cols as int, p, q)]]
                    0 <= p && 0 <= q < cols && (p < i || p == i && q < j) ==> row_product(
                        a@,
                        b@,
                        k as int,
                        cols as int,
                        p,
                        q,
                        k as int,
                        out@[place(cols as int, p, q)],
                    ),
            decreases cols - j,
        {
            let v: F = dot_row(a, b, k, cols, i, j, rows);
            let ghost before = out@;
            out.push(v);
            proof {
                assert forall|p: int, q: int|
                    0 <= p && 0 <= q < cols && (p < i || p == i && q < j + 1) implies row_product(
                    a@,
                    b@,
                    k as int,
                    cols as int,
                    p,
                    q,
                    k as int,
                    #[trigger] out@[place(cols as int, p, q)],
                ) by {
                    if p < i || q < j {
                        lemma_earlier_place(cols as int, p, q, i as int, j as int);
                        assert(out@[place(cols as int, p, q)] == before[place(cols as int, p, q)]);
                    }
                }
            }
            j += 1;
        }
        assert((i + 1) * cols == i * cols + cols) by (nonlinear_arith);
        i += 1;
    }
    out
}

/// Places grow with the row, and within a row with the column.
pub proof fn lemma_earlier_place(cols: int, p: int, q: int, i: int, j: int)
    requires
        0 <= p,
        0 <= q < cols,
        0 <= j,
        p < i || p == i && q < j,
    ensures
        0 <= place(cols, p, q) < place(cols, i, j),
{
    assert(0 <= p * cols + q < i * cols + j) by (nonlinear_arith)
        requires
            0 <= p,
            0 <= q < cols,
            0 <= j,
            p < i || p == i && q < j,
    ;
}

/// `out` is the elementwise sum of `a` and `b`.
pub open spec fn sums<F: Scalar>(a: Seq<F>, b: Seq<F>, out: Seq<F>) -> bool {
    &&& out.len() == a.len()
    &&& b.len() == a.len()
    &&& forall|i: int| 0 <= i < a.len() ==> adds(a[i], b[i], #[trigger] out[i])
}

/// Elementwise sum.
pub fn sum<F: Scalar>(a: &[F], b: &[F]) -> (out: Vec<F>)
    requires
        a@.len() == b@.len(),
    ensures
        sums(a@, b@, out@),
{
    let mut out: Vec<F> = Vec::with_capacity(a.len());
    let mut i: usize = 0;
    while i < a.len()
        invariant
            i <= a.len(),
            a@.len() == b@.len(),
            out@.len() == i,
            forall|k: int| 0 <= k < i ==> adds(a@[k], b@[k], #[trigger] out@[k]),
        decreases a.len() - i,
    {
        out.push(a[i].plus(b[i]));
        i += 1;
    }
    out
}

/// `out` consists of `n` zeros.
pub open spec fn all_zero<F: Scalar>(n: int, out: Seq<F>) -> bool {
    &&& out.len() == n
    &&& forall|i: int| 0 <= i < n ==> zeros(#[trigger] out[i])
}

/// `n` zeros.
pub fn zero_vec<F: Scalar>(n: usize) -> (out: Vec<F>)
    ensures
        all_zero(n as int, out@),
{
    let mut out: Vec<F> = Vec::with_capacity(n);
    let mut i: usize = 0;
    while i < n
        invariant
            i <= n,
            out@.len() == i,
            forall|k: int| 0 <= k < i ==> zeros(#[trigger] out@[k]),
        decreases n - i,
    {
        out.push(F::zero());
        i += 1;
    }
    out
}

/// `r` is the identity's entry on or off the diagonal, less `v`.
pub open spec fn identity_entry_less<F: Scalar>(diagonal: bool, v: F, r: F) -> bool {
    exists|e: F| #[trigger]
        subs(e, v, r) && if diagonal {
            ones(e)
        } else {
            zeros(e)
        }
}

/// `out` is the identity less the `n` by `n` matrix `m`.
pub open spec fn identity_less<F: Scalar>(m: Seq<F>, n: int, out: Seq<F>) -> bool {
    &&& out.len() == n * n
    &&& forall|k: int|
        0 <= k < n * n ==> identity_entry_less(k / n == k % n, m[k], #[trigger] out[k])
}

/// The identity less the `n` by `n` matrix `m`.
pub fn less_from_identity<F: Scalar>(m: &[F], n: usize) -> (out: Vec<F>)
    requires
        m@.len() == n * n,
    ensures
        identity_less(m@, n as int, out@),
{
    let mut out: Vec<F> = Vec::with_capacity(m.len());
    let mut k: usize = 0;
    while k < m.len()
        invariant
            k <= m.len(),
            m@.len() == n * n,
            out@.len() == k,
            forall|i: int|
                0 <= i < k ==> identity_entry_less(
                    i / (n as int) == i % (n as int),
                    m@[i],
                    #[trigger] out@[i],
                ),
        decreases m.len() - k,
    {
        assert(n != 0) by (nonlinear_arith)
            requires
                n * n > 0,
        ;
        let e: F = if k / n == k % n {
            F::one()
        } else {
            F::zero()
        };
        let v: F = e.minus(m[k]);
        assert(subs(e, m@[k as int], v));
        out.push(v);
        k += 1;
    }
    out
}

} // verus!
