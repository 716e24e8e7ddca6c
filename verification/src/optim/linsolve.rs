//! Linear solves for implicit Newton steps.
//!
//! [`LinearSolver`] keeps the factorization of the last matrix and reuses it
//! while the matrix stays the same. A large and sparse matrix is factored
//! sparsely; there the symbolic part is kept as long as the pattern of nonzeros
//! stays the same. The factorizations themselves come from a [`Backend`].

use vstd::prelude::*;

use crate::numeric::{all_same, difference, differences, equal, norm_is, vec_norm};
use crate::scalar::{adds, eqs, muls, negs, nonzero, nonzeros, ones, subs, zeros, Scalar};
use crate::seqs::{copied, prefix};

verus! {

/// Smallest dimension at which a sparse factorization is tried.
pub const LINSOLVE_SPARSE_MIN_DIM: usize = 64;

/// A sparse factorization is tried while at most one entry in this many is
/// nonzero.
pub const LINSOLVE_SPARSE_ONE_IN: usize = 4;

/// One entry of a sparse matrix; entries at the same place add up.
#[derive(Debug)]
pub struct Triplet<F> {
    pub row: usize,
    pub col: usize,
    pub value: F,
}

/// Factorizations of dense row-major and of sparse matrices. Nothing is promised
/// about them: contracts fix what they are given and what is done with what they
/// return.
pub trait Backend<F>: Sized {
    type Dense;

    type Matrix;

    type Symbolic;

    type Sparse;

    type Column;

    /// Factors the row-major `n` by `n` matrix `a`.
    fn dense_lu(a: &Vec<F>, n: usize) -> Self::Dense;

    /// The `n` by `n` matrix with the given entries.
    fn sparse_matrix(entries: &Vec<Triplet<F>>, n: usize) -> Option<Self::Matrix>;

    /// The symbolic factorization of a pattern.
    fn symbolic(m: &Self::Matrix) -> Option<Self::Symbolic>;

    /// Factors `m` with a symbolic factorization of its pattern.
    fn sparse_lu(sym: &Self::Symbolic, m: &Self::Matrix) -> Option<Self::Sparse>;

    fn dense_solve(lu: &Self::Dense, rhs: &Vec<F>) -> Self::Column;

    fn sparse_solve(lu: &Self::Sparse, rhs: &Vec<F>) -> Self::Column;

    /// Element `i` of a solution.
    fn component(c: &Self::Column, i: usize) -> F;

    type Svd;

    /// The thin singular value decomposition of the row-major `rows` by `cols`
    /// matrix `m`.
    fn thin_svd(m: &Vec<F>, rows: usize, cols: usize) -> Option<Self::Svd>;

    /// Entry of the left singular vectors.
    fn left(svd: &Self::Svd, i: usize, j: usize) -> F;

    /// Entry of the right singular vectors.
    fn right(svd: &Self::Svd, i: usize, j: usize) -> F;

    /// Singular value `i`.
    fn singular(svd: &Self::Svd, i: usize) -> F;
}

/// A factorization, dense or sparse.
pub enum Factored<D, S> {
    Empty,
    Dense(D),
    Sparse(S),
}

/// `lu` may be the dense factorization of `a`.
pub open spec fn dense_factors<F, B: Backend<F>>(a: Seq<F>, n: usize, lu: B::Dense) -> bool {
    exists|v: Vec<F>| #[trigger] call_ensures(B::dense_lu, (&v, n), lu) && v@ == a
}

/// `m` may be the sparse matrix with the given entries.
pub open spec fn matrix_of<F, B: Backend<F>>(
    entries: Seq<Triplet<F>>,
    n: usize,
    m: Option<B::Matrix>,
) -> bool {
    exists|v: Vec<Triplet<F>>| #[trigger]
        call_ensures(B::sparse_matrix, (&v, n), m) && v@ == entries
}

/// `entries` lists the first `k` elements of the row-major matrix `a` that pass
/// the test for being nonzero, in order.
pub open spec fn gathered<F: Scalar>(a: Seq<F>, n: int, k: int, entries: Seq<Triplet<F>>) -> bool
    decreases k,
{
    if k <= 0 {
        entries.len() == 0
    } else {
        exists|hit: bool| #[trigger]
            nonzeros(a[k - 1], hit) && if hit {
                entries.len() > 0 && entries.last() == (Triplet {
                    row: ((k - 1) / n) as usize,
                    col: ((k - 1) % n) as usize,
                    value: a[k - 1],
                }) && gathered(a, n, k - 1, entries.drop_last())
            } else {
                gathered(a, n, k - 1, entries)
            }
    }
}

/// Rows of a list of entries, as stored.
pub open spec fn rows_of<F>(entries: Seq<Triplet<F>>) -> Seq<u32> {
    entries.map_values(|t: Triplet<F>| t.row as u32)
}

/// Columns of a list of entries, as stored.
pub open spec fn cols_of<F>(entries: Seq<Triplet<F>>) -> Seq<u32> {
    entries.map_values(|t: Triplet<F>| t.col as u32)
}

/// `sym` is the symbolic factorization of a matrix recorded under the pattern
/// `rows`, `cols`: the pattern of its entries, of which the last `extra` are left
/// out.
pub open spec fn recorded_with<F, B: Backend<F>>(
    rows: Seq<u32>,
    cols: Seq<u32>,
    sym: B::Symbolic,
    entries: Seq<Triplet<F>>,
    extra: int,
    n: usize,
    m: B::Matrix,
) -> bool {
    &&& 0 <= extra <= entries.len()
    &&& rows == rows_of(entries.take(entries.len() - extra))
    &&& cols == cols_of(entries.take(entries.len() - extra))
    &&& matrix_of::<F, B>(entries, n, Some(m))
    &&& call_ensures(B::symbolic, (&m,), Some(sym))
}

/// `sym` was computed for the pattern `rows`, `cols`.
pub open spec fn recorded<F, B: Backend<F>>(
    rows: Seq<u32>,
    cols: Seq<u32>,
    sym: B::Symbolic,
) -> bool {
    exists|entries: Seq<Triplet<F>>, extra: int, n: usize, m: B::Matrix| #[trigger]
        recorded_with::<F, B>(rows, cols, sym, entries, extra, n, m)
}

/// `lu` factors the matrix with the given entries by a symbolic factorization
/// that was recorded under `rows`, `cols`.
pub open spec fn sparse_factors<F, B: Backend<F>>(
    entries: Seq<Triplet<F>>,
    n: usize,
    rows: Seq<u32>,
    cols: Seq<u32>,
    lu: B::Sparse,
) -> bool {
    exists|m: B::Matrix, sym: B::Symbolic|
        matrix_of::<F, B>(entries, n, Some(m)) && recorded::<F, B>(rows, cols, sym) && #[trigger]
            call_ensures(B::sparse_lu, (&sym, &m), Some(lu))
}

/// Factoring the matrix with the given entries failed: it could not be built, its
/// pattern has no symbolic factorization, or one that was recorded under `rows`,
/// `cols` did not lead to a factorization.
pub open spec fn sparse_fails<F, B: Backend<F>>(
    entries: Seq<Triplet<F>>,
    n: usize,
    rows: Seq<u32>,
    cols: Seq<u32>,
) -> bool {
    ||| matrix_of::<F, B>(entries, n, None)
    ||| exists|m: B::Matrix|
        matrix_of::<F, B>(entries, n, Some(m)) && #[trigger] call_ensures(B::symbolic, (&m,), None)
    ||| exists|m: B::Matrix, sym: B::Symbolic|
        matrix_of::<F, B>(entries, n, Some(m)) && recorded::<F, B>(rows, cols, sym) && #[trigger]
            call_ensures(B::sparse_lu, (&sym, &m), None)
}

/// Whether a matrix of dimension `n` with `nonzeros` entries is worth a sparse
/// factorization.
pub open spec fn worth_sparse(n: int, nonzeros: int) -> bool {
    n >= LINSOLVE_SPARSE_MIN_DIM && LINSOLVE_SPARSE_ONE_IN * nonzeros <= n * n
}

/// A sparse factorization of the row-major matrix `a` is out of the question: it is
/// not worth it, or it was tried by the nonzero entries and failed.
pub open spec fn left_dense<F: Scalar, B: Backend<F>>(a: Seq<F>, n: usize) -> bool {
    n < LINSOLVE_SPARSE_MIN_DIM || exists|entries: Seq<Triplet<F>>| #[trigger]
        gathered(a, n as int, n * n, entries) && (!worth_sparse(n as int, entries.len() as int)
            || sparse_fails::<F, B>(entries, n, rows_of(entries), cols_of(entries)))
}

/// `fac` factors the row-major matrix `a`: sparsely, by its nonzero entries, if and
/// only if that is worth it and succeeds.
pub open spec fn factors<F: Scalar, B: Backend<F>>(
    a: Seq<F>,
    n: usize,
    fac: Factored<B::Dense, B::Sparse>,
) -> bool {
    match fac {
        Factored::Empty => false,
        Factored::Dense(lu) => dense_factors::<F, B>(a, n, lu) && left_dense::<F, B>(a, n),
        Factored::Sparse(lu) => exists|entries: Seq<Triplet<F>>| #[trigger]
            gathered(a, n as int, n * n, entries) && worth_sparse(n as int, entries.len() as int)
                && sparse_factors::<F, B>(entries, n, rows_of(entries), cols_of(entries), lu),
    }
}

/// `c` may be the solution that `fac` gives for `rhs`.
pub open spec fn column_is<F, B: Backend<F>>(
    fac: Factored<B::Dense, B::Sparse>,
    rhs: Seq<F>,
    c: B::Column,
) -> bool {
    match fac {
        Factored::Empty => false,
        Factored::Dense(lu) => exists|v: Vec<F>| #[trigger]
            call_ensures(B::dense_solve, (&lu, &v), c) && v@ == rhs,
        Factored::Sparse(lu) => exists|v: Vec<F>| #[trigger]
            call_ensures(B::sparse_solve, (&lu, &v), c) && v@ == rhs,
    }
}

/// `d` lists the elements of the solution that `fac` gives for `rhs`.
pub open spec fn solution<F, B: Backend<F>>(
    fac: Factored<B::Dense, B::Sparse>,
    rhs: Seq<F>,
    d: Seq<F>,
) -> bool {
    exists|c: B::Column| #[trigger]
        column_is::<F, B>(fac, rhs, c) && forall|i: int|
            0 <= i < d.len() ==> call_ensures(B::component, (&c, i as usize), #[trigger] d[i])
}

/// Solver that keeps the last factorization.
pub struct LinearSolver<F: Scalar, B: Backend<F>> {
    /// What the kept factorization was made from.
    key: Vec<F>,
    fac: Factored<B::Dense, B::Sparse>,
    n: usize,
    /// Symbolic factorization of the pattern `sp_rows`, `sp_cols`.
    sym: Option<B::Symbolic>,
    sp_rows: Vec<u32>,
    sp_cols: Vec<u32>,
}

impl<F: Scalar, B: Backend<F>> LinearSolver<F, B> {
    /// Whether the kept factorization is sparse.
    pub fn is_sparse(&self) -> (r: bool)
        ensures
            r == (self.factorization() is Sparse),
    {
        match &self.fac {
            Factored::Sparse(_) => true,
            _ => false,
        }
    }

    /// The kept factorization.
    pub closed spec fn factorization(&self) -> Factored<B::Dense, B::Sparse> {
        self.fac
    }

    /// What the kept factorization was made from.
    pub closed spec fn key(&self) -> Seq<F> {
        self.key@
    }

    /// Dimension of the kept factorization.
    pub closed spec fn dimension(&self) -> usize {
        self.n
    }

    /// The kept symbolic factorization belongs to the kept pattern.
    pub closed spec fn pattern_kept(&self) -> bool {
        self.sym is Some ==> recorded::<F, B>(self.sp_rows@, self.sp_cols@, self.sym->Some_0)
    }

    /// Nothing is kept that a later solve could reuse: either there is no
    /// factorization, or its key does not fit any matrix of its dimension.
    pub open spec fn fresh(&self) -> bool {
        self.factorization() is Empty || self.key().len() != self.dimension() * self.dimension()
    }

    /// The solver serves plain solves: the kept factorization is that of the key.
    pub open spec fn plain(&self) -> bool {
        &&& self.pattern_kept()
        &&& self.fresh() || factors::<F, B>(
            self.key(),
            self.dimension(),
            self.factorization(),
        )
    }

    /// The solver serves fixed-point steps: the kept factorization is that of the
    /// key less the identity.
    pub open spec fn shifted(&self) -> bool {
        &&& self.pattern_kept()
        &&& self.fresh() || exists|a: Seq<F>| #[trigger]
            less_identity(self.key(), self.dimension() as int, a) && factors::<F, B>(
                a,
                self.dimension(),
                self.factorization(),
            )
    }
}

/// `r` is `v` less the identity's entry on or off the diagonal.
pub open spec fn entry_less_identity<F: Scalar>(v: F, diagonal: bool, r: F) -> bool {
    exists|e: F| #[trigger]
        subs(v, e, r) && if diagonal {
            ones(e)
        } else {
            zeros(e)
        }
}

/// `a` is the row-major matrix `j` less the identity.
pub open spec fn less_identity<F: Scalar>(j: Seq<F>, n: int, a: Seq<F>) -> bool {
    &&& j.len() == n * n
    &&& a.len() == n * n
    &&& forall|k: int|
        0 <= k < n * n ==> entry_less_identity(j[k], k / n == k % n, #[trigger] a[k])
}

fn stored(i: usize) -> (r: u32)
    ensures
        r == i as u32,
{
    i as u32
}

fn gather<F: Scalar>(a: &Vec<F>, n: usize) -> (entries: Vec<Triplet<F>>)
    requires
        a@.len() == n * n,
    ensures
        gathered(a@, n as int, n * n, entries@),
{
    let mut entries: Vec<Triplet<F>> = Vec::new();
    let mut k: usize = 0;
    while k < a.len()
        invariant
            k <= a.len(),
            a@.len() == n * n,
            gathered(a@, n as int, k as int, entries@),
        decreases a.len() - k,
    {
        assert(n != 0) by (nonlinear_arith)
            requires
                n * n > 0,
        ;
        let v: F = a[k];
        let hit: bool = nonzero(v);
        let ghost before = entries@;
        if hit {
            let row: usize = k / n;
            let col: usize = k % n;
            entries.push(Triplet { row, col, value: v });
            assert(entries@.drop_last() =~= before);
            assert(row == (k as int) / (n as int) && col == (k as int) % (n as int));
        }
        assert(nonzeros(a@[k + 1 - 1], hit));
        assert(gathered(a@, n as int, k + 1, entries@));
        k += 1;
    }
    entries
}

impl<F: Scalar, B: Backend<F>> LinearSolver<F, B> {
    pub fn new() -> (r: Self)
        ensures
            r.fresh(),
            r.plain(),
            r.shifted(),
    {
        Self {
            key: Vec::new(),
            fac: Factored::Empty,
            n: 0,
            sym: None,
            sp_rows: Vec::new(),
            sp_cols: Vec::new(),
        }
    }

    fn pattern_matches(&self, entries: &Vec<Triplet<F>>, kept: usize) -> (r: bool)
        requires
            kept <= entries@.len(),
        ensures
            r <==> self.sp_rows@ == rows_of(entries@.take(kept as int)) && self.sp_cols@ == cols_of(
                entries@.take(kept as int),
            ),
    {
        let ghost part = entries@.take(kept as int);
        if self.sp_rows.len() != kept || self.sp_cols.len() != kept {
            assert(rows_of(part).len() == kept && cols_of(part).len() == kept);
            return false;
        }
        let mut i: usize = 0;
        while i < kept
            invariant
                i <= kept <= entries@.len(),
                part == entries@.take(kept as int),
                self.sp_rows@.len() == kept,
                self.sp_cols@.len() == kept,
                forall|k: int| 0 <= k < i ==> #[trigger] self.sp_rows@[k] == part[k].row as u32,
                forall|k: int| 0 <= k < i ==> #[trigger] self.sp_cols@[k] == part[k].col as u32,
            decreases kept - i,
        {
            if self.sp_rows[i] != stored(entries[i].row) || self.sp_cols[i] != stored(
                entries[i].col,
            ) {
                assert(rows_of(part)[i as int] == part[i as int].row as u32);
                assert(cols_of(part)[i as int] == part[i as int].col as u32);
                return false;
            }
            i += 1;
        }
        assert(self.sp_rows@ =~= rows_of(part));
        assert(self.sp_cols@ =~= cols_of(part));
        true
    }

    /// The symbolic factorization that is kept was recorded under the pattern of
    /// `part`.
    spec fn keeps_pattern(&self, part: Seq<Triplet<F>>) -> bool {
        self.sym is Some && self.sp_rows@ == rows_of(part) && self.sp_cols@ == cols_of(part)
    }

    /// `after` keeps the same symbolic factorization.
    spec fn same_pattern(&self, after: Self) -> bool {
        self.sym == after.sym && self.sp_rows@ == after.sp_rows@ && self.sp_cols@ == after.sp_cols@
    }

    /// `after` keeps the symbolic factorization `sym` of the matrix `m`, under the
    /// pattern of `part`, and `r` is what factoring `m` by it gave.
    spec fn analyzed(
        part: Seq<Triplet<F>>,
        m: B::Matrix,
        sym: B::Symbolic,
        after: Self,
        r: Option<B::Sparse>,
    ) -> bool {
        &&& after.keeps_pattern(part)
        &&& after.sym == Some(sym)
        &&& call_ensures(B::symbolic, (&m,), Some(sym))
        &&& call_ensures(B::sparse_lu, (&sym, &m), r)
    }

    /// `r` is what factoring the matrix with the given entries gave, where building
    /// that matrix gave `built`: by the kept symbolic factorization if it is the one
    /// for the pattern of `part`, else by a new one, which is kept. It fails only
    /// where building, the symbolic or the numeric factorization fails.
    spec fn attempted(
        &self,
        entries: Seq<Triplet<F>>,
        part: Seq<Triplet<F>>,
        n: usize,
        built: Option<B::Matrix>,
        after: Self,
        r: Option<B::Sparse>,
    ) -> bool {
        &&& matrix_of::<F, B>(entries, n, built)
        &&& match built {
            None => r is None && self.same_pattern(after),
            Some(m) => if self.keeps_pattern(part) {
                self.same_pattern(after) && call_ensures(
                    B::sparse_lu,
                    (&self.sym->Some_0, &m),
                    r,
                )
            } else {
                ||| r is None && self.same_pattern(after) && call_ensures(
                    B::symbolic,
                    (&m,),
                    None,
                )
                ||| exists|sym: B::Symbolic| #[trigger] Self::analyzed(part, m, sym, after, r)
            },
        }
    }

    /// Factors the matrix with the given entries, whose pattern is kept under its
    /// first `kept` entries. Reuses the kept symbolic factorization if the
    /// pattern is the same.
    fn factor_entries(&mut self, entries: &Vec<Triplet<F>>, kept: usize, n: usize) -> (r: Option<
        B::Sparse,
    >)
        requires
            old(self).pattern_kept(),
            kept <= entries@.len(),
        ensures
            final(self).pattern_kept(),
            final(self).key() == old(self).key(),
            final(self).dimension() == old(self).dimension(),
            final(self).factorization() == old(self).factorization(),
            r is Some ==> sparse_factors::<F, B>(
                entries@,
                n,
                rows_of(entries@.take(kept as int)),
                cols_of(entries@.take(kept as int)),
                r->Some_0,
            ),
            r is None ==> sparse_fails::<F, B>(
                entries@,
                n,
                rows_of(entries@.take(kept as int)),
                cols_of(entries@.take(kept as int)),
            ),
            exists|built: Option<B::Matrix>| #[trigger]
                old(self).attempted(
                    entries@,
                    entries@.take(kept as int),
                    n,
                    built,
                    *final(self),
                    r,
                ),
    {
        let ghost part = entries@.take(kept as int);
        let built: Option<B::Matrix> = B::sparse_matrix(entries, n);
        assert(matrix_of::<F, B>(entries@, n, built));
        match built {
            None => {
                assert(old(self).attempted(entries@, part, n, built, *self, None));
                None
            },
            Some(m) => {
                let same: bool = self.sym.is_some() && self.pattern_matches(entries, kept);
                if !same {
                    let found: Option<B::Symbolic> = B::symbolic(&m);
                    match found {
                        None => {
                            assert(old(self).attempted(entries@, part, n, built, *self, None));
                            return None;
                        },
                        Some(sym) => {
                            let mut rows: Vec<u32> = Vec::new();
                            let mut cols: Vec<u32> = Vec::new();
                            let mut i: usize = 0;
                            while i < kept
                                invariant
                                    i <= kept <= entries@.len(),
                                    part == entries@.take(kept as int),
                                    rows@.len() == i,
                                    cols@.len() == i,
                                    forall|k: int|
                                        0 <= k < i ==> #[trigger] rows@[k] == part[k].row as u32,
                                    forall|k: int|
                                        0 <= k < i ==> #[trigger] cols@[k] == part[k].col as u32,
                                decreases kept - i,
                            {
                                rows.push(stored(entries[i].row));
                                cols.push(stored(entries[i].col));
                                i += 1;
                            }
                            assert(rows@ =~= rows_of(part));
                            assert(cols@ =~= cols_of(part));
                            proof {
                                let extra = entries@.len() - kept;
                                assert(recorded_with::<F, B>(
                                    rows@,
                                    cols@,
                                    sym,
                                    entries@,
                                    extra,
                                    n,
                                    m,
                                ));
                            }
                            self.sp_rows = rows;
                            self.sp_cols = cols;
                            self.sym = Some(sym);
                        },
                    }
                }
                match &self.sym {
                    Some(sym) => {
                        let lu: Option<B::Sparse> = B::sparse_lu(sym, &m);
                        proof {
                            if !same {
                                assert(Self::analyzed(part, m, *sym, *self, lu));
                            }
                            assert(old(self).attempted(entries@, part, n, built, *self, lu));
                        }
                        lu
                    },
                    None => None,
                }
            },
        }
    }

    /// Factors the row-major `n` by `n` matrix `a`: sparsely when that is worth it
    /// and succeeds, densely otherwise.
    fn refactor(&mut self, a: &Vec<F>, n: usize)
        requires
            old(self).pattern_kept(),
            a@.len() == n * n,
        ensures
            final(self).pattern_kept(),
            final(self).dimension() == n,
            factors::<F, B>(a@, n, final(self).factorization()),
    {
        self.n = n;
        if n >= LINSOLVE_SPARSE_MIN_DIM {
            let entries: Vec<Triplet<F>> = gather(a, n);
            if entries.len() <= a.len() / LINSOLVE_SPARSE_ONE_IN {
                assert(worth_sparse(n as int, entries@.len() as int));
                let total: usize = entries.len();
                assert(entries@.take(total as int) =~= entries@);
                if let Some(lu) = self.factor_entries(&entries, total, n) {
                    self.fac = Factored::Sparse(lu);
                    return;
                }
            }
        }
        assert(left_dense::<F, B>(a@, n));
        self.sym = None;
        self.fac = Factored::Dense(B::dense_lu(a, n));
    }
}

/// `m` stands for the matrix `a`: it is `a`, or every comparison of their
/// elements came out equal.
pub open spec fn stands_for<F: Scalar>(m: Seq<F>, a: Seq<F>) -> bool {
    m == a || all_same(m, a)
}

/// `fac` factors a matrix that stands for `a`.
pub open spec fn serves<F: Scalar, B: Backend<F>>(
    a: Seq<F>,
    n: usize,
    fac: Factored<B::Dense, B::Sparse>,
) -> bool {
    exists|m: Seq<F>| #[trigger] stands_for(m, a) && factors::<F, B>(m, n, fac)
}

/// `fac` factors a matrix that stands for `j`, less the identity.
pub open spec fn serves_shifted<F: Scalar, B: Backend<F>>(
    j: Seq<F>,
    n: usize,
    fac: Factored<B::Dense, B::Sparse>,
) -> bool {
    exists|m: Seq<F>, a: Seq<F>| #[trigger]
        stands_for(m, j) && #[trigger] less_identity(m, n as int, a) && factors::<F, B>(a, n, fac)
}

/// `after` is `before` with `d` subtracted from its leading elements.
pub open spec fn reduced_by<F: Scalar>(before: Seq<F>, d: Seq<F>, after: Seq<F>) -> bool {
    &&& after.len() == before.len()
    &&& d.len() <= before.len()
    &&& forall|i: int| 0 <= i < d.len() ==> subs(before[i], d[i], #[trigger] after[i])
    &&& forall|i: int| d.len() <= i < before.len() ==> #[trigger] after[i] == before[i]
}

/// `after` is `before` less the solution that `fac` gives for `rhs`.
pub open spec fn newton_update<F: Scalar, B: Backend<F>>(
    fac: Factored<B::Dense, B::Sparse>,
    rhs: Seq<F>,
    before: Seq<F>,
    after: Seq<F>,
) -> bool {
    exists|d: Seq<F>| #[trigger]
        reduced_by(before, d, after) && d.len() == rhs.len() && solution::<F, B>(fac, rhs, d)
}

fn solve_with<F: Scalar, B: Backend<F>>(
    fac: &Factored<B::Dense, B::Sparse>,
    rhs: &Vec<F>,
    n: usize,
) -> (d: Vec<F>)
    requires
        !(fac is Empty),
        n == rhs@.len(),
    ensures
        d@.len() == n,
        solution::<F, B>(*fac, rhs@, d@),
{
    let mut d: Vec<F> = Vec::with_capacity(n);
    let c: B::Column = match fac {
        Factored::Dense(lu) => B::dense_solve(lu, rhs),
        Factored::Sparse(lu) => B::sparse_solve(lu, rhs),
        Factored::Empty => {
            assert(false);
            return d;
        },
    };
    assert(column_is::<F, B>(*fac, rhs@, c));
    let mut i: usize = 0;
    while i < n
        invariant
            i <= n,
            d@.len() == i,
            forall|k: int|
                0 <= k < i ==> call_ensures(B::component, (&c, k as usize), #[trigger] d@[k]),
        decreases n - i,
    {
        d.push(B::component(&c, i));
        i += 1;
    }
    d
}

fn reduce_by<F: Scalar>(x: &mut Vec<F>, d: &Vec<F>)
    requires
        d@.len() <= old(x)@.len(),
    ensures
        reduced_by(old(x)@, d@, final(x)@),
{
    let ghost before = x@;
    let mut i: usize = 0;
    while i < d.len()
        invariant
            i <= d@.len() <= before.len(),
            x@.len() == before.len(),
            forall|k: int| 0 <= k < i ==> subs(before[k], d@[k], #[trigger] x@[k]),
            forall|k: int| i <= k < before.len() ==> #[trigger] x@[k] == before[k],
        decreases d.len() - i,
    {
        let v: F = x[i].minus(d[i]);
        x.set(i, v);
        i += 1;
    }
}

/// The row-major matrix `j` less the identity.
fn shift<F: Scalar>(j: &Vec<F>, n: usize) -> (a: Vec<F>)
    requires
        j@.len() == n * n,
    ensures
        less_identity(j@, n as int, a@),
{
    let mut a: Vec<F> = Vec::with_capacity(j.len());
    let mut k: usize = 0;
    while k < j.len()
        invariant
            k <= j.len(),
            j@.len() == n * n,
            a@.len() == k,
            forall|i: int|
                0 <= i < k ==> entry_less_identity(
                    j@[i],
                    i / (n as int) == i % (n as int),
                    #[trigger] a@[i],
                ),
        decreases j.len() - k,
    {
        assert(n != 0) by (nonlinear_arith)
            requires
                n * n > 0,
        ;
        let e: F = if k / n == k % n {
            F::one()
        } else {
            F::zero()
        };
        let v: F = j[k].minus(e);
        assert(subs(j@[k as int], e, v));
        a.push(v);
        k += 1;
    }
    a
}

impl<F: Scalar, B: Backend<F>> LinearSolver<F, B> {
    /// Whether the kept factorization is that of `key` in dimension `n`.
    fn hit(&self, key: &Vec<F>, n: usize) -> (r: bool)
        ensures
            r ==> self.dimension() == n && !(self.factorization() is Empty) && all_same(
                self.key(),
                key@,
            ),
            !r ==> self.dimension() != n || self.factorization() is Empty || self.key().len()
                != key@.len() || exists|i: int|
                0 <= i < key@.len() && eqs(#[trigger] self.key()[i], key@[i], false),
    {
        let factored: bool = match &self.fac {
            Factored::Empty => false,
            _ => true,
        };
        self.n == n && factored && equal(self.key.as_slice(), key.as_slice())
    }

    fn prepare(&mut self, a: &Vec<F>, n: usize)
        requires
            old(self).plain(),
            a@.len() == n * n,
        ensures
            final(self).plain(),
            serves::<F, B>(a@, n, final(self).factorization()),
            old(self).fresh() ==> factors::<F, B>(a@, n, final(self).factorization()),
            final(self).factorization() == old(self).factorization() || factors::<F, B>(
                a@,
                n,
                final(self).factorization(),
            ),
    {
        if self.hit(a, n) {
            assert(stands_for(self.key(), a@));
            return;
        }
        self.refactor(a, n);
        self.key = copied(a.as_slice());
        assert(stands_for(a@, a@));
    }

    /// Solves `a * d = rhs` for the row-major `n` by `n` matrix `a`, reusing the
    /// kept factorization if `a` is unchanged.
    pub fn solve(&mut self, a: &Vec<F>, rhs: &Vec<F>, n: usize) -> (d: Vec<F>)
        requires
            old(self).plain(),
            a@.len() == n * n,
            rhs@.len() >= n,
        ensures
            final(self).plain(),
            d@.len() == n,
            serves::<F, B>(a@, n, final(self).factorization()),
            old(self).fresh() ==> factors::<F, B>(a@, n, final(self).factorization()),
            final(self).factorization() == old(self).factorization() || factors::<F, B>(
                a@,
                n,
                final(self).factorization(),
            ),
            solution::<F, B>(final(self).factorization(), rhs@.take(n as int), d@),
    {
        self.prepare(a, n);
        let head: Vec<F> = prefix(rhs.as_slice(), n);
        solve_with::<F, B>(&self.fac, &head, n)
    }

    /// Newton step: subtracts from `x` the solution of `a * d = r` and returns the
    /// norm of `r`.
    pub fn newton_solve(&mut self, x: &mut Vec<F>, r: &Vec<F>, a: &Vec<F>, n: usize) -> (res: F)
        requires
            old(self).plain(),
            a@.len() == n * n,
            old(x)@.len() >= n,
            r@.len() >= n,
        ensures
            final(self).plain(),
            serves::<F, B>(a@, n, final(self).factorization()),
            old(self).fresh() ==> factors::<F, B>(a@, n, final(self).factorization()),
            final(self).factorization() == old(self).factorization() || factors::<F, B>(
                a@,
                n,
                final(self).factorization(),
            ),
            newton_update::<F, B>(
                final(self).factorization(),
                r@.take(n as int),
                old(x)@,
                final(x)@,
            ),
            norm_is(r@.take(n as int), res),
    {
        self.prepare(a, n);
        let head: Vec<F> = prefix(r.as_slice(), n);
        let d: Vec<F> = solve_with::<F, B>(&self.fac, &head, n);
        reduce_by(x, &d);
        vec_norm(head.as_slice())
    }

    fn prepare_shifted(&mut self, j: &Vec<F>, n: usize)
        requires
            old(self).shifted(),
            j@.len() == n * n,
        ensures
            final(self).shifted(),
            serves_shifted::<F, B>(j@, n, final(self).factorization()),
            old(self).fresh() ==> exists|a: Seq<F>| #[trigger]
                less_identity(j@, n as int, a) && factors::<F, B>(
                    a,
                    n,
                    final(self).factorization(),
                ),
    {
        if self.hit(j, n) {
            assert(stands_for(self.key(), j@));
            return;
        }
        let a: Vec<F> = shift(j, n);
        self.refactor(&a, n);
        self.key = copied(j.as_slice());
        assert(stands_for(j@, j@));
        assert(less_identity(j@, n as int, a@));
    }

    /// Newton step for the fixed point `x = g` with the row-major Jacobian `j` of
    /// `g`: subtracts from `x` the solution of `(j - I) * d = g - x` and returns
    /// the norm of `g - x`. Reuses the kept factorization if `j` is unchanged.
    pub fn newton_step_matrix(&mut self, x: &mut Vec<F>, g: &Vec<F>, j: &Vec<F>, n: usize) -> (res: F)
        requires
            old(self).shifted(),
            j@.len() == n * n,
            old(x)@.len() >= n,
            g@.len() >= n,
        ensures
            final(self).shifted(),
            serves_shifted::<F, B>(j@, n, final(self).factorization()),
            old(self).fresh() ==> exists|a: Seq<F>| #[trigger]
                less_identity(j@, n as int, a) && factors::<F, B>(
                    a,
                    n,
                    final(self).factorization(),
                ),
            exists|r: Seq<F>| #[trigger]
                differences(g@, old(x)@, n as int, r) && norm_is(r, res) && newton_update::<F, B>(
                    final(self).factorization(),
                    r,
                    old(x)@,
                    final(x)@,
                ),
    {
        self.prepare_shifted(j, n);
        let r: Vec<F> = difference(g.as_slice(), x.as_slice(), n);
        let d: Vec<F> = solve_with::<F, B>(&self.fac, &r, n);
        reduce_by(x, &d);
        vec_norm(r.as_slice())
    }
}

/// `v` is minus one.
pub open spec fn minus_one<F: Scalar>(v: F) -> bool {
    exists|o: F| #[trigger] negs(o, v) && ones(o)
}

/// `entries` lists `scale * J - I`: the scaled entries of `J` in order, then minus
/// one for each place on the diagonal.
pub open spec fn step_entries<F: Scalar>(
    rows: Seq<u32>,
    cols: Seq<u32>,
    values: Seq<F>,
    scale: F,
    n: int,
    entries: Seq<Triplet<F>>,
) -> bool {
    &&& entries.len() == values.len() + n
    &&& forall|k: int|
        #![trigger entries[k]]
        0 <= k < values.len() ==> entries[k].row == rows[k] && entries[k].col == cols[k] && muls(
            scale,
            values[k],
            entries[k].value,
        )
    &&& forall|k: int|
        #![trigger entries[k]]
        values.len() <= k < entries.len() ==> entries[k].row == k - values.len() && entries[k].col
            == k - values.len() && minus_one(entries[k].value)
}

/// `a` is the dense form of `scale * J - I` after adding the first `k` entries of
/// `J` one by one to minus the identity.
pub open spec fn scattered<F: Scalar>(
    rows: Seq<u32>,
    cols: Seq<u32>,
    values: Seq<F>,
    scale: F,
    n: int,
    k: int,
    a: Seq<F>,
) -> bool
    decreases k,
{
    if k <= 0 {
        &&& a.len() == n * n
        &&& forall|i: int|
            #![trigger a[i]]
            0 <= i < n * n ==> if i / n == i % n {
                minus_one(a[i])
            } else {
                zeros(a[i])
            }
    } else {
        let at = rows[k - 1] * n + cols[k - 1];
        exists|before: Seq<F>, p: F, v: F|
            muls(scale, values[k - 1], p) && #[trigger] adds(before[at], p, v) && a
                == before.update(at, v) && scattered(rows, cols, values, scale, n, k - 1, before)
    }
}

/// `fac` factors `scale * J - I`: sparsely by its entries, or densely if that fails.
pub open spec fn step_factors<F: Scalar, B: Backend<F>>(
    rows: Seq<u32>,
    cols: Seq<u32>,
    values: Seq<F>,
    scale: F,
    n: usize,
    fac: Factored<B::Dense, B::Sparse>,
) -> bool {
    match fac {
        Factored::Empty => false,
        Factored::Sparse(lu) => exists|entries: Seq<Triplet<F>>| #[trigger]
            step_entries(rows, cols, values, scale, n as int, entries) && sparse_factors::<F, B>(
                entries,
                n,
                rows,
                cols,
                lu,
            ),
        Factored::Dense(lu) => {
            &&& exists|entries: Seq<Triplet<F>>| #[trigger]
                step_entries(rows, cols, values, scale, n as int, entries) && sparse_fails::<F, B>(
                    entries,
                    n,
                    rows,
                    cols,
                )
            &&& exists|a: Seq<F>| #[trigger]
                scattered(rows, cols, values, scale, n as int, values.len() as int, a)
                    && dense_factors::<F, B>(a, n, lu)
        },
    }
}

fn wide(i: u32) -> (r: usize)
    ensures
        r == i,
{
    i as usize
}

fn build_step_entries<F: Scalar>(
    rows: &Vec<u32>,
    cols: &Vec<u32>,
    values: &Vec<F>,
    scale: F,
    n: usize,
) -> (entries: Vec<Triplet<F>>)
    requires
        rows@.len() == values@.len(),
        cols@.len() == values@.len(),
    ensures
        step_entries(rows@, cols@, values@, scale, n as int, entries@),
        rows_of(entries@.take(values@.len() as int)) == rows@,
        cols_of(entries@.take(values@.len() as int)) == cols@,
{
    let mut entries: Vec<Triplet<F>> = Vec::new();
    let mut k: usize = 0;
    while k < values.len()
        invariant
            k <= values.len(),
            rows@.len() == values@.len(),
            cols@.len() == values@.len(),
            entries@.len() == k,
            forall|i: int|
                #![trigger entries@[i]]
                0 <= i < k ==> entries@[i].row == rows@[i] && entries@[i].col == cols@[i] && muls(
                    scale,
                    values@[i],
                    entries@[i].value,
                ),
        decreases values.len() - k,
    {
        let value: F = scale.times(values[k]);
        entries.push(Triplet { row: wide(rows[k]), col: wide(cols[k]), value });
        k += 1;
    }
    let mut i: usize = 0;
    while i < n
        invariant
            i <= n,
            entries@.len() == values@.len() + i,
            forall|q: int|
                #![trigger entries@[q]]
                0 <= q < values@.len() ==> entries@[q].row == rows@[q] && entries@[q].col
                    == cols@[q] && muls(scale, values@[q], entries@[q].value),
            forall|q: int|
                #![trigger entries@[q]]
                values@.len() <= q < entries@.len() ==> entries@[q].row == q - values@.len()
                    && entries@[q].col == q - values@.len() && minus_one(entries@[q].value),
        decreases n - i,
    {
        let o: F = F::one();
        let value: F = o.negated();
        assert(negs(o, value));
        entries.push(Triplet { row: i, col: i, value });
        i += 1;
    }
    assert(rows_of(entries@.take(values@.len() as int)) =~= rows@);
    assert(cols_of(entries@.take(values@.len() as int)) =~= cols@);
    entries
}

fn scatter<F: Scalar>(
    rows: &Vec<u32>,
    cols: &Vec<u32>,
    values: &Vec<F>,
    scale: F,
    n: usize,
    size: usize,
) -> (a: Vec<F>)
    requires
        size == n * n,
        rows@.len() == values@.len(),
        cols@.len() == values@.len(),
        forall|k: int| 0 <= k < rows@.len() ==> #[trigger] rows@[k] < n,
        forall|k: int| 0 <= k < cols@.len() ==> #[trigger] cols@[k] < n,
    ensures
        scattered(rows@, cols@, values@, scale, n as int, values@.len() as int, a@),
        a@.len() == size,
{
    let mut a: Vec<F> = Vec::with_capacity(size);
    let mut i: usize = 0;
    while i < size
        invariant
            i <= size,
            size == n * n,
            a@.len() == i,
            forall|q: int|
                #![trigger a@[q]]
                0 <= q < i ==> if q / (n as int) == q % (n as int) {
                    minus_one(a@[q])
                } else {
                    zeros(a@[q])
                },
        decreases size - i,
    {
        assert(n != 0) by (nonlinear_arith)
            requires
                n * n > 0,
        ;
        if i / n == i % n {
            let o: F = F::one();
            let value: F = o.negated();
            assert(negs(o, value));
            a.push(value);
        } else {
            a.push(F::zero());
        }
        i += 1;
    }
    let mut k: usize = 0;
    while k < values.len()
        invariant
            k <= values.len(),
            size == n * n,
            a@.len() == size,
            rows@.len() == values@.len(),
            cols@.len() == values@.len(),
            forall|q: int| 0 <= q < rows@.len() ==> #[trigger] rows@[q] < n,
            forall|q: int| 0 <= q < cols@.len() ==> #[trigger] cols@[q] < n,
            scattered(rows@, cols@, values@, scale, n as int, k as int, a@),
        decreases values.len() - k,
    {
        let row: usize = wide(rows[k]);
        let col: usize = wide(cols[k]);
        assert(row * n + col < n * n && row * n <= n * n) by (nonlinear_arith)
            requires
                row < n,
                col < n,
        ;
        let at: usize = row * n + col;
        let p: F = scale.times(values[k]);
        let v: F = a[at].plus(p);
        let ghost before = a@;
        a.set(at, v);
        proof {
            assert(rows@[k + 1 - 1] * (n as int) + cols@[k + 1 - 1] == at);
            assert(adds(before[at as int], p, v));
            assert(scattered(rows@, cols@, values@, scale, n as int, k + 1, a@));
        }
        k += 1;
    }
    a
}

impl<F: Scalar, B: Backend<F>> LinearSolver<F, B> {
    /// Newton step for the fixed point `x = g`, where the Newton matrix
    /// `scale * J - I` is given by the places and values of the entries of `J`.
    /// Subtracts from `x` the solution of `(scale * J - I) * d = g - x` and returns
    /// the norm of `g - x`. Factors sparsely, or densely if that fails; nothing of
    /// the matrix is kept for later solves.
    pub fn newton_step_matrix_sparse(
        &mut self,
        x: &mut Vec<F>,
        g: &Vec<F>,
        rows: &Vec<u32>,
        cols: &Vec<u32>,
        values: &Vec<F>,
        scale: F,
        n: usize,
    ) -> (res: F)
        requires
            old(self).pattern_kept(),
            n * n <= usize::MAX,
            rows@.len() == values@.len(),
            cols@.len() == values@.len(),
            forall|k: int| 0 <= k < rows@.len() ==> #[trigger] rows@[k] < n,
            forall|k: int| 0 <= k < cols@.len() ==> #[trigger] cols@[k] < n,
            old(x)@.len() >= n,
            g@.len() >= n,
        ensures
            final(self).plain(),
            final(self).shifted(),
            n > 0 ==> final(self).fresh(),
            exists|fac: Factored<B::Dense, B::Sparse>, r: Seq<F>| #[trigger]
                step_factors::<F, B>(rows@, cols@, values@, scale, n, fac) && #[trigger]
                differences(g@, old(x)@, n as int, r) && norm_is(r, res) && newton_update::<F, B>(
                    fac,
                    r,
                    old(x)@,
                    final(x)@,
                ),
    {
        self.n = n;
        let entries: Vec<Triplet<F>> = build_step_entries(rows, cols, values, scale, n);
        let sparse: Option<B::Sparse> = self.factor_entries(&entries, values.len(), n);
        self.key = Vec::new();
        self.fac = Factored::Empty;
        assert(n > 0 ==> n * n > 0) by (nonlinear_arith);
        let r: Vec<F> = difference(g.as_slice(), x.as_slice(), n);
        if let Some(lu) = sparse {
            let fac: Factored<B::Dense, B::Sparse> = Factored::Sparse(lu);
            assert(step_factors::<F, B>(rows@, cols@, values@, scale, n, fac));
            let d: Vec<F> = solve_with::<F, B>(&fac, &r, n);
            reduce_by(x, &d);
            return vec_norm(r.as_slice());
        }
        self.sym = None;
        let a: Vec<F> = scatter(rows, cols, values, scale, n, n * n);
        self.fac = Factored::Dense(B::dense_lu(&a, n));
        assert(step_factors::<F, B>(rows@, cols@, values@, scale, n, self.fac));
        proof {
            if n == 0 {
                assert(a@ =~= Seq::<F>::empty());
                assert(self.key@ =~= Seq::<F>::empty());
                assert(less_identity(self.key(), 0, a@));
            }
        }
        let d: Vec<F> = solve_with::<F, B>(&self.fac, &r, n);
        reduce_by(x, &d);
        vec_norm(r.as_slice())
    }
}

/// One Newton step by a solver of its own: subtracts from `x` the solution of
/// `a * d = r` and returns the norm of `r`.
pub fn newton_solve_inplace<F: Scalar, B: Backend<F>>(
    x: &mut Vec<F>,
    r: &Vec<F>,
    a: &Vec<F>,
    n: usize,
) -> (res: F)
    requires
        a@.len() == n * n,
        old(x)@.len() >= n,
        r@.len() >= n,
    ensures
        exists|fac: Factored<B::Dense, B::Sparse>| #[trigger]
            factors::<F, B>(a@, n, fac) && newton_update::<F, B>(
                fac,
                r@.take(n as int),
                old(x)@,
                final(x)@,
            ),
        norm_is(r@.take(n as int), res),
{
    let mut ls: LinearSolver<F, B> = LinearSolver::new();
    ls.newton_solve(x, r, a, n)
}

/// One fixed-point Newton step by a solver of its own.
pub fn newton_step_matrix_inplace<F: Scalar, B: Backend<F>>(
    x: &mut Vec<F>,
    g: &Vec<F>,
    j: &Vec<F>,
    n: usize,
) -> (res: F)
    requires
        j@.len() == n * n,
        old(x)@.len() >= n,
        g@.len() >= n,
    ensures
        exists|a: Seq<F>, fac: Factored<B::Dense, B::Sparse>, r: Seq<F>| #[trigger]
            less_identity(j@, n as int, a) && #[trigger] factors::<F, B>(a, n, fac) && #[trigger]
            differences(g@, old(x)@, n as int, r) && norm_is(r, res) && newton_update::<F, B>(
                fac,
                r,
                old(x)@,
                final(x)@,
            ),
{
    let mut ls: LinearSolver<F, B> = LinearSolver::new();
    ls.newton_step_matrix(x, g, j, n)
}

/// Reuse is as good as refactoring: where numbers that compare equal are equal,
/// a factorization that serves a matrix is a factorization of that matrix.
pub proof fn law_reuse_matches_fresh<F: Scalar, B: Backend<F>>(
    a: Seq<F>,
    n: usize,
    fac: Factored<B::Dense, B::Sparse>,
)
    requires
        forall|u: F, v: F| #[trigger] eqs(u, v, true) ==> u == v,
        serves::<F, B>(a, n, fac),
    ensures
        factors::<F, B>(a, n, fac),
{
    let m = choose|m: Seq<F>| #[trigger] stands_for(m, a) && factors::<F, B>(m, n, fac);
    if m != a {
        assert(m =~= a);
    }
}

/// The same for fixed-point steps: a factorization that serves a Jacobian is one
/// of that Jacobian less the identity.
pub proof fn law_shifted_reuse_matches_fresh<F: Scalar, B: Backend<F>>(
    j: Seq<F>,
    n: usize,
    fac: Factored<B::Dense, B::Sparse>,
)
    requires
        forall|u: F, v: F| #[trigger] eqs(u, v, true) ==> u == v,
        serves_shifted::<F, B>(j, n, fac),
    ensures
        exists|a: Seq<F>| #[trigger] less_identity(j, n as int, a) && factors::<F, B>(a, n, fac),
{
    let (m, a) = choose|m: Seq<F>, a: Seq<F>| #[trigger]
        stands_for(m, j) && #[trigger] less_identity(m, n as int, a) && factors::<F, B>(a, n, fac);
    if m != j {
        assert(m =~= j);
    }
    assert(less_identity(j, n as int, a));
}

} // verus!
