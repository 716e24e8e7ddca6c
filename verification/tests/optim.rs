use std::cell::RefCell;

use faer::linalg::solvers::{PartialPivLu, SolveCore, Svd};
use faer::sparse::linalg::solvers::{Lu as SparseLu, SymbolicLu};
use faer::sparse::{SparseColMat, Triplet};
use faer::{Conj, Mat};

use fastsim::front::calls::choose_optimizer;
use fastsim::optim::anderson::{Anderson, OPT_HISTORY};
use fastsim::optim::booster::{wrms_scale, ConnectionBooster};
use fastsim::optim::colloc::mesh::{hermite_weights, refine};
use fastsim::optim::colloc::newton::newton;
use fastsim::optim::colloc::problem::{BvpEquations, BvpFns};
use fastsim::optim::colloc::solve::{solve_bvp, BvpSolution, BvpWorkspace};
use fastsim::optim::linsolve::{
    newton_solve_inplace, newton_step_matrix_inplace, Backend, LinearSolver,
    Triplet as Entry, LINSOLVE_SPARSE_MIN_DIM, LINSOLVE_SPARSE_ONE_IN,
};
use fastsim::optim::lstsq::lstsq_solve;
use fastsim::optim::optimizer::{
    newton_step_scalar_inplace, optimizer_step_residual, Newton, NewtonAnderson, Optimizer,
};
use fastsim::scalar::{BinOp, CmpOp, ReduceOp, Scalar, UnaryOp};

/// Double-precision numbers.
#[derive(Debug, Clone, Copy, PartialEq)]
struct Real(f64);

impl Scalar for Real {
    fn zero() -> Self {
        Real(0.0)
    }

    fn one() -> Self {
        Real(1.0)
    }

    fn from_bits(bits: u64) -> Self {
        Real(f64::from_bits(bits))
    }

    fn ratio(num: u64, den: u64) -> Self {
        Real(num as f64 / den as f64)
    }

    fn from_count(n: usize) -> Self {
        Real(n as f64)
    }

    fn plus(self, rhs: Self) -> Self {
        Real(self.0 + rhs.0)
    }

    fn minus(self, rhs: Self) -> Self {
        Real(self.0 - rhs.0)
    }

    fn times(self, rhs: Self) -> Self {
        Real(self.0 * rhs.0)
    }

    fn over(self, rhs: Self) -> Self {
        Real(self.0 / rhs.0)
    }

    fn negated(self) -> Self {
        Real(-self.0)
    }

    fn fused(self, b: Self, c: Self) -> Self {
        Real(self.0.mul_add(b.0, c.0))
    }

    fn magnitude(self) -> Self {
        Real(self.0.abs())
    }

    fn root(self) -> Self {
        Real(self.0.sqrt())
    }

    fn larger(self, rhs: Self) -> Self {
        Real(self.0.max(rhs.0))
    }

    fn smaller(self, rhs: Self) -> Self {
        Real(self.0.min(rhs.0))
    }

    fn below(self, rhs: Self) -> bool {
        self.0 < rhs.0
    }

    fn at_most(self, rhs: Self) -> bool {
        self.0 <= rhs.0
    }

    fn same(self, rhs: Self) -> bool {
        self.0 == rhs.0
    }

    fn finite(self) -> bool {
        self.0.is_finite()
    }

    fn binary(op: BinOp, a: Self, b: Self) -> Self {
        Real(match op {
            BinOp::Add => a.0 + b.0,
            BinOp::Sub => a.0 - b.0,
            BinOp::Mul => a.0 * b.0,
            BinOp::Div => a.0 / b.0,
            BinOp::Pow => a.0.powf(b.0),
            BinOp::Mod => a.0 - b.0 * (a.0 / b.0).floor(),
            BinOp::Min => a.0.min(b.0),
            BinOp::Max => a.0.max(b.0),
            BinOp::Atan2 => a.0.atan2(b.0),
            BinOp::Hypot => a.0.hypot(b.0),
        })
    }

    fn unary(op: UnaryOp, a: Self) -> Self {
        Real(match op {
            UnaryOp::Neg => -a.0,
            UnaryOp::Sin => a.0.sin(),
            UnaryOp::Cos => a.0.cos(),
            UnaryOp::Tan => a.0.tan(),
            UnaryOp::Atan => a.0.atan(),
            UnaryOp::Sinh => a.0.sinh(),
            UnaryOp::Cosh => a.0.cosh(),
            UnaryOp::Tanh => a.0.tanh(),
            UnaryOp::Exp => a.0.exp(),
            UnaryOp::Log => a.0.ln(),
            UnaryOp::Log10 => a.0.log10(),
            UnaryOp::Abs => a.0.abs(),
            UnaryOp::Sqrt => a.0.sqrt(),
            UnaryOp::Sign => {
                if a.0 > 0.0 {
                    1.0
                } else if a.0 < 0.0 {
                    -1.0
                } else {
                    0.0
                }
            }
            UnaryOp::Floor => a.0.floor(),
            UnaryOp::Asin => a.0.asin(),
            UnaryOp::Acos => a.0.acos(),
            UnaryOp::Asinh => a.0.asinh(),
            UnaryOp::Acosh => a.0.acosh(),
            UnaryOp::Atanh => a.0.atanh(),
            UnaryOp::Ceil => a.0.ceil(),
            UnaryOp::Round => a.0.round(),
            UnaryOp::Trunc => a.0.trunc(),
            UnaryOp::Log2 => a.0.log2(),
            UnaryOp::Log1p => a.0.ln_1p(),
            UnaryOp::Expm1 => a.0.exp_m1(),
            UnaryOp::Cbrt => a.0.cbrt(),
            _ => unreachable!(),
        })
    }

    fn relation(op: CmpOp, a: Self, b: Self) -> Self {
        let holds = match op {
            CmpOp::Gt => a.0 > b.0,
            CmpOp::Ge => a.0 >= b.0,
            CmpOp::Lt => a.0 < b.0,
            CmpOp::Le => a.0 <= b.0,
            CmpOp::Eq => a.0 == b.0,
            CmpOp::Ne => a.0 != b.0,
        };
        Real(if holds { 1.0 } else { 0.0 })
    }

    fn identity(op: ReduceOp) -> Self {
        Real(match op {
            ReduceOp::Sum => 0.0,
            ReduceOp::Product => 1.0,
            ReduceOp::Min => f64::INFINITY,
            ReduceOp::Max => f64::NEG_INFINITY,
        })
    }

    fn combine(op: ReduceOp, acc: Self, v: Self) -> Self {
        Real(match op {
            ReduceOp::Sum => acc.0 + v.0,
            ReduceOp::Product => acc.0 * v.0,
            ReduceOp::Min => acc.0.min(v.0),
            ReduceOp::Max => acc.0.max(v.0),
        })
    }
}

fn reals(v: &[f64]) -> Vec<Real> {
    v.iter().map(|x| Real(*x)).collect()
}

fn floats(v: &[Real]) -> Vec<f64> {
    v.iter().map(|x| x.0).collect()
}

/// Factorizations of faer.
struct Faer;

impl Backend<Real> for Faer {
    type Dense = PartialPivLu<f64>;

    type Matrix = SparseColMat<usize, f64>;

    type Symbolic = SymbolicLu<usize>;

    type Sparse = SparseLu<usize, f64>;

    type Column = Mat<f64>;

    type Svd = Svd<f64>;

    fn dense_lu(a: &Vec<Real>, n: usize) -> Self::Dense {
        Mat::<f64>::from_fn(n, n, |i, j| a[i * n + j].0).partial_piv_lu()
    }

    fn sparse_matrix(entries: &Vec<Entry<Real>>, n: usize) -> Option<Self::Matrix> {
        let list: Vec<Triplet<usize, usize, f64>> =
            entries.iter().map(|e| Triplet::new(e.row, e.col, e.value.0)).collect();
        SparseColMat::try_new_from_triplets(n, n, &list).ok()
    }

    fn symbolic(m: &Self::Matrix) -> Option<Self::Symbolic> {
        SymbolicLu::try_new(m.symbolic()).ok()
    }

    fn sparse_lu(sym: &Self::Symbolic, m: &Self::Matrix) -> Option<Self::Sparse> {
        SparseLu::try_new_with_symbolic(sym.clone(), m.as_ref()).ok()
    }

    fn dense_solve(lu: &Self::Dense, rhs: &Vec<Real>) -> Self::Column {
        let mut b = Mat::<f64>::from_fn(rhs.len(), 1, |i, _| rhs[i].0);
        lu.solve_in_place_with_conj(Conj::No, b.as_mut());
        b
    }

    fn sparse_solve(lu: &Self::Sparse, rhs: &Vec<Real>) -> Self::Column {
        let mut b = Mat::<f64>::from_fn(rhs.len(), 1, |i, _| rhs[i].0);
        lu.solve_in_place_with_conj(Conj::No, b.as_mut());
        b
    }

    fn component(c: &Self::Column, i: usize) -> Real {
        Real(c[(i, 0)])
    }

    fn thin_svd(m: &Vec<Real>, rows: usize, cols: usize) -> Option<Self::Svd> {
        let a = Mat::<f64>::from_fn(rows, cols, |i, j| m[i * cols + j].0);
        Svd::new_thin(a.as_ref()).ok()
    }

    fn left(svd: &Self::Svd, i: usize, j: usize) -> Real {
        Real(svd.U()[(i, j)])
    }

    fn right(svd: &Self::Svd, i: usize, j: usize) -> Real {
        Real(svd.V()[(i, j)])
    }

    fn singular(svd: &Self::Svd, i: usize) -> Real {
        Real(svd.S().column_vector()[i])
    }
}

type Acc = Anderson<Real, Faer>;

#[test]
fn test_anderson_scalar_cos() {
    let mut acc = Acc::with_defaults();
    let result = acc.solve(
        |x: &Vec<Real>| vec![Real(x[0].0.cos() - x[0].0)],
        &reals(&[0.5]),
        100,
        Real(1e-10),
    );
    assert!(result.is_ok());
    let (x, _res, _iters) = result.unwrap();
    assert!((x[0].0 - 0.7390851332).abs() < 1e-6);
}

#[test]
fn test_anderson_vector() {
    let mut acc = Acc::new(4);
    let result = acc.solve(
        |x: &Vec<Real>| reals(&[x[1].0.cos() - x[0].0, x[0].0.sin() - x[1].0]),
        &reals(&[0.5, 0.5]),
        200,
        Real(1e-8),
    );
    assert!(result.is_ok());
    let (x, _res, _iters) = result.unwrap();
    assert!((x[0].0 - x[1].0.cos()).abs() < 1e-6);
    assert!((x[1].0 - x[0].0.sin()).abs() < 1e-6);
}

#[test]
fn test_anderson_step_basic() {
    let mut acc = Acc::with_defaults();
    let mut x = reals(&[0.5]);
    let _res1 = acc.step(&mut x, &reals(&[0.5_f64.cos()]));
    assert!(!x.is_empty());
    let g = reals(&[x[0].0.cos()]);
    let _res2 = acc.step(&mut x, &g);
    assert!(!x.is_empty());
}

#[test]
fn test_newton_anderson_scalar() {
    let mut na = NewtonAnderson::<Real, Faer>::with_defaults();
    let mut x = reals(&[0.5]);
    for _ in 0..20 {
        let g = reals(&[f64::cos(x[0].0)]);
        let jac = -f64::sin(x[0].0);
        let res = na.step(&mut x, &g, Some(Real(jac)));
        if res.0 < 1e-10 {
            break;
        }
    }
    assert!((x[0].0 - 0.7390851332).abs() < 1e-6);
}

#[test]
fn test_anderson_m_zero_fallback() {
    let mut acc = Acc::new(0);
    let mut x = reals(&[1.0]);
    let res = acc.step(&mut x, &reals(&[2.0]));
    assert_eq!(floats(&x), vec![2.0]);
    assert!((res.0 - 1.0).abs() < 1e-10);
}

#[test]
fn test_newton_step_matrix() {
    let mut x = reals(&[0.0, 0.0]);
    let g = reals(&[1.6, 1.8]);
    let jac_flat = reals(&[2.0, 1.0, 1.0, 3.0]);
    newton_step_matrix_inplace::<Real, Faer>(&mut x, &g, &jac_flat, 2);
    assert!(x[0].0.abs() < 10.0);
    assert!(x[1].0.abs() < 10.0);
}

#[test]
fn test_anderson_reset() {
    let mut acc = Acc::with_defaults();
    let mut x1 = reals(&[1.0]);
    acc.step(&mut x1, &reals(&[2.0]));
    let mut x2 = reals(&[1.5]);
    acc.step(&mut x2, &reals(&[1.8]));
    acc.reset();
    assert!(acc.first_call);
    assert!(acc.dx_buffer.is_empty());
}

/// The first step after a reset is plain iteration; the second extrapolates.
#[test]
fn anderson_first_step_is_plain() {
    let mut acc = Acc::with_defaults();
    let mut x = reals(&[1.0]);
    let res = acc.step(&mut x, &reals(&[3.0]));
    assert_eq!(floats(&x), vec![3.0]);
    assert_eq!(res.0, 2.0);
    // g = 3, then g = 4 at x = 3: residuals 2 and 1, extrapolated to 5.
    acc.step(&mut x, &reals(&[4.0]));
    assert!((x[0].0 - 5.0).abs() < 1e-12);
}

#[test]
fn anderson_failure_names_the_limit() {
    let mut acc = Acc::with_defaults();
    let result = acc.solve(|_x: &Vec<Real>| reals(&[1.0]), &reals(&[0.0]), 3, Real(1e-10));
    assert_eq!(result.unwrap_err(), "did not converge in 3 steps");
}

#[test]
fn anderson_set_m_keeps_the_newest() {
    let mut acc = Acc::new(4);
    let mut x = reals(&[0.0, 0.0]);
    for k in 0..4 {
        let g = reals(&[(k as f64).cos(), (k as f64).sin()]);
        acc.step(&mut x, &g);
    }
    assert_eq!(acc.dx_buffer.len(), 3);
    let newest = acc.dx_buffer[2].clone();
    acc.set_m(1);
    assert_eq!(acc.m, 1);
    assert_eq!(acc.dx_buffer.len(), 1);
    assert_eq!(acc.dx_buffer[0], newest);
    assert!(acc.first_call);
}

#[test]
fn newton_scalar_step_solves_linear_equations() {
    // x = 3 x - 4 has the solution 2.
    let mut x = reals(&[5.0]);
    let res = newton_step_scalar_inplace(&mut x, &reals(&[11.0]), Real(3.0));
    assert_eq!(floats(&x), vec![2.0]);
    assert_eq!(res.0, 6.0);
}

#[test]
fn newton_without_jacobian_is_plain() {
    let mut n = Newton::<Real, Faer>::new();
    let mut x = reals(&[1.0, 2.0]);
    let res = n.step(&mut x, &reals(&[4.0, 6.0]), None);
    assert_eq!(floats(&x), vec![4.0, 6.0]);
    assert_eq!(res.0, 5.0);
    n.reset();
    let mut m = Newton::<Real, Faer>::with_defaults();
    let mut y = reals(&[5.0]);
    m.step(&mut y, &reals(&[11.0]), Some(Real(3.0)));
    assert_eq!(floats(&y), vec![2.0]);
}

#[test]
fn optimizer_dispatches() {
    let mut o = Optimizer::<Real, Faer>::default_newton_anderson();
    o.set_m(2);
    let mut x = reals(&[5.0]);
    o.step(&mut x, &reals(&[11.0]), Some(Real(3.0)));
    o.reset();
    let mut plain = Optimizer::<Real, Faer>::Newton(Newton::new());
    let mut y = reals(&[5.0]);
    plain.step(&mut y, &reals(&[11.0]), Some(Real(3.0)));
    assert_eq!(floats(&y), vec![2.0]);
    let mut jac_free = Optimizer::<Real, Faer>::Anderson(Anderson::new(OPT_HISTORY));
    let mut z = reals(&[0.0, 0.0]);
    let r = reals(&[0.5, 0.25]);
    let res =
        optimizer_step_residual(&mut jac_free, &mut z, &r, &reals(&[2.0, 0.0, 0.0, 4.0]), 2);
    assert!((res.0 - 0.3125f64.sqrt()).abs() < 1e-12);
    assert_eq!(floats(&z), vec![-0.25, -0.0625]);
}

#[test]
fn step_on_a_residual_returns_its_norm() {
    let variants = [
        Optimizer::<Real, Faer>::Anderson(Anderson::new(0)),
        Optimizer::NewtonAnderson(NewtonAnderson::new(0)),
        Optimizer::Newton(Newton::new()),
    ];
    for mut o in variants {
        let mut x = reals(&[0.0]);
        let res = optimizer_step_residual(&mut o, &mut x, &reals(&[2.0]), &reals(&[4.0]), 1);
        assert_eq!(res, Real(2.0));
        assert_eq!(floats(&x), vec![-0.5]);
    }
}

#[test]
fn reset_accelerator_steps_as_a_fresh_one() {
    let mut used = Anderson::<Real, Faer>::new(3);
    let mut x = reals(&[1.0, 2.0]);
    for k in 0..4 {
        let g = reals(&[0.5 * x[0].0 + k as f64, 0.25 * x[1].0]);
        used.step(&mut x, &g);
    }
    used.reset();
    let mut fresh = Anderson::<Real, Faer>::new(3);
    let mut y = reals(&[1.0, -1.0]);
    let mut z = y.clone();
    for _ in 0..4 {
        let g = reals(&[0.3 * y[0].0 + 1.0, 0.7 * y[1].0 - 2.0]);
        assert_eq!(used.step(&mut y, &g), fresh.step(&mut z, &g));
        assert_eq!(y, z);
    }
}

#[test]
fn least_squares_of_full_rank() {
    // Columns (1, 0) and (0, 2), right-hand side (3, 4).
    let mut history = std::collections::VecDeque::new();
    history.push_back(reals(&[1.0, 0.0]));
    history.push_back(reals(&[0.0, 2.0]));
    let c = lstsq_solve::<Real, Faer>(&history, &reals(&[3.0, 4.0]), 2);
    assert!((c[0].0 - 3.0).abs() < 1e-12);
    assert!((c[1].0 - 2.0).abs() < 1e-12);
}

#[test]
fn least_squares_drops_degenerate_directions() {
    // Twice the same column: the solution of least norm splits evenly.
    let mut history = std::collections::VecDeque::new();
    history.push_back(reals(&[1.0, 1.0]));
    history.push_back(reals(&[1.0, 1.0]));
    let c = lstsq_solve::<Real, Faer>(&history, &reals(&[2.0, 2.0]), 2);
    assert!((c[0].0 - 1.0).abs() < 1e-9);
    assert!((c[1].0 - 1.0).abs() < 1e-9);
}

#[test]
fn least_squares_ignores_the_oldest() {
    // Three columns of two entries: the first gets no weight.
    let mut history = std::collections::VecDeque::new();
    history.push_back(reals(&[9.0, 9.0]));
    history.push_back(reals(&[1.0, 0.0]));
    history.push_back(reals(&[0.0, 1.0]));
    let c = lstsq_solve::<Real, Faer>(&history, &reals(&[5.0, 7.0]), 2);
    assert_eq!(c[0].0, 0.0);
    assert!((c[1].0 - 5.0).abs() < 1e-12);
    assert!((c[2].0 - 7.0).abs() < 1e-12);
}

#[test]
fn cache_reuse_matches_fresh() {
    let n = 2;
    let jac = reals(&[2.0, 1.0, 1.0, 3.0]);
    let mut ls = LinearSolver::<Real, Faer>::new();

    let mut x1 = reals(&[0.0, 0.0]);
    ls.newton_step_matrix(&mut x1, &reals(&[1.0, 2.0]), &jac, n);
    let g2 = reals(&[-1.0, 0.7]);
    let mut x2 = reals(&[0.5, -0.5]);
    ls.newton_step_matrix(&mut x2, &g2, &jac, n);
    let mut x2_fresh = reals(&[0.5, -0.5]);
    LinearSolver::<Real, Faer>::new().newton_step_matrix(&mut x2_fresh, &g2, &jac, n);
    for i in 0..n {
        assert!((x2[i].0 - x2_fresh[i].0).abs() < 1e-14, "reuse != fresh at {i}");
    }

    let jac2 = reals(&[5.0, 0.0, 2.0, 4.0]);
    let g3 = reals(&[1.0, 1.0]);
    let mut x3 = reals(&[0.0, 0.0]);
    ls.newton_step_matrix(&mut x3, &g3, &jac2, n);
    let mut x3_fresh = reals(&[0.0, 0.0]);
    LinearSolver::<Real, Faer>::new().newton_step_matrix(&mut x3_fresh, &g3, &jac2, n);
    for i in 0..n {
        assert!((x3[i].0 - x3_fresh[i].0).abs() < 1e-14, "refactor != fresh at {i}");
    }
}

#[test]
fn sparse_step_matches_dense_step() {
    let n = 64;
    let (mut rows, mut cols, mut vals) = (Vec::new(), Vec::new(), Vec::new());
    for i in 0..n {
        if i > 0 {
            rows.push(i as u32);
            cols.push((i - 1) as u32);
            vals.push(Real(-1.0));
        }
        rows.push(i as u32);
        cols.push(i as u32);
        vals.push(Real(5.0 + (i % 3) as f64));
        if i + 1 < n {
            rows.push(i as u32);
            cols.push((i + 1) as u32);
            vals.push(Real(-0.7));
        }
    }
    let scale = 0.3;
    let mut jac_scaled = vec![Real(0.0); n * n];
    for k in 0..vals.len() {
        jac_scaled[rows[k] as usize * n + cols[k] as usize] = Real(scale * vals[k].0);
    }
    let g: Vec<Real> = (0..n).map(|i| Real(0.1 + i as f64 * 0.001)).collect();

    let mut x_dense = vec![Real(0.0); n];
    LinearSolver::<Real, Faer>::new().newton_step_matrix(&mut x_dense, &g, &jac_scaled, n);
    let mut x_sparse = vec![Real(0.0); n];
    let mut ls = LinearSolver::<Real, Faer>::new();
    ls.newton_step_matrix_sparse(&mut x_sparse, &g, &rows, &cols, &vals, Real(scale), n);

    for i in 0..n {
        assert!(
            (x_dense[i].0 - x_sparse[i].0).abs() < 1e-9,
            "sparse != dense at {i}: {} vs {}",
            x_sparse[i].0,
            x_dense[i].0
        );
    }

    // The same pattern again, with the symbolic factorization reused.
    let mut x_again = vec![Real(0.0); n];
    ls.newton_step_matrix_sparse(&mut x_again, &g, &rows, &cols, &vals, Real(scale), n);
    assert_eq!(x_again, x_sparse);
}

#[test]
fn sparse_path_matches_dense() {
    let (blocks, bs) = (16usize, 4usize);
    let n = blocks * bs;
    let mut a = vec![Real(0.0); n * n];
    for b in 0..blocks {
        for i in 0..bs {
            for j in 0..bs {
                let gi = b * bs + i;
                let gj = b * bs + j;
                a[gi * n + gj] = Real(if i == j { 5.0 + gi as f64 } else { 0.3 });
            }
        }
    }
    let nnz = a.iter().filter(|v| v.0 != 0.0).count();
    assert!(
        nnz * LINSOLVE_SPARSE_ONE_IN <= n * n && n >= LINSOLVE_SPARSE_MIN_DIM,
        "test matrix must hit the sparse gate"
    );

    let r: Vec<Real> = (0..n).map(|i| Real(1.0 + (i % 7) as f64)).collect();

    let mut ls = LinearSolver::<Real, Faer>::new();
    let mut x_sparse = vec![Real(0.0); n];
    ls.newton_solve(&mut x_sparse, &r, &a, n);
    assert!(ls.is_sparse(), "must have taken the sparse path");

    let mut x_dense = vec![Real(0.0); n];
    newton_solve_inplace::<Real, Faer>(&mut x_dense, &r, &a, n);

    for i in 0..n {
        assert!(
            (x_sparse[i].0 - x_dense[i].0).abs() < 1e-10,
            "sparse != dense at {i}: {} vs {}",
            x_sparse[i].0,
            x_dense[i].0
        );
    }
}

#[test]
fn small_and_full_matrices_are_factored_densely() {
    for (n, full) in [(LINSOLVE_SPARSE_MIN_DIM - 1, false), (LINSOLVE_SPARSE_MIN_DIM, true)] {
        let mut a = vec![Real(if full { 0.01 } else { 0.0 }); n * n];
        for i in 0..n {
            a[i * n + i] = Real(2.0);
        }
        let mut ls = LinearSolver::<Real, Faer>::new();
        let d = ls.solve(&a, &vec![Real(1.0); n], n);
        assert!(!ls.is_sparse());
        assert!((d[0].0 - if full { 1.0 / (1.99 + 0.01 * n as f64) } else { 0.5 }).abs() < 1e-9);
    }
    let n = LINSOLVE_SPARSE_MIN_DIM;
    let mut a = vec![Real(0.0); n * n];
    for i in 0..n {
        a[i * n + i] = Real(2.0);
    }
    let mut ls = LinearSolver::<Real, Faer>::new();
    ls.solve(&a, &vec![Real(1.0); n], n);
    assert!(ls.is_sparse());
}

#[test]
fn linear_solver_solves() {
    let mut ls = LinearSolver::<Real, Faer>::new();
    let d = ls.solve(&reals(&[2.0, 1.0, 1.0, 3.0]), &reals(&[5.0, 10.0]), 2);
    assert!((d[0].0 - 1.0).abs() < 1e-12);
    assert!((d[1].0 - 3.0).abs() < 1e-12);
    let mut x = reals(&[1.0, 3.0]);
    let res = newton_solve_inplace::<Real, Faer>(
        &mut x,
        &reals(&[3.0, 4.0]),
        &reals(&[1.0, 0.0, 0.0, 1.0]),
        2,
    );
    assert_eq!(res.0, 5.0);
    assert_eq!(floats(&x), vec![-2.0, -1.0]);
}

#[test]
fn test_booster_creation() {
    let booster = ConnectionBooster::<Real, Faer>::new(reals(&[5.0]), Real(1e-8), Real(1e-5));
    assert_eq!(floats(&booster.history), vec![5.0]);
}

#[test]
fn test_booster_update() {
    let mut booster = ConnectionBooster::<Real, Faer>::new(reals(&[1.0]), Real(1e-8), Real(1e-5));
    let res = booster.update(&reals(&[2.0]));
    assert!(res.0 >= 0.0);
    let target_val = booster.history[0].0;
    assert!(target_val != 0.0);
}

#[test]
fn test_booster_reset() {
    let mut booster = ConnectionBooster::<Real, Faer>::new(reals(&[1.0]), Real(1e-8), Real(1e-5));
    booster.update(&reals(&[5.0]));
    booster.reset(&reals(&[3.0]));
    assert_eq!(floats(&booster.history), vec![3.0]);
}

#[test]
fn booster_residual_is_weighed() {
    let scale = wrms_scale(Real(0.5), Real(0.25), Real(-2.0));
    assert_eq!(scale.0, 1.0);
    let mut booster = ConnectionBooster::<Real, Faer>::new(reals(&[0.0]), Real(0.5), Real(0.25));
    // |2 - 0| against 0.5 + 0.25 * 0.
    assert_eq!(booster.update(&reals(&[2.0])).0, 4.0);
}

type Fun = Box<dyn Fn(f64, &[f64], &[f64]) -> Vec<f64>>;
type Boundary = Box<dyn Fn(&[f64], &[f64], &[f64]) -> Vec<f64>>;
type Interior = Box<dyn Fn(&[f64], &[f64]) -> Vec<f64>>;

struct Problem {
    fun: Fun,
    jac_fy: Fun,
    jac_fp: Fun,
    bc: Boundary,
    jac_bc_ya: Boundary,
    jac_bc_yb: Boundary,
    jac_bc_p: Boundary,
    icond: Interior,
    jac_ic_y: Interior,
    jac_ic_p: Interior,
    calls: RefCell<usize>,
}

impl BvpEquations<Real> for Problem {
    fn fun(&self, x: Real, y: &Vec<Real>, p: &Vec<Real>) -> Vec<Real> {
        *self.calls.borrow_mut() += 1;
        reals(&(self.fun)(x.0, &floats(y), &floats(p)))
    }

    fn jac_fy(&self, x: Real, y: &Vec<Real>, p: &Vec<Real>) -> Vec<Real> {
        reals(&(self.jac_fy)(x.0, &floats(y), &floats(p)))
    }

    fn jac_fp(&self, x: Real, y: &Vec<Real>, p: &Vec<Real>) -> Vec<Real> {
        reals(&(self.jac_fp)(x.0, &floats(y), &floats(p)))
    }

    fn bc(&self, ya: &Vec<Real>, yb: &Vec<Real>, p: &Vec<Real>) -> Vec<Real> {
        reals(&(self.bc)(&floats(ya), &floats(yb), &floats(p)))
    }

    fn jac_bc_ya(&self, ya: &Vec<Real>, yb: &Vec<Real>, p: &Vec<Real>) -> Vec<Real> {
        reals(&(self.jac_bc_ya)(&floats(ya), &floats(yb), &floats(p)))
    }

    fn jac_bc_yb(&self, ya: &Vec<Real>, yb: &Vec<Real>, p: &Vec<Real>) -> Vec<Real> {
        reals(&(self.jac_bc_yb)(&floats(ya), &floats(yb), &floats(p)))
    }

    fn jac_bc_p(&self, ya: &Vec<Real>, yb: &Vec<Real>, p: &Vec<Real>) -> Vec<Real> {
        reals(&(self.jac_bc_p)(&floats(ya), &floats(yb), &floats(p)))
    }

    fn icond(&self, y_ports: &Vec<Real>, p: &Vec<Real>) -> Vec<Real> {
        reals(&(self.icond)(&floats(y_ports), &floats(p)))
    }

    fn jac_ic_y(&self, y_ports: &Vec<Real>, p: &Vec<Real>) -> Vec<Real> {
        reals(&(self.jac_ic_y)(&floats(y_ports), &floats(p)))
    }

    fn jac_ic_p(&self, y_ports: &Vec<Real>, p: &Vec<Real>) -> Vec<Real> {
        reals(&(self.jac_ic_p)(&floats(y_ports), &floats(p)))
    }
}

fn run_bvp(
    counts: (usize, usize, usize, usize),
    ports: &[f64],
    equations: Problem,
    x0: &[f64],
    y0: &[f64],
    p0: &[f64],
) -> BvpSolution<Real> {
    let fns = BvpFns {
        n_eq: counts.0,
        n_params: counts.1,
        n_bc: counts.2,
        x_ports: reals(ports),
        n_ic: counts.3,
        equations,
    };
    let mut ws = BvpWorkspace::<Real, Faer>::new();
    solve_bvp(&fns, &mut ws, &reals(x0), &reals(y0), &reals(p0), Real(1e-6), 2000, 20)
}

#[test]
fn boundary_layer() {
    let eps = 1e-2;
    let problem = Problem {
        fun: Box::new(move |_x, y, _p| vec![y[1], y[1] / eps]),
        jac_fy: Box::new(move |_x, _y, _p| vec![0.0, 1.0, 0.0, 1.0 / eps]),
        jac_fp: Box::new(|_x, _y, _p| vec![]),
        bc: Box::new(|ya, yb, _p| vec![ya[0], yb[0] - 1.0]),
        jac_bc_ya: Box::new(|_a, _b, _p| vec![1.0, 0.0, 0.0, 0.0]),
        jac_bc_yb: Box::new(|_a, _b, _p| vec![0.0, 0.0, 1.0, 0.0]),
        jac_bc_p: Box::new(|_a, _b, _p| vec![]),
        icond: Box::new(|_y, _p| vec![]),
        jac_ic_y: Box::new(|_y, _p| vec![]),
        jac_ic_p: Box::new(|_y, _p| vec![]),
        calls: RefCell::new(0),
    };
    let m = 10;
    let x0: Vec<f64> = (0..=m).map(|i| i as f64 / m as f64).collect();
    let mut y0 = vec![0.0; (m + 1) * 2];
    for i in 0..=m {
        y0[i * 2] = x0[i];
        y0[i * 2 + 1] = 1.0;
    }
    let s = run_bvp((2, 0, 2, 0), &[], problem, &x0, &y0, &[]);
    assert!(s.converged);
    let exact = |xx: f64| (f64::exp(xx / eps) - 1.0) / (f64::exp(1.0 / eps) - 1.0);
    let err = (0..s.x.len()).map(|i| (s.y[i * 2].0 - exact(s.x[i].0)).abs()).fold(0.0, f64::max);
    assert!(err < 1e-4, "err {err}");
    // Refinement keeps the nodes of the first mesh.
    for x in x0 {
        assert!(s.x.contains(&Real(x)));
    }
}

#[test]
fn eigenvalue_free_param() {
    let problem = Problem {
        fun: Box::new(|_x, y, p| vec![y[1], -p[0] * y[0]]),
        jac_fy: Box::new(|_x, _y, p| vec![0.0, 1.0, -p[0], 0.0]),
        jac_fp: Box::new(|_x, y, _p| vec![0.0, -y[0]]),
        bc: Box::new(|ya, yb, _p| vec![ya[0], yb[0], ya[1] - 1.0]),
        jac_bc_ya: Box::new(|_a, _b, _p| vec![1.0, 0.0, 0.0, 0.0, 0.0, 1.0]),
        jac_bc_yb: Box::new(|_a, _b, _p| vec![0.0, 0.0, 1.0, 0.0, 0.0, 0.0]),
        jac_bc_p: Box::new(|_a, _b, _p| vec![0.0, 0.0, 0.0]),
        icond: Box::new(|_y, _p| vec![]),
        jac_ic_y: Box::new(|_y, _p| vec![]),
        jac_ic_p: Box::new(|_y, _p| vec![]),
        calls: RefCell::new(0),
    };
    let m = 40;
    let pi = std::f64::consts::PI;
    let x0: Vec<f64> = (0..=m).map(|i| i as f64 / m as f64).collect();
    let mut y0 = vec![0.0; (m + 1) * 2];
    for i in 0..=m {
        let xv = x0[i];
        y0[i * 2] = (pi * xv).sin() / pi;
        y0[i * 2 + 1] = (pi * xv).cos();
    }
    let s = run_bvp((2, 1, 3, 0), &[], problem, &x0, &y0, &[8.0]);
    assert!(s.converged, "not converged");
    assert!((s.p[0].0 - pi.powi(2)).abs() < 1e-3, "eigenvalue {}", s.p[0].0);
}

#[test]
fn interior_condition() {
    let problem = Problem {
        fun: Box::new(|_x, y, _p| vec![y[1], -1.0]),
        jac_fy: Box::new(|_x, _y, _p| vec![0.0, 1.0, 0.0, 0.0]),
        jac_fp: Box::new(|_x, _y, _p| vec![]),
        bc: Box::new(|ya, _yb, _p| vec![ya[0]]),
        jac_bc_ya: Box::new(|_a, _b, _p| vec![1.0, 0.0]),
        jac_bc_yb: Box::new(|_a, _b, _p| vec![0.0, 0.0]),
        jac_bc_p: Box::new(|_a, _b, _p| vec![]),
        icond: Box::new(|yp, _p| vec![yp[0] - 0.1]),
        jac_ic_y: Box::new(|_yp, _p| vec![1.0, 0.0]),
        jac_ic_p: Box::new(|_yp, _p| vec![]),
        calls: RefCell::new(0),
    };
    let m = 40;
    let x0: Vec<f64> = (0..=m).map(|i| i as f64 / m as f64).collect();
    let y0 = vec![0.0; (m + 1) * 2];
    let s = run_bvp((2, 0, 1, 1), &[0.5], problem, &x0, &y0, &[]);
    assert!(s.converged, "not converged");
    let exact = |xx: f64| -xx * xx / 2.0 + 0.45 * xx;
    let err = (0..s.x.len()).map(|i| (s.y[i * 2].0 - exact(s.x[i].0)).abs()).fold(0.0, f64::max);
    assert!(err < 1e-4, "err {err}");
}

/// `y' = p` with `y(0) = 0` and `y(0.25) = 1`.
fn slope_through_a_port() -> Problem {
    Problem {
        fun: Box::new(|_x, _y, p| vec![p[0]]),
        jac_fy: Box::new(|_x, _y, _p| vec![0.0]),
        jac_fp: Box::new(|_x, _y, _p| vec![1.0]),
        bc: Box::new(|ya, _yb, _p| vec![ya[0]]),
        jac_bc_ya: Box::new(|_a, _b, _p| vec![1.0]),
        jac_bc_yb: Box::new(|_a, _b, _p| vec![0.0]),
        jac_bc_p: Box::new(|_a, _b, _p| vec![0.0]),
        icond: Box::new(|yp, _p| vec![yp[0] - 1.0]),
        jac_ic_y: Box::new(|_y, _p| vec![1.0]),
        jac_ic_p: Box::new(|_y, _p| vec![0.0]),
        calls: RefCell::new(0),
    }
}

#[test]
fn linear_problem_with_a_parameter_takes_one_newton_step() {
    let fns = BvpFns {
        n_eq: 1,
        n_params: 1,
        n_bc: 1,
        x_ports: reals(&[0.25]),
        n_ic: 1,
        equations: slope_through_a_port(),
    };
    let mut lin = LinearSolver::<Real, Faer>::new();
    let mut y = reals(&[0.0, 0.0]);
    let mut p = reals(&[0.0]);
    assert!(newton(&reals(&[0.0, 1.0]), &mut y, &mut p, &fns, &mut lin, Real(1e-8), 2));
    assert!(y[0].0.abs() < 1e-9 && (y[1].0 - 4.0).abs() < 1e-9);
    assert!((p[0].0 - 4.0).abs() < 1e-9);
}

#[test]
fn number_of_nodes_may_be_unlimited() {
    let fns = BvpFns {
        n_eq: 1,
        n_params: 1,
        n_bc: 1,
        x_ports: reals(&[0.25]),
        n_ic: 1,
        equations: slope_through_a_port(),
    };
    let mut ws = BvpWorkspace::<Real, Faer>::new();
    let (x0, y0, p0) = (reals(&[0.0, 1.0]), reals(&[0.0, 0.0]), reals(&[0.0]));
    let s = solve_bvp(&fns, &mut ws, &x0, &y0, &p0, Real(1e-6), usize::MAX, 20);
    assert!(s.converged);
    assert_eq!(s.y.len(), s.x.len());
    assert!((s.p[0].0 - 4.0).abs() < 1e-9);
}

#[test]
fn refinement_splits_where_the_residual_is_large() {
    // Within the tolerance, moderately above it, and far above it.
    let x = reals(&[0.0, 1.0, 2.0, 3.0]);
    let finer = refine(&x, &reals(&[0.5, 50.0, 500.0]), Real(1.0));
    let expected = [0.0, 1.0, 1.5, 2.0, 2.0 + 1.0 / 3.0, 2.0 + 2.0 / 3.0, 3.0];
    assert_eq!(finer.len(), expected.len());
    for i in 0..expected.len() {
        assert!((finer[i].0 - expected[i]).abs() < 1e-12);
    }
}

#[test]
fn hermite_weights_at_a_node() {
    let w = hermite_weights(&reals(&[0.0, 1.0, 2.0]), Real(1.0));
    assert_eq!(w.j, 0);
    assert_eq!(w.h00.0, 0.0);
    assert_eq!(w.h01.0, 1.0);
    let w = hermite_weights(&reals(&[0.0, 1.0, 2.0]), Real(1.5));
    assert_eq!(w.j, 1);
    assert_eq!((w.h00.0, w.h01.0, w.h10.0, w.h11.0), (0.5, 0.5, 0.125, -0.125));
}

#[test]
fn optimizers_by_name() {
    assert!(matches!(choose_optimizer::<Real, Faer>("anderson", None), Optimizer::Anderson(_)));
    assert!(matches!(choose_optimizer::<Real, Faer>("newton", Some(3)), Optimizer::Newton(_)));
    match choose_optimizer::<Real, Faer>("newton_anderson", Some(3)) {
        Optimizer::NewtonAnderson(o) => assert_eq!(o.anderson.m, 3),
        _ => panic!("expected the combined optimizer"),
    }
}
