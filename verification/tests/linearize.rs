use faer::linalg::solvers::{PartialPivLu, SolveCore, Svd};
use faer::sparse::linalg::solvers::{Lu as SparseLu, SymbolicLu};
use faer::sparse::{SparseColMat, Triplet};
use faer::{Conj, Mat};

use fastsim::error::SimError;
use fastsim::linearize::global::{assemble_from_ports, assemble_sensitivity, GlobalModel};
use fastsim::linearize::labels::{block_keys, port_labels, state_labels};
use fastsim::linearize::local::{fit, LinearBlock, LocalModel, ParamColumn};
use fastsim::linearize::solve::{check_well_posed, residual_ok, solve_columns};
use fastsim::model::{ConnModel, PortModel};
use fastsim::optim::linsolve::{Backend, Triplet as Entry};
use fastsim::scalar::{BinOp, CmpOp, ReduceOp, Scalar, UnaryOp};

/// Double-precision numbers.
#[derive(Debug, Clone, Copy, PartialEq)]
struct Real(f64);

impl Scalar for Real {
    fn zero() -> Self {
        Real(0.0)
    }

    fn one() -> Self {
        Real(1.0)
    }

    fn from_bits(bits: u64) -> Self {
        Real(f64::from_bits(bits))
    }

    fn ratio(num: u64, den: u64) -> Self {
        Real(num as f64 / den as f64)
    }

    fn from_count(n: usize) -> Self {
        Real(n as f64)
    }

    fn plus(self, rhs: Self) -> Self {
        Real(self.0 + rhs.0)
    }

    fn minus(self, rhs: Self) -> Self {
        Real(self.0 - rhs.0)
    }

    fn times(self, rhs: Self) -> Self {
        Real(self.0 * rhs.0)
    }

    fn over(self, rhs: Self) -> Self {
        Real(self.0 / rhs.0)
    }

    fn negated(self) -> Self {
        Real(-self.0)
    }

    fn fused(self, b: Self, c: Self) -> Self {
        Real(self.0.mul_add(b.0, c.0))
    }

    fn magnitude(self) -> Self {
        Real(self.0.abs())
    }

    fn root(self) -> Self {
        Real(self.0.sqrt())
    }

    fn larger(self, rhs: Self) -> Self {
        Real(self.0.max(rhs.0))
    }

    fn smaller(self, rhs: Self) -> Self {
        Real(self.0.min(rhs.0))
    }

    fn below(self, rhs: Self) -> bool {
        self.0 < rhs.0
    }

    fn at_most(self, rhs: Self) -> bool {
        self.0 <= rhs.0
    }

    fn same(self, rhs: Self) -> bool {
        self.0 == rhs.0
    }

    fn finite(self) -> bool {
        self.0.is_finite()
    }

    fn binary(op: BinOp, a: Self, b: Self) -> Self {
        Real(match op {
            BinOp::Add => a.0 + b.0,
            BinOp::Sub => a.0 - b.0,
            BinOp::Mul => a.0 * b.0,
            BinOp::Div => a.0 / b.0,
            BinOp::Pow => a.0.powf(b.0),
            BinOp::Mod => a.0 - b.0 * (a.0 / b.0).floor(),
            BinOp::Min => a.0.min(b.0),
            BinOp::Max => a.0.max(b.0),
            BinOp::Atan2 => a.0.atan2(b.0),
            BinOp::Hypot => a.0.hypot(b.0),
        })
    }

    fn unary(op: UnaryOp, a: Self) -> Self {
        Real(match op {
            UnaryOp::Neg => -a.0,
            UnaryOp::Sin => a.0.sin(),
            UnaryOp::Cos => a.0.cos(),
            UnaryOp::Tan => a.0.tan(),
            UnaryOp::Atan => a.0.atan(),
            UnaryOp::Sinh => a.0.sinh(),
            UnaryOp::Cosh => a.0.cosh(),
            UnaryOp::Tanh => a.0.tanh(),
            UnaryOp::Exp => a.0.exp(),
            UnaryOp::Log => a.0.ln(),
            UnaryOp::Log10 => a.0.log10(),
            UnaryOp::Abs => a.0.abs(),
            UnaryOp::Sqrt => a.0.sqrt(),
            UnaryOp::Sign => {
                if a.0 > 0.0 {
                    1.0
                } else if a.0 < 0.0 {
                    -1.0
                } else {
                    0.0
                }
            }
            UnaryOp::Floor => a.0.floor(),
            UnaryOp::Asin => a.0.asin(),
            UnaryOp::Acos => a.0.acos(),
            UnaryOp::Asinh => a.0.asinh(),
            UnaryOp::Acosh => a.0.acosh(),
            UnaryOp::Atanh => a.0.atanh(),
            UnaryOp::Ceil => a.0.ceil(),
            UnaryOp::Round => a.0.round(),
            UnaryOp::Trunc => a.0.trunc(),
            UnaryOp::Log2 => a.0.log2(),
            UnaryOp::Log1p => a.0.ln_1p(),
            UnaryOp::Expm1 => a.0.exp_m1(),
            UnaryOp::Cbrt => a.0.cbrt(),
            _ => unreachable!(),
        })
    }

    fn relation(op: CmpOp, a: Self, b: Self) -> Self {
        let holds = match op {
            CmpOp::Gt => a.0 > b.0,
            CmpOp::Ge => a.0 >= b.0,
            CmpOp::Lt => a.0 < b.0,
            CmpOp::Le => a.0 <= b.0,
            CmpOp::Eq => a.0 == b.0,
            CmpOp::Ne => a.0 != b.0,
        };
        Real(if holds { 1.0 } else { 0.0 })
    }

    fn identity(op: ReduceOp) -> Self {
        Real(match op {
            ReduceOp::Sum => 0.0,
            ReduceOp::Product => 1.0,
            ReduceOp::Min => f64::INFINITY,
            ReduceOp::Max => f64::NEG_INFINITY,
        })
    }

    fn combine(op: ReduceOp, acc: Self, v: Self) -> Self {
        Real(match op {
            ReduceOp::Sum => acc.0 + v.0,
            ReduceOp::Product => acc.0 * v.0,
            ReduceOp::Min => acc.0.min(v.0),
            ReduceOp::Max => acc.0.max(v.0),
        })
    }
}

fn reals(v: &[f64]) -> Vec<Real> {
    v.iter().map(|x| Real(*x)).collect()
}

fn floats(v: &[Real]) -> Vec<f64> {
    v.iter().map(|x| x.0).collect()
}

/// Factorizations of faer.
struct Faer;

impl Backend<Real> for Faer {
    type Dense = PartialPivLu<f64>;

    type Matrix = SparseColMat<usize, f64>;

    type Symbolic = SymbolicLu<usize>;

    type Sparse = SparseLu<usize, f64>;

    type Column = Mat<f64>;

    type Svd = Svd<f64>;

    fn dense_lu(a: &Vec<Real>, n: usize) -> Self::Dense {
        Mat::<f64>::from_fn(n, n, |i, j| a[i * n + j].0).partial_piv_lu()
    }

    fn sparse_matrix(entries: &Vec<Entry<Real>>, n: usize) -> Option<Self::Matrix> {
        let list: Vec<Triplet<usize, usize, f64>> =
            entries.iter().map(|e| Triplet::new(e.row, e.col, e.value.0)).collect();
        SparseColMat::try_new_from_triplets(n, n, &list).ok()
    }

    fn symbolic(m: &Self::Matrix) -> Option<Self::Symbolic> {
        SymbolicLu::try_new(m.symbolic()).ok()
    }

    fn sparse_lu(sym: &Self::Symbolic, m: &Self::Matrix) -> Option<Self::Sparse> {
        SparseLu::try_new_with_symbolic(sym.clone(), m.as_ref()).ok()
    }

    fn dense_solve(lu: &Self::Dense, rhs: &Vec<Real>) -> Self::Column {
        let mut b = Mat::<f64>::from_fn(rhs.len(), 1, |i, _| rhs[i].0);
        lu.solve_in_place_with_conj(Conj::No, b.as_mut());
        b
    }

    fn sparse_solve(lu: &Self::Sparse, rhs: &Vec<Real>) -> Self::Column {
        let mut b = Mat::<f64>::from_fn(rhs.len(), 1, |i, _| rhs[i].0);
        lu.solve_in_place_with_conj(Conj::No, b.as_mut());
        b
    }

    fn component(c: &Self::Column, i: usize) -> Real {
        Real(c[(i, 0)])
    }

    fn thin_svd(m: &Vec<Real>, rows: usize, cols: usize) -> Option<Self::Svd> {
        let a = Mat::<f64>::from_fn(rows, cols, |i, j| m[i * cols + j].0);
        Svd::new_thin(a.as_ref()).ok()
    }

    fn left(svd: &Self::Svd, i: usize, j: usize) -> Real {
        Real(svd.U()[(i, j)])
    }

    fn right(svd: &Self::Svd, i: usize, j: usize) -> Real {
        Real(svd.V()[(i, j)])
    }

    fn singular(svd: &Self::Svd, i: usize) -> Real {
        Real(svd.S().column_vector()[i])
    }
}

fn plain(key: u64, kind: &str, nx: usize, nu: usize, ny: usize) -> LinearBlock<Real> {
    LinearBlock {
        key,
        kind_name: kind.to_string(),
        linearizable: true,
        nx,
        nu,
        ny,
        f_x: None,
        f_u: None,
        g_x: None,
        g_u: None,
        f_params: vec![],
        g_params: vec![],
    }
}

/// `y = gain * u`, at the input `u`.
fn amplifier(key: u64, gain: f64, u: f64) -> LinearBlock<Real> {
    let mut b = plain(key, "Amplifier", 0, 1, 1);
    b.g_u = Some((reals(&[gain]), 1, 1));
    b.g_params = vec![ParamColumn { name: "gain".to_string(), values: reals(&[u]) }];
    b
}

/// `dx/dt = u`, `y = x`.
fn integrator(key: u64) -> LinearBlock<Real> {
    let mut b = plain(key, "Integrator", 1, 1, 1);
    b.f_x = Some((reals(&[0.0]), 1, 1));
    b.f_u = Some((reals(&[1.0]), 1, 1));
    b.g_x = Some((reals(&[1.0]), 1, 1));
    b.g_u = Some((reals(&[0.0]), 1, 1));
    b
}

fn constant(key: u64) -> LinearBlock<Real> {
    plain(key, "Constant", 0, 0, 1)
}

fn adder(key: u64, signs: &[f64]) -> LinearBlock<Real> {
    let mut b = plain(key, "Adder", 0, signs.len(), 1);
    b.g_u = Some((reals(signs), 1, signs.len()));
    b
}

fn wire(source: u64, target: u64, port: usize) -> ConnModel {
    ConnModel {
        source: PortModel { block: source, indices: vec![0] },
        targets: vec![PortModel { block: target, indices: vec![port] }],
    }
}

fn close(got: &[Real], want: &[f64], what: &str) {
    assert_eq!(got.len(), want.len(), "{what}: {got:?} vs {want:?}");
    for (g, w) in got.iter().zip(want) {
        assert!((g.0 - w).abs() < 1e-9, "{what}: {got:?} != {want:?}");
    }
}

fn assemble(
    blocks: Vec<LinearBlock<Real>>,
    conns: Vec<ConnModel>,
    in_cols: Vec<Vec<(usize, usize)>>,
    out_rows: Vec<Option<(usize, usize)>>,
) -> Result<GlobalModel<Real>, SimError<Real>> {
    assemble_from_ports::<Real, Faer>(&blocks, &conns, &in_cols, &out_rows)
}

#[test]
fn algebraic_block_is_feedthrough_only() {
    let m = amplifier(1, 3.0, 1.0).to_statespace().unwrap();
    assert_eq!((m.nx, m.nu, m.ny), (0, 1, 1));
    assert!(m.a.is_empty() && m.b.is_empty() && m.c.is_empty());
    assert!((m.d[0].0 - 3.0).abs() < 1e-12, "D = {:?}", m.d);
}

#[test]
fn integrator_model_is_exact() {
    let m = integrator(1).to_statespace().unwrap();
    assert_eq!((m.nx, m.nu, m.ny), (1, 1, 1));
    assert!((m.a[0].0 - 0.0).abs() < 1e-12, "A = {:?}", m.a);
    assert!((m.b[0].0 - 1.0).abs() < 1e-12, "B = {:?}", m.b);
    assert!((m.c[0].0 - 1.0).abs() < 1e-12, "C = {:?}", m.c);
    assert!((m.d[0].0 - 0.0).abs() < 1e-12, "D = {:?}", m.d);
}

#[test]
fn source_has_zero_model() {
    let m = constant(1).to_statespace().unwrap();
    assert!(m.d.iter().all(|v| v.0 == 0.0), "D = {:?}", m.d);
}

#[test]
fn switching_block_refuses() {
    let mut blk = plain(1, "Comparator", 0, 1, 1);
    blk.linearizable = false;
    match blk.to_statespace() {
        Err(SimError::NotLinearizable(name)) => assert_eq!(name, "Comparator"),
        other => panic!("expected NotLinearizable, got {other:?}"),
    }
}

#[test]
fn param_sensitivity_matches_analytic() {
    let blk = amplifier(1, 3.0, 4.0);
    let names: Vec<String> = blk.g_params.iter().map(|c| c.name.clone()).collect();
    assert_eq!(names, vec!["gain".to_string()]);

    let (dfdp, dgdp) = blk.param_sensitivity(&"gain".to_string());
    assert!(dfdp.is_empty(), "stateless block has no dynamics: {dfdp:?}");
    assert_eq!(dgdp.len(), 1);
    assert!((dgdp[0].0 - 4.0).abs() < 1e-12, "dy/dgain should be u = 4, got {}", dgdp[0].0);
}

#[test]
fn unknown_param_is_zero() {
    let blk = amplifier(1, 3.0, 4.0);
    let (_, dgdp) = blk.param_sensitivity(&"nope".to_string());
    assert!(dgdp.iter().all(|v| v.0 == 0.0), "got {dgdp:?}");
}

#[test]
fn discrete_block_refuses() {
    let mut blk = plain(1, "SampleHold", 0, 1, 1);
    blk.linearizable = false;
    assert!(!blk.linearizable);
    assert!(matches!(blk.to_statespace(), Err(SimError::NotLinearizable(_))));
}

#[test]
fn cascade_matches_analytic_model() {
    let m = assemble(
        vec![
            constant(10),
            amplifier(11, 3.0, 0.0),
            integrator(12),
            amplifier(13, 2.0, 0.0),
            integrator(14),
        ],
        vec![wire(10, 11, 0), wire(11, 12, 0), wire(12, 13, 0), wire(13, 14, 0)],
        vec![vec![(1, 0)]],
        vec![Some((4, 0))],
    )
    .unwrap();

    assert_eq!((m.nx, m.nu, m.ny), (2, 1, 1));
    close(&m.a, &[0.0, 0.0, 2.0, 0.0], "A");
    close(&m.b, &[3.0, 0.0], "B");
    close(&m.c, &[0.0, 1.0], "C");
    close(&m.d, &[0.0], "D");
}

#[test]
fn negative_feedback_gives_minus_k() {
    let k = 5.0;
    let m = assemble(
        vec![constant(1), adder(2, &[1.0, -1.0]), integrator(3), amplifier(4, k, 0.0)],
        vec![wire(1, 2, 0), wire(3, 4, 0), wire(4, 2, 1), wire(2, 3, 0)],
        vec![vec![(1, 0)]],
        vec![Some((2, 0))],
    )
    .unwrap();

    assert_eq!((m.nx, m.nu, m.ny), (1, 1, 1));
    close(&m.a, &[-k], "A");
    close(&m.b, &[1.0], "B");
    close(&m.c, &[1.0], "C");
    close(&m.d, &[0.0], "D");
}

#[test]
fn repeated_linearization_gives_the_same_model() {
    let model = || {
        assemble(
            vec![constant(1), adder(2, &[1.0, -1.0]), integrator(3), amplifier(4, 5.0, 0.0)],
            vec![wire(1, 2, 0), wire(3, 4, 0), wire(4, 2, 1), wire(2, 3, 0)],
            vec![vec![(1, 0)], vec![(3, 0)]],
            vec![Some((2, 0)), None],
        )
        .unwrap()
    };
    let (g, h) = (model(), model());
    assert_eq!((g.nx, g.nu, g.ny), (1, 2, 2));
    assert_eq!((g.a.len(), g.b.len(), g.c.len(), g.d.len()), (1, 2, 2, 4));
    assert_eq!(format!("{g:?}"), format!("{h:?}"));
}

#[test]
fn algebraic_loop_is_resolved() {
    let m = assemble(
        vec![
            constant(1),
            adder(2, &[1.0, 1.0]),
            amplifier(3, 0.5, 0.0),
            amplifier(4, 0.5, 0.0),
        ],
        vec![wire(1, 2, 0), wire(2, 3, 0), wire(3, 4, 0), wire(4, 2, 1)],
        vec![vec![(1, 0)]],
        vec![Some((2, 0))],
    )
    .unwrap();
    close(&m.d, &[0.5 / (1.0 - 0.25)], "D");
}

#[test]
fn ill_posed_loop_is_rejected() {
    let r = assemble(
        vec![amplifier(1, 1.0, 0.0), amplifier(2, 1.0, 0.0)],
        vec![wire(1, 2, 0), wire(2, 1, 0)],
        vec![],
        vec![Some((0, 0))],
    );
    match r {
        Err(SimError::LinearizationIllPosed) => {}
        Err(other) => panic!("expected LinearizationIllPosed, got {other:?}"),
        Ok(_) => panic!("expected LinearizationIllPosed"),
    }
}

/// `dx/dt = k * c - x`, settled: the input of the gain is `c`.
fn settled_loop(c: f64, k: f64) -> (Vec<LinearBlock<Real>>, Vec<ConnModel>) {
    (
        vec![
            constant(1),
            amplifier(2, k, c),
            adder(3, &[1.0, -1.0]),
            integrator(4),
            amplifier(5, 1.0, k * c),
        ],
        vec![wire(1, 2, 0), wire(2, 3, 0), wire(4, 5, 0), wire(5, 3, 1), wire(3, 4, 0)],
    )
}

#[test]
fn steadystate_sensitivity_matches_analytic() {
    let (c_val, k) = (2.0, 3.0);
    let (blocks, conns) = settled_loop(c_val, k);
    let dydp = assemble_sensitivity::<Real, Faer>(
        &blocks,
        &conns,
        &vec![(1, "gain".to_string())],
        &vec![Some((3, 0))],
        Real(0.0),
    )
    .unwrap();
    assert_eq!(dydp.len(), 1);
    assert!(
        (dydp[0].0 - c_val).abs() < 1e-9,
        "dy/dgain should be the source value {c_val}, got {}",
        dydp[0].0
    );
}

#[test]
fn sensitivity_of_unrelated_parameter_is_zero() {
    let (blocks, conns) = settled_loop(2.0, 3.0);
    let dydp = assemble_sensitivity::<Real, Faer>(
        &blocks,
        &conns,
        &vec![(1, "not_a_parameter".to_string())],
        &vec![Some((3, 0))],
        Real(0.0),
    )
    .unwrap();
    assert!(dydp.iter().all(|v| v.0.abs() < 1e-12), "got {dydp:?}");
}

#[test]
fn labels_are_consistent_across_categories() {
    let m = assemble(
        vec![
            constant(10),
            amplifier(11, 3.0, 0.0),
            integrator(12),
            amplifier(13, 2.0, 0.0),
            integrator(14),
        ],
        vec![wire(10, 11, 0), wire(11, 12, 0), wire(12, 13, 0), wire(13, 14, 0)],
        vec![vec![(3, 0)]],
        vec![Some((4, 0))],
    )
    .unwrap();
    assert_eq!(m.state_labels, vec!["Integrator_0", "Integrator_1"]);
    assert_eq!(m.output_labels, vec!["Integrator_1"]);
    assert_eq!(m.input_labels, vec!["Amplifier_1"]);
}

/// A pure integrator has no isolated operating point.
#[test]
fn sensitivity_without_operating_point_is_refused() {
    let r = assemble_sensitivity::<Real, Faer>(
        &vec![amplifier(1, 2.0, 1.0), integrator(2)],
        &vec![wire(1, 2, 0)],
        &vec![(0, "gain".to_string())],
        &vec![Some((1, 0))],
        Real(1.5),
    );
    match r {
        Err(SimError::SingularJacobian { time }) => assert_eq!(time.0, 1.5),
        _ => panic!("expected SingularJacobian"),
    }
}

#[test]
fn assembly_names_the_first_block_without_a_model() {
    let mut relay = plain(2, "Relay", 0, 1, 1);
    relay.linearizable = false;
    let r = assemble(vec![constant(1), relay], vec![wire(1, 2, 0)], vec![], vec![None]);
    match r {
        Err(SimError::NotLinearizable(name)) => assert_eq!(name, "Relay"),
        _ => panic!("expected NotLinearizable"),
    }
}

#[test]
fn keys_and_labels() {
    let kinds: Vec<String> = ["A", "B", "A"].iter().map(|s| s.to_string()).collect();
    let keys = block_keys(&kinds);
    assert_eq!(keys, vec!["A_0", "B_0", "A_1"]);
    assert_eq!(state_labels(&vec![(0, 1), (2, 2)], &keys), vec!["A_0", "A_1[0]", "A_1[1]"]);
    assert_eq!(port_labels(&vec![Some(1), None], &keys), vec!["B_0", "-"]);
}

#[test]
fn fitting_cuts_and_pads() {
    // A Jacobian with more rows than asked for, and fewer columns.
    let jac = Some((reals(&[1.0, 2.0, 3.0, 4.0, 5.0, 6.0]), 3, 2));
    assert_eq!(floats(&fit(&jac, 2, 3)), vec![1.0, 2.0, 0.0, 3.0, 4.0, 0.0]);
    assert_eq!(floats(&fit(&None::<(Vec<Real>, usize, usize)>, 1, 2)), vec![0.0, 0.0]);
}

#[test]
fn model_entries_are_row_major() {
    let m = reals(&[1.0, 2.0, 3.0, 4.0]);
    assert_eq!(LocalModel::at(&m, 2, 1, 0).0, 3.0);
    let z = LocalModel::<Real>::zeros(1, 2, 3);
    assert_eq!((z.a.len(), z.b.len(), z.c.len(), z.d.len()), (1, 2, 3, 6));
}

#[test]
fn singular_systems_are_told_apart() {
    let good = reals(&[2.0, 0.0, 0.0, 4.0]);
    assert!(check_well_posed::<Real, Faer>(&good, 2).is_ok());
    assert!(check_well_posed::<Real, Faer>(&reals(&[1.0, 1.0, 1.0, 1.0]), 2).is_err());
    let z = solve_columns::<Real, Faer>(&good, &reals(&[2.0, 4.0, 4.0, 8.0]), 2, 2).unwrap();
    close(&z, &[1.0, 2.0, 1.0, 2.0], "solution");
    assert!(residual_ok(&good, &reals(&[1.0, 1.0]), &reals(&[2.0, 4.0]), 2));
    assert!(!residual_ok(&good, &reals(&[1.0, 2.0]), &reals(&[2.0, 4.0]), 2));
}
