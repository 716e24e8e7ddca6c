use fastsim::front::arguments::{
    channels, check_band, check_connection, check_keywords, check_mass, check_paired, check_poles,
    checked_values, flatten, port_slice, read_divider, read_fill, read_matrix, read_unit_kind,
    rescaling, span_of, start_values, state_space_dims, ArgumentError, ExtrapMode, StartOverride,
    ZeroDiv,
};
use fastsim::front::calls::{function_signature, JitFunction, JitJacobian, ResultShape};
use fastsim::front::jacobian::{difference_jacobian, Field};
use fastsim::front::lazy::{
    shape_key, shapes_match, JacobianRoute, LazyTraced, Route, SigArg, TraceArg,
};
use fastsim::front::options::{
    options_from_strs, parse_opt, resolve_numeric, resolve_solver, Choice, Layout, ModelApi,
    Numeric, OptionError, OptionTexts, Reductions, Structure,
};
use fastsim::front::plans::{
    bvp_begin, bvp_shape, constraint_signature, implicit_signature, path_length,
    plan_dynamical_system, plan_wrapper, probe_keep, probe_proceed, semi_explicit_signature,
    state_signature, BvpNext, BvpRefusal, BvpShape, BvpStage, Held, Probe,
};
use fastsim::front::values::{
    initial_value, matrix_value, returned_derivative, returned_values, Given,
};
use fastsim::ir::graph::MemTarget;
use fastsim::scalar::{BinOp, CmpOp, ReduceOp, Scalar, UnaryOp};

/// Double-precision numbers.
#[derive(Debug, Clone, Copy, PartialEq)]
struct Real(f64);

impl Scalar for Real {
    fn zero() -> Self {
        Real(0.0)
    }

    fn one() -> Self {
        Real(1.0)
    }

    fn from_bits(bits: u64) -> Self {
        Real(f64::from_bits(bits))
    }

    fn ratio(num: u64, den: u64) -> Self {
        Real(num as f64 / den as f64)
    }

    fn from_count(n: usize) -> Self {
        Real(n as f64)
    }

    fn plus(self, rhs: Self) -> Self {
        Real(self.0 + rhs.0)
    }

    fn minus(self, rhs: Self) -> Self {
        Real(self.0 - rhs.0)
    }

    fn times(self, rhs: Self) -> Self {
        Real(self.0 * rhs.0)
    }

    fn over(self, rhs: Self) -> Self {
        Real(self.0 / rhs.0)
    }

    fn negated(self) -> Self {
        Real(-self.0)
    }

    fn fused(self, b: Self, c: Self) -> Self {
        Real(self.0.mul_add(b.0, c.0))
    }

    fn magnitude(self) -> Self {
        Real(self.0.abs())
    }

    fn root(self) -> Self {
        Real(self.0.sqrt())
    }

    fn larger(self, rhs: Self) -> Self {
        Real(self.0.max(rhs.0))
    }

    fn smaller(self, rhs: Self) -> Self {
        Real(self.0.min(rhs.0))
    }

    fn below(self, rhs: Self) -> bool {
        self.0 < rhs.0
    }

    fn at_most(self, rhs: Self) -> bool {
        self.0 <= rhs.0
    }

    fn same(self, rhs: Self) -> bool {
        self.0 == rhs.0
    }

    fn finite(self) -> bool {
        self.0.is_finite()
    }

    fn binary(op: BinOp, a: Self, b: Self) -> Self {
        Real(match op {
            BinOp::Add => a.0 + b.0,
            BinOp::Sub => a.0 - b.0,
            BinOp::Mul => a.0 * b.0,
            BinOp::Div => a.0 / b.0,
            BinOp::Pow => a.0.powf(b.0),
            BinOp::Mod => a.0 - b.0 * (a.0 / b.0).floor(),
            BinOp::Min => a.0.min(b.0),
            BinOp::Max => a.0.max(b.0),
            BinOp::Atan2 => a.0.atan2(b.0),
            BinOp::Hypot => a.0.hypot(b.0),
        })
    }

    fn unary(op: UnaryOp, a: Self) -> Self {
        Real(match op {
            UnaryOp::Neg => -a.0,
            UnaryOp::Sin => a.0.sin(),
            UnaryOp::Cos => a.0.cos(),
            UnaryOp::Tan => a.0.tan(),
            UnaryOp::Atan => a.0.atan(),
            UnaryOp::Sinh => a.0.sinh(),
            UnaryOp::Cosh => a.0.cosh(),
            UnaryOp::Tanh => a.0.tanh(),
            UnaryOp::Exp => a.0.exp(),
            UnaryOp::Log => a.0.ln(),
            UnaryOp::Log10 => a.0.log10(),
            UnaryOp::Abs => a.0.abs(),
            UnaryOp::Sqrt => a.0.sqrt(),
            UnaryOp::Sign => {
                if a.0 > 0.0 {
                    1.0
                } else if a.0 < 0.0 {
                    -1.0
                } else {
                    0.0
                }
            }
            UnaryOp::Floor => a.0.floor(),
            UnaryOp::Asin => a.0.asin(),
            UnaryOp::Acos => a.0.acos(),
            UnaryOp::Asinh => a.0.asinh(),
            UnaryOp::Acosh => a.0.acosh(),
            UnaryOp::Atanh => a.0.atanh(),
            UnaryOp::Ceil => a.0.ceil(),
            UnaryOp::Round => a.0.round(),
            UnaryOp::Trunc => a.0.trunc(),
            UnaryOp::Log2 => a.0.log2(),
            UnaryOp::Log1p => a.0.ln_1p(),
            UnaryOp::Expm1 => a.0.exp_m1(),
            UnaryOp::Cbrt => a.0.cbrt(),
            _ => unreachable!(),
        })
    }

    fn relation(op: CmpOp, a: Self, b: Self) -> Self {
        let holds = match op {
            CmpOp::Gt => a.0 > b.0,
            CmpOp::Ge => a.0 >= b.0,
            CmpOp::Lt => a.0 < b.0,
            CmpOp::Le => a.0 <= b.0,
            CmpOp::Eq => a.0 == b.0,
            CmpOp::Ne => a.0 != b.0,
        };
        Real(if holds { 1.0 } else { 0.0 })
    }

    fn identity(op: ReduceOp) -> Self {
        Real(match op {
            ReduceOp::Sum => 0.0,
            ReduceOp::Product => 1.0,
            ReduceOp::Min => f64::INFINITY,
            ReduceOp::Max => f64::NEG_INFINITY,
        })
    }

    fn combine(op: ReduceOp, acc: Self, v: Self) -> Self {
        Real(match op {
            ReduceOp::Sum => acc.0 + v.0,
            ReduceOp::Product => acc.0 * v.0,
            ReduceOp::Min => acc.0.min(v.0),
            ReduceOp::Max => acc.0.max(v.0),
        })
    }
}

fn reals(v: &[f64]) -> Vec<Real> {
    v.iter().map(|x| Real(*x)).collect()
}

fn floats(v: &[Real]) -> Vec<f64> {
    v.iter().map(|x| x.0).collect()
}

#[test]
fn number_formats() {
    assert_eq!(resolve_numeric("double").unwrap(), Numeric::Double);
    assert_eq!(resolve_numeric("float").unwrap(), Numeric::Float);
    assert_eq!(resolve_numeric("fixed").unwrap(), Numeric::Fixed { frac: 16 });
    assert_eq!(resolve_numeric("q4.28").unwrap(), Numeric::Fixed { frac: 28 });
    assert_eq!(resolve_numeric("q31.1").unwrap(), Numeric::Fixed { frac: 1 });
    assert!(matches!(
        resolve_numeric("q4.27"),
        Err(OptionError::BadFormat { whole: 4, frac: 27 })
    ));
    assert!(matches!(
        resolve_numeric("q32.0"),
        Err(OptionError::BadFormat { whole: 32, frac: 0 })
    ));
    for bad in ["", "q", "q4", "q4.", "q.28", "q4.2x", "Q4.28", "half"] {
        match resolve_numeric(bad) {
            Err(OptionError::UnknownNumeric(s)) => assert_eq!(s, bad),
            other => panic!("{bad}: {other:?}"),
        }
    }
}

#[test]
fn solver_names_ignore_case() {
    assert_eq!(resolve_solver("euler").unwrap(), "EUF");
    assert_eq!(resolve_solver("Forward_Euler").unwrap(), "EUF");
    assert_eq!(resolve_solver("rk4").unwrap(), "RK4");
    assert_eq!(resolve_solver("RkDp54").unwrap(), "RKDP54");
    match resolve_solver("bdf2") {
        Err(OptionError::UnknownSolver(s)) => assert_eq!(s, "bdf2"),
        other => panic!("{other:?}"),
    }
}

fn texts() -> OptionTexts<'static> {
    OptionTexts {
        numeric: "float",
        reductions: "vectorized",
        structure: "flat",
        layout: "library",
        solver: "rk4",
        api: "struct",
    }
}

#[test]
fn options_are_read_together() {
    let o = options_from_strs(texts(), true, false, true).unwrap();
    assert!(o.scaffold && !o.trace && o.a2l);
    assert_eq!(o.numeric, Numeric::Float);
    assert_eq!(o.reductions, Reductions::Vectorized);
    assert_eq!(o.structure, Structure::Flat);
    assert_eq!(o.layout, Layout::Library);
    assert_eq!(o.solver, "RK4");
    assert_eq!(o.api, ModelApi::Struct);
    match options_from_strs(OptionTexts { layout: "wide", ..texts() }, false, false, false) {
        Err(OptionError::Unknown { field, value, allowed }) => {
            assert_eq!(field, "layout");
            assert_eq!(value, "wide");
            assert_eq!(allowed, vec!["compact", "library"]);
        }
        other => panic!("{other:?}"),
    }
}

#[test]
fn first_choice_of_a_name_counts() {
    let table = vec![
        Choice { name: "a", value: 1 },
        Choice { name: "b", value: 2 },
        Choice { name: "a", value: 3 },
    ];
    assert_eq!(parse_opt("f", "a", &table).unwrap(), 1);
    assert_eq!(parse_opt("f", "b", &table).unwrap(), 2);
    assert!(matches!(parse_opt("f", "c", &table), Err(OptionError::Unknown { .. })));
}

#[test]
fn compiled_forms_serve_their_shape() {
    let mut lazy: LazyTraced<&str> =
        LazyTraced::new(vec![SigArg::Array("u"), SigArg::Scalar("t")], Some("u"));
    let (two, three) = (vec![2, 1], vec![3, 1]);
    assert_eq!(lazy.route(&two), Route::Retrace);
    assert_eq!(lazy.jacobian_route(0, &two), JacobianRoute::Retrace);
    assert_eq!(
        lazy.trace_args(&two),
        vec![TraceArg::Array { name: "u", size: 2 }, TraceArg::Scalar { name: "t" }]
    );
    lazy.note_trace(&two, Some(("code", vec!["slope"])));
    assert_eq!(lazy.route(&two), Route::Compiled);
    assert_eq!(lazy.jacobian_route(0, &two), JacobianRoute::Compiled);
    assert_eq!(lazy.jacobian_route(1, &two), JacobianRoute::Skip);
    assert_eq!(lazy.route(&three), Route::Retrace);

    lazy.note_trace(&three, None);
    assert_eq!(lazy.route_after(&three), Route::Callback);
    assert_eq!(lazy.route(&three), Route::Callback);
    assert_eq!(lazy.route(&two), Route::Compiled);
    assert!(shapes_match(&vec![1, 2], &vec![1, 2]));
    assert!(!shapes_match(&vec![1, 2], &vec![2, 1]));
    assert_eq!(shape_key(&vec![reals(&[1.0, 2.0]), vec![]]), vec![2, 0]);
}

#[test]
fn several_derivatives_are_told_apart() {
    let mut lazy: LazyTraced<u8> =
        LazyTraced::new_multi_jac(vec![SigArg::Array("y"), SigArg::Array("p")], vec!["y", "p"]);
    assert_eq!(lazy.jacobian_slots, vec!["y", "p"]);
    let shape = vec![1, 1];
    lazy.note_trace(&shape, None);
    assert_eq!(lazy.jacobian_route_after(0, &shape), JacobianRoute::Skip);
    lazy.note_trace(&shape, Some((0, vec![1, 2])));
    assert_eq!(lazy.jacobian_route_after(1, &shape), JacobianRoute::Compiled);
}

#[test]
fn probes_decide_what_follows() {
    assert_eq!(probe_proceed::<u8, u8>(Probe::Graph(1)), Ok(true));
    assert_eq!(probe_proceed::<u8, u8>(Probe::Untraceable), Ok(false));
    assert_eq!(probe_proceed::<u8, u8>(Probe::Shape), Ok(true));
    assert_eq!(probe_proceed::<u8, u8>(Probe::Failed(9)), Err(9));
    assert_eq!(probe_keep::<u8, u8>(Probe::Graph(1)), Ok(Some(Some(1))));
    assert_eq!(probe_keep::<u8, u8>(Probe::Untraceable), Ok(None));
    assert_eq!(probe_keep::<u8, u8>(Probe::Shape), Ok(Some(None)));
    assert_eq!(probe_keep::<u8, u8>(Probe::Failed(9)), Err(9));
}

#[test]
fn probe_signatures() {
    let x = |size| TraceArg::Array { name: "x", size };
    let u = TraceArg::Array { name: "u", size: 1 };
    let t = TraceArg::Scalar { name: "t" };
    assert_eq!(state_signature(3), vec![x(3), u, t]);
    assert_eq!(
        implicit_signature(2),
        vec![x(2), TraceArg::Array { name: "xdot", size: 2 }, u, t]
    );
    assert_eq!(
        semi_explicit_signature(2, 1),
        vec![x(2), TraceArg::Array { name: "z", size: 1 }, u, t]
    );
    assert_eq!(constraint_signature(4), vec![x(4), u]);
    assert_eq!(function_signature(5), vec![x(5), t]);
}

#[test]
fn dynamical_system_plan() {
    assert!(plan_dynamical_system(0, true, true, true).is_none());
    assert!(plan_dynamical_system(2, false, false, true).is_none());
    let p = plan_dynamical_system(2, true, false, true).unwrap();
    assert_eq!(p.states, 2);
    assert!(p.seed_dyn && !p.seed_alg && p.feedthrough && !p.operations);
    assert!(plan_dynamical_system(2, true, true, false).unwrap().operations);
    assert_eq!(path_length(true, true), 1);
    assert_eq!(path_length(false, true), 0);
    assert_eq!(path_length(true, false), 0);
}

#[test]
fn wrapped_functions_hold_their_outputs() {
    let plan = plan_wrapper(2, Real(0.5), Real(0.1));
    assert_eq!(plan.memory_name, "held");
    assert_eq!(floats(&plan.memory_init), vec![0.0, 0.0]);
    assert_eq!(
        plan.targets,
        vec![MemTarget { slot: 0, offset: 0 }, MemTarget { slot: 0, offset: 1 }]
    );
    assert_eq!((plan.period.0, plan.phase.0), (0.5, 0.1));

    let mut held: Held<Real> = Held::new();
    assert!(held.update(&reals(&[1.0])).is_empty());
    held.fire(reals(&[4.0, 5.0]));
    assert_eq!(floats(&held.update(&reals(&[2.0]))), vec![4.0, 5.0]);
    assert_eq!(floats(&held.input), vec![2.0]);
    held.reset();
    assert_eq!(floats(&held.output), vec![0.0, 0.0]);
}

#[test]
fn boundary_value_plan() {
    assert!(bvp_shape(0, 0, 5, 0).is_none());
    assert!(bvp_shape(2, 0, 1, 0).is_none());
    let s = bvp_shape(2, 1, 5, 2).unwrap();
    let f = s.fun();
    assert_eq!(f.probe[0], TraceArg::Scalar { name: "x" });
    assert_eq!(f.probe[2], TraceArg::Array { name: "p", size: 1 });
    assert_eq!(f.targets, vec!["y", "p"]);
    assert_eq!(s.bc().targets, vec!["ya", "yb", "p"]);
    assert_eq!(s.counts::<u8>(Probe::Graph(2)), Ok(Some((2, 1))));
    assert_eq!(s.counts::<u8>(Probe::Graph(7)), Ok(Some((7, 0))));
    assert_eq!(s.counts::<u8>(Probe::Untraceable), Ok(None));
    assert_eq!(s.counts::<u8>(Probe::Failed(3)), Err(3));
    assert!(matches!(s.icond::<u8>(false), Err(BvpRefusal::MissingCondition)));
    let c = s.icond::<u8>(true).unwrap().unwrap();
    assert_eq!(c.probe[0], TraceArg::Array { name: "y_ports", size: 4 });
    let plain = bvp_shape(2, 0, 5, 0).unwrap();
    assert_eq!(plain.fun().targets, vec!["y"]);
    assert!(plain.icond::<u8>(false).unwrap().is_none());
}

/// What the making of a boundary-value block probes, and what comes of it, if the probes
/// have the given outcomes.
fn probed(
    shape: Option<BvpShape>,
    given: bool,
    answer: fn(BvpStage) -> Probe<usize, u8>,
) -> (Vec<BvpStage>, BvpNext<u8>) {
    let mut stages = Vec::new();
    let mut next = bvp_begin(shape);
    while let BvpNext::Probe(stage) = next {
        stages.push(stage);
        next = shape.unwrap().step(stage, given, answer(stage));
    }
    (stages, next)
}

#[test]
fn boundary_value_callbacks_are_probed_in_order() {
    let all = vec![BvpStage::Fun, BvpStage::Bc, BvpStage::Icond { n_bc: 2 }];
    let whole = bvp_shape(2, 1, 5, 1);
    let (stages, end) = probed(None, true, |_| Probe::Graph(2));
    assert!(stages.is_empty());
    assert!(matches!(end, BvpNext::Fallback));
    let (stages, end) = probed(whole, true, |_| Probe::Graph(2));
    assert_eq!(stages, all);
    assert!(matches!(end, BvpNext::Make { n_bc: 2, n_ic: 1 }));
    let (stages, end) = probed(whole, false, |_| Probe::Graph(2));
    assert_eq!(stages, all[..2]);
    assert!(matches!(end, BvpNext::Refuse(BvpRefusal::MissingCondition)));
    let (stages, end) = probed(bvp_shape(2, 1, 5, 0), false, |_| Probe::Graph(3));
    assert_eq!(stages, all[..2]);
    assert!(matches!(end, BvpNext::Make { n_bc: 3, n_ic: 0 }));
    let (stages, end) = probed(whole, true, |s| match s {
        BvpStage::Fun => Probe::Shape,
        _ => Probe::Graph(2),
    });
    assert_eq!(stages, all);
    assert!(matches!(end, BvpNext::Make { n_bc: 2, n_ic: 1 }));
    let (stages, end) = probed(whole, true, |s| match s {
        BvpStage::Bc => Probe::Shape,
        _ => Probe::Graph(2),
    });
    assert_eq!(stages, all[..2]);
    assert!(matches!(end, BvpNext::Fallback));
    let (stages, end) = probed(whole, true, |_| Probe::Failed(9));
    assert_eq!(stages, all[..1]);
    assert!(matches!(end, BvpNext::Refuse(BvpRefusal::Failed(9))));
    let (stages, end) = probed(whole, true, |s| match s {
        BvpStage::Icond { .. } => Probe::Untraceable,
        _ => Probe::Graph(2),
    });
    assert_eq!(stages, all);
    assert!(matches!(end, BvpNext::Fallback));
}

#[test]
fn slices_of_ports() {
    assert_eq!(port_slice(None, Some(3), None), Ok(vec![0, 1, 2]));
    assert_eq!(port_slice(Some(1), Some(6), Some(2)), Ok(vec![1, 3, 5]));
    assert_eq!(port_slice(Some(1), Some(3), Some(0)), Ok(vec![1, 2]));
    assert_eq!(port_slice(Some(4), Some(3), None), Ok(vec![]));
    assert_eq!(port_slice(Some(1), None, None), Err(ArgumentError::OpenSlice));
    assert_eq!(port_slice(None, Some(0), None), Err(ArgumentError::EmptySlice));
}

#[test]
fn counts_are_checked() {
    assert_eq!(check_connection(2), Ok(()));
    assert_eq!(check_connection(1), Err(ArgumentError::TooFewPorts));
    assert_eq!(state_space_dims(4, 2, 6), (2, 1, 3));
    assert_eq!(state_space_dims(5, 2, 3), (1, 2, 3));
    assert_eq!(check_mass(2, 4), Ok(4));
    assert_eq!(check_mass(2, 3), Err(ArgumentError::NotSquare { states: 2, given: 3 }));
    assert_eq!(check_mass(0, 0), Err(ArgumentError::Empty));
    assert_eq!(check_paired(2, 2), Ok(()));
    assert_eq!(check_paired(2, 3), Err(ArgumentError::UnequalLengths));
    assert_eq!(check_poles(0, 0), Err(ArgumentError::Empty));
    assert_eq!(check_poles(1, 2), Err(ArgumentError::UnequalLengths));
    assert_eq!(check_poles(2, 2), Ok(()));
    assert_eq!(check_band(2), Ok(()));
    assert_eq!(check_band(3), Err(ArgumentError::WrongCount { expected: 2, given: 3 }));
    assert_eq!(span_of(&vec![3, 1, 2]), Ok((3, 1)));
    assert_eq!(span_of(&vec![3]), Err(ArgumentError::WrongCount { expected: 2, given: 1 }));
}

#[test]
fn choices_are_read() {
    assert_eq!(read_divider("*/*", "warn"), Ok(ZeroDiv::Warn));
    assert_eq!(read_divider("", "clamp"), Ok(ZeroDiv::Clamp));
    assert_eq!(read_divider("/", "raise"), Ok(ZeroDiv::Raise));
    assert_eq!(read_divider("*+", "raise"), Err(ArgumentError::InvalidOperation('+')));
    assert_eq!(
        read_divider("*", "skip"),
        Err(ArgumentError::UnknownChoice("skip".to_string()))
    );
    assert_eq!(read_fill("extrapolate"), Ok(ExtrapMode::Extrapolate));
    assert_eq!(read_fill("clip"), Ok(ExtrapMode::Clamp));
    assert_eq!(read_fill("clamp"), Ok(ExtrapMode::Clamp));
    assert!(read_fill("wrap").is_err());
    assert_eq!(read_unit_kind("both"), Ok((true, true)));
    assert_eq!(read_unit_kind("me"), Ok((true, false)));
    assert_eq!(read_unit_kind("cs"), Ok((false, true)));
    assert!(read_unit_kind("x").is_err());
    assert_eq!(check_keywords(&vec![]), Ok(false));
    assert_eq!(check_keywords(&vec!["tolerance_fpi"]), Ok(true));
    assert_eq!(
        check_keywords(&vec!["tolerance_fpi", "speed"]),
        Err(ArgumentError::UnexpectedKeyword("speed".to_string()))
    );
}

#[test]
fn rescaling_maps_ends_onto_ends() {
    let r = rescaling(Real(0.0), Real(2.0), Real(10.0), Real(4.0));
    assert_eq!(r.slope.0, -3.0);
    assert_eq!(r.offset.0, 10.0);
    assert_eq!((r.low.0, r.high.0), (4.0, 10.0));
}

#[test]
fn tables_are_laid_out() {
    let rows = vec![vec![1, 2, 3], vec![4, 5, 6]];
    assert_eq!(flatten(&rows), vec![1, 2, 3, 4, 5, 6]);
    assert_eq!(read_matrix(&rows), (vec![1, 2, 3, 4, 5, 6], 2, 3));
    assert_eq!(read_matrix::<u8>(&vec![]), (vec![], 0, 0));
    assert_eq!(channels(&rows), vec![vec![1, 4], vec![2, 5], vec![3, 6]]);
    assert_eq!(channels(&vec![vec![1, 2], vec![3]]), vec![vec![1, 3], vec![2]]);
    assert_eq!(start_values(StartOverride::Scalar(7)), vec![7]);
    assert_eq!(start_values(StartOverride::Vector(vec![7, 8])), vec![7, 8]);
}

#[test]
fn values_of_callbacks_are_understood() {
    let list = || Given::List(reals(&[1.0, 2.0]));
    let table = || Given::Table(vec![reals(&[1.0, 2.0]), reals(&[3.0, 4.0])]);
    assert_eq!(floats(&initial_value::<Real>(Given::Absent).unwrap()), vec![0.0]);
    assert_eq!(floats(&initial_value(Given::Number(Real(5.0))).unwrap()), vec![5.0]);
    assert_eq!(floats(&initial_value(list()).unwrap()), vec![1.0, 2.0]);
    assert!(initial_value(table()).is_err());
    assert!(initial_value::<Real>(Given::Other).is_err());
    let default = reals(&[9.0]);
    assert_eq!(floats(&matrix_value(Given::Absent, &default).unwrap()), vec![9.0]);
    assert_eq!(floats(&matrix_value(table(), &default).unwrap()), vec![1.0, 2.0, 3.0, 4.0]);
    assert!(matrix_value(Given::Other, &default).is_err());
    assert_eq!(floats(&returned_values::<Real>(Given::Other)), vec![0.0]);
    assert_eq!(floats(&returned_values(table())), vec![1.0, 2.0, 3.0, 4.0]);
    let (d, wrong) = returned_derivative(list(), 2);
    assert_eq!(floats(&d), vec![1.0, 2.0]);
    assert!(!wrong);
    let (d, wrong) = returned_derivative(list(), 3);
    assert_eq!(floats(&d), vec![0.0, 0.0, 0.0]);
    assert!(wrong);
    assert_eq!(checked_values(reals(&[1.0]), 1), (reals(&[1.0]), false));
    assert_eq!(checked_values(reals(&[1.0]), 2), (reals(&[0.0, 0.0]), true));
}

#[test]
fn compiled_functions_follow_the_width() {
    let mut f: JitFunction<u8> = JitFunction::new();
    assert!(f.needs_trace(0));
    f.install(1, 3);
    assert!(!f.needs_trace(3));
    assert!(f.needs_trace(2));
    let mut j: JitJacobian<u8> = JitJacobian::new();
    assert!(j.needs_trace(1));
    j.install(1, 1, 1);
    assert_eq!(j.result_shape(), ResultShape::Scalar);
    j.install(1, 2, 3);
    assert!(!j.needs_trace(2));
    assert_eq!(j.result_shape(), ResultShape::Matrix { rows: 3, cols: 2 });
}

struct Rotation;

impl Field<Real> for Rotation {
    fn rhs(&self, x: &Vec<Real>, t: Real) -> Vec<Real> {
        vec![Real(-2.0 * x[1].0 + t.0), Real(3.0 * x[0].0)]
    }
}

struct Short;

impl Field<Real> for Short {
    fn rhs(&self, _x: &Vec<Real>, _t: Real) -> Vec<Real> {
        vec![]
    }
}

#[test]
fn differences_give_the_slopes() {
    let x = reals(&[0.5, -4.0]);
    let j = difference_jacobian(&Rotation, &x, Real(1.0), Real(1e-6)).unwrap();
    let expected = [0.0, -2.0, 3.0, 0.0];
    assert_eq!(j.len(), 4);
    for (a, e) in floats(&j).iter().zip(expected) {
        assert!((a - e).abs() < 1e-6, "{a} against {e}");
    }
    assert!(difference_jacobian(&Short, &x, Real(1.0), Real(1e-6)).is_none());
}
