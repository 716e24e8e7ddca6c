//! How traced blocks are built: which callbacks are probed with which arguments,
//! and what follows from the outcome of the probes.

use vstd::prelude::*;

use crate::front::lazy::{SigArg, TraceArg};
use crate::ir::graph::MemTarget;
use crate::scalar::{zeros, Scalar};
use crate::seqs::copied;

verus! {

/// The outcome of a probe of a callback.
#[derive(Debug)]
pub enum Probe<G, E> {
    /// It was traced.
    Graph(G),
    /// It cannot be traced.
    Untraceable,
    /// It failed on the shape of its arguments.
    Shape,
    /// It failed otherwise.
    Failed(E),
}

/// Whether to go on after a probe. A failure on the shape is no obstacle: the
/// callback is traced again with the shape of the call.
pub fn probe_proceed<G, E>(probe: Probe<G, E>) -> (r: Result<bool, E>)
    ensures
        r == (match probe {
            Probe::Graph(_) => Ok(true),
            Probe::Untraceable => Ok(false),
            Probe::Shape => Ok(true),
            Probe::Failed(e) => Err(e),
        }),
{
    match probe {
        Probe::Graph(_) => Ok(true),
        Probe::Untraceable => Ok(false),
        Probe::Shape => Ok(true),
        Probe::Failed(e) => Err(e),
    }
}

/// As [`probe_proceed`], with the graph kept: nothing if the callback cannot be
/// traced, else the graph if there is one.
pub fn probe_keep<G, E>(probe: Probe<G, E>) -> (r: Result<Option<Option<G>>, E>)
    ensures
        r == (match probe {
            Probe::Graph(g) => Ok(Some(Some(g))),
            Probe::Untraceable => Ok(None),
            Probe::Shape => Ok(Some(None)),
            Probe::Failed(e) => Err(e),
        }),
{
    match probe {
        Probe::Graph(g) => Ok(Some(Some(g))),
        Probe::Untraceable => Ok(None),
        Probe::Shape => Ok(Some(None)),
        Probe::Failed(e) => Err(e),
    }
}

/// The arguments of a probe of `f(x, u, t)` with `n` states.
pub fn state_signature(n: usize) -> (r: Vec<TraceArg>)
    ensures
        r@ == seq![
            TraceArg::Array { name: "x", size: n },
            TraceArg::Array { name: "u", size: 1 },
            TraceArg::Scalar { name: "t" },
        ],
{
    vec![
        TraceArg::Array { name: "x", size: n },
        TraceArg::Array { name: "u", size: 1 },
        TraceArg::Scalar { name: "t" },
    ]
}

/// The arguments of a probe of `f(x, xdot, u, t)` with `n` states.
pub fn implicit_signature(n: usize) -> (r: Vec<TraceArg>)
    ensures
        r@ == seq![
            TraceArg::Array { name: "x", size: n },
            TraceArg::Array { name: "xdot", size: n },
            TraceArg::Array { name: "u", size: 1 },
            TraceArg::Scalar { name: "t" },
        ],
{
    vec![
        TraceArg::Array { name: "x", size: n },
        TraceArg::Array { name: "xdot", size: n },
        TraceArg::Array { name: "u", size: 1 },
        TraceArg::Scalar { name: "t" },
    ]
}

/// The arguments of a probe of `f(x, z, u, t)` with `nx` differential and `nz`
/// algebraic states.
pub fn semi_explicit_signature(nx: usize, nz: usize) -> (r: Vec<TraceArg>)
    ensures
        r@ == seq![
            TraceArg::Array { name: "x", size: nx },
            TraceArg::Array { name: "z", size: nz },
            TraceArg::Array { name: "u", size: 1 },
            TraceArg::Scalar { name: "t" },
        ],
{
    vec![
        TraceArg::Array { name: "x", size: nx },
        TraceArg::Array { name: "z", size: nz },
        TraceArg::Array { name: "u", size: 1 },
        TraceArg::Scalar { name: "t" },
    ]
}

/// The arguments of a probe of `f(x, u)` with `n` unknowns.
pub fn constraint_signature(n: usize) -> (r: Vec<TraceArg>)
    ensures
        r@ == seq![
            TraceArg::Array { name: "x", size: n },
            TraceArg::Array { name: "u", size: 1 },
        ],
{
    vec![TraceArg::Array { name: "x", size: n }, TraceArg::Array { name: "u", size: 1 }]
}

/// How a dynamical system is built.
#[derive(Debug, Clone, Copy, PartialEq, Eq, Structural)]
pub struct DynamicalPlan {
    /// Number of states.
    pub states: usize,
    /// Which of the two functions start with a compiled form.
    pub seed_dyn: bool,
    pub seed_alg: bool,
    /// Whether inputs act on outputs directly.
    pub feedthrough: bool,
    /// Whether the block is known by its operations: only if both functions are.
    pub operations: bool,
}

/// The plan for a dynamical system with `n` states whose functions can be traced or
/// not: none if there is no state or nothing can be traced.
pub fn plan_dynamical_system(
    n: usize,
    dyn_traceable: bool,
    alg_traceable: bool,
    has_passthrough: bool,
) -> (r: Option<DynamicalPlan>)
    ensures
        r == (if n == 0 || !(dyn_traceable || alg_traceable) {
            None
        } else {
            Some(
                DynamicalPlan {
                    states: n,
                    seed_dyn: dyn_traceable,
                    seed_alg: alg_traceable,
                    feedthrough: has_passthrough,
                    operations: dyn_traceable && alg_traceable,
                },
            )
        }),
{
    if n == 0 || !(dyn_traceable || alg_traceable) {
        return None;
    }
    Some(
        DynamicalPlan {
            states: n,
            seed_dyn: dyn_traceable,
            seed_alg: alg_traceable,
            feedthrough: has_passthrough,
            operations: dyn_traceable && alg_traceable,
        },
    )
}

/// The length of the direct path through a dynamical system.
pub fn path_length(active: bool, has_passthrough: bool) -> (r: usize)
    ensures
        r == (if active && has_passthrough {
            1usize
        } else {
            0usize
        }),
{
    if active && has_passthrough {
        1
    } else {
        0
    }
}

/// A wrapped function as a discrete block: a memory slot that holds the last
/// outputs, written every period.
#[derive(Debug)]
pub struct HeldPlan<F> {
    pub memory_name: &'static str,
    pub memory_init: Vec<F>,
    pub targets: Vec<MemTarget>,
    pub period: F,
    pub phase: F,
}

/// The plan for a wrapped function with the given number of outputs.
pub fn plan_wrapper<F: Scalar>(outputs: usize, period: F, tau: F) -> (r: HeldPlan<F>)
    requires
        outputs <= u32::MAX,
    ensures
        r.memory_name@ == "held"@,
        r.memory_init@.len() == outputs,
        forall|i: int| 0 <= i < outputs ==> zeros(#[trigger] r.memory_init@[i]),
        r.targets@ == Seq::new(
            outputs as nat,
            |i: int| MemTarget { slot: 0, offset: i as u32 },
        ),
        r.period == period,
        r.phase == tau,
{
    let mut init: Vec<F> = Vec::new();
    let mut targets: Vec<MemTarget> = Vec::new();
    let mut i: usize = 0;
    while i < outputs
        invariant
            i <= outputs <= u32::MAX,
            init@.len() == i,
            forall|k: int| 0 <= k < i ==> zeros(#[trigger] init@[k]),
            targets@ == Seq::new(i as nat, |k: int| MemTarget { slot: 0, offset: k as u32 }),
        decreases outputs - i,
    {
        init.push(F::zero());
        targets.push(MemTarget { slot: 0, offset: i as u32 });
        assert(targets@ =~= Seq::new(
            (i + 1) as nat,
            |k: int| MemTarget { slot: 0, offset: k as u32 },
        ));
        i += 1;
    }
    HeldPlan { memory_name: "held", memory_init: init, targets, period, phase: tau }
}

/// What a wrapped function keeps between its scheduled evaluations.
#[derive(Debug)]
pub struct Held<F> {
    /// Inputs of the last evaluation of the system.
    pub input: Vec<F>,
    /// Outputs of the last scheduled evaluation.
    pub output: Vec<F>,
}

impl<F: Scalar> Held<F> {
    pub fn new() -> (r: Self)
        ensures
            r.input@.len() == 0,
            r.output@.len() == 0,
    {
        Held { input: Vec::new(), output: Vec::new() }
    }

    /// An evaluation of the system: the inputs are kept, and the outputs are those
    /// of the last scheduled evaluation.
    pub fn update(&mut self, inputs: &Vec<F>) -> (r: Vec<F>)
        ensures
            final(self).input@ == inputs@,
            final(self).output == old(self).output,
            r@ == old(self).output@,
    {
        self.input = copied(inputs.as_slice());
        copied(self.output.as_slice())
    }

    /// A scheduled evaluation gave these outputs.
    pub fn fire(&mut self, values: Vec<F>)
        ensures
            final(self).input == old(self).input,
            final(self).output == values,
    {
        self.output = values;
    }

    /// Zeroes the outputs.
    pub fn reset(&mut self)
        ensures
            final(self).input == old(self).input,
            final(self).output@.len() == old(self).output@.len(),
            forall|i: int|
                0 <= i < final(self).output@.len() ==> zeros(#[trigger] final(self).output@[i]),
    {
        let n: usize = self.output.len();
        let mut out: Vec<F> = Vec::new();
        let mut i: usize = 0;
        while i < n
            invariant
                i <= n,
                out@.len() == i,
                forall|k: int| 0 <= k < i ==> zeros(#[trigger] out@[k]),
            decreases n - i,
        {
            out.push(F::zero());
            i += 1;
        }
        self.output = out;
    }
}

/// The shape of a boundary-value block.
#[derive(Debug, Clone, Copy, PartialEq, Eq, Structural)]
pub struct BvpShape {
    pub equations: usize,
    pub params: usize,
    pub ports: usize,
}

/// Why a boundary-value block was refused.
#[derive(Debug)]
pub enum BvpRefusal<E> {
    /// There are ports but no conditions on them.
    MissingCondition,
    Failed(E),
}

/// The width that parameters are probed with: at least one.
pub open spec fn probe_params(k: usize) -> usize {
    if k == 0 {
        1
    } else {
        k
    }
}

/// The shape of a boundary-value block, unless it has no equation or fewer than two
/// mesh nodes.
pub fn bvp_shape(n_eq: usize, n_params: usize, nodes: usize, n_ports: usize) -> (r: Option<
    BvpShape,
>)
    ensures
        r == (if n_eq < 1 || nodes < 2 {
            None
        } else {
            Some(BvpShape { equations: n_eq, params: n_params, ports: n_ports })
        }),
{
    if n_eq < 1 || nodes < 2 {
        None
    } else {
        Some(BvpShape { equations: n_eq, params: n_params, ports: n_ports })
    }
}

/// The callbacks of a boundary-value block, in the order in which they are probed.
#[derive(Debug, Clone, Copy, PartialEq, Eq, Structural)]
pub enum BvpStage {
    /// The right-hand side.
    Fun,
    /// The boundary conditions.
    Bc,
    /// The interior conditions, beside `n_bc` boundary conditions.
    Icond { n_bc: usize },
}

/// What the making of a boundary-value block goes on with.
#[derive(Debug)]
pub enum BvpNext<E> {
    /// The probe of a callback.
    Probe(BvpStage),
    /// The block, with so many boundary and interior conditions.
    Make { n_bc: usize, n_ic: usize },
    /// No block: the callbacks cannot be traced, or there is nothing to solve.
    Fallback,
    Refuse(BvpRefusal<E>),
}

/// What the making of a boundary-value block starts with: without a shape nothing is
/// probed.
pub open spec fn bvp_first<E>(shape: Option<BvpShape>) -> BvpNext<E> {
    match shape {
        None => BvpNext::Fallback,
        Some(_) => BvpNext::Probe(BvpStage::Fun),
    }
}

/// Starts the making of a boundary-value block.
pub fn bvp_begin<E>(shape: Option<BvpShape>) -> (r: BvpNext<E>)
    ensures
        r == bvp_first::<E>(shape),
{
    match shape {
        None => BvpNext::Fallback,
        Some(_) => BvpNext::Probe(BvpStage::Fun),
    }
}

/// The arguments of one callback of a boundary-value block: for the probe, for the
/// call, and those to differentiate by.
#[derive(Debug)]
pub struct BvpCallback {
    pub probe: Vec<TraceArg>,
    pub signature: Vec<SigArg>,
    pub targets: Vec<&'static str>,
}

impl BvpShape {
    /// Number of interior conditions beside `n_bc` boundary conditions.
    pub open spec fn interior_count(&self, n_bc: usize) -> usize {
        if n_bc <= self.equations + self.params {
            (self.equations + self.params - n_bc) as usize
        } else {
            0
        }
    }

    /// The right-hand side.
    pub fn fun(&self) -> (r: BvpCallback)
        ensures
            r.probe@ == seq![
                TraceArg::Scalar { name: "x" },
                TraceArg::Array { name: "y", size: self.equations },
                TraceArg::Array { name: "p", size: probe_params(self.params) },
                TraceArg::Array { name: "inputs", size: 1 },
            ],
            r.signature@ == seq![
                SigArg::Scalar("x"),
                SigArg::Array("y"),
                SigArg::Array("p"),
                SigArg::Array("inputs"),
            ],
            r.targets@ == (if self.params > 0 {
                seq!["y", "p"]
            } else {
                seq!["y"]
            }),
    {
        let k: usize = if self.params == 0 {
            1
        } else {
            self.params
        };
        BvpCallback {
            probe: vec![
                TraceArg::Scalar { name: "x" },
                TraceArg::Array { name: "y", size: self.equations },
                TraceArg::Array { name: "p", size: k },
                TraceArg::Array { name: "inputs", size: 1 },
            ],
            signature: vec![
                SigArg::Scalar("x"),
                SigArg::Array("y"),
                SigArg::Array("p"),
                SigArg::Array("inputs"),
            ],
            targets: if self.params > 0 {
                vec!["y", "p"]
            } else {
                vec!["y"]
            },
        }
    }

    /// The boundary conditions.
    pub fn bc(&self) -> (r: BvpCallback)
        ensures
            r.probe@ == seq![
                TraceArg::Array { name: "ya", size: self.equations },
                TraceArg::Array { name: "yb", size: self.equations },
                TraceArg::Array { name: "p", size: probe_params(self.params) },
                TraceArg::Array { name: "inputs", size: 1 },
            ],
            r.signature@ == seq![
                SigArg::Array("ya"),
                SigArg::Array("yb"),
                SigArg::Array("p"),
                SigArg::Array("inputs"),
            ],
            r.targets@ == (if self.params > 0 {
                seq!["ya", "yb", "p"]
            } else {
                seq!["ya", "yb"]
            }),
    {
        let k: usize = if self.params == 0 {
            1
        } else {
            self.params
        };
        BvpCallback {
            probe: vec![
                TraceArg::Array { name: "ya", size: self.equations },
                TraceArg::Array { name: "yb", size: self.equations },
                TraceArg::Array { name: "p", size: k },
                TraceArg::Array { name: "inputs", size: 1 },
            ],
            signature: vec![
                SigArg::Array("ya"),
                SigArg::Array("yb"),
                SigArg::Array("p"),
                SigArg::Array("inputs"),
            ],
            targets: if self.params > 0 {
                vec!["ya", "yb", "p"]
            } else {
                vec!["ya", "yb"]
            },
        }
    }

    /// What is missing beside `n_bc` boundary conditions to determine the solution.
    pub fn interior(&self, n_bc: usize) -> (r: usize)
        requires
            self.equations + self.params <= usize::MAX,
        ensures
            r == self.interior_count(n_bc),
    {
        let all: usize = self.equations + self.params;
        if n_bc <= all {
            all - n_bc
        } else {
            0
        }
    }

    /// The number of boundary conditions, from the probe of them, and of interior
    /// conditions: what is missing to determine the solution. Nothing if the
    /// boundary conditions cannot be traced.
    pub fn counts<E>(&self, bc: Probe<usize, E>) -> (r: Result<Option<(usize, usize)>, E>)
        requires
            self.equations + self.params <= usize::MAX,
        ensures
            match bc {
                Probe::Graph(n) => r == Ok::<Option<(usize, usize)>, E>(
                    Some((n, self.interior_count(n))),
                ),
                Probe::Untraceable => r == Ok::<Option<(usize, usize)>, E>(None),
                Probe::Shape => r == Ok::<Option<(usize, usize)>, E>(None),
                Probe::Failed(e) => r == Err::<Option<(usize, usize)>, E>(e),
            },
    {
        match bc {
            Probe::Graph(n) => Ok(Some((n, self.interior(n)))),
            Probe::Untraceable => Ok(None),
            Probe::Shape => Ok(None),
            Probe::Failed(e) => Err(e),
        }
    }

    /// The interior conditions: none if there is no port, and a refusal if there
    /// are ports but no callback.
    pub fn icond<E>(&self, given: bool) -> (r: Result<Option<BvpCallback>, BvpRefusal<E>>)
        requires
            self.ports * self.equations <= usize::MAX,
        ensures
            if self.ports == 0 {
                r matches Ok(None)
            } else if !given {
                r matches Err(BvpRefusal::MissingCondition)
            } else {
                r matches Ok(Some(c)) && {
                    &&& c.probe@ == seq![
                        TraceArg::Array {
                            name: "y_ports",
                            size: (self.ports * self.equations) as usize,
                        },
                        TraceArg::Array { name: "p", size: probe_params(self.params) },
                        TraceArg::Array { name: "inputs", size: 1 },
                    ]
                    &&& c.signature@ == seq![
                        SigArg::Array("y_ports"),
                        SigArg::Array("p"),
                        SigArg::Array("inputs"),
                    ]
                    &&& c.targets@ == (if self.params > 0 {
                        seq!["y_ports", "p"]
                    } else {
                        seq!["y_ports"]
                    })
                }
            },
    {
        if self.ports == 0 {
            return Ok(None);
        }
        if !given {
            return Err(BvpRefusal::MissingCondition);
        }
        let k: usize = if self.params == 0 {
            1
        } else {
            self.params
        };
        let size: usize = self.ports * self.equations;
        Ok(
            Some(
                BvpCallback {
                    probe: vec![
                        TraceArg::Array { name: "y_ports", size },
                        TraceArg::Array { name: "p", size: k },
                        TraceArg::Array { name: "inputs", size: 1 },
                    ],
                    signature: vec![
                        SigArg::Array("y_ports"),
                        SigArg::Array("p"),
                        SigArg::Array("inputs"),
                    ],
                    targets: if self.params > 0 {
                        vec!["y_ports", "p"]
                    } else {
                        vec!["y_ports"]
                    },
                },
            ),
        )
    }
}

impl BvpShape {
    /// What follows the probe of one callback, whose outcome is the number of its
    /// values. A shape that does not fit is no obstacle but for the boundary
    /// conditions: without their number there is no block. Where there are ports, the
    /// interior conditions are asked for once that number is known.
    pub open spec fn follows<E>(
        &self,
        stage: BvpStage,
        given: bool,
        outcome: Probe<usize, E>,
    ) -> BvpNext<E> {
        match outcome {
            Probe::Failed(e) => BvpNext::Refuse(BvpRefusal::Failed(e)),
            Probe::Untraceable => BvpNext::Fallback,
            Probe::Graph(_) | Probe::Shape => match stage {
                BvpStage::Fun => BvpNext::Probe(BvpStage::Bc),
                BvpStage::Bc => match outcome {
                    Probe::Graph(n_bc) => if self.ports == 0 {
                        BvpNext::Make { n_bc, n_ic: self.interior_count(n_bc) }
                    } else if !given {
                        BvpNext::Refuse(BvpRefusal::MissingCondition)
                    } else {
                        BvpNext::Probe(BvpStage::Icond { n_bc })
                    },
                    _ => BvpNext::Fallback,
                },
                BvpStage::Icond { n_bc } => BvpNext::Make {
                    n_bc,
                    n_ic: self.interior_count(n_bc),
                },
            },
        }
    }

    /// Goes on after the probe of one callback; `given` says whether there are interior
    /// conditions.
    pub fn step<E>(&self, stage: BvpStage, given: bool, outcome: Probe<usize, E>) -> (r: BvpNext<E>)
        requires
            self.equations + self.params <= usize::MAX,
        ensures
            r == self.follows(stage, given, outcome),
    {
        match stage {
            BvpStage::Fun => match probe_proceed(outcome) {
                Ok(true) => BvpNext::Probe(BvpStage::Bc),
                Ok(false) => BvpNext::Fallback,
                Err(e) => BvpNext::Refuse(BvpRefusal::Failed(e)),
            },
            BvpStage::Bc => match self.counts(outcome) {
                Ok(Some((n_bc, n_ic))) => if self.ports == 0 {
                    BvpNext::Make { n_bc, n_ic }
                } else if !given {
                    BvpNext::Refuse(BvpRefusal::MissingCondition)
                } else {
                    BvpNext::Probe(BvpStage::Icond { n_bc })
                },
                Ok(None) => BvpNext::Fallback,
                Err(e) => BvpNext::Refuse(BvpRefusal::Failed(e)),
            },
            BvpStage::Icond { n_bc } => match probe_proceed(outcome) {
                Ok(true) => BvpNext::Make { n_bc, n_ic: self.interior(n_bc) },
                Ok(false) => BvpNext::Fallback,
                Err(e) => BvpNext::Refuse(BvpRefusal::Failed(e)),
            },
        }
    }

    /// The callbacks that are probed from `next` on, if each probe has the outcome that
    /// `answers` gives, and what comes of it; at most `steps` probes are followed.
    pub open spec fn trail<E>(
        &self,
        given: bool,
        answers: spec_fn(BvpStage) -> Probe<usize, E>,
        next: BvpNext<E>,
        steps: nat,
    ) -> (Seq<BvpStage>, BvpNext<E>)
        decreases steps,
    {
        match next {
            BvpNext::Probe(stage) => if steps == 0 {
                (Seq::empty(), next)
            } else {
                let (rest, end) = self.trail(
                    given,
                    answers,
                    self.follows(stage, given, answers(stage)),
                    (steps - 1) as nat,
                );
                (seq![stage] + rest, end)
            },
            _ => (Seq::empty(), next),
        }
    }
}

/// However the probes come out, a boundary-value block is settled after three of them:
/// the right-hand side comes first, then the boundary conditions, then the interior
/// conditions, and these only where there are ports. Without a shape nothing is probed,
/// and missing interior conditions are noticed before they would be probed. A block is
/// made with as many boundary conditions as their probe has found.
pub proof fn law_bvp_order<E>(
    shape: BvpShape,
    whole: bool,
    given: bool,
    answers: spec_fn(BvpStage) -> Probe<usize, E>,
)
    ensures
        ({
            let first = bvp_first::<E>(if whole {
                Some(shape)
            } else {
                None
            });
            let (probed, end) = shape.trail(given, answers, first, 3);
            let found = answers(BvpStage::Bc)->Graph_0;
            let all = seq![BvpStage::Fun, BvpStage::Bc, BvpStage::Icond { n_bc: found }];
            &&& end !is Probe
            &&& probed.len() <= 3 && probed == all.take(probed.len() as int)
            &&& !whole ==> probed.len() == 0 && end is Fallback
            &&& whole ==> probed.len() > 0
            &&& probed.len() == 3 ==> shape.ports > 0 && given
            &&& end matches BvpNext::Make { n_bc, n_ic } ==> {
                &&& answers(BvpStage::Bc) == Probe::<usize, E>::Graph(n_bc)
                &&& n_ic == shape.interior_count(n_bc)
                &&& probed.len() == (if shape.ports > 0 {
                    3nat
                } else {
                    2nat
                })
            }
            &&& end matches BvpNext::Refuse(BvpRefusal::MissingCondition) ==> probed.len() == 2
                && shape.ports > 0 && !given
        }),
{
    reveal_with_fuel(BvpShape::trail, 4);
    let first = bvp_first::<E>(if whole {
        Some(shape)
    } else {
        None
    });
    let (probed, _) = shape.trail(given, answers, first, 3);
    let found = answers(BvpStage::Bc)->Graph_0;
    let all = seq![BvpStage::Fun, BvpStage::Bc, BvpStage::Icond { n_bc: found }];
    assert(probed =~= all.take(probed.len() as int));
}

/// If there are no more boundary conditions than unknowns, boundary and interior
/// conditions together determine as many values as there are equations and
/// parameters.
pub proof fn law_bvp_is_square(shape: BvpShape, n_bc: usize)
    requires
        n_bc <= shape.equations + shape.params <= usize::MAX,
    ensures
        n_bc + shape.interior_count(n_bc) == shape.equations + shape.params,
{
}

} // verus!
