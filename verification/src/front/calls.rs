//! Compiled functions, and the optimizer that a stand-alone integration uses.

use vstd::prelude::*;

use crate::front::lazy::TraceArg;
use crate::optim::anderson::{Anderson, OPT_HISTORY};
use crate::optim::linsolve::Backend;
use crate::optim::optimizer::{Newton, NewtonAnderson, Optimizer};
use crate::scalar::Scalar;
use crate::text::same_text;

verus! {

/// The arguments of a function of `x` and `t`, for tracing it.
pub fn function_signature(n: usize) -> (r: Vec<TraceArg>)
    ensures
        r@ == seq![TraceArg::Array { name: "x", size: n }, TraceArg::Scalar { name: "t" }],
{
    vec![TraceArg::Array { name: "x", size: n }, TraceArg::Scalar { name: "t" }]
}

/// A function compiled for arguments of one width.
#[derive(Debug)]
pub struct JitFunction<G> {
    pub compiled: Option<G>,
    pub traced_n: usize,
}

impl<G> JitFunction<G> {
    /// Nothing is compiled.
    pub fn new() -> (r: Self)
        ensures
            r.compiled is None,
            r.traced_n == 0,
    {
        JitFunction { compiled: None, traced_n: 0 }
    }

    /// Whether an argument of width `n` has to be compiled for.
    pub fn needs_trace(&self, n: usize) -> (r: bool)
        ensures
            r == !(self.compiled is Some && self.traced_n == n),
    {
        self.compiled.is_none() || self.traced_n != n
    }

    /// Keeps the form compiled for width `n`.
    pub fn install(&mut self, compiled: G, n: usize)
        ensures
            final(self).compiled == Some(compiled),
            final(self).traced_n == n,
    {
        self.compiled = Some(compiled);
        self.traced_n = n;
    }
}

/// A derivative compiled for arguments of one width.
#[derive(Debug)]
pub struct JitJacobian<G> {
    pub compiled: Option<G>,
    pub n_x: usize,
    pub n_out: usize,
}

/// How the values of a derivative are handed out.
#[derive(Debug, Clone, Copy, PartialEq, Eq, Structural)]
pub enum ResultShape {
    Scalar,
    Matrix { rows: usize, cols: usize },
}

impl<G> JitJacobian<G> {
    /// Nothing is compiled.
    pub fn new() -> (r: Self)
        ensures
            r.compiled is None,
            r.n_x == 0,
            r.n_out == 0,
    {
        JitJacobian { compiled: None, n_x: 0, n_out: 0 }
    }

    /// Whether an argument of width `n` has to be compiled for.
    pub fn needs_trace(&self, n: usize) -> (r: bool)
        ensures
            r == !(self.compiled is Some && self.n_x == n),
    {
        self.compiled.is_none() || self.n_x != n
    }

    /// Keeps the form compiled for width `n`, of a function with `outputs` values.
    pub fn install(&mut self, compiled: G, n: usize, outputs: usize)
        ensures
            final(self).compiled == Some(compiled),
            final(self).n_x == n,
            final(self).n_out == outputs,
    {
        self.compiled = Some(compiled);
        self.n_x = n;
        self.n_out = outputs;
    }

    /// One value if there is one argument and one result, else a matrix with a row
    /// per result.
    pub fn result_shape(&self) -> (r: ResultShape)
        ensures
            r == (if self.n_x == 1 && self.n_out == 1 {
                ResultShape::Scalar
            } else {
                ResultShape::Matrix { rows: self.n_out, cols: self.n_x }
            }),
    {
        if self.n_x == 1 && self.n_out == 1 {
            ResultShape::Scalar
        } else {
            ResultShape::Matrix { rows: self.n_out, cols: self.n_x }
        }
    }
}

/// The kind of optimizer that a name stands for: Newton's unless it is one of the
/// others.
pub open spec fn optimizer_named<F: Scalar, B: Backend<F>>(name: Seq<char>, o: Optimizer<F, B>) -> bool {
    if name == "anderson"@ {
        o is Anderson
    } else if name == "newton_anderson"@ {
        o is NewtonAnderson
    } else {
        o is Newton
    }
}

/// The optimizer of the given name, with the given depth of history or the default
/// one.
pub fn choose_optimizer<F: Scalar, B: Backend<F>>(name: &str, history: Option<usize>) -> (r: Optimizer<
    F,
    B,
>)
    ensures
        optimizer_named(name@, r),
        r.history() matches Some(a) ==> a.cleared() && a.well_formed() && a.m == (match history {
            Some(m) => m,
            None => OPT_HISTORY,
        }),
        r.solver().fresh() && r.solver().plain() && r.solver().shifted(),
{
    let mut r: Optimizer<F, B> = if same_text(name, "anderson") {
        Optimizer::Anderson(Anderson::with_defaults())
    } else if same_text(name, "newton_anderson") {
        Optimizer::NewtonAnderson(NewtonAnderson::with_defaults())
    } else {
        Optimizer::Newton(Newton::new())
    };
    if let Some(m) = history {
        r.set_m(m);
    }
    r
}

} // verus!
