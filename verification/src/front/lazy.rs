//! Callbacks that are compiled for the shapes they are called with.
//!
//! The widths of a callback's arguments are known only once the diagram is wired.
//! A compiled form is kept for one shape; a call with another shape compiles anew,
//! and a shape that cannot be compiled is served by the callback itself.

use vstd::prelude::*;

use crate::seqs::copied;

verus! {

/// One argument of a callback.
#[derive(Debug, Clone, Copy, PartialEq, Eq)]
pub enum SigArg {
    Array(&'static str),
    Scalar(&'static str),
}

/// One argument of a callback with its width.
#[derive(Debug, Clone, Copy, PartialEq, Eq)]
pub enum TraceArg {
    Array { name: &'static str, size: usize },
    Scalar { name: &'static str },
}

/// A compiled form with the shape it is for, and its derivatives.
#[derive(Debug)]
pub struct CachedEntry<G> {
    pub shape_key: Vec<usize>,
    pub compiled: G,
    pub jacobians: Vec<G>,
}

/// A callback with its compiled form, and the outcome of the last attempt to
/// compile it.
#[derive(Debug)]
pub struct LazyTraced<G> {
    pub signature: Vec<SigArg>,
    /// Arguments to differentiate by.
    pub jacobian_slots: Vec<&'static str>,
    pub cache: Option<CachedEntry<G>>,
    pub last_trace_ok: Option<bool>,
    pub last_shape: Vec<usize>,
}

/// How a call is served.
#[derive(Debug, Clone, Copy, PartialEq, Eq, Structural)]
pub enum Route {
    /// By the compiled form.
    Compiled,
    /// By compiling for this shape first.
    Retrace,
    /// By the callback itself.
    Callback,
}

/// How the evaluation of a derivative is served.
#[derive(Debug, Clone, Copy, PartialEq, Eq, Structural)]
pub enum JacobianRoute {
    Compiled,
    Retrace,
    /// There is no such derivative; the result is left alone.
    Skip,
}

/// Whether a key is that of the given shape.
pub fn shapes_match(key: &Vec<usize>, shape: &Vec<usize>) -> (r: bool)
    ensures
        r == (key@ == shape@),
{
    if key.len() != shape.len() {
        return false;
    }
    let mut i: usize = 0;
    while i < key.len()
        invariant
            i <= key@.len(),
            key@.len() == shape@.len(),
            forall|k: int| 0 <= k < i ==> key@[k] == #[trigger] shape@[k],
        decreases key@.len() - i,
    {
        if key[i] != shape[i] {
            return false;
        }
        i += 1;
    }
    assert(key@ =~= shape@);
    true
}

/// An argument with its width.
pub open spec fn sized(arg: SigArg, size: usize) -> TraceArg {
    match arg {
        SigArg::Array(name) => TraceArg::Array { name, size },
        SigArg::Scalar(name) => TraceArg::Scalar { name },
    }
}

/// The smaller of two lengths.
pub open spec fn shorter(a: nat, b: nat) -> nat {
    if a < b {
        a
    } else {
        b
    }
}

impl<G> LazyTraced<G> {
    /// Nothing is compiled.
    pub fn new(signature: Vec<SigArg>, jacobian_slot: Option<&'static str>) -> (r: Self)
        ensures
            r.signature == signature,
            r.jacobian_slots@ == (match jacobian_slot {
                Some(s) => seq![s],
                None => Seq::empty(),
            }),
            r.cache is None,
            r.last_trace_ok is None,
            r.last_shape@.len() == 0,
    {
        let slots: Vec<&'static str> = match jacobian_slot {
            Some(s) => vec![s],
            None => Vec::new(),
        };
        Self::new_multi_jac(signature, slots)
    }

    /// Nothing is compiled; derivatives are to be taken by several arguments.
    pub fn new_multi_jac(signature: Vec<SigArg>, jacobian_slots: Vec<&'static str>) -> (r: Self)
        ensures
            r.signature == signature,
            r.jacobian_slots == jacobian_slots,
            r.cache is None,
            r.last_trace_ok is None,
            r.last_shape@.len() == 0,
    {
        LazyTraced {
            signature,
            jacobian_slots,
            cache: None,
            last_trace_ok: None,
            last_shape: Vec::new(),
        }
    }

    /// There is a compiled form for the shape.
    pub open spec fn serves(&self, shape: Seq<usize>) -> bool {
        self.cache matches Some(e) && e.shape_key@ == shape
    }

    /// The last attempt was for the shape and failed.
    pub open spec fn just_failed(&self, shape: Seq<usize>) -> bool {
        self.last_trace_ok == Some(false) && self.last_shape@ == shape
    }

    /// How a call with the shape is served.
    pub open spec fn route_of(&self, shape: Seq<usize>) -> Route {
        if self.serves(shape) {
            Route::Compiled
        } else if self.just_failed(shape) {
            Route::Callback
        } else {
            Route::Retrace
        }
    }

    fn hits(&self, shape: &Vec<usize>) -> (r: bool)
        ensures
            r == self.serves(shape@),
    {
        match &self.cache {
            Some(e) => shapes_match(&e.shape_key, shape),
            None => false,
        }
    }

    /// How a call with the shape is served: without compiling if a compiled form is
    /// there, or if the last attempt at this very shape failed.
    pub fn route(&self, shape: &Vec<usize>) -> (r: Route)
        ensures
            r == self.route_of(shape@),
    {
        if self.hits(shape) {
            return Route::Compiled;
        }
        let failed: bool = match self.last_trace_ok {
            Some(ok) => !ok,
            None => false,
        };
        if failed && shapes_match(&self.last_shape, shape) {
            return Route::Callback;
        }
        Route::Retrace
    }

    /// How a call is served after an attempt to compile for its shape.
    pub fn route_after(&self, shape: &Vec<usize>) -> (r: Route)
        ensures
            r == if self.serves(shape@) {
                Route::Compiled
            } else {
                Route::Callback
            },
    {
        if self.hits(shape) {
            Route::Compiled
        } else {
            Route::Callback
        }
    }

    /// How the evaluation of derivative `idx` is served once no attempt is left.
    pub open spec fn derivative_of(&self, idx: usize) -> JacobianRoute {
        if self.cache is Some && idx < self.cache->0.jacobians@.len() {
            JacobianRoute::Compiled
        } else {
            JacobianRoute::Skip
        }
    }

    /// How the evaluation of derivative `idx` with the shape is served.
    pub fn jacobian_route(&self, idx: usize, shape: &Vec<usize>) -> (r: JacobianRoute)
        ensures
            r == if self.serves(shape@) {
                self.derivative_of(idx)
            } else {
                JacobianRoute::Retrace
            },
    {
        match &self.cache {
            Some(e) => {
                if !shapes_match(&e.shape_key, shape) {
                    JacobianRoute::Retrace
                } else if idx < e.jacobians.len() {
                    JacobianRoute::Compiled
                } else {
                    JacobianRoute::Skip
                }
            },
            None => JacobianRoute::Retrace,
        }
    }

    /// How the evaluation of derivative `idx` is served after an attempt to compile
    /// for its shape.
    pub fn jacobian_route_after(&self, idx: usize, shape: &Vec<usize>) -> (r: JacobianRoute)
        ensures
            r == if self.serves(shape@) {
                self.derivative_of(idx)
            } else {
                JacobianRoute::Skip
            },
    {
        match &self.cache {
            Some(e) => {
                if shapes_match(&e.shape_key, shape) && idx < e.jacobians.len() {
                    JacobianRoute::Compiled
                } else {
                    JacobianRoute::Skip
                }
            },
            None => JacobianRoute::Skip,
        }
    }

    /// Notes an attempt to compile for the shape: a new compiled form replaces the
    /// one that is kept; a failure leaves it.
    pub fn note_trace(&mut self, shape: &Vec<usize>, traced: Option<(G, Vec<G>)>)
        ensures
            noted(*old(self), shape@, traced, *final(self)),
    {
        self.last_shape = copied(shape.as_slice());
        match traced {
            Some((compiled, jacobians)) => {
                let key: Vec<usize> = copied(shape.as_slice());
                self.cache = Some(CachedEntry { shape_key: key, compiled, jacobians });
                self.last_trace_ok = Some(true);
            },
            None => {
                self.last_trace_ok = Some(false);
            },
        }
    }

    /// The arguments with the widths that a call has.
    pub fn trace_args(&self, shape: &Vec<usize>) -> (r: Vec<TraceArg>)
        ensures
            r@ == Seq::new(
                shorter(self.signature@.len(), shape@.len()),
                |i: int| sized(self.signature@[i], shape@[i]),
            ),
    {
        let mut r: Vec<TraceArg> = Vec::new();
        let mut i: usize = 0;
        while i < self.signature.len() && i < shape.len()
            invariant
                i <= self.signature@.len(),
                i <= shape@.len(),
                r@ == Seq::new(i as nat, |k: int| sized(self.signature@[k], shape@[k])),
            decreases self.signature@.len() - i,
        {
            let a: TraceArg = match self.signature[i] {
                SigArg::Array(name) => TraceArg::Array { name, size: shape[i] },
                SigArg::Scalar(name) => TraceArg::Scalar { name },
            };
            r.push(a);
            assert(r@ =~= Seq::new((i + 1) as nat, |k: int| sized(self.signature@[k], shape@[k])));
            i += 1;
        }
        r
    }
}

/// The widths of the inputs of a call.
pub fn shape_key<F>(inputs: &Vec<Vec<F>>) -> (r: Vec<usize>)
    ensures
        r@.len() == inputs@.len(),
        forall|i: int| 0 <= i < r@.len() ==> #[trigger] r@[i] == inputs@[i]@.len(),
{
    let mut r: Vec<usize> = Vec::new();
    let mut i: usize = 0;
    while i < inputs.len()
        invariant
            i <= inputs@.len(),
            r@.len() == i,
            forall|k: int| 0 <= k < i ==> #[trigger] r@[k] == inputs@[k]@.len(),
        decreases inputs@.len() - i,
    {
        r.push(inputs[i].len());
        i += 1;
    }
    r
}

/// `after` is what noting an attempt makes of `before`.
pub open spec fn noted<G>(
    before: LazyTraced<G>,
    shape: Seq<usize>,
    traced: Option<(G, Vec<G>)>,
    after: LazyTraced<G>,
) -> bool {
    &&& after.signature == before.signature
    &&& after.jacobian_slots == before.jacobian_slots
    &&& after.last_shape@ == shape
    &&& after.last_trace_ok == Some(traced is Some)
    &&& match traced {
        Some((compiled, jacobians)) => {
            &&& after.serves(shape)
            &&& after.cache->0.compiled == compiled
            &&& after.cache->0.jacobians == jacobians
        },
        None => after.cache == before.cache,
    }
}

/// After an attempt to compile for a shape, the next call with that shape compiles
/// nothing: it is served by the compiled form if there is one, else by the callback.
/// After a failed attempt, the shapes served by a compiled form are those from
/// before.
pub proof fn law_one_attempt_per_shape<G>(
    before: LazyTraced<G>,
    shape: Seq<usize>,
    other: Seq<usize>,
    traced: Option<(G, Vec<G>)>,
    after: LazyTraced<G>,
)
    requires
        noted(before, shape, traced, after),
    ensures
        after.route_of(shape) != Route::Retrace,
        traced is Some ==> after.route_of(shape) == Route::Compiled,
        traced is None ==> after.serves(other) == before.serves(other),
{
}

} // verus!
