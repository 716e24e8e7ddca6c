//! Trackers of residuals and of step results over the components of a system.

use vstd::prelude::*;

use crate::scalar::{les, lts, mins, ones, ratios, zeros, Scalar};
use crate::seqs::copied;

verus! {

/// Threshold for weighed residuals, as a fraction.
pub const NLS_COEF_NUM: u64 = 1;

pub const NLS_COEF_DEN: u64 = 10;

/// `r` is the threshold for weighed residuals.
pub open spec fn is_nls_coef<F: Scalar>(r: F) -> bool {
    ratios(NLS_COEF_NUM, NLS_COEF_DEN, r)
}

/// The threshold for weighed residuals.
pub fn nls_coef<F: Scalar>() -> (r: F)
    ensures
        is_nls_coef(r),
{
    F::ratio(NLS_COEF_NUM, NLS_COEF_DEN)
}

/// Residuals of one pass over the components, and the largest of them.
#[derive(Debug)]
pub struct ConvergenceTracker<F> {
    /// Component and residual, in the order of recording.
    pub errors: Vec<(usize, F)>,
    pub max_error: F,
    /// Passes that the last solve took.
    pub iterations: usize,
}

/// Position of a component among the recorded ones.
pub open spec fn recorded_at<F>(errors: Seq<(usize, F)>, id: usize, k: int) -> bool {
    0 <= k < errors.len() && errors[k].0 == id && forall|j: int|
        0 <= j < k ==> (#[trigger] errors[j]).0 != id
}

/// The residuals with that of `id` set.
pub open spec fn with_error<F>(errors: Seq<(usize, F)>, id: usize, err: F) -> Seq<(usize, F)> {
    if exists|k: int| recorded_at(errors, id, k) {
        errors.update(choose|k: int| recorded_at(errors, id, k), (id, err))
    } else {
        errors.push((id, err))
    }
}

/// `r` is `err` if that is larger than `max`, else `max`.
pub open spec fn raised<F: Scalar>(max: F, err: F, r: F) -> bool {
    exists|above: bool| #[trigger]
        lts(max, err, above) && r == if above {
            err
        } else {
            max
        }
}

/// The larger of `max` and `err`; `max` if they do not compare.
pub fn raise<F: Scalar>(max: F, err: F) -> (r: F)
    ensures
        raised(max, err, r),
{
    let above: bool = max.below(err);
    assert(lts(max, err, above));
    if above {
        err
    } else {
        max
    }
}

/// `worst` is the last of the largest of the first `k` residuals.
pub open spec fn worst_is<F: Scalar>(errors: Seq<(usize, F)>, k: int, worst: (usize, F)) -> bool
    decreases k,
{
    if k <= 1 {
        worst == errors[0]
    } else {
        exists|prev: (usize, F), less: bool| #[trigger]
            lts(errors[k - 1].1, prev.1, less) && #[trigger] picks(
                errors[k - 1],
                prev,
                less,
                worst,
            ) && worst_is(errors, k - 1, prev)
    }
}

/// `worst` is `prev` if the next residual is less, else the next.
pub open spec fn picks<F>(next: (usize, F), prev: (usize, F), less: bool, worst: (usize, F)) -> bool {
    worst == if less {
        prev
    } else {
        next
    }
}

impl<F: Scalar> ConvergenceTracker<F> {
    /// Nothing is recorded.
    pub open spec fn blank(&self) -> bool {
        self.errors@.len() == 0 && zeros(self.max_error)
    }

    /// One residual was recorded.
    pub open spec fn records(&self, id: usize, err: F, after: Self) -> bool {
        &&& after.errors@ == with_error(self.errors@, id, err)
        &&& raised(self.max_error, err, after.max_error)
        &&& after.iterations == self.iterations
    }

    pub fn new() -> (r: Self)
        ensures
            r.blank(),
            r.iterations == 0,
    {
        ConvergenceTracker { errors: Vec::new(), max_error: F::zero(), iterations: 0 }
    }

    pub fn reset(&mut self)
        ensures
            final(self).blank(),
            final(self).iterations == 0,
    {
        self.errors = Vec::new();
        self.max_error = F::zero();
        self.iterations = 0;
    }

    /// Starts a pass.
    pub fn begin_iteration(&mut self)
        ensures
            final(self).blank(),
            final(self).iterations == old(self).iterations,
    {
        self.errors = Vec::new();
        self.max_error = F::zero();
    }

    /// Records the residual of a component.
    pub fn record(&mut self, id: usize, err: F)
        ensures
            old(self).records(id, err, *final(self)),
    {
        self.max_error = raise(self.max_error, err);
        let mut k: usize = 0;
        while k < self.errors.len()
            invariant
                k <= self.errors@.len(),
                self.errors == old(self).errors,
                self.iterations == old(self).iterations,
                raised(old(self).max_error, err, self.max_error),
                forall|j: int| 0 <= j < k ==> (#[trigger] self.errors@[j]).0 != id,
            decreases self.errors@.len() - k,
        {
            if self.errors[k].0 == id {
                proof {
                    assert(recorded_at(self.errors@, id, k as int));
                    let c = choose|c: int| recorded_at(self.errors@, id, c);
                    if c < k {
                        assert(self.errors@[c].0 != id);
                    }
                    if k < c {
                        assert(self.errors@[k as int].0 != id);
                    }
                }
                self.errors.set(k, (id, err));
                return;
            }
            k += 1;
        }
        self.errors.push((id, err));
    }

    /// Whether no residual exceeds the tolerance.
    pub fn converged(&self, tolerance: F) -> (r: bool)
        ensures
            les(self.max_error, tolerance, r),
    {
        self.max_error.at_most(tolerance)
    }

    /// The component with the largest residual; the last one of several.
    pub fn worst(&self) -> (r: Option<usize>)
        ensures
            self.errors@.len() == 0 ==> r is None,
            self.errors@.len() > 0 ==> exists|w: (usize, F)|
                r == Some(w.0) && worst_is(self.errors@, self.errors@.len() as int, w),
    {
        if self.errors.len() == 0 {
            return None;
        }
        let mut best: (usize, F) = self.errors[0];
        let mut k: usize = 1;
        while k < self.errors.len()
            invariant
                1 <= k <= self.errors@.len(),
                worst_is(self.errors@, k as int, best),
            decreases self.errors@.len() - k,
        {
            let next: (usize, F) = self.errors[k];
            let less: bool = next.1.below(best.1);
            let ghost prev = best;
            if !less {
                best = next;
            }
            proof {
                assert(lts(self.errors@[k + 1 - 1].1, prev.1, less));
                assert(picks(self.errors@[k + 1 - 1], prev, less, best));
                assert(worst_is(self.errors@, k + 1, best));
            }
            k += 1;
        }
        Some(best.0)
    }

    /// A tracker with the same contents.
    pub fn copy(&self) -> (r: Self)
        ensures
            r.errors@ == self.errors@,
            r.max_error == self.max_error,
            r.iterations == self.iterations,
    {
        ConvergenceTracker {
            errors: copied(self.errors.as_slice()),
            max_error: self.max_error,
            iterations: self.iterations,
        }
    }
}

/// Results of one step over the dynamic components.
#[derive(Debug, Clone, Copy)]
pub struct StepTracker<F> {
    pub success: bool,
    pub max_error: F,
    /// Smallest rescaling that a component asks for.
    pub min_scale: Option<F>,
}

/// `r` is the smaller of the scales that are given.
pub open spec fn narrowed<F: Scalar>(a: Option<F>, b: Option<F>, r: Option<F>) -> bool {
    match (a, b) {
        (Some(x), Some(y)) => r is Some && mins(x, y, r->Some_0),
        (Some(x), None) => r == Some(x),
        (None, _) => r == b,
    }
}

impl<F: Scalar> StepTracker<F> {
    /// No result is recorded.
    pub open spec fn blank(&self) -> bool {
        self.success && zeros(self.max_error) && self.min_scale is None
    }

    /// One result was recorded.
    pub open spec fn records(&self, success: bool, err: F, scale: Option<F>, after: Self) -> bool {
        &&& after.success == (self.success && success)
        &&& raised(self.max_error, err, after.max_error)
        &&& narrowed(self.min_scale, scale, after.min_scale)
    }

    pub fn new() -> (r: Self)
        ensures
            r.blank(),
    {
        StepTracker { success: true, max_error: F::zero(), min_scale: None }
    }

    pub fn reset(&mut self)
        ensures
            final(self).blank(),
    {
        self.success = true;
        self.max_error = F::zero();
        self.min_scale = None;
    }

    /// Records the result of a component: whether its step succeeded, its error,
    /// and the rescaling that it asks for.
    pub fn record(&mut self, _id: usize, success: bool, err: F, scale: Option<F>)
        ensures
            old(self).records(success, err, scale, *final(self)),
    {
        if !success {
            self.success = false;
        }
        self.max_error = raise(self.max_error, err);
        match (self.min_scale, scale) {
            (Some(a), Some(b)) => {
                self.min_scale = Some(a.smaller(b));
            },
            (None, Some(b)) => {
                self.min_scale = Some(b);
            },
            _ => {},
        }
    }

    /// The rescaling that the components ask for; one if none does.
    pub fn scale(&self) -> (r: F)
        ensures
            match self.min_scale {
                Some(s) => r == s,
                None => ones(r),
            },
    {
        match self.min_scale {
            Some(s) => s,
            None => F::one(),
        }
    }
}

} // verus!
