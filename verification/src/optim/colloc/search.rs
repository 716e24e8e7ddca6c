//! Laws of Newton steps on the discretized equations, where arithmetic is exact.

use vstd::prelude::*;

use crate::algebra::{lemma_reorders, lemma_scales, total};
use crate::exact::{exact, lemma_literal, lemma_meaning, meaning, rational};
use crate::expr::{evaluates, lit, val};
use crate::matrix::place;
use crate::optim::colloc::newton::{
    direction_with, halved, norm_at, searched_in, step_fails, stepped_back, trial_point, tried,
};
use crate::optim::colloc::problem::{BvpEquations, BvpFns};
use crate::optim::linsolve::{Backend, LinearSolver};
use crate::optim::steps::solves_with;
use crate::scalar::{lts, Scalar};

verus! {

/// One, doubled `s` times.
pub open spec fn doubled(s: int) -> real
    decreases s,
{
    if s <= 0 {
        1real
    } else {
        2real * doubled(s - 1)
    }
}

/// `trial` is `z` less `d` halved `s` times.
pub open spec fn moved<F>(
    num: spec_fn(F) -> real,
    z: Seq<F>,
    d: Seq<F>,
    s: int,
    trial: Seq<F>,
) -> bool {
    &&& trial.len() == z.len()
    &&& forall|i: int|
        #![trigger trial[i]]
        0 <= i < z.len() ==> (num(z[i]) - num(trial[i])) * doubled(s) == num(d[i])
}

proof fn lemma_halved<F: Scalar>(num: spec_fn(F) -> real, s: int, step: F)
    requires
        exact(num),
        halved(s, step),
    ensures
        num(step) * doubled(s) == 1real,
    decreases s,
{
    reveal_with_fuel(meaning, 3);
    reveal_with_fuel(rational, 3);
    if s <= 0 {
        lemma_literal::<F>(num, 1, 1);
        assert(1u64 as real == 1real);
        lemma_meaning(num, lit::<F>(1, 1), step);
    } else {
        let longer = choose|longer: F| #[trigger]
            evaluates(val(longer).times(lit(1, 2)), step) && halved(s - 1, longer);
        lemma_halved(num, s - 1, longer);
        lemma_literal::<F>(num, 1, 2);
        assert(1u64 as real == 1real && 2u64 as real == 2real);
        lemma_meaning(num, val(longer).times(lit(1, 2)), step);
        let (l, h, e) = (num(longer), meaning(num, lit::<F>(1, 2)), doubled(s - 1));
        assert(h * 2real == 1real);
        lemma_reorders(l, h, 2real * e);
        lemma_reorders(h, 2real, e);
        lemma_scales(h * 2real, 1real, e);
        assert(h * (2real * e) == e);
        assert((l * h) * (2real * e) == l * e);
    }
}

proof fn lemma_moved<F: Scalar>(
    num: spec_fn(F) -> real,
    z: Seq<F>,
    d: Seq<F>,
    s: int,
    step: F,
    trial: Seq<F>,
)
    requires
        exact(num),
        halved(s, step),
        trial_point(z, d, step, trial),
    ensures
        moved(num, z, d, s, trial),
{
    lemma_halved(num, s, step);
    assert forall|i: int|
        #![trigger trial[i]]
        0 <= i < z.len() implies (num(z[i]) - num(trial[i])) * doubled(s) == num(d[i]) by {
        assert(evaluates(stepped_back(z[i], step, d[i]), trial[i]));
        reveal_with_fuel(meaning, 4);
        reveal_with_fuel(rational, 4);
        lemma_meaning(num, stepped_back(z[i], step, d[i]), trial[i]);
        let (p, q, e) = (num(step), num(d[i]), doubled(s));
        lemma_reorders(p, q, e);
        lemma_scales(p * e, 1real, q);
        lemma_scales(num(z[i]) - num(trial[i]), p * q, e);
    }
}

/// A point at which the equations have the norm `norm`; the first `ny` unknowns are the
/// solution.
pub open spec fn norm_there<F: Scalar, P: BvpEquations<F>>(
    f: BvpFns<F, P>,
    x: Seq<F>,
    trial: Seq<F>,
    norm: F,
) -> bool {
    norm_at(f, x, trial.take(x.len() * f.n_eq), trial.skip(x.len() * f.n_eq), norm)
}

/// With the direction halved `q` times the norm did not become smaller.
pub open spec fn no_better<F: Scalar, P: BvpEquations<F>>(
    num: spec_fn(F) -> real,
    f: BvpFns<F, P>,
    x: Seq<F>,
    z: Seq<F>,
    d: Seq<F>,
    norm: F,
    q: int,
) -> bool {
    exists|trial: Seq<F>, reached: F| #[trigger]
        norm_there(f, x, trial, reached) && moved(num, z, d, q, trial) && num(reached) >= num(norm)
}

/// The line search goes against the direction by its full length, or by the first half of a
/// half of it, and so on, at which the norm becomes smaller; the seventh is taken anyway.
pub proof fn law_line_search<F: Scalar, P: BvpEquations<F>>(
    num: spec_fn(F) -> real,
    f: BvpFns<F, P>,
    x: Seq<F>,
    z: Seq<F>,
    d: Seq<F>,
    norm: F,
    s: int,
    trial: Seq<F>,
)
    requires
        exact(num),
        searched_in(f, x, z, d, norm, s, trial),
    ensures
        0 <= s <= 7,
        moved(num, z, d, s, trial),
        exists|reached: F| #[trigger]
            norm_there(f, x, trial, reached) && (num(reached) < num(norm) || s == 7),
        forall|q: int| 0 <= q < s ==> #[trigger] no_better(num, f, x, z, d, norm, q),
{
    let (step, reached, less) = choose|step: F, reached: F, less: bool| #[trigger]
        tried(f, x, z, d, step, trial, reached) && halved(s, step) && #[trigger] lts(
            reached,
            norm,
            less,
        ) && (less || s == 7);
    lemma_moved(num, z, d, s, step, trial);
    assert(norm_there(f, x, trial, reached));
    assert forall|q: int| 0 <= q < s implies #[trigger] no_better(
        num,
        f,
        x,
        z,
        d,
        norm,
        q,
    ) by {
        assert(step_fails(f, x, z, d, norm, q));
        let (step, there, reached) = choose|step: F, there: Seq<F>, reached: F| #[trigger]
            tried(f, x, z, d, step, there, reached) && halved(q, step) && lts(
                reached,
                norm,
                false,
            );
        lemma_moved(num, z, d, q, step, there);
        assert(norm_there(f, x, there, reached));
    }
}

/// The derivative of the equations, times the Newton direction, gives the equations, if
/// the backend solves with the derivative.
pub proof fn law_direction_solves<F: Scalar, B: Backend<F>, P: BvpEquations<F>>(
    num: spec_fn(F) -> real,
    f: BvpFns<F, P>,
    x: Seq<F>,
    y: Seq<F>,
    p: Seq<F>,
    fval: Seq<F>,
    res: Seq<F>,
    norm: F,
    jac: Seq<F>,
    before: LinearSolver<F, B>,
    after: LinearSolver<F, B>,
    d: Seq<F>,
    i: int,
)
    requires
        exact(num),
        direction_with(f, x, y, p, fval, res, norm, jac, before, after, d),
        before.fresh(),
        f.unknowns(x.len() as int) <= usize::MAX,
        res.len() == f.unknowns(x.len() as int),
        solves_with::<F, B>(num, jac, f.unknowns(x.len() as int) as usize),
        0 <= i < f.unknowns(x.len() as int),
    ensures
        total(
            f.unknowns(x.len() as int),
            |c: int| num(jac[place(f.unknowns(x.len() as int), i, c)]) * num(d[c]),
        ) == num(res[i]),
{
}

} // verus!
