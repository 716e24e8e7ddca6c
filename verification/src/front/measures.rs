//! Laws of measured and rescaled numbers, where arithmetic is exact.

use vstd::prelude::*;

use crate::algebra::{
    lemma_cancels, lemma_distributes, lemma_positive, lemma_quotient, lemma_reorders, lemma_scales,
    lemma_total_plus, lemma_total_single, total,
};
use crate::exact::{exact, lemma_literal, lemma_meaning, meaning, rational, size};
use crate::expr::{evaluates, lit, val};
use crate::front::arguments::{rescales, slope_formula, Rescaling};
use crate::front::jacobian::{
    column_at, columns_of, differenced, entry_of, rhs_gives, sides, step_formula, Column, Field,
};
use crate::front::session::in_milliseconds;
use crate::scalar::Scalar;

verus! {

/// The right-hand side is `b + a x` at `t`.
pub open spec fn is_affine<F, P: Field<F>>(
    num: spec_fn(F) -> real,
    field: P,
    t: F,
    n: int,
    a: spec_fn(int, int) -> real,
    b: spec_fn(int) -> real,
) -> bool {
    forall|x: Seq<F>, out: Seq<F>, i: int|
        #![trigger rhs_gives(field, x, t, out), out[i]]
        rhs_gives(field, x, t, out) && x.len() == n && 0 <= i < n ==> num(out[i]) == b(i) + total(
            n,
            |k: int| a(i, k) * num(x[k]),
        )
}

/// On a right-hand side that is affine, central differences give its derivative.
pub proof fn law_differences_give_derivative<F: Scalar, P: Field<F>>(
    num: spec_fn(F) -> real,
    field: P,
    x: Seq<F>,
    t: F,
    eps: F,
    m: Seq<F>,
    a: spec_fn(int, int) -> real,
    b: spec_fn(int) -> real,
)
    requires
        exact(num),
        num(eps) > 0real,
        is_affine(num, field, t, x.len() as int, a, b),
        differenced(field, x, t, eps, m),
    ensures
        m.len() == x.len() * x.len(),
        forall|i: int, j: int|
            #![trigger m[i * x.len() + j]]
            0 <= i < x.len() && 0 <= j < x.len() ==> num(m[i * x.len() + j]) == a(i, j),
{
    let n = x.len() as int;
    let cols = choose|cols: Seq<Column<F>>| #[trigger] columns_of(field, x, t, eps, n, cols, m);
    assert forall|i: int, j: int|
        #![trigger m[i * n + j]]
        0 <= i < n && 0 <= j < n implies num(m[i * n + j]) == a(i, j) by {
        let c = cols[j];
        assert(column_at(field, x, t, eps, j, c));
        let (up, down) = choose|up: F, down: F| #[trigger]
            sides(x[j], c.h, up, down) && evaluates(step_formula(eps, x[j]), c.h) && rhs_gives(
                field,
                x.update(j, up),
                t,
                c.above,
            ) && rhs_gives(field, x.update(j, down), t, c.below);
        assert(entry_of(c, i, m[i * n + j]));
        lemma_step(num, eps, x[j], c.h);
        lemma_entry(num, c, i, m[i * n + j]);
        assert(num(up) == num(x[j]) + num(c.h) && num(down) == num(x[j]) - num(c.h)) by {
            reveal_with_fuel(meaning, 3);
            reveal_with_fuel(rational, 3);
            lemma_meaning(num, val(x[j]).plus(val(c.h)), up);
            lemma_meaning(num, val(x[j]).minus(val(c.h)), down);
        }
        let (xu, xd) = (x.update(j, up), x.update(j, down));
        let f = |k: int| a(i, k) * num(xu[k]);
        let g = |k: int| a(i, k) * num(xd[k]);
        let e = |k: int| f(k) - g(k);
        assert(num(c.above[i]) == b(i) + total(n, f));
        assert(num(c.below[i]) == b(i) + total(n, g));
        lemma_total_plus(n, f, g);
        lemma_total_single(n, j, e);
        let h = num(c.h);
        lemma_distributes(a(i, j), num(up), num(down));
        lemma_scales(num(up) - num(down), 2real * h, a(i, j));
        lemma_reorders(a(i, j), num(up) - num(down), 1real);
        lemma_reorders(a(i, j), 2real * h, 1real);
        lemma_reorders(2real, h, a(i, j));
        assert(num(c.above[i]) - num(c.below[i]) == 2real * (h * a(i, j)));
        lemma_reorders(h, num(m[i * n + j]), 1real);
        lemma_cancels(h, num(m[i * n + j]), a(i, j));
    }
}

/// The step is relative to the state, but not below `eps`.
proof fn lemma_step<F: Scalar>(num: spec_fn(F) -> real, eps: F, x: F, h: F)
    requires
        exact(num),
        num(eps) > 0real,
        evaluates(step_formula(eps, x), h),
    ensures
        num(h) >= num(eps),
        num(h) >= num(eps) * size(num(x)),
        num(h) == num(eps) || num(h) == num(eps) * size(num(x)),
{
    reveal_with_fuel(meaning, 4);
    reveal_with_fuel(rational, 4);
    lemma_meaning(num, step_formula(eps, x), h);
}

/// The step of a difference is `eps`, or `eps` times the size of the state where that is
/// larger.
pub proof fn law_difference_step<F: Scalar, P: Field<F>>(
    num: spec_fn(F) -> real,
    field: P,
    x: Seq<F>,
    t: F,
    eps: F,
    j: int,
    c: Column<F>,
)
    requires
        exact(num),
        num(eps) > 0real,
        column_at(field, x, t, eps, j, c),
    ensures
        num(c.h) == if size(num(x[j])) > 1real {
            num(eps) * size(num(x[j]))
        } else {
            num(eps)
        },
{
    lemma_step(num, eps, x[j], c.h);
    let (e, s) = (num(eps), size(num(x[j])));
    lemma_distributes(e, s, 1real);
    if s > 1real {
        lemma_positive(e, s - 1real);
    } else if s < 1real {
        lemma_positive(e, 1real - s);
        lemma_distributes(e, 1real, s);
    } else {
        lemma_reorders(e, s, 1real);
        lemma_scales(s, 1real, e);
    }
}

proof fn lemma_entry<F: Scalar>(num: spec_fn(F) -> real, c: Column<F>, i: int, v: F)
    requires
        exact(num),
        num(c.h) > 0real,
        entry_of(c, i, v),
    ensures
        2real * (num(v) * num(c.h)) == num(c.above[i]) - num(c.below[i]),
{
    reveal_with_fuel(meaning, 5);
    reveal_with_fuel(rational, 5);
    lemma_literal::<F>(num, 1, 2);
    assert(1u64 as real == 1real && 2u64 as real == 2real);
    lemma_meaning(
        num,
        crate::front::jacobian::slope_formula(c.above[i], c.below[i], c.h),
        v,
    );
    let d = num(c.above[i]) - num(c.below[i]);
    let half = meaning(num, lit::<F>(1, 2));
    lemma_quotient(half * d, num(c.h));
    lemma_scales(2real * half, 1real, d);
    lemma_reorders(2real, half, d);
}

/// A rescaling takes the ends of the inputs to the ends of the outputs, and its limits are
/// the smaller and the larger of these.
pub proof fn law_rescaling_meets_ends<F: Scalar>(
    num: spec_fn(F) -> real,
    i0: F,
    i1: F,
    o0: F,
    o1: F,
    r: Rescaling<F>,
)
    requires
        exact(num),
        num(i0) != num(i1),
        rescales(i0, i1, o0, o1, r),
    ensures
        num(r.slope) * num(i0) + num(r.offset) == num(o0),
        num(r.slope) * num(i1) + num(r.offset) == num(o1),
        num(r.low) <= num(o0) && num(r.low) <= num(o1) && (num(r.low) == num(o0) || num(r.low)
            == num(o1)),
        num(r.high) >= num(o0) && num(r.high) >= num(o1) && (num(r.high) == num(o0) || num(r.high)
            == num(o1)),
{
    reveal_with_fuel(meaning, 4);
    reveal_with_fuel(rational, 4);
    lemma_meaning(num, slope_formula(i0, i1, o0, o1), r.slope);
    lemma_meaning(num, val(o0).minus(val(r.slope).times(val(i0))), r.offset);
    lemma_meaning(num, val(o0).smaller(val(o1)), r.low);
    lemma_meaning(num, val(o0).larger(val(o1)), r.high);
    let (s, d, e) = (num(r.slope), num(i1) - num(i0), num(o1) - num(o0));
    assert((e / d) * d == e) by (nonlinear_arith)
        requires
            d != 0real,
    ;
    lemma_distributes(s, num(i1), num(i0));
}

/// A thousand milliseconds are a second.
pub proof fn law_milliseconds<F: Scalar>(num: spec_fn(F) -> real, secs: F, ms: F)
    requires
        exact(num),
        in_milliseconds(secs, ms),
    ensures
        num(ms) == 1000real * num(secs),
{
    reveal_with_fuel(meaning, 3);
    reveal_with_fuel(rational, 3);
    lemma_literal::<F>(num, 1000, 1);
    assert(1000u64 as real == 1000real);
    lemma_meaning(num, val(secs).times(lit(1000, 1)), ms);
    let k = meaning(num, lit::<F>(1000, 1));
    lemma_reorders(num(secs), k, 1real);
    lemma_scales(k, 1000real, num(secs));
}

} // verus!
