//! Arithmetic without rounding, as a premise of laws: what the numbers of a formula
//! stand for, and that operations on them are operations on what they stand for.

use vstd::prelude::*;

use crate::expr::{evaluates, lit, Term};
use crate::scalar::{
    adds, counts, divs, eqs, les, lts, mags, maxes, mins, muls, negs, ones, ratios, roots, subs,
    zeros, Scalar,
};

verus! {

/// Numbers stand for the reals that `num` gives, operations are exact, and comparisons
/// tell the order of the reals. Nothing is said of a quotient by zero and of the root
/// of a negative number.
pub open spec fn exact<F: Scalar>(num: spec_fn(F) -> real) -> bool {
    &&& sums_exact(num)
    &&& products_exact(num)
    &&& order_exact(num)
}

/// Constants, sums and differences are exact.
pub open spec fn sums_exact<F: Scalar>(num: spec_fn(F) -> real) -> bool {
    &&& forall|v: F| #[trigger] zeros(v) ==> num(v) == 0real
    &&& forall|v: F| #[trigger] ones(v) ==> num(v) == 1real
    &&& forall|n: u64, d: u64, v: F| #[trigger]
        ratios(n, d, v) && d != 0 ==> num(v) * (d as real) == n as real
    &&& forall|n: usize, v: F| #[trigger] counts(n, v) ==> num(v) == n as real
    &&& forall|a: F, b: F, v: F| #[trigger] adds(a, b, v) ==> num(v) == num(a) + num(b)
    &&& forall|a: F, b: F, v: F| #[trigger] subs(a, b, v) ==> num(v) == num(a) - num(b)
    &&& forall|a: F, v: F| #[trigger] negs(a, v) ==> num(v) == -num(a)
}

/// Products, quotients and roots are exact.
pub open spec fn products_exact<F: Scalar>(num: spec_fn(F) -> real) -> bool {
    &&& forall|a: F, b: F, v: F| #[trigger] muls(a, b, v) ==> num(v) == num(a) * num(b)
    &&& forall|a: F, b: F, v: F| #[trigger]
        divs(a, b, v) && num(b) != 0real ==> num(v) * num(b) == num(a)
    &&& forall|a: F, v: F| #[trigger]
        roots(a, v) && num(a) >= 0real ==> num(v) >= 0real && num(v) * num(v) == num(a)
}

/// Comparisons, magnitudes and choices by size are exact.
pub open spec fn order_exact<F: Scalar>(num: spec_fn(F) -> real) -> bool {
    &&& forall|a: F, b: F, r: bool| #[trigger] lts(a, b, r) ==> r == (num(a) < num(b))
    &&& forall|a: F, b: F, r: bool| #[trigger] les(a, b, r) ==> r == (num(a) <= num(b))
    &&& forall|a: F, b: F, r: bool| #[trigger] eqs(a, b, r) ==> r == (num(a) == num(b))
    &&& forall|a: F, v: F| #[trigger] mags(a, v) ==> num(v) == size(num(a))
    &&& forall|a: F, b: F, v: F| #[trigger] maxes(a, b, v) ==> num(v) == if num(a) < num(b) {
        num(b)
    } else {
        num(a)
    }
    &&& forall|a: F, b: F, v: F| #[trigger] mins(a, b, v) ==> num(v) == if num(b) < num(a) {
        num(b)
    } else {
        num(a)
    }
}

/// The magnitude of a real.
pub open spec fn size(r: real) -> real {
    if r < 0real {
        -r
    } else {
        r
    }
}

/// What a formula stands for: its operations carried out on reals.
pub open spec fn meaning<F: Scalar>(num: spec_fn(F) -> real, t: Term<F>) -> real
    decreases t,
{
    match t {
        Term::Value(u) => num(u),
        Term::Zero => 0real,
        Term::Fraction(n, d) => (n as real) / (d as real),
        Term::Plus(a, b) => meaning(num, *a) + meaning(num, *b),
        Term::Minus(a, b) => meaning(num, *a) - meaning(num, *b),
        Term::Times(a, b) => meaning(num, *a) * meaning(num, *b),
        Term::Over(a, b) => meaning(num, *a) / meaning(num, *b),
        Term::Negated(a) => -meaning(num, *a),
        Term::Root(a) => 0real,
        Term::Magnitude(a) => size(meaning(num, *a)),
        Term::Larger(a, b) => if meaning(num, *a) < meaning(num, *b) {
            meaning(num, *b)
        } else {
            meaning(num, *a)
        },
        Term::Smaller(a, b) => if meaning(num, *b) < meaning(num, *a) {
            meaning(num, *b)
        } else {
            meaning(num, *a)
        },
    }
}

/// The formula divides by nothing that is zero, and takes no root.
pub open spec fn rational<F: Scalar>(num: spec_fn(F) -> real, t: Term<F>) -> bool
    decreases t,
{
    match t {
        Term::Value(_) | Term::Zero => true,
        Term::Fraction(_, d) => d != 0,
        Term::Plus(a, b) => rational(num, *a) && rational(num, *b),
        Term::Minus(a, b) => rational(num, *a) && rational(num, *b),
        Term::Times(a, b) => rational(num, *a) && rational(num, *b),
        Term::Over(a, b) => rational(num, *a) && rational(num, *b) && meaning(num, *b) != 0real,
        Term::Negated(a) => rational(num, *a),
        Term::Root(_) => false,
        Term::Magnitude(a) => rational(num, *a),
        Term::Larger(a, b) => rational(num, *a) && rational(num, *b),
        Term::Smaller(a, b) => rational(num, *a) && rational(num, *b),
    }
}

proof fn lemma_quotient(a: real, b: real, q: real)
    requires
        b != 0real,
        q * b == a,
    ensures
        q == a / b,
{
    assert(q == a / b) by (nonlinear_arith)
        requires
            b != 0real,
            q * b == a,
    ;
}

/// A literal times its divisor; one without a divisor is what it says.
pub proof fn lemma_literal<F: Scalar>(num: spec_fn(F) -> real, n: u64, d: u64)
    requires
        d != 0,
    ensures
        meaning(num, lit::<F>(n, d)) * (d as real) == n as real,
        d == 1 ==> meaning(num, lit::<F>(n, d)) == n as real,
{
    let (a, b) = (n as real, d as real);
    assert((a / b) * b == a) by (nonlinear_arith)
        requires
            b != 0real,
    ;
    if d == 1 {
        assert(b == 1real);
        assert(a / 1real == a) by (nonlinear_arith);
    }
}

/// Where operations are exact, a value of a formula stands for what the formula does.
pub proof fn lemma_meaning<F: Scalar>(num: spec_fn(F) -> real, t: Term<F>, v: F)
    requires
        exact(num),
        evaluates(t, v),
        rational(num, t),
    ensures
        num(v) == meaning(num, t),
    decreases t,
{
    reveal(evaluates);
    match t {
        Term::Value(_) | Term::Zero => {},
        Term::Fraction(n, d) => {
            assert(ratios(n, d, v));
            lemma_quotient(n as real, d as real, num(v));
        },
        Term::Plus(a, b) => {
            let (p, q) = choose|p: F, q: F| #[trigger]
                adds(p, q, v) && evaluates(*a, p) && evaluates(*b, q);
            lemma_meaning(num, *a, p);
            lemma_meaning(num, *b, q);
        },
        Term::Minus(a, b) => {
            let (p, q) = choose|p: F, q: F| #[trigger]
                subs(p, q, v) && evaluates(*a, p) && evaluates(*b, q);
            lemma_meaning(num, *a, p);
            lemma_meaning(num, *b, q);
        },
        Term::Times(a, b) => {
            let (p, q) = choose|p: F, q: F| #[trigger]
                muls(p, q, v) && evaluates(*a, p) && evaluates(*b, q);
            lemma_meaning(num, *a, p);
            lemma_meaning(num, *b, q);
        },
        Term::Over(a, b) => {
            let (p, q) = choose|p: F, q: F| #[trigger]
                divs(p, q, v) && evaluates(*a, p) && evaluates(*b, q);
            lemma_meaning(num, *a, p);
            lemma_meaning(num, *b, q);
            lemma_quotient(num(p), num(q), num(v));
        },
        Term::Negated(a) => {
            let p = choose|p: F| #[trigger] negs(p, v) && evaluates(*a, p);
            lemma_meaning(num, *a, p);
        },
        Term::Root(_) => {},
        Term::Magnitude(a) => {
            let p = choose|p: F| #[trigger] mags(p, v) && evaluates(*a, p);
            lemma_meaning(num, *a, p);
        },
        Term::Larger(a, b) => {
            let (p, q) = choose|p: F, q: F| #[trigger]
                maxes(p, q, v) && evaluates(*a, p) && evaluates(*b, q);
            lemma_meaning(num, *a, p);
            lemma_meaning(num, *b, q);
        },
        Term::Smaller(a, b) => {
            let (p, q) = choose|p: F, q: F| #[trigger]
                mins(p, q, v) && evaluates(*a, p) && evaluates(*b, q);
            lemma_meaning(num, *a, p);
            lemma_meaning(num, *b, q);
        },
    }
}

} // verus!
