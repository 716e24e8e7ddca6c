//! Formulas over [`Scalar`], and numbers that know the formula they came from.
//!
//! A [`Term`] is a formula as written, with its order of operations. A contract
//! says that a value evaluates a formula; every rounding is then that of the
//! operations in it. A [`Num`] pairs a value with its formula, so that code that
//! computes with it need not restate each step.

use vstd::prelude::*;

use crate::scalar::{
    adds, divs, mags, maxes, mins, muls, negs, ratios, roots, subs, zeros, Scalar,
};

verus! {

/// A formula.
pub enum Term<F> {
    Value(F),
    Zero,
    Fraction(u64, u64),
    Plus(Box<Term<F>>, Box<Term<F>>),
    Minus(Box<Term<F>>, Box<Term<F>>),
    Times(Box<Term<F>>, Box<Term<F>>),
    Over(Box<Term<F>>, Box<Term<F>>),
    Negated(Box<Term<F>>),
    Root(Box<Term<F>>),
    Magnitude(Box<Term<F>>),
    Larger(Box<Term<F>>, Box<Term<F>>),
    Smaller(Box<Term<F>>, Box<Term<F>>),
}

/// `v` is a value that the formula may have.
#[verifier::opaque]
pub open spec fn evaluates<F: Scalar>(t: Term<F>, v: F) -> bool
    decreases t,
{
    match t {
        Term::Value(u) => v == u,
        Term::Zero => zeros(v),
        Term::Fraction(num, den) => ratios(num, den, v),
        Term::Plus(a, b) => exists|p: F, q: F| #[trigger]
            adds(p, q, v) && evaluates(*a, p) && evaluates(*b, q),
        Term::Minus(a, b) => exists|p: F, q: F| #[trigger]
            subs(p, q, v) && evaluates(*a, p) && evaluates(*b, q),
        Term::Times(a, b) => exists|p: F, q: F| #[trigger]
            muls(p, q, v) && evaluates(*a, p) && evaluates(*b, q),
        Term::Over(a, b) => exists|p: F, q: F| #[trigger]
            divs(p, q, v) && evaluates(*a, p) && evaluates(*b, q),
        Term::Negated(a) => exists|p: F| #[trigger] negs(p, v) && evaluates(*a, p),
        Term::Root(a) => exists|p: F| #[trigger] roots(p, v) && evaluates(*a, p),
        Term::Magnitude(a) => exists|p: F| #[trigger] mags(p, v) && evaluates(*a, p),
        Term::Larger(a, b) => exists|p: F, q: F| #[trigger]
            maxes(p, q, v) && evaluates(*a, p) && evaluates(*b, q),
        Term::Smaller(a, b) => exists|p: F, q: F| #[trigger]
            mins(p, q, v) && evaluates(*a, p) && evaluates(*b, q),
    }
}

impl<F> Term<F> {
    pub open spec fn plus(self, b: Term<F>) -> Term<F> {
        Term::Plus(Box::new(self), Box::new(b))
    }

    pub open spec fn minus(self, b: Term<F>) -> Term<F> {
        Term::Minus(Box::new(self), Box::new(b))
    }

    pub open spec fn times(self, b: Term<F>) -> Term<F> {
        Term::Times(Box::new(self), Box::new(b))
    }

    pub open spec fn over(self, b: Term<F>) -> Term<F> {
        Term::Over(Box::new(self), Box::new(b))
    }

    pub open spec fn negated(self) -> Term<F> {
        Term::Negated(Box::new(self))
    }

    pub open spec fn root(self) -> Term<F> {
        Term::Root(Box::new(self))
    }

    pub open spec fn magnitude(self) -> Term<F> {
        Term::Magnitude(Box::new(self))
    }

    pub open spec fn larger(self, b: Term<F>) -> Term<F> {
        Term::Larger(Box::new(self), Box::new(b))
    }

    pub open spec fn smaller(self, b: Term<F>) -> Term<F> {
        Term::Smaller(Box::new(self), Box::new(b))
    }
}

/// The formula of a value.
pub open spec fn val<F>(v: F) -> Term<F> {
    Term::Value(v)
}

/// The formula of a literal.
pub open spec fn lit<F>(num: u64, den: u64) -> Term<F> {
    Term::Fraction(num, den)
}

/// A value with the formula that it evaluates.
#[derive(Clone, Copy)]
pub struct Num<F: Scalar> {
    pub value: F,
    pub term: Ghost<Term<F>>,
}

impl<F: Scalar> Num<F> {
    /// The value is one that the formula may have.
    pub open spec fn ok(&self) -> bool {
        evaluates(self.term@, self.value)
    }

    pub fn of(v: F) -> (r: Self)
        ensures
            r.ok(),
            r.term@ == val(v),
            r.value == v,
    {
        reveal(evaluates);
        Num { value: v, term: Ghost(val(v)) }
    }

    pub fn zero() -> (r: Self)
        ensures
            r.ok(),
            r.term@ == Term::<F>::Zero,
    {
        reveal(evaluates);
        Num { value: F::zero(), term: Ghost(Term::Zero) }
    }

    pub fn fraction(num: u64, den: u64) -> (r: Self)
        ensures
            r.ok(),
            r.term@ == lit::<F>(num, den),
    {
        reveal(evaluates);
        Num { value: F::ratio(num, den), term: Ghost(lit(num, den)) }
    }

    pub fn plus(self, b: Self) -> (r: Self)
        requires
            self.ok(),
            b.ok(),
        ensures
            r.ok(),
            r.term@ == self.term@.plus(b.term@),
    {
        let value: F = self.value.plus(b.value);
        assert(adds(self.value, b.value, value));
        let r: Self = Num { value, term: Ghost(self.term@.plus(b.term@)) };
        reveal(evaluates);
        r
    }

    pub fn minus(self, b: Self) -> (r: Self)
        requires
            self.ok(),
            b.ok(),
        ensures
            r.ok(),
            r.term@ == self.term@.minus(b.term@),
    {
        let value: F = self.value.minus(b.value);
        assert(subs(self.value, b.value, value));
        let r: Self = Num { value, term: Ghost(self.term@.minus(b.term@)) };
        reveal(evaluates);
        r
    }

    pub fn times(self, b: Self) -> (r: Self)
        requires
            self.ok(),
            b.ok(),
        ensures
            r.ok(),
            r.term@ == self.term@.times(b.term@),
    {
        let value: F = self.value.times(b.value);
        assert(muls(self.value, b.value, value));
        let r: Self = Num { value, term: Ghost(self.term@.times(b.term@)) };
        reveal(evaluates);
        r
    }

    pub fn over(self, b: Self) -> (r: Self)
        requires
            self.ok(),
            b.ok(),
        ensures
            r.ok(),
            r.term@ == self.term@.over(b.term@),
    {
        let value: F = self.value.over(b.value);
        assert(divs(self.value, b.value, value));
        let r: Self = Num { value, term: Ghost(self.term@.over(b.term@)) };
        reveal(evaluates);
        r
    }

    pub fn negated(self) -> (r: Self)
        requires
            self.ok(),
        ensures
            r.ok(),
            r.term@ == self.term@.negated(),
    {
        let value: F = self.value.negated();
        assert(negs(self.value, value));
        let r: Self = Num { value, term: Ghost(self.term@.negated()) };
        reveal(evaluates);
        r
    }

    pub fn root(self) -> (r: Self)
        requires
            self.ok(),
        ensures
            r.ok(),
            r.term@ == self.term@.root(),
    {
        let value: F = self.value.root();
        assert(roots(self.value, value));
        let r: Self = Num { value, term: Ghost(self.term@.root()) };
        reveal(evaluates);
        r
    }

    pub fn magnitude(self) -> (r: Self)
        requires
            self.ok(),
        ensures
            r.ok(),
            r.term@ == self.term@.magnitude(),
    {
        let value: F = self.value.magnitude();
        assert(mags(self.value, value));
        let r: Self = Num { value, term: Ghost(self.term@.magnitude()) };
        reveal(evaluates);
        r
    }

    pub fn larger(self, b: Self) -> (r: Self)
        requires
            self.ok(),
            b.ok(),
        ensures
            r.ok(),
            r.term@ == self.term@.larger(b.term@),
    {
        let value: F = self.value.larger(b.value);
        assert(maxes(self.value, b.value, value));
        let r: Self = Num { value, term: Ghost(self.term@.larger(b.term@)) };
        reveal(evaluates);
        r
    }

    pub fn smaller(self, b: Self) -> (r: Self)
        requires
            self.ok(),
            b.ok(),
        ensures
            r.ok(),
            r.term@ == self.term@.smaller(b.term@),
    {
        let value: F = self.value.smaller(b.value);
        assert(mins(self.value, b.value, value));
        let r: Self = Num { value, term: Ghost(self.term@.smaller(b.term@)) };
        reveal(evaluates);
        r
    }
}

} // verus!
