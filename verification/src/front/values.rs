//! Values handed in by scripts: numbers, lists and tables.

use vstd::prelude::*;

use crate::front::arguments::{checked_values, flat, flatten};
use crate::scalar::{zeros, Scalar};
use crate::seqs::copied;

verus! {

/// A value handed in, as far as it can be understood: the first of these forms that
/// it can be read as.
#[derive(Debug)]
pub enum Given<F> {
    Absent,
    Number(F),
    List(Vec<F>),
    Table(Vec<Vec<F>>),
    Other,
}

/// The value is of a form that is not accepted.
#[derive(Debug, Clone, Copy, PartialEq, Eq, Structural)]
pub struct NotAccepted;

/// An initial value: a number or a list; one zero if absent.
pub fn initial_value<F: Scalar>(v: Given<F>) -> (r: Result<Vec<F>, NotAccepted>)
    ensures
        match v {
            Given::Absent => r matches Ok(x) && x@.len() == 1 && zeros(x@[0]),
            Given::Number(f) => r matches Ok(x) && x@ == seq![f],
            Given::List(l) => r matches Ok(x) && x@ == l@,
            Given::Table(_) => r is Err,
            Given::Other => r is Err,
        },
{
    match v {
        Given::Absent => Ok(vec![F::zero()]),
        Given::Number(f) => Ok(vec![f]),
        Given::List(l) => Ok(l),
        Given::Table(_) => Err(NotAccepted),
        Given::Other => Err(NotAccepted),
    }
}

/// A matrix row by row: a number, a list or a table; the default if absent.
pub fn matrix_value<F: Scalar>(v: Given<F>, default: &Vec<F>) -> (r: Result<Vec<F>, NotAccepted>)
    ensures
        match v {
            Given::Absent => r matches Ok(x) && x@ == default@,
            Given::Number(f) => r matches Ok(x) && x@ == seq![f],
            Given::List(l) => r matches Ok(x) && x@ == l@,
            Given::Table(t) => r matches Ok(x) && x@ == flat(t@),
            Given::Other => r is Err,
        },
{
    match v {
        Given::Absent => Ok(copied(default.as_slice())),
        Given::Number(f) => Ok(vec![f]),
        Given::List(l) => Ok(l),
        Given::Table(t) => Ok(flatten(&t)),
        Given::Other => Err(NotAccepted),
    }
}

/// The values that a callback returned; one zero if they cannot be understood.
pub fn returned_values<F: Scalar>(v: Given<F>) -> (r: Vec<F>)
    ensures
        match v {
            Given::Number(f) => r@ == seq![f],
            Given::List(l) => r@ == l@,
            Given::Table(t) => r@ == flat(t@),
            Given::Absent => r@.len() == 1 && zeros(r@[0]),
            Given::Other => r@.len() == 1 && zeros(r@[0]),
        },
{
    match v {
        Given::Number(f) => vec![f],
        Given::List(l) => l,
        Given::Table(t) => flatten(&t),
        Given::Absent => vec![F::zero()],
        Given::Other => vec![F::zero()],
    }
}

/// The derivative that a callback returned, and whether its length is wrong: then
/// zeros stand in for it.
pub fn returned_derivative<F: Scalar>(v: Given<F>, states: usize) -> (r: (Vec<F>, bool))
    ensures
        r.0@.len() == states,
        r.1 ==> forall|i: int| 0 <= i < states ==> zeros(#[trigger] r.0@[i]),
        match v {
            Given::Number(f) => r.1 == (states != 1) && (states == 1 ==> r.0@ == seq![f]),
            Given::List(l) => r.1 == (states != l@.len()) && (states == l@.len() ==> r.0@ == l@),
            Given::Table(t) => r.1 == (states != flat(t@).len()) && (states == flat(t@).len()
                ==> r.0@ == flat(t@)),
            Given::Absent => r.1 == (states != 1) && (states == 1 ==> zeros(r.0@[0])),
            Given::Other => r.1 == (states != 1) && (states == 1 ==> zeros(r.0@[0])),
        },
{
    let values: Vec<F> = returned_values(v);
    checked_values(values, states)
}

} // verus!
