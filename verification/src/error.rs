//! Errors that the library reports.

use vstd::prelude::*;

verus! {

#[derive(Debug)]
pub enum SimError<F> {
    /// The block is already part of the simulation.
    DuplicateBlock,
    BlockNotFound,
    ConnectionNotFound,
    EventNotFound,
    /// A connection names a port that its block does not have.
    UnknownPort(String),
    /// A computation inside a block failed while running.
    Runtime(String),
    /// The named kind of block has no linear model.
    NotLinearizable(String),
    /// The interconnection does not determine the internal signals.
    LinearizationIllPosed,
    /// The operating point is not isolated.
    SingularJacobian { time: F },
}

} // verus!
