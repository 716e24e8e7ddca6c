//! Verified core of a block-diagram simulator.

pub mod algebra;
pub mod error;
pub mod exact;
pub mod expr;
pub mod front;
pub mod ir;
pub mod linearize;
pub mod matrix;
pub mod model;
pub mod numeric;
pub mod optim;
pub mod scalar;
pub mod scheduling;
pub mod seqs;
pub mod simulation;
pub mod text;
