//! Linear models around an operating point: those of single blocks, and their
//! assembly into one model of an interconnected diagram.

pub mod assembly;
pub mod global;
pub mod labels;
pub mod laws;
pub mod local;
pub mod response;
pub mod solve;
pub mod wiring;
