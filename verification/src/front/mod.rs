//! The rules of the scripting front end: how arguments are read, how callbacks
//! are compiled and called, and what a run reports.

pub mod arguments;
pub mod calls;
pub mod construct;
pub mod jacobian;
pub mod lazy;
pub mod measures;
pub mod options;
pub mod plans;
pub mod session;
pub mod values;
