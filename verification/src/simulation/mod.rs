//! The simulation engine: which components are evaluated when, how steps are
//! accepted and rejected, and how runs go on and end.
//!
//! Blocks, connections, events and integration engines live in a runtime behind a
//! trait; every call of it is recorded in a log. Contracts say which calls an
//! operation makes, in which order and with which arguments, and what it does with
//! what they return.

pub mod chain;
pub mod create;
pub mod edges;
pub mod evaluate;
pub mod events;
pub mod graph;
pub mod laws;
pub mod listing;
pub mod moments;
pub mod paced;
pub mod reset;
pub mod run;
pub mod runtime;
pub mod signals;
pub mod state;
pub mod steady;
pub mod stepping;
pub mod timestep;
pub mod timing;
pub mod topology;
pub mod trackers;
pub mod update;
