//! Linear and nonlinear solvers.

pub mod agreement;
pub mod anderson;
pub mod booster;
pub mod colloc;
pub mod linsolve;
pub mod lstsq;
pub mod optimizer;
pub mod steps;
