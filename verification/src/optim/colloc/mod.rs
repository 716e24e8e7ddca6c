//! Collocation solver for boundary-value problems with free parameters and
//! conditions at interior points.
//!
//! On each interval of a mesh the solution is the cubic through the values and
//! slopes at both ends, and the equations ask that it meets the differential
//! equation at the midpoint as well. Together with the boundary and interior
//! conditions they are solved by a damped Newton method with the exact Jacobian;
//! the mesh is refined where the cubic misses the differential equation.

pub mod cubic;
pub mod derivative;
pub mod fit;
pub mod interior;
pub mod jacobian;
pub mod mesh;
pub mod misfit;
pub mod newton;
pub mod problem;
pub mod residual;
pub mod search;
pub mod solve;
