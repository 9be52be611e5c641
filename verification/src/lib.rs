//! An exact branch-and-bound solver for Quadratic Unconstrained Binary
//! Optimization (QUBO): minimize `x^T Q x + c^T x` over `x` in `{0,1}^n`.
//!
//! Coefficients are integers, so every objective value, every persistence
//! bound and every branching decision is computed exactly and carries a
//! proved contract.  A caller that owns a continuous relaxation oracle can
//! drive the search node by node and feed each node's lower bound back in;
//! the solver's own `solve` runs the search on persistence and leaf
//! evaluation alone.

pub mod api;
pub mod branchbound;
pub mod model;
pub mod persistence;
pub mod problem;
pub mod rng;
