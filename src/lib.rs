//! Exact pickup-and-delivery vehicle routing for small fleets and order sets.
//!
//! Each vehicle starts at a point and may serve a subset of the orders; each
//! order is picked up and later delivered by one vehicle, within the
//! vehicle's capacity. For each of three objectives (total distance, distance
//! driven with nothing on board, total price) the solver returns an
//! assignment of the orders to vehicles and routes that no other assignment
//! beats.
use vstd::prelude::*;

pub mod assign;
pub mod bits;
pub mod context;
pub mod determinism;
pub mod laws;
pub mod model;
pub mod relabel;
pub mod reorder;
pub mod route;
pub mod search;
pub mod solution;
pub mod solver;
pub mod tsp;
pub mod types;

pub use model::{AlgorithmSolution, Order, Problem, ProblemSolution, RouteStop, Vehicle, VehicleRoute};
pub use route::Criterion;
pub use solver::{solve, solve_brute_force};
