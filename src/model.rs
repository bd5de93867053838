//! The problem and its solutions.
//!
//! Places are indices into a square table of travel distances between
//! points, in whole distance units. An order's load is given in load units,
//! and a vehicle carries at most `capacity` units at any time. A leg costs
//! its length times the vehicle's rate `price_km`.
use vstd::prelude::*;

verus! {

#[derive(Clone, Debug)]
pub struct Vehicle {
    pub id: u32,
    /// Point where the vehicle starts.
    pub start_location: usize,
    /// Price of one distance unit.
    pub price_km: u32,
}

#[derive(Clone, Debug)]
pub struct Order {
    pub id: u32,
    pub pickup_location: usize,
    pub delivery_location: usize,
    /// Capacity units taken while the order is on board.
    pub load: u32,
}

#[derive(Clone, Debug)]
pub struct Problem {
    pub vehicles: Vec<Vehicle>,
    pub orders: Vec<Order>,
    /// Number of points.
    pub num_points: usize,
    /// `num_points × num_points`, row-major.
    pub distances: Vec<u32>,
    pub capacity: u32,
}

/// The most orders a problem may hold: the memo has a slot for every
/// subset of them.
pub const MAX_ORDERS: usize = 16;

impl Problem {
    /// Point of route node `i`: even nodes are pickups, odd nodes deliveries.
    pub open spec fn node_point(self, i: int) -> int {
        if i % 2 == 0 {
            self.orders@[i / 2].pickup_location as int
        } else {
            self.orders@[i / 2].delivery_location as int
        }
    }

    /// The problem is well formed, and its memo, one slot per vehicle and
    /// subset of orders, can be indexed.
    pub open spec fn wf(self) -> bool {
        &&& self.orders@.len() <= MAX_ORDERS
        &&& self.distances@.len() == self.num_points * self.num_points
        &&& forall|k: int| 0 <= k < self.orders@.len() ==> {
            &&& (#[trigger] self.orders@[k]).pickup_location < self.num_points
            &&& self.orders@[k].delivery_location < self.num_points
        }
        &&& forall|v: int| 0 <= v < self.vehicles@.len() ==> (#[trigger] self.vehicles@[v]).start_location < self.num_points
        &&& self.vehicles@.len() * (crate::bits::full_of(self.orders@.len() as nat) + 1) <= usize::MAX
    }
}

/// A stop of a route: the pickup or the delivery of an order.
#[derive(Clone, Debug, PartialEq, Eq)]
pub struct RouteStop {
    pub order_id: u32,
    /// `"pickup"` or `"delivery"`.
    pub type_: String,
}

/// The stops of one vehicle in order, with the route's length, the length
/// of its legs driven to a pickup with nothing on board, and its price.
#[derive(Clone, Debug, PartialEq, Eq)]
pub struct VehicleRoute {
    pub stops: Vec<RouteStop>,
    pub total_distance: u64,
    pub empty_distance: u64,
    pub total_price: u128,
}

#[derive(Clone, Debug, PartialEq, Eq)]
pub struct ProblemSolution {
    /// Routes of the vehicles that serve orders, with each vehicle's id, in
    /// the order of the fleet.
    pub routes: Vec<(u32, VehicleRoute)>,
    pub total_distance: u64,
    pub empty_distance: u64,
    pub total_price: u128,
}

/// The three optimal solutions: by total distance, by total price and by
/// empty distance.
#[derive(Clone, Debug, PartialEq, Eq)]
pub struct AlgorithmSolution {
    pub best_distance_solution: ProblemSolution,
    pub best_price_solution: ProblemSolution,
    pub best_empty_solution: ProblemSolution,
}

impl Default for ProblemSolution {
    /// No routes and zero totals.
    fn default() -> (s: ProblemSolution)
        ensures
            s.routes@.len() == 0,
            s.total_distance == 0,
            s.empty_distance == 0,
            s.total_price == 0,
    {
        ProblemSolution { routes: Vec::new(), total_distance: 0, empty_distance: 0, total_price: 0 }
    }
}

} // verus!
