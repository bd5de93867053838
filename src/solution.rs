//! What a reported solution must hold.
use vstd::prelude::*;
use crate::assign::{is_assignment, part_cost};
use crate::context::TablesView;
use crate::model::{RouteStop, VehicleRoute, ProblemSolution};
use crate::route::{Criterion, complete, walk, min_cost, feasible};
use crate::tsp::first_cheapest;
use crate::assign::assign_before;

verus! {

/// Stop `s` is node `node` of a route: the pickup (even node) or delivery
/// (odd node) of order `node / 2`, whose id `ids` gives.
pub open spec fn stop_ok(s: RouteStop, ids: Seq<u32>, node: u8) -> bool {
    &&& s.order_id == ids[node as int / 2]
    &&& s.type_@ == (if node % 2 == 0 { "pickup"@ } else { "delivery"@ })
}

/// The stops of `r` are the nodes `p`, and its totals are their costs.
pub open spec fn route_matches(t: TablesView, ids: Seq<u32>, v: int, mask: u32, p: Seq<u8>, r: VehicleRoute) -> bool {
    &&& r.stops@.len() == p.len()
    &&& forall|i: int| 0 <= i < p.len() ==> stop_ok(#[trigger] r.stops@[i], ids, p[i])
    &&& r.total_distance == walk(t, v, mask, p).dist
    &&& r.empty_distance == walk(t, v, mask, p).empty
    &&& r.total_price == walk(t, v, mask, p).price
}

/// `r` is the route of vehicle `v` over `mask` that the search keeps under
/// `c`: a cheapest one, and of those the first found.
pub open spec fn route_ok(t: TablesView, ids: Seq<u32>, v: int, mask: u32, r: VehicleRoute, c: Criterion) -> bool {
    exists|p: Seq<u8>| {
        &&& #[trigger] complete(t, v, mask, p)
        &&& route_matches(t, ids, v, mask, p, r)
        &&& walk(t, v, mask, p).cost(c) == min_cost(t, v, mask, c)
        &&& first_cheapest(t, v, mask, c, p)
    }
}

/// The vehicles from `i` on that `a` gives orders they can serve, in fleet
/// order.
pub open spec fn used_from(t: TablesView, a: Seq<u32>, i: int) -> Seq<int>
    decreases a.len() - i,
{
    if i < 0 || i >= a.len() {
        Seq::empty()
    } else if a[i] != 0 && feasible(t, i, a[i]) {
        seq![i] + used_from(t, a, i + 1)
    } else {
        used_from(t, a, i + 1)
    }
}

pub open spec fn sum_dist(r: Seq<(u32, VehicleRoute)>) -> int
    decreases r.len(),
{
    if r.len() == 0 { 0 } else { sum_dist(r.drop_last()) + r.last().1.total_distance }
}

pub open spec fn sum_empty(r: Seq<(u32, VehicleRoute)>) -> int
    decreases r.len(),
{
    if r.len() == 0 { 0 } else { sum_empty(r.drop_last()) + r.last().1.empty_distance }
}

pub open spec fn sum_price(r: Seq<(u32, VehicleRoute)>) -> int
    decreases r.len(),
{
    if r.len() == 0 { 0 } else { sum_price(r.drop_last()) + r.last().1.total_price }
}

/// The totals of `s` are the sums over its routes.
pub open spec fn totals_ok(s: ProblemSolution) -> bool {
    &&& s.total_distance == sum_dist(s.routes@)
    &&& s.empty_distance == sum_empty(s.routes@)
    &&& s.total_price == sum_price(s.routes@)
}

pub open spec fn total(s: ProblemSolution, c: Criterion) -> int {
    match c {
        Criterion::Distance => s.total_distance as int,
        Criterion::Empty => s.empty_distance as int,
        Criterion::Price => s.total_price as int,
    }
}

/// `s` is the assignment `a` with each vehicle that `a` gives orders it can
/// serve on the route kept for it under `c`: one route per such vehicle, in
/// fleet order, under that vehicle's id.
pub open spec fn describes(t: TablesView, order_ids: Seq<u32>, vehicle_ids: Seq<u32>, a: Seq<u32>, c: Criterion, s: ProblemSolution) -> bool {
    let used = used_from(t, a, 0);
    &&& s.routes@.len() == used.len()
    &&& forall|i: int| 0 <= i < used.len() ==> {
        &&& (#[trigger] s.routes@[i]).0 == vehicle_ids[used[i]]
        &&& route_ok(t, order_ids, used[i], a[used[i]], s.routes@[i].1, c)
    }
    &&& totals_ok(s)
    &&& is_assignment(t, a) ==> total(s, c) == part_cost(t, a, 0, c)
}

/// No assignment as cheap as `a` under `c` is reached before it by the
/// search.
pub open spec fn first_assignment(t: TablesView, a: Seq<u32>, c: Criterion) -> bool {
    forall|b: Seq<u32>| #[trigger] is_assignment(t, b) && part_cost(t, b, 0, c) == part_cost(t, a, 0, c)
        ==> !assign_before(b, a, t.n_vehicles)
}

pub open spec fn is_empty_solution(s: ProblemSolution) -> bool {
    &&& s.routes@.len() == 0
    &&& s.total_distance == 0
    &&& s.empty_distance == 0
    &&& s.total_price == 0
}

/// `s` is the solution kept under `c`: it describes the assignment of all
/// orders that no other beats under `c` and that the search reaches first
/// among the equally cheap, or it is empty and there is no assignment at
/// all.
pub open spec fn solution_ok(t: TablesView, order_ids: Seq<u32>, vehicle_ids: Seq<u32>, c: Criterion, s: ProblemSolution) -> bool {
    ||| exists|a: Seq<u32>| {
        &&& #[trigger] is_assignment(t, a)
        &&& describes(t, order_ids, vehicle_ids, a, c, s)
        &&& forall|b: Seq<u32>| #[trigger] is_assignment(t, b) ==> part_cost(t, a, 0, c) <= part_cost(t, b, 0, c)
        &&& first_assignment(t, a, c)
    }
    ||| {
        &&& forall|a: Seq<u32>| !(#[trigger] is_assignment(t, a))
        &&& is_empty_solution(s)
    }
}

} // verus!
