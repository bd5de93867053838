//! The entry point: search, then turn the winning assignments into routes.
use vstd::prelude::*;
use crate::assign::{is_assignment, part_cost, union_from, disjoint_from, vehicle_cost, lemma_union_split, lemma_zero_tail, lemma_part_cost_bound, lemma_complete_bounds};
use crate::bits::within;
use crate::context::{SolverContext, tables_of};
use crate::model::{Problem, RouteStop, VehicleRoute, ProblemSolution, AlgorithmSolution};
use crate::route::{Criterion, lemma_min_cost_unique, lemma_nodes_in_range};
use crate::search::solve_recursive;
use crate::assign::{assign_before, assign_differs};
use crate::solution::{first_assignment, stop_ok, route_matches, route_ok, used_from, sum_dist, sum_empty, sum_price,
    total, describes, solution_ok, is_empty_solution};
use crate::tsp::{solve_tsp, key, DIST_NONE, PRICE_NONE};
use crate::types::PathBuffer;

verus! {

/// The stops of a route: even nodes are pickups, odd nodes deliveries, of the
/// order `node / 2`.
fn build_stops(order_ids: &Vec<u32>, path: &PathBuffer) -> (stops: Vec<RouteStop>)
    requires
        forall|i: int| 0 <= i < path@.len() ==> (#[trigger] path@[i]) / 2 < order_ids@.len(),
    ensures
        stops@.len() == path@.len(),
        forall|i: int| 0 <= i < path@.len() ==> stop_ok(#[trigger] stops@[i], order_ids@, path@[i]),
{
    let mut stops: Vec<RouteStop> = Vec::new();
    let mut i: usize = 0;
    while i < path.nodes.len()
        invariant
            i <= path@.len(),
            forall|j: int| 0 <= j < path@.len() ==> (#[trigger] path@[j]) / 2 < order_ids@.len(),
            stops@.len() == i,
            forall|j: int| 0 <= j < i ==> stop_ok(#[trigger] stops@[j], order_ids@, path@[j]),
        decreases path@.len() - i,
    {
        let node = path.nodes[i];
        let order_id = order_ids[(node / 2) as usize];
        let type_ = if node % 2 == 0 { "pickup".to_owned() } else { "delivery".to_owned() };
        stops.push(RouteStop { order_id, type_ });
        i = i + 1;
    }
    stops
}

pub open spec fn order_ids_of(p: Problem) -> Seq<u32> {
    Seq::new(p.orders@.len(), |k: int| p.orders@[k].id)
}

pub open spec fn vehicle_ids_of(p: Problem) -> Seq<u32> {
    Seq::new(p.vehicles@.len(), |v: int| p.vehicles@[v].id)
}

/// The routes of `assignments`: each vehicle given orders it can serve, in
/// fleet order, on the route that the per-vehicle search keeps for
/// `criterion`; vehicles given nothing, or orders they cannot serve, are
/// left out.
#[verifier::rlimit(60)]
pub fn reconstruct_solution(ctx: &mut SolverContext, assignments: &Vec<u32>, criterion: Criterion) -> (s: ProblemSolution)
    requires
        old(ctx).wf(),
        assignments@.len() == old(ctx).t().n_vehicles,
        disjoint_from(assignments@, 0),
        within(union_from(assignments@, 0), old(ctx).tables.full_mask),
    ensures
        final(ctx).wf(),
        final(ctx).same_problem(*old(ctx)),
        final(ctx).best_dist == old(ctx).best_dist,
        final(ctx).best_price == old(ctx).best_price,
        final(ctx).best_empty == old(ctx).best_empty,
        final(ctx).best_dist_assignments == old(ctx).best_dist_assignments,
        final(ctx).best_price_assignments == old(ctx).best_price_assignments,
        final(ctx).best_empty_assignments == old(ctx).best_empty_assignments,
        describes(old(ctx).t(), old(ctx).order_ids@, old(ctx).vehicle_ids@, assignments@, criterion, s),
{
    let ghost t = ctx.t();
    let ghost a = assignments@;
    let ghost ctx0 = *ctx;
    let ghost full = t.full_mask;
    let mut routes: Vec<(u32, VehicleRoute)> = Vec::new();
    let mut total_distance: u64 = 0;
    let mut empty_distance: u64 = 0;
    let mut total_price: u128 = 0;
    let ghost mut done: Seq<int> = Seq::empty();
    let nv = ctx.tables.n_vehicles;
    proof {
        crate::bits::lemma_full(t.n_orders as u32);
        crate::tsp::lemma_within_le(union_from(a, 0), full);
    }
    let mut v: usize = 0;
    while v < nv
        invariant
            ctx.wf(),
            ctx.same_problem(ctx0),
            t == ctx.t(),
            nv == t.n_vehicles,
            a == assignments@,
            a.len() == nv,
            full == t.full_mask,
            full < 65536,
            ctx.best_dist == ctx0.best_dist,
            ctx.best_price == ctx0.best_price,
            ctx.best_empty == ctx0.best_empty,
            ctx.best_dist_assignments == ctx0.best_dist_assignments,
            ctx.best_price_assignments == ctx0.best_price_assignments,
            ctx.best_empty_assignments == ctx0.best_empty_assignments,
            v <= nv,
            disjoint_from(a, v as int),
            within(union_from(a, v as int), full),
            used_from(t, a, 0) == done + used_from(t, a, v as int),
            routes@.len() == done.len(),
            forall|i: int| 0 <= i < done.len() ==> 0 <= #[trigger] done[i] < v,
            forall|i: int| 0 <= i < done.len() ==> {
                &&& (#[trigger] routes@[i]).0 == ctx0.vehicle_ids@[done[i]]
                &&& route_ok(t, ctx0.order_ids@, done[i], a[done[i]], routes@[i].1, criterion)
            },
            total_distance == sum_dist(routes@),
            empty_distance == sum_empty(routes@),
            total_price == sum_price(routes@),
            total_distance <= (full - union_from(a, v as int)) * 0x2_0000_0000,
            empty_distance <= total_distance,
            total_price <= (full - union_from(a, v as int)) * 0x2_0000_0000_0000_0000,
            is_assignment(t, a) ==> ({
                let sol = ProblemSolution { routes, total_distance, empty_distance, total_price };
                total(sol, criterion) == part_cost(t, a, 0, criterion) - part_cost(t, a, v as int, criterion)
            }),
        decreases nv - v,
    {
        let mask = assignments[v];
        let ghost vi = v as int;
        proof {
            lemma_union_split(a, vi);
            crate::tsp::lemma_within_le(union_from(a, vi), full);
            assert(within(mask, full)) by {
                let u = union_from(a, vi);
                crate::bits::lemma_mask_facts(mask, u, full);
            }
            assert(within(union_from(a, vi + 1), full)) by {
                let u = union_from(a, vi);
                let w = union_from(a, vi + 1);
                crate::bits::lemma_mask_facts(w, u, full);
            }
            assert(part_cost(t, a, vi, criterion) == vehicle_cost(t, vi, mask, criterion) + part_cost(t, a, vi + 1, criterion));
        }
        if mask > 0 {
            let res = solve_tsp(ctx, v, mask);
            if res.valid {
            let chosen = match criterion {
                Criterion::Distance => &res.min_dist,
                Criterion::Price => &res.min_price,
                Criterion::Empty => &res.min_empty,
            };
            let ghost p = chosen.path@;
            proof {
                lemma_nodes_in_range(t, vi, mask, p);
                lemma_complete_bounds(t, vi, mask, p);
                lemma_min_cost_unique(t, vi, mask, criterion, key(*chosen, criterion));
            }
            let stops = build_stops(&ctx.order_ids, &chosen.path);
            let route = VehicleRoute {
                stops,
                total_distance: chosen.total_dist,
                empty_distance: chosen.total_empty,
                total_price: chosen.total_price,
            };
            proof {
                assert(route_matches(t, ctx0.order_ids@, vi, mask, p, route));
                assert(route_ok(t, ctx0.order_ids@, vi, mask, route, criterion));
            }
            total_distance = total_distance + route.total_distance;
            total_price = total_price + route.total_price;
            empty_distance = empty_distance + route.empty_distance;
            let ghost routes0 = routes@;
            let vid = ctx.vehicle_ids[v];
            routes.push((vid, route));
            proof {
                assert(routes@.drop_last() =~= routes0);
                assert(used_from(t, a, vi) == seq![vi] + used_from(t, a, vi + 1));
                assert(done + used_from(t, a, vi) =~= done.push(vi) + used_from(t, a, vi + 1));
                let ghost done0 = done;
                done = done.push(vi);
                assert forall|i: int| 0 <= i < done.len() implies 0 <= #[trigger] done[i] < v + 1 by {
                    if i < done0.len() {
                        assert(done[i] == done0[i]);
                    }
                }
                assert forall|i: int| 0 <= i < done.len() implies {
                    &&& (#[trigger] routes@[i]).0 == ctx0.vehicle_ids@[done[i]]
                    &&& route_ok(t, ctx0.order_ids@, done[i], a[done[i]], routes@[i].1, criterion)
                } by {
                    if i < done0.len() {
                        assert(routes@[i] == routes0[i]);
                    }
                }
            }
            } else {
                proof {
                    assert(used_from(t, a, vi) == used_from(t, a, vi + 1));
                }
            }
        } else {
            proof {
                assert(used_from(t, a, vi) == used_from(t, a, vi + 1));
            }
        }
        v = v + 1;
    }
    proof {
        assert(used_from(t, a, nv as int) == Seq::<int>::empty());
        assert(done =~= used_from(t, a, 0));
    }
    ProblemSolution { routes, total_distance, empty_distance, total_price }
}

/// The three optimal solutions of `problem`: cheapest in total distance, in
/// total price and in empty distance.
#[verifier::rlimit(60)]
pub fn solve(problem: Problem) -> (r: AlgorithmSolution)
    requires
        problem.wf(),
    ensures
        solution_ok(tables_of(problem), order_ids_of(problem), vehicle_ids_of(problem), Criterion::Distance, r.best_distance_solution),
        solution_ok(tables_of(problem), order_ids_of(problem), vehicle_ids_of(problem), Criterion::Price, r.best_price_solution),
        solution_ok(tables_of(problem), order_ids_of(problem), vehicle_ids_of(problem), Criterion::Empty, r.best_empty_solution),
{
    let mut ctx = SolverContext::new(&problem);
    let ghost t = ctx.t();
    let nv = problem.vehicles.len();
    let mut assignments: Vec<u32> = Vec::new();
    while assignments.len() < nv
        invariant
            assignments@.len() <= nv,
            forall|j: int| 0 <= j < assignments@.len() ==> #[trigger] assignments@[j] == 0,
        decreases nv - assignments@.len(),
    {
        assignments.push(0);
    }
    let ghost a0 = assignments@;
    proof {
        crate::bits::lemma_mask_facts(t.full_mask, 0u32, 0u32);
        lemma_zero_tail(t, a0, 0);
        assert(ctx.best_dist_assignments@.len() == nv);
        assert forall|b: Seq<u32>| !assign_before(b, a0, 0) by {
            if assign_before(b, a0, 0) {
                let i = choose|i: int| #[trigger] assign_differs(b, a0, i, 0);
            }
        }
    }
    solve_recursive(&mut ctx, 0, 0, 0, 0, 0, &mut assignments);
    let ghost full = t.full_mask;
    proof {
        crate::bits::lemma_mask_facts(full, 0u32, 0u32);
        crate::bits::lemma_full(t.n_orders as u32);
        assert forall|b: Seq<u32>| #[trigger] is_assignment(t, b) implies ctx.settles(b) by {
            assert(b.take(0) =~= a0.take(0));
        }
    }
    let best_dist_vec = crate::search::copy_assignments(&ctx.best_dist_assignments);
    let best_price_vec = crate::search::copy_assignments(&ctx.best_price_assignments);
    let best_empty_vec = crate::search::copy_assignments(&ctx.best_empty_assignments);
    let ghost ids_o = ctx.order_ids@;
    let ghost ids_v = ctx.vehicle_ids@;
    let ghost c1 = ctx;
    proof {
        assert(ids_o =~= order_ids_of(problem));
        assert(ids_v =~= vehicle_ids_of(problem));
        assert forall|a: Seq<u32>| #[trigger] is_assignment(t, a) implies {
            &&& ctx.best_dist < DIST_NONE
            &&& ctx.best_empty < DIST_NONE
            &&& ctx.best_price < PRICE_NONE
        } by {
            lemma_part_cost_bound(t, a, 0, full);
            assert(ctx.settles(a));
        }
    }

    let dist_sol = if ctx.best_dist < DIST_NONE {
        reconstruct_solution(&mut ctx, &best_dist_vec, Criterion::Distance)
    } else {
        ProblemSolution::default()
    };
    proof {
        assert(solution_ok(t, ids_o, ids_v, Criterion::Distance, dist_sol)) by {
            if c1.best_dist >= DIST_NONE {
                assert(is_empty_solution(dist_sol));
            } else {
                let ka = best_dist_vec@;
                assert(is_assignment(t, ka));
                assert(forall|b: Seq<u32>| #[trigger] is_assignment(t, b) ==> c1.settles(b));
                assert(first_assignment(t, ka, Criterion::Distance));
            }
        }
    }
    let price_sol = if ctx.best_price < PRICE_NONE {
        reconstruct_solution(&mut ctx, &best_price_vec, Criterion::Price)
    } else {
        ProblemSolution::default()
    };
    proof {
        assert(solution_ok(t, ids_o, ids_v, Criterion::Price, price_sol)) by {
            if c1.best_price >= PRICE_NONE {
                assert(is_empty_solution(price_sol));
            } else {
                let ka = best_price_vec@;
                assert(is_assignment(t, ka));
                assert(forall|b: Seq<u32>| #[trigger] is_assignment(t, b) ==> c1.settles(b));
                assert(first_assignment(t, ka, Criterion::Price));
            }
        }
    }
    let empty_sol = if ctx.best_empty < DIST_NONE {
        reconstruct_solution(&mut ctx, &best_empty_vec, Criterion::Empty)
    } else {
        ProblemSolution::default()
    };
    proof {
        assert(solution_ok(t, ids_o, ids_v, Criterion::Empty, empty_sol)) by {
            if c1.best_empty >= DIST_NONE {
                assert(is_empty_solution(empty_sol));
            } else {
                let ka = best_empty_vec@;
                assert(is_assignment(t, ka));
                assert(forall|b: Seq<u32>| #[trigger] is_assignment(t, b) ==> c1.settles(b));
                assert(first_assignment(t, ka, Criterion::Empty));
            }
        }
    }
    AlgorithmSolution {
        best_distance_solution: dist_sol,
        best_price_solution: price_sol,
        best_empty_solution: empty_sol,
    }
}

/// The same as [`solve`], under the name the solver is exported by.
pub fn solve_brute_force(problem: Problem) -> (r: AlgorithmSolution)
    requires
        problem.wf(),
    ensures
        solution_ok(tables_of(problem), order_ids_of(problem), vehicle_ids_of(problem), Criterion::Distance, r.best_distance_solution),
        solution_ok(tables_of(problem), order_ids_of(problem), vehicle_ids_of(problem), Criterion::Price, r.best_price_solution),
        solution_ok(tables_of(problem), order_ids_of(problem), vehicle_ids_of(problem), Criterion::Empty, r.best_empty_solution),
{
    solve(problem)
}

} // verus!
