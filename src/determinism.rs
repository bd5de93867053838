//! The solver's result is a function of the problem: its contract leaves
//! no choice among equally cheap routes or assignments.
use vstd::prelude::*;
use crate::assign::{is_assignment, part_cost, assign_differs, comes_first};
use crate::context::{TablesView, tables_of};
use crate::model::{Problem, ProblemSolution, VehicleRoute};
use crate::route::{Criterion, walk, complete, route_cost, lemma_walk_bounds};
use crate::solution::{solution_ok, describes, route_ok, route_matches, first_assignment, used_from, sum_dist, sum_empty, sum_price};
use crate::solver::{order_ids_of, vehicle_ids_of};
use crate::tsp::{differs_first, extends, first_cheapest, lemma_next_step};

verus! {

/// A complete route has no complete proper continuation.
proof fn lemma_complete_maximal(t: TablesView, v: int, mask: u32, p: Seq<u8>, q: Seq<u8>)
    requires
        t.wf(),
        0 <= v < t.n_vehicles,
        complete(t, v, mask, p),
        complete(t, v, mask, q),
        extends(q, p),
    ensures
        q == p,
{
    if q.len() > p.len() {
        lemma_next_step(t, v, mask, p, q);
        lemma_walk_bounds(t, v, mask, p);
        let w = walk(t, v, mask, p);
        crate::bits::lemma_mask_facts(w.pick, w.deliv, 0u32);
    }
    assert(q =~= q.take(p.len() as int));
}

/// Two node sequences that differ, neither continuing the other, differ
/// first at some node.
proof fn lemma_first_difference(p: Seq<u8>, q: Seq<u8>, n: int)
    requires
        0 <= n <= p.len(),
        n <= q.len(),
        exists|j: int| 0 <= j < n && p[j] != q[j],
    ensures
        exists|i: int| 0 <= i < n && p[i] != q[i] && #[trigger] p.take(i) == q.take(i),
    decreases n,
{
    if exists|j: int| 0 <= j < n - 1 && p[j] != q[j] {
        lemma_first_difference(p, q, n - 1);
    } else {
        assert(p.take(n - 1) =~= q.take(n - 1));
    }
}

/// Of the cheapest routes under a criterion, exactly one comes first.
pub proof fn lemma_first_cheapest_unique(t: TablesView, v: int, mask: u32, c: Criterion, p1: Seq<u8>, p2: Seq<u8>)
    requires
        t.wf(),
        0 <= v < t.n_vehicles,
        complete(t, v, mask, p1),
        complete(t, v, mask, p2),
        route_cost(t, v, mask, p1, c) == route_cost(t, v, mask, p2, c),
        first_cheapest(t, v, mask, c, p1),
        first_cheapest(t, v, mask, c, p2),
    ensures
        p1 == p2,
{
    let n = if p1.len() < p2.len() { p1.len() as int } else { p2.len() as int };
    if exists|j: int| 0 <= j < n && p1[j] != p2[j] {
        lemma_first_difference(p1, p2, n);
        let i = choose|i: int| 0 <= i < n && p1[i] != p2[i] && #[trigger] p1.take(i) == p2.take(i);
        if p1[i] < p2[i] {
            assert(differs_first(p1, p2, i));
        } else {
            assert(differs_first(p2, p1, i));
        }
    } else if p1.len() <= p2.len() {
        assert(p2.take(p1.len() as int) =~= p1);
        lemma_complete_maximal(t, v, mask, p1, p2);
    } else {
        assert(p1.take(p2.len() as int) =~= p2);
        lemma_complete_maximal(t, v, mask, p2, p1);
    }
}

proof fn lemma_first_difference_masks(a: Seq<u32>, b: Seq<u32>, n: int)
    requires
        0 <= n <= a.len(),
        n <= b.len(),
        exists|j: int| 0 <= j < n && a[j] != b[j],
    ensures
        exists|i: int| 0 <= i < n && a[i] != b[i] && #[trigger] a.take(i) == b.take(i),
    decreases n,
{
    if exists|j: int| 0 <= j < n - 1 && a[j] != b[j] {
        lemma_first_difference_masks(a, b, n - 1);
    } else {
        assert(a.take(n - 1) =~= b.take(n - 1));
    }
}

/// Of the cheapest assignments under a criterion, exactly one is reached
/// first.
pub proof fn lemma_first_assignment_unique(t: TablesView, a1: Seq<u32>, a2: Seq<u32>, c: Criterion)
    requires
        is_assignment(t, a1),
        is_assignment(t, a2),
        part_cost(t, a1, 0, c) == part_cost(t, a2, 0, c),
        first_assignment(t, a1, c),
        first_assignment(t, a2, c),
    ensures
        a1 == a2,
{
    let n = t.n_vehicles;
    if exists|j: int| 0 <= j < n && a1[j] != a2[j] {
        lemma_first_difference_masks(a1, a2, n);
        let i = choose|i: int| 0 <= i < n && a1[i] != a2[i] && #[trigger] a1.take(i) == a2.take(i);
        if comes_first(a1[i], a2[i]) {
            assert(assign_differs(a1, a2, i, n));
        } else {
            assert(assign_differs(a2, a1, i, n));
        }
    }
    assert(a1 =~= a2);
}

/// Two routes with the same stops, one by one, and the same totals.
pub open spec fn same_route(r1: VehicleRoute, r2: VehicleRoute) -> bool {
    &&& r1.stops@.len() == r2.stops@.len()
    &&& forall|i: int| 0 <= i < r1.stops@.len() ==> {
        &&& (#[trigger] r1.stops@[i]).order_id == r2.stops@[i].order_id
        &&& r1.stops@[i].type_@ == r2.stops@[i].type_@
    }
    &&& r1.total_distance == r2.total_distance
    &&& r1.empty_distance == r2.empty_distance
    &&& r1.total_price == r2.total_price
}

/// Two solutions with the same routes under the same vehicle ids, in the
/// same order, and the same totals.
pub open spec fn same_solution(s1: ProblemSolution, s2: ProblemSolution) -> bool {
    &&& s1.routes@.len() == s2.routes@.len()
    &&& forall|i: int| 0 <= i < s1.routes@.len() ==> {
        &&& (#[trigger] s1.routes@[i]).0 == s2.routes@[i].0
        &&& same_route(s1.routes@[i].1, s2.routes@[i].1)
    }
    &&& s1.total_distance == s2.total_distance
    &&& s1.empty_distance == s2.empty_distance
    &&& s1.total_price == s2.total_price
}

proof fn lemma_same_route(t: TablesView, ids: Seq<u32>, v: int, mask: u32, c: Criterion, r1: VehicleRoute, r2: VehicleRoute)
    requires
        t.wf(),
        0 <= v < t.n_vehicles,
        route_ok(t, ids, v, mask, r1, c),
        route_ok(t, ids, v, mask, r2, c),
    ensures
        same_route(r1, r2),
{
    let p1 = choose|p: Seq<u8>| {
        &&& #[trigger] complete(t, v, mask, p)
        &&& route_matches(t, ids, v, mask, p, r1)
        &&& walk(t, v, mask, p).cost(c) == crate::route::min_cost(t, v, mask, c)
        &&& first_cheapest(t, v, mask, c, p)
    };
    let p2 = choose|p: Seq<u8>| {
        &&& #[trigger] complete(t, v, mask, p)
        &&& route_matches(t, ids, v, mask, p, r2)
        &&& walk(t, v, mask, p).cost(c) == crate::route::min_cost(t, v, mask, c)
        &&& first_cheapest(t, v, mask, c, p)
    };
    lemma_first_cheapest_unique(t, v, mask, c, p1, p2);
    assert forall|i: int| 0 <= i < r1.stops@.len() implies {
        &&& (#[trigger] r1.stops@[i]).order_id == r2.stops@[i].order_id
        &&& r1.stops@[i].type_@ == r2.stops@[i].type_@
    } by {
        assert(crate::solution::stop_ok(r1.stops@[i], ids, p1[i]));
        assert(crate::solution::stop_ok(r2.stops@[i], ids, p2[i]));
    }
}

proof fn lemma_same_sums(r1: Seq<(u32, VehicleRoute)>, r2: Seq<(u32, VehicleRoute)>)
    requires
        r1.len() == r2.len(),
        forall|i: int| 0 <= i < r1.len() ==> same_route(#[trigger] r1[i].1, r2[i].1),
    ensures
        sum_dist(r1) == sum_dist(r2),
        sum_empty(r1) == sum_empty(r2),
        sum_price(r1) == sum_price(r2),
    decreases r1.len(),
{
    if r1.len() > 0 {
        let d1 = r1.drop_last();
        let d2 = r2.drop_last();
        assert forall|i: int| 0 <= i < d1.len() implies same_route(#[trigger] d1[i].1, d2[i].1) by {
            assert(d1[i] == r1[i]);
            assert(d2[i] == r2[i]);
        }
        lemma_same_sums(d1, d2);
        assert(same_route(r1[r1.len() - 1].1, r2[r2.len() - 1].1));
    }
}

/// Determinism: two solutions that both meet the solver's contract for the
/// same problem and criterion have the same routes, stops and totals.
pub proof fn lemma_solution_determined(p: Problem, c: Criterion, s1: ProblemSolution, s2: ProblemSolution)
    requires
        p.wf(),
        solution_ok(tables_of(p), order_ids_of(p), vehicle_ids_of(p), c, s1),
        solution_ok(tables_of(p), order_ids_of(p), vehicle_ids_of(p), c, s2),
    ensures
        same_solution(s1, s2),
{
    let t = tables_of(p);
    let oi = order_ids_of(p);
    let vi = vehicle_ids_of(p);
    crate::laws::lemma_tables_wf(p);
    if exists|a: Seq<u32>| #[trigger] is_assignment(t, a) {
        let a1 = choose|a: Seq<u32>| {
            &&& #[trigger] is_assignment(t, a)
            &&& describes(t, oi, vi, a, c, s1)
            &&& forall|b: Seq<u32>| #[trigger] is_assignment(t, b) ==> part_cost(t, a, 0, c) <= part_cost(t, b, 0, c)
            &&& first_assignment(t, a, c)
        };
        let a2 = choose|a: Seq<u32>| {
            &&& #[trigger] is_assignment(t, a)
            &&& describes(t, oi, vi, a, c, s2)
            &&& forall|b: Seq<u32>| #[trigger] is_assignment(t, b) ==> part_cost(t, a, 0, c) <= part_cost(t, b, 0, c)
            &&& first_assignment(t, a, c)
        };
        assert(part_cost(t, a1, 0, c) <= part_cost(t, a2, 0, c));
        assert(part_cost(t, a2, 0, c) <= part_cost(t, a1, 0, c));
        lemma_first_assignment_unique(t, a1, a2, c);
        let used = used_from(t, a1, 0);
        assert forall|i: int| 0 <= i < s1.routes@.len() implies {
            &&& (#[trigger] s1.routes@[i]).0 == s2.routes@[i].0
            &&& same_route(s1.routes@[i].1, s2.routes@[i].1)
        } by {
            lemma_used_in_range(t, a1, 0, i);
            lemma_same_route(t, oi, used[i], a1[used[i]], c, s1.routes@[i].1, s2.routes@[i].1);
        }
        lemma_same_sums(s1.routes@, s2.routes@);
    }
}

/// The vehicles listed as used are vehicles of the fleet.
proof fn lemma_used_in_range(t: TablesView, a: Seq<u32>, k: int, i: int)
    requires
        0 <= k,
        a.len() == t.n_vehicles,
        0 <= i < used_from(t, a, k).len(),
    ensures
        k <= used_from(t, a, k)[i] < t.n_vehicles,
    decreases a.len() - k,
{
    if k < a.len() {
        if a[k] != 0 && crate::route::feasible(t, k, a[k]) {
            if i > 0 {
                lemma_used_in_range(t, a, k + 1, i - 1);
            }
        } else {
            lemma_used_in_range(t, a, k + 1, i);
        }
    }
}

} // verus!
