//! Laws of routes and solutions, proved from the definitions that the
//! solver's contracts use.
use vstd::prelude::*;
use crate::assign::{is_assignment, part_cost, union_from, lemma_vehicle_cost_nonneg, lemma_union_zero};
use crate::bits::{in_mask, full_of, lemma_set_bit};
use crate::context::{TablesView, tables_of};
use crate::model::Problem;
use crate::route::{Criterion, walk, complete, feasible, route_cost, lemma_walk_bounds, lemma_prefix};
use crate::solution::{solution_ok, describes, is_empty_solution, used_from, total, route_ok};
use crate::solver::{order_ids_of, vehicle_ids_of};

verus! {

/// How often `x` occurs in `p`.
pub open spec fn occurrences(p: Seq<u8>, x: int) -> nat
    decreases p.len(),
{
    if p.len() == 0 {
        0
    } else {
        occurrences(p.drop_last(), x) + if p.last() as int == x { 1nat } else { 0nat }
    }
}

/// After `p`, order `k` has been picked up once if at all, delivered once
/// if at all, and not delivered before its pickup.
pub open spec fn visits_ok(t: TablesView, v: int, mask: u32, p: Seq<u8>, k: u32) -> bool {
    let w = walk(t, v, mask, p);
    &&& occurrences(p, 2 * k) == (if in_mask(w.pick, k as int) { 1nat } else { 0nat })
    &&& occurrences(p, 2 * k + 1) == (if in_mask(w.deliv, k as int) { 1nat } else { 0nat })
    &&& in_mask(w.pick, k as int) ==> exists|i: int| 0 <= i < p.len() && p[i] as int == 2 * k
    &&& forall|j: int| 0 <= j < p.len() && p[j] as int == 2 * k + 1
        ==> exists|i: int| 0 <= i < j && p[i] as int == 2 * k
}

/// Along an allowed walk, each order has been picked up once if at all,
/// delivered once if at all, and never delivered before its pickup.
proof fn lemma_visits(t: TablesView, v: int, mask: u32, p: Seq<u8>)
    requires
        t.wf(),
        0 <= v < t.n_vehicles,
        walk(t, v, mask, p).ok,
    ensures
        forall|k: u32| k < 16 ==> #[trigger] visits_ok(t, v, mask, p, k),
    decreases p.len(),
{
    if p.len() == 0 {
        assert forall|k: u32| k < 16 implies #[trigger] visits_ok(t, v, mask, p, k) by {
            crate::bits::lemma_no_bits(k);
        }
    } else {
        let q = p.drop_last();
        lemma_visits(t, v, mask, q);
        let s = walk(t, v, mask, q);
        let x = p.last() as int;
        let o = x / 2;
        lemma_walk_bounds(t, v, mask, q);
        lemma_set_bit(s.pick, o as u32);
        lemma_set_bit(s.deliv, o as u32);
        assert forall|k: u32| k < 16 implies #[trigger] visits_ok(t, v, mask, p, k) by {
            let w = walk(t, v, mask, p);
            assert(visits_ok(t, v, mask, q, k));
            assert(occurrences(q, 2 * k) == (if in_mask(s.pick, k as int) { 1nat } else { 0nat }));
            assert(forall|i: int| 0 <= i < q.len() ==> q[i] == p[i]);
            if in_mask(w.pick, k as int) && !(x == 2 * k) {
                assert(in_mask(s.pick, k as int));
                let i = choose|i: int| 0 <= i < q.len() && q[i] as int == 2 * k;
                assert(p[i] as int == 2 * k);
            }
            if x == 2 * k {
                assert(p[p.len() - 1] as int == 2 * k);
            }
            assert forall|j: int| 0 <= j < p.len() && p[j] as int == 2 * k + 1
                implies exists|i: int| 0 <= i < j && p[i] as int == 2 * k by {
                if j < q.len() {
                    assert(q[j] as int == 2 * k + 1);
                    let i = choose|i: int| 0 <= i < j && q[i] as int == 2 * k;
                    assert(p[i] as int == 2 * k);
                } else {
                    assert(x == 2 * k + 1);
                    assert(in_mask(s.pick, k as int));
                    let i = choose|i: int| 0 <= i < q.len() && q[i] as int == 2 * k;
                    assert(p[i] as int == 2 * k);
                }
            }
        }
    }
}

/// A complete route of a vehicle over the orders of `mask` visits only
/// route nodes of those orders; it visits the pickup and the delivery of each
/// of them exactly once, the pickup first, and no node of any other order.
pub proof fn lemma_route_visits_each_order_twice(t: TablesView, v: int, mask: u32, p: Seq<u8>)
    requires
        t.wf(),
        0 <= v < t.n_vehicles,
        complete(t, v, mask, p),
    ensures
        forall|i: int| 0 <= i < p.len() ==> (#[trigger] p[i]) / 2 < t.n_orders,
        forall|k: u32| k < 16 && in_mask(mask, k as int) ==> {
            &&& #[trigger] occurrences(p, 2 * k) == 1
            &&& occurrences(p, 2 * k + 1) == 1
            &&& forall|j: int| 0 <= j < p.len() && p[j] as int == 2 * k + 1
                ==> exists|i: int| 0 <= i < j && p[i] as int == 2 * k
        },
        forall|k: u32| k < 16 && !in_mask(mask, k as int) ==> {
            &&& #[trigger] occurrences(p, 2 * k) == 0
            &&& occurrences(p, 2 * k + 1) == 0
        },
{
    crate::route::lemma_nodes_in_range(t, v, mask, p);
    lemma_visits(t, v, mask, p);
    lemma_walk_bounds(t, v, mask, p);
    let w = walk(t, v, mask, p);
    let pk = w.pick;
    let dl = w.deliv;
    crate::bits::lemma_mask_facts(pk, dl, 0u32);
    assert forall|k: u32| k < 16 && in_mask(mask, k as int) implies {
        &&& #[trigger] occurrences(p, 2 * k) == 1
        &&& occurrences(p, 2 * k + 1) == 1
        &&& forall|j: int| 0 <= j < p.len() && p[j] as int == 2 * k + 1
            ==> exists|i: int| 0 <= i < j && p[i] as int == 2 * k
    } by {
        assert(visits_ok(t, v, mask, p, k));
    }
    assert forall|k: u32| k < 16 && !in_mask(mask, k as int) implies {
        &&& #[trigger] occurrences(p, 2 * k) == 0
        &&& occurrences(p, 2 * k + 1) == 0
    } by {
        assert(visits_ok(t, v, mask, p, k));
    }
}

/// Load units of the first `j` orders that are picked up and not delivered.
pub open spec fn on_board(t: TablesView, pick: u32, deliv: u32, j: nat) -> int
    decreases j,
{
    if j == 0 {
        0
    } else {
        on_board(t, pick, deliv, (j - 1) as nat)
            + if in_mask(pick, j - 1) && !in_mask(deliv, j - 1) { t.loads[j - 1] as int } else { 0 }
    }
}

/// The same orders but `k` are on board under both pairs of masks.
pub open spec fn agree_except(p1: u32, d1: u32, p2: u32, d2: u32, k: int) -> bool {
    forall|l: int| 0 <= l < 32 && l != k ==> (#[trigger] in_mask(p2, l) && !in_mask(d2, l)) == (in_mask(p1, l) && !in_mask(d1, l))
}

/// Changing what is on board for order `k` alone changes the sum by that
/// order's load.
proof fn lemma_on_board_step(t: TablesView, p1: u32, d1: u32, p2: u32, d2: u32, k: int, j: nat)
    requires
        0 <= k,
        j <= 32,
        agree_except(p1, d1, p2, d2, k),
    ensures
        on_board(t, p2, d2, j) == on_board(t, p1, d1, j) + if k < j {
            (if in_mask(p2, k) && !in_mask(d2, k) { t.loads[k] as int } else { 0 })
                - (if in_mask(p1, k) && !in_mask(d1, k) { t.loads[k] as int } else { 0 })
        } else {
            0
        },
    decreases j,
{
    if j > 0 {
        lemma_on_board_step(t, p1, d1, p2, d2, k, (j - 1) as nat);
        let l = j - 1;
        if l != k {
            assert((in_mask(p2, l) && !in_mask(d2, l)) == (in_mask(p1, l) && !in_mask(d1, l)));
        }
    }
}

/// The load of an allowed walk is the sum of the loads picked up and not
/// yet delivered.
pub proof fn lemma_load_on_board(t: TablesView, v: int, mask: u32, p: Seq<u8>)
    requires
        t.wf(),
        0 <= v < t.n_vehicles,
        walk(t, v, mask, p).ok,
    ensures
        walk(t, v, mask, p).load == on_board(t, walk(t, v, mask, p).pick, walk(t, v, mask, p).deliv, t.n_orders as nat),
    decreases p.len(),
{
    let n = t.n_orders as nat;
    if p.len() == 0 {
        assert forall|j: nat| j <= 32 implies #[trigger] on_board(t, 0u32, 0u32, j) == 0 by {
            lemma_on_board_zero(t, j);
        }
    } else {
        let q = p.drop_last();
        lemma_load_on_board(t, v, mask, q);
        let s = walk(t, v, mask, q);
        let w = walk(t, v, mask, p);
        let k = p.last() as int / 2;
        lemma_walk_bounds(t, v, mask, q);
        lemma_set_bit(s.pick, k as u32);
        lemma_set_bit(s.deliv, k as u32);
        crate::bits::lemma_bits_within(s.deliv, s.pick);
        assert forall|l: int| 0 <= l < 32 && l != k implies (#[trigger] in_mask(w.pick, l) && !in_mask(w.deliv, l))
            == (in_mask(s.pick, l) && !in_mask(s.deliv, l)) by {
            assert(in_mask(w.pick, (l as u32) as int) == in_mask(s.pick, (l as u32) as int)
                || in_mask(w.deliv, (l as u32) as int) == in_mask(s.deliv, (l as u32) as int));
        }
        lemma_on_board_step(t, s.pick, s.deliv, w.pick, w.deliv, k, n);
        assert(in_mask(s.deliv, (k as u32) as int) ==> in_mask(s.pick, (k as u32) as int));
    }
}

proof fn lemma_on_board_zero(t: TablesView, j: nat)
    requires
        j <= 32,
    ensures
        on_board(t, 0u32, 0u32, j) == 0,
    decreases j,
{
    if j > 0 {
        lemma_on_board_zero(t, (j - 1) as nat);
        crate::bits::lemma_no_bits((j - 1) as u32);
    }
}

/// On no prefix of an allowed walk do the loads picked up and not yet
/// delivered exceed the capacity.
pub proof fn lemma_route_within_capacity(t: TablesView, v: int, mask: u32, p: Seq<u8>)
    requires
        t.wf(),
        0 <= v < t.n_vehicles,
        walk(t, v, mask, p).ok,
    ensures
        forall|i: int| 0 <= i <= p.len() ==> {
            let w = #[trigger] walk(t, v, mask, p.take(i));
            on_board(t, w.pick, w.deliv, t.n_orders as nat) <= t.capacity
        },
{
    assert forall|i: int| 0 <= i <= p.len() implies {
        let w = #[trigger] walk(t, v, mask, p.take(i));
        on_board(t, w.pick, w.deliv, t.n_orders as nat) <= t.capacity
    } by {
        lemma_prefix(t, v, mask, p, i);
        lemma_walk_bounds(t, v, mask, p.take(i));
        lemma_load_on_board(t, v, mask, p.take(i));
    }
}

/// The tables of a well-formed problem are well formed.
pub proof fn lemma_tables_wf(p: Problem)
    requires
        p.wf(),
    ensures
        tables_of(p).wf(),
{
    let n = p.orders@.len() as int;
    assert(4 * n * n == (2 * n) * (2 * n)) by (nonlinear_arith);
}

/// Cost under `c` of the vehicles `i..` of `b` when each vehicle `v` given
/// orders drives the nodes `qs[v]`.
pub open spec fn paths_cost(t: TablesView, b: Seq<u32>, qs: Seq<Seq<u8>>, i: int, c: Criterion) -> int
    decreases b.len() - i,
{
    if i < 0 || i >= b.len() {
        0
    } else {
        (if b[i] == 0 { 0 } else { route_cost(t, i, b[i], qs[i], c) }) + paths_cost(t, b, qs, i + 1, c)
    }
}

proof fn lemma_part_cost_le_paths(t: TablesView, b: Seq<u32>, qs: Seq<Seq<u8>>, i: int, c: Criterion)
    requires
        t.wf(),
        b.len() == t.n_vehicles,
        qs.len() == b.len(),
        0 <= i,
        forall|v: int| i <= v < b.len() && #[trigger] b[v] != 0 ==> complete(t, v, b[v], qs[v]),
    ensures
        part_cost(t, b, i, c) <= paths_cost(t, b, qs, i, c),
    decreases b.len() - i,
{
    if i < b.len() {
        lemma_part_cost_le_paths(t, b, qs, i + 1, c);
        if b[i] != 0 {
            assert(complete(t, i, b[i], qs[i]));
            assert(feasible(t, i, b[i]));
            lemma_vehicle_cost_nonneg(t, i, b[i], c);
        }
    }
}

/// Optimality: under each criterion, no assignment of all orders to
/// vehicles, with any complete route for each vehicle that gets orders,
/// costs less than the solution reported for that criterion.
pub proof fn lemma_solution_optimal(p: Problem, c: Criterion, s: crate::model::ProblemSolution, b: Seq<u32>, qs: Seq<Seq<u8>>)
    requires
        p.wf(),
        solution_ok(tables_of(p), order_ids_of(p), vehicle_ids_of(p), c, s),
        is_assignment(tables_of(p), b),
        qs.len() == b.len(),
        forall|v: int| 0 <= v < b.len() && #[trigger] b[v] != 0 ==> complete(tables_of(p), v, b[v], qs[v]),
    ensures
        total(s, c) <= paths_cost(tables_of(p), b, qs, 0, c),
{
    let t = tables_of(p);
    lemma_tables_wf(p);
    lemma_part_cost_le_paths(t, b, qs, 0, c);
}

proof fn lemma_used_zero(t: TablesView, a: Seq<u32>, i: int)
    requires
        0 <= i,
        forall|j: int| i <= j < a.len() ==> #[trigger] a[j] == 0,
    ensures
        used_from(t, a, i).len() == 0,
    decreases a.len() - i,
{
    if i < a.len() {
        lemma_used_zero(t, a, i + 1);
    }
}

/// With no orders, each of the three solutions has no route and zero
/// totals, whatever the fleet.
pub proof fn lemma_no_orders(p: Problem, c: Criterion, s: crate::model::ProblemSolution)
    requires
        p.wf(),
        p.orders@.len() == 0,
        solution_ok(tables_of(p), order_ids_of(p), vehicle_ids_of(p), c, s),
    ensures
        is_empty_solution(s),
{
    let t = tables_of(p);
    crate::bits::lemma_full(0);
    if exists|a: Seq<u32>| {
        &&& #[trigger] is_assignment(t, a)
        &&& describes(t, order_ids_of(p), vehicle_ids_of(p), a, c, s)
        &&& forall|b: Seq<u32>| #[trigger] is_assignment(t, b) ==> part_cost(t, a, 0, c) <= part_cost(t, b, 0, c)
    } {
        let a = choose|a: Seq<u32>| {
            &&& #[trigger] is_assignment(t, a)
            &&& describes(t, order_ids_of(p), vehicle_ids_of(p), a, c, s)
            &&& forall|b: Seq<u32>| #[trigger] is_assignment(t, b) ==> part_cost(t, a, 0, c) <= part_cost(t, b, 0, c)
        };
        lemma_union_zero(t, a, 0);
        lemma_used_zero(t, a, 0);
        assert(s.routes@.len() == 0);
    }
}

/// The nodes `0, 1, ..., 2m - 1`: each of the first `m` orders picked up and
/// delivered in turn.
pub open spec fn in_turn(m: nat) -> Seq<u8> {
    Seq::new(2 * m, |i: int| i as u8)
}

proof fn lemma_in_turn(t: TablesView, v: int, m: nat)
    requires
        t.wf(),
        0 <= v < t.n_vehicles,
        m <= t.n_orders,
        forall|k: int| 0 <= k < t.n_orders ==> #[trigger] t.loads[k] <= t.capacity,
    ensures
        walk(t, v, t.full_mask, in_turn(m)).ok,
        walk(t, v, t.full_mask, in_turn(m)).pick == full_of(m),
        walk(t, v, t.full_mask, in_turn(m)).deliv == full_of(m),
        walk(t, v, t.full_mask, in_turn(m)).load == 0,
    decreases m,
{
    let f = t.full_mask;
    if m == 0 {
        crate::bits::lemma_full(0);
        assert(in_turn(0) =~= Seq::<u8>::empty());
    } else {
        let k = (m - 1) as nat;
        lemma_in_turn(t, v, k);
        let q = in_turn(k);
        let q1 = q.push((2 * k) as u8);
        let q2 = in_turn(m);
        assert(q2 =~= q1.push((2 * k + 1) as u8));
        assert(q2.drop_last() =~= q1);
        assert(q1.drop_last() =~= q);
        let ku = k as u32;
        let nu = t.n_orders as u32;
        crate::bits::lemma_full(ku);
        crate::bits::lemma_full((ku + 1) as u32);
        crate::bits::lemma_full(nu);
        assert(((1u32 << ku) - 1) as u32 | (1u32 << ku) == ((1u32 << (ku + 1)) - 1) as u32
            && ((1u32 << ku) - 1) as u32 & (1u32 << ku) == 0) by (bit_vector)
            requires ku < 16;
        assert(in_mask(f, k as int));
        let w0 = walk(t, v, f, q);
        assert(w0.pick == full_of(k));
        assert(!in_mask(w0.pick, k as int));
        assert(((2 * k) as u8) as int / 2 == k);
        assert(((2 * k + 1) as u8) as int / 2 == k);
        assert(((2 * k + 1) as u8) as int % 2 == 1);
        let w1 = walk(t, v, f, q1);
        assert(w1.ok);
        assert(w1.pick == full_of(m));
        assert(in_mask(w1.pick, k as int)) by {
            lemma_set_bit(w0.pick, ku);
        }
        assert(!in_mask(w1.deliv, k as int));
        let w2 = walk(t, v, f, q2);
        assert(w2.ok);
    }
}

/// A vehicle that can carry each order on its own has a route that serves
/// all orders.
pub proof fn lemma_all_fit_feasible(t: TablesView, v: int)
    requires
        t.wf(),
        0 <= v < t.n_vehicles,
        forall|k: int| 0 <= k < t.n_orders ==> #[trigger] t.loads[k] <= t.capacity,
    ensures
        complete(t, v, t.full_mask, in_turn(t.n_orders as nat)),
        feasible(t, v, t.full_mask),
{
    lemma_in_turn(t, v, t.n_orders as nat);
    assert(complete(t, v, t.full_mask, in_turn(t.n_orders as nat)));
}

/// With one vehicle whose capacity takes each order on its own, each of the
/// three solutions gives every order to that vehicle: no route when there
/// are no orders, else one route, under that vehicle's id, that serves all
/// of them.
pub proof fn lemma_single_vehicle(p: Problem, c: Criterion, s: crate::model::ProblemSolution)
    requires
        p.wf(),
        p.vehicles@.len() == 1,
        forall|k: int| 0 <= k < p.orders@.len() ==> (#[trigger] p.orders@[k]).load <= p.capacity,
        solution_ok(tables_of(p), order_ids_of(p), vehicle_ids_of(p), c, s),
    ensures
        p.orders@.len() == 0 ==> is_empty_solution(s),
        p.orders@.len() > 0 ==> {
            &&& s.routes@.len() == 1
            &&& s.routes@[0].0 == p.vehicles@[0].id
            &&& route_ok(tables_of(p), order_ids_of(p), 0, tables_of(p).full_mask, s.routes@[0].1, c)
        },
{
    let t = tables_of(p);
    lemma_tables_wf(p);
    if p.orders@.len() == 0 {
        lemma_no_orders(p, c, s);
    } else {
        assert forall|k: int| 0 <= k < t.n_orders implies #[trigger] t.loads[k] <= t.capacity by {
            assert(p.orders@[k].load <= p.capacity);
        }
        lemma_all_fit_feasible(t, 0);
        let one = seq![t.full_mask];
        assert(union_from(one, 1) == 0);
        crate::bits::lemma_mask_facts(t.full_mask, 0u32, 0u32);
        assert(one.len() == t.n_vehicles);
        assert(crate::assign::disjoint_from(one, 1));
        assert(crate::assign::disjoint_from(one, 0));
        assert(union_from(one, 0) == t.full_mask);
        assert(crate::assign::servable_from(t, one, 0));
        assert(is_assignment(t, one));
        let a = choose|a: Seq<u32>| {
            &&& #[trigger] is_assignment(t, a)
            &&& describes(t, order_ids_of(p), vehicle_ids_of(p), a, c, s)
            &&& forall|b: Seq<u32>| #[trigger] is_assignment(t, b) ==> part_cost(t, a, 0, c) <= part_cost(t, b, 0, c)
        };
        let f = t.full_mask;
        assert(union_from(a, 1) == 0);
        crate::bits::lemma_mask_facts(a[0], 0u32, 0u32);
        assert(a[0] == f);
        crate::bits::lemma_full(t.n_orders as u32);
        assert(f != 0);
        assert(used_from(t, a, 1) =~= Seq::<int>::empty());
        assert(used_from(t, a, 0) =~= seq![0int]);
    }
}

/// The optimal total under a criterion is a function of the problem: two
/// solutions that are both optimal under `c` for the same problem have the
/// same total under `c`, and are both empty or both not.
pub proof fn lemma_optimal_total_unique(p: Problem, c: Criterion, s1: crate::model::ProblemSolution, s2: crate::model::ProblemSolution)
    requires
        p.wf(),
        solution_ok(tables_of(p), order_ids_of(p), vehicle_ids_of(p), c, s1),
        solution_ok(tables_of(p), order_ids_of(p), vehicle_ids_of(p), c, s2),
    ensures
        total(s1, c) == total(s2, c),
        is_empty_solution(s1) == is_empty_solution(s2),
{
    let t = tables_of(p);
    let oi = order_ids_of(p);
    let vi = vehicle_ids_of(p);
    lemma_tables_wf(p);
    if exists|a: Seq<u32>| #[trigger] is_assignment(t, a) {
        let a1 = choose|a: Seq<u32>| {
            &&& #[trigger] is_assignment(t, a)
            &&& describes(t, oi, vi, a, c, s1)
            &&& forall|b: Seq<u32>| #[trigger] is_assignment(t, b) ==> part_cost(t, a, 0, c) <= part_cost(t, b, 0, c)
        };
        let a2 = choose|a: Seq<u32>| {
            &&& #[trigger] is_assignment(t, a)
            &&& describes(t, oi, vi, a, c, s2)
            &&& forall|b: Seq<u32>| #[trigger] is_assignment(t, b) ==> part_cost(t, a, 0, c) <= part_cost(t, b, 0, c)
        };
        assert(part_cost(t, a1, 0, c) <= part_cost(t, a2, 0, c));
        assert(part_cost(t, a2, 0, c) <= part_cost(t, a1, 0, c));
        lemma_routes_match_used(t, oi, vi, a1, c, s1);
        lemma_routes_match_used(t, oi, vi, a2, c, s2);
    }
}

/// A solution that describes an assignment is empty exactly when the
/// assignment gives no vehicle any order.
pub proof fn lemma_routes_match_used(t: TablesView, oi: Seq<u32>, vi: Seq<u32>, a: Seq<u32>, c: Criterion, s: crate::model::ProblemSolution)
    requires
        t.wf(),
        is_assignment(t, a),
        describes(t, oi, vi, a, c, s),
    ensures
        is_empty_solution(s) <==> t.full_mask == 0,
{
    if t.full_mask == 0 {
        lemma_union_zero(t, a, 0);
        lemma_used_zero(t, a, 0);
    } else {
        lemma_used_nonzero(t, a, 0);
    }
}

/// Vehicles `i..` that together get some order include a used one.
proof fn lemma_used_nonzero(t: TablesView, a: Seq<u32>, i: int)
    requires
        0 <= i,
        crate::assign::servable_from(t, a, i),
        union_from(a, i) != 0,
    ensures
        used_from(t, a, i).len() > 0,
    decreases a.len() - i,
{
    if i < a.len() && a[i] == 0 {
        let y = union_from(a, i + 1);
        crate::bits::lemma_mask_facts(y, 0u32, 0u32);
        lemma_used_nonzero(t, a, i + 1);
    }
}

} // verus!
