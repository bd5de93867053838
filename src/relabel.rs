//! Reordering the fleet: a vehicle's routes and costs do not depend on its
//! place in the fleet.
use vstd::prelude::*;
use vstd::arithmetic::div_mod::lemma_fundamental_div_mod_converse;
use crate::assign::{vehicle_cost, lemma_vehicle_cost_nonneg, part_cost, union_from, disjoint_from, is_assignment, splits};
use crate::bits::{in_mask, lemma_bits_within};
use crate::context::{TablesView, tables_of};
use crate::model::{Problem, ProblemSolution};
use crate::solution::{solution_ok, describes, total, is_empty_solution};
use crate::solver::{order_ids_of, vehicle_ids_of};
use crate::route::{Criterion, walk, complete, feasible, route_cost, is_min_cost, lemma_min_cost_unique};

verus! {

/// `pi` lists each of `0..n` once.
pub open spec fn is_permutation(pi: Seq<int>, n: int) -> bool {
    &&& pi.len() == n
    &&& forall|i: int| 0 <= i < n ==> 0 <= #[trigger] pi[i] < n
    &&& forall|i: int, j: int| 0 <= i < n && 0 <= j < n && #[trigger] pi[i] == #[trigger] pi[j] ==> i == j
    &&& forall|j: int| 0 <= j < n ==> #[trigger] lists(pi, j)
}

/// Some entry of `pi` is `j`.
pub open spec fn lists(pi: Seq<int>, j: int) -> bool {
    exists|i: int| 0 <= i < pi.len() && #[trigger] pi[i] == j
}

/// `p2` is `p` with its fleet reordered: vehicle `i` of `p2` is vehicle
/// `pi[i]` of `p`.
pub open spec fn vehicles_permuted(p: Problem, p2: Problem, pi: Seq<int>) -> bool {
    &&& p2.orders@ == p.orders@
    &&& p2.num_points == p.num_points
    &&& p2.distances@ == p.distances@
    &&& p2.capacity == p.capacity
    &&& p2.vehicles@.len() == p.vehicles@.len()
    &&& is_permutation(pi, p.vehicles@.len() as int)
    &&& forall|i: int| 0 <= i < pi.len() ==> p2.vehicles@[i] == p.vehicles@[#[trigger] pi[i]]
}

/// Vehicle `i` of the reordered fleet drives as vehicle `pi[i]` did.
pub proof fn lemma_walk_relabel(p: Problem, p2: Problem, pi: Seq<int>, i: int, m: u32, q: Seq<u8>)
    requires
        p.wf(),
        vehicles_permuted(p, p2, pi),
        0 <= i < pi.len(),
    ensures
        walk(tables_of(p2), i, m, q).ok == walk(tables_of(p), pi[i], m, q).ok,
        walk(tables_of(p2), i, m, q).ok ==> walk(tables_of(p2), i, m, q) == walk(tables_of(p), pi[i], m, q),
    decreases q.len(),
{
    let t = tables_of(p);
    let t2 = tables_of(p2);
    assert(t2.dist_mat =~= t.dist_mat);
    assert(t2.loads =~= t.loads);
    if q.len() > 0 {
        lemma_walk_relabel(p, p2, pi, i, m, q.drop_last());
        let n = t.n_orders;
        let k = q.last() as int / 2;
        if q.len() == 1 && 0 <= k < n {
            lemma_fundamental_div_mod_converse(i * n + k, n, i, k);
            lemma_fundamental_div_mod_converse(pi[i] * n + k, n, pi[i], k);
            let nv = pi.len();
            assert(i * n + k < nv * n) by (nonlinear_arith)
                requires 0 <= i < nv, 0 <= k < n;
            assert(pi[i] * n + k < nv * n) by (nonlinear_arith)
                requires 0 <= pi[i] < nv, 0 <= k < n;
        }
    }
}

/// Vehicle `i` of the reordered fleet can serve what vehicle `pi[i]` could,
/// at the same least costs.
pub proof fn lemma_cost_relabel(p: Problem, p2: Problem, pi: Seq<int>, i: int, m: u32, c: Criterion)
    requires
        p.wf(),
        vehicles_permuted(p, p2, pi),
        0 <= i < pi.len(),
    ensures
        feasible(tables_of(p2), i, m) == feasible(tables_of(p), pi[i], m),
        feasible(tables_of(p), pi[i], m) ==> vehicle_cost(tables_of(p2), i, m, c) == vehicle_cost(tables_of(p), pi[i], m, c),
{
    let t = tables_of(p);
    let t2 = tables_of(p2);
    let v = pi[i];
    crate::laws::lemma_tables_wf(p);
    assert(p2.wf()) by {
        assert forall|w: int| 0 <= w < p2.vehicles@.len() implies (#[trigger] p2.vehicles@[w]).start_location < p2.num_points by {
            assert(p2.vehicles@[w] == p.vehicles@[pi[w]]);
        }
    }
    crate::laws::lemma_tables_wf(p2);
    assert forall|q: Seq<u8>| #[trigger] complete(t2, i, m, q) == complete(t, v, m, q)
        && (complete(t, v, m, q) ==> route_cost(t2, i, m, q, c) == route_cost(t, v, m, q, c)) by {
        lemma_walk_relabel(p, p2, pi, i, m, q);
    }
    if feasible(t, v, m) {
        let q = choose|q: Seq<u8>| #[trigger] complete(t, v, m, q);
        assert(complete(t2, i, m, q));
    }
    if feasible(t2, i, m) {
        let q = choose|q: Seq<u8>| #[trigger] complete(t2, i, m, q);
        assert(complete(t, v, m, q));
    }
    if feasible(t, v, m) && m != 0 {
        lemma_vehicle_cost_nonneg(t, v, m, c);
        let x = vehicle_cost(t, v, m, c);
        assert(is_min_cost(t2, i, m, c, x)) by {
            let q = choose|q: Seq<u8>| #[trigger] complete(t, v, m, q) && route_cost(t, v, m, q, c) == x;
            assert(complete(t2, i, m, q));
        }
        lemma_min_cost_unique(t2, i, m, c, x);
    }
}

pub open spec fn sum_of(s: Seq<int>) -> int
    decreases s.len(),
{
    if s.len() == 0 { 0 } else { sum_of(s.drop_last()) + s.last() }
}

proof fn lemma_sum_update(s: Seq<int>, j: int, x: int)
    requires
        0 <= j < s.len(),
    ensures
        sum_of(s.update(j, x)) == sum_of(s) - s[j] + x,
    decreases s.len(),
{
    if j == s.len() - 1 {
        assert(s.update(j, x).drop_last() =~= s.drop_last());
    } else {
        assert(s.update(j, x).drop_last() =~= s.drop_last().update(j, x));
        lemma_sum_update(s.drop_last(), j, x);
    }
}

proof fn lemma_sum_front(x: int, s: Seq<int>)
    ensures
        sum_of(seq![x] + s) == x + sum_of(s),
    decreases s.len(),
{
    if s.len() > 0 {
        assert((seq![x] + s).drop_last() =~= seq![x] + s.drop_last());
        assert((seq![x] + s).last() == s.last());
        lemma_sum_front(x, s.drop_last());
    } else {
        assert(seq![x] + s =~= seq![x]);
        assert(seq![x].drop_last() =~= Seq::<int>::empty());
        assert(sum_of(seq![x]) == sum_of(seq![x].drop_last()) + x);
        assert(sum_of(Seq::<int>::empty()) == 0);
    }
}

/// Summing in another order gives the same sum.
pub proof fn lemma_sum_permuted(f: Seq<int>, pi: Seq<int>)
    requires
        is_permutation(pi, f.len() as int),
    ensures
        sum_of(Seq::new(f.len(), |i: int| f[pi[i]])) == sum_of(f),
    decreases f.len(),
{
    let n = f.len() as int;
    let g = Seq::new(f.len(), |i: int| f[pi[i]]);
    if n > 0 {
        assert(lists(pi, n - 1));
        let j = choose|i: int| 0 <= i < pi.len() && #[trigger] pi[i] == n - 1;
        let pi2 = pi.update(j, pi[n - 1]).drop_last();
        let f2 = f.drop_last();
        assert(is_permutation(pi2, n - 1)) by {
            assert forall|i: int| 0 <= i < n - 1 implies 0 <= #[trigger] pi2[i] < n - 1 by {
                if i != j {
                    assert(pi[i] != pi[j]);
                } else {
                    assert(pi[n - 1] != pi[j]);
                }
            }
            assert forall|i: int, l: int| 0 <= i < n - 1 && 0 <= l < n - 1 && #[trigger] pi2[i] == #[trigger] pi2[l] implies i == l by {
                if i == j && l != j {
                    assert(pi[l] == pi[n - 1]);
                } else if l == j && i != j {
                    assert(pi[i] == pi[n - 1]);
                }
            }
            assert forall|y: int| 0 <= y < n - 1 implies #[trigger] lists(pi2, y) by {
                assert(lists(pi, y));
                let i = choose|i: int| 0 <= i < pi.len() && #[trigger] pi[i] == y;
                if i == n - 1 {
                    assert(pi2[j] == y);
                } else {
                    assert(i != j);
                    assert(pi2[i] == y);
                }
            }
        }
        lemma_sum_permuted(f2, pi2);
        let g2 = Seq::new(f2.len(), |i: int| f2[pi2[i]]);
        if j == n - 1 {
            assert(g2 =~= g.drop_last());
        } else {
            assert(g2 =~= g.update(j, g[n - 1]).drop_last());
            lemma_sum_update(g, j, g[n - 1]);
            assert(g.update(j, g[n - 1]).last() == g[n - 1]);
        }
    } else {
        assert(g =~= Seq::<int>::empty());
    }
}

/// The least cost under `c` of each vehicle for what `a` gives it.
pub open spec fn costs(t: TablesView, a: Seq<u32>, c: Criterion) -> Seq<int> {
    Seq::new(a.len(), |j: int| vehicle_cost(t, j, a[j], c))
}

proof fn lemma_part_cost_sum(t: TablesView, a: Seq<u32>, i: int, c: Criterion)
    requires
        0 <= i <= a.len(),
    ensures
        part_cost(t, a, i, c) == sum_of(costs(t, a, c).subrange(i, a.len() as int)),
    decreases a.len() - i,
{
    let cs = costs(t, a, c);
    if i < a.len() {
        lemma_part_cost_sum(t, a, i + 1, c);
        assert(cs.subrange(i, a.len() as int) =~= seq![cs[i]] + cs.subrange(i + 1, a.len() as int));
        lemma_sum_front(cs[i], cs.subrange(i + 1, a.len() as int));
    } else {
        assert(cs.subrange(i, a.len() as int) =~= Seq::<int>::empty());
    }
}

/// An order belongs to the vehicles `i..` together exactly when it belongs
/// to one of them.
proof fn lemma_union_bits(a: Seq<u32>, i: int, k: u32)
    requires
        0 <= i,
        k < 32,
    ensures
        in_mask(union_from(a, i), k as int) <==> exists|j: int| i <= j < a.len() && #[trigger] in_mask(a[j], k as int),
    decreases a.len() - i,
{
    if i < a.len() {
        lemma_union_bits(a, i + 1, k);
        let x = a[i];
        let y = union_from(a, i + 1);
        crate::bits::lemma_or_bit(x, y, k);
        if in_mask(x, k as int) {
            assert(in_mask(a[i], k as int));
        }
        if exists|j: int| i <= j < a.len() && #[trigger] in_mask(a[j], k as int) {
            let j = choose|j: int| i <= j < a.len() && #[trigger] in_mask(a[j], k as int);
            if j > i {
                assert(exists|j: int| i + 1 <= j < a.len() && #[trigger] in_mask(a[j], k as int));
            }
        }
    } else {
        crate::bits::lemma_no_bits(k);
    }
}

/// No order is given to two of the vehicles `i..` exactly when any two of
/// them share no order.
proof fn lemma_disjoint_pairs(a: Seq<u32>, i: int)
    requires
        0 <= i,
    ensures
        disjoint_from(a, i) <==> forall|j: int, l: int| i <= j < l < a.len() ==> #[trigger] a[j] & #[trigger] a[l] == 0,
    decreases a.len() - i,
{
    if i < a.len() {
        lemma_disjoint_pairs(a, i + 1);
        let x = a[i];
        let y = union_from(a, i + 1);
        crate::bits::lemma_and_zero(x, y);
        assert((x & y == 0) <==> forall|l: int| i < l < a.len() ==> x & #[trigger] a[l] == 0) by {
            assert forall|l: int| i < l < a.len() && x & y == 0 implies x & #[trigger] a[l] == 0 by {
                crate::bits::lemma_and_zero(x, a[l]);
                assert forall|k: u32| k < 32 implies !(#[trigger] in_mask(x, k as int) && in_mask(a[l], k as int)) by {
                    lemma_union_bits(a, i + 1, k);
                }
            }
            if forall|l: int| i < l < a.len() ==> x & #[trigger] a[l] == 0 {
                assert forall|k: u32| k < 32 implies !(#[trigger] in_mask(x, k as int) && in_mask(y, k as int)) by {
                    lemma_union_bits(a, i + 1, k);
                    if in_mask(y, k as int) {
                        let l = choose|l: int| i + 1 <= l < a.len() && #[trigger] in_mask(a[l], k as int);
                        crate::bits::lemma_and_zero(x, a[l]);
                    }
                }
            }
        }
    }
}

/// An assignment for the old fleet, read through `pi`, is one for the
/// reordered fleet, at the same cost under each criterion.
pub proof fn lemma_assignment_relabel(p: Problem, p2: Problem, pi: Seq<int>, a: Seq<u32>, c: Criterion)
    requires
        p.wf(),
        vehicles_permuted(p, p2, pi),
        is_assignment(tables_of(p), a),
    ensures
        is_assignment(tables_of(p2), Seq::new(a.len(), |i: int| a[pi[i]])),
        part_cost(tables_of(p2), Seq::new(a.len(), |i: int| a[pi[i]]), 0, c) == part_cost(tables_of(p), a, 0, c),
{
    let t = tables_of(p);
    let t2 = tables_of(p2);
    let n = a.len() as int;
    let a2 = Seq::new(a.len(), |i: int| a[pi[i]]);
    // the orders given out
    assert forall|k: u32| k < 32 implies #[trigger] in_mask(union_from(a2, 0), k as int) == in_mask(union_from(a, 0), k as int) by {
        lemma_union_bits(a, 0, k);
        lemma_union_bits(a2, 0, k);
        if in_mask(union_from(a, 0), k as int) {
            let j = choose|j: int| 0 <= j < a.len() && #[trigger] in_mask(a[j], k as int);
            assert(lists(pi, j));
            let i = choose|i: int| 0 <= i < pi.len() && #[trigger] pi[i] == j;
            assert(in_mask(a2[i], k as int));
        }
        if in_mask(union_from(a2, 0), k as int) {
            let i = choose|i: int| 0 <= i < a2.len() && #[trigger] in_mask(a2[i], k as int);
            assert(in_mask(a[pi[i]], k as int));
        }
    }
    lemma_bits_within(union_from(a2, 0), union_from(a, 0));
    lemma_bits_within(union_from(a, 0), union_from(a2, 0));
    let u1 = union_from(a, 0);
    let u2 = union_from(a2, 0);
    crate::bits::lemma_mask_facts(u1, u2, 0u32);
    // no order twice
    lemma_disjoint_pairs(a, 0);
    lemma_disjoint_pairs(a2, 0);
    assert forall|j: int, l: int| 0 <= j < l < a2.len() implies #[trigger] a2[j] & #[trigger] a2[l] == 0 by {
        let x = a[pi[j]];
        let y = a[pi[l]];
        assert(pi[j] != pi[l]);
        crate::bits::lemma_mask_facts(x, y, 0u32);
    }
    // each used vehicle can serve its orders, at the same least cost
    assert forall|i: int| 0 <= i < a2.len() implies
        (#[trigger] a2[i] != 0 ==> feasible(t2, i, a2[i]))
        && costs(t2, a2, c)[i] == costs(t, a, c)[pi[i]] by {
        lemma_cost_relabel(p, p2, pi, i, a2[i], c);
    }
    assert(splits(t2, a2, 0, t2.full_mask));
    lemma_part_cost_sum(t, a, 0, c);
    lemma_part_cost_sum(t2, a2, 0, c);
    let f = costs(t, a, c);
    lemma_sum_permuted(f, pi);
    assert(costs(t2, a2, c).subrange(0, n) =~= Seq::new(f.len(), |i: int| f[pi[i]]));
    assert(f.subrange(0, n) =~= f);
}

/// The reordering that undoes `pi`.
pub open spec fn inverse(pi: Seq<int>) -> Seq<int> {
    Seq::new(pi.len(), |j: int| choose|i: int| 0 <= i < pi.len() && #[trigger] pi[i] == j)
}

proof fn lemma_inverse(p: Problem, p2: Problem, pi: Seq<int>)
    requires
        p.wf(),
        vehicles_permuted(p, p2, pi),
    ensures
        p2.wf(),
        vehicles_permuted(p2, p, inverse(pi)),
{
    let n = pi.len() as int;
    let inv = inverse(pi);
    assert forall|j: int| 0 <= j < n implies 0 <= #[trigger] inv[j] < n && pi[inv[j]] == j by {
        assert(lists(pi, j));
    }
    assert forall|j: int, l: int| 0 <= j < n && 0 <= l < n && #[trigger] inv[j] == #[trigger] inv[l] implies j == l by {
        assert(pi[inv[j]] == j);
        assert(pi[inv[l]] == l);
    }
    assert forall|i: int| 0 <= i < n implies #[trigger] lists(inv, i) by {
        let j = pi[i];
        assert(pi[inv[j]] == j);
        assert(inv[j] == i);
    }
    assert forall|j: int| 0 <= j < n implies p.vehicles@[j] == p2.vehicles@[#[trigger] inv[j]] by {
        assert(pi[inv[j]] == j);
    }
    assert(p2.wf()) by {
        assert forall|w: int| 0 <= w < p2.vehicles@.len() implies (#[trigger] p2.vehicles@[w]).start_location < p2.num_points by {
            assert(p2.vehicles@[w] == p.vehicles@[pi[w]]);
        }
    }
}

/// Reordering the fleet changes neither the optimal total under any
/// criterion nor whether the solution is empty; only which vehicle drives
/// which route follows the new order.
pub proof fn lemma_fleet_order_invariant(p: Problem, p2: Problem, pi: Seq<int>, c: Criterion, s: ProblemSolution, s2: ProblemSolution)
    requires
        p.wf(),
        vehicles_permuted(p, p2, pi),
        solution_ok(tables_of(p), order_ids_of(p), vehicle_ids_of(p), c, s),
        solution_ok(tables_of(p2), order_ids_of(p2), vehicle_ids_of(p2), c, s2),
    ensures
        total(s, c) == total(s2, c),
        is_empty_solution(s) == is_empty_solution(s2),
{
    let t = tables_of(p);
    let t2 = tables_of(p2);
    lemma_inverse(p, p2, pi);
    let inv = inverse(pi);
    crate::laws::lemma_tables_wf(p);
    crate::laws::lemma_tables_wf(p2);
    if exists|a: Seq<u32>| #[trigger] is_assignment(t, a) {
        let a1 = choose|a: Seq<u32>| {
            &&& #[trigger] is_assignment(t, a)
            &&& describes(t, order_ids_of(p), vehicle_ids_of(p), a, c, s)
            &&& forall|b: Seq<u32>| #[trigger] is_assignment(t, b) ==> part_cost(t, a, 0, c) <= part_cost(t, b, 0, c)
        };
        lemma_assignment_relabel(p, p2, pi, a1, c);
        let b1 = Seq::new(a1.len(), |i: int| a1[pi[i]]);
        assert(is_assignment(t2, b1));
        let a2 = choose|a: Seq<u32>| {
            &&& #[trigger] is_assignment(t2, a)
            &&& describes(t2, order_ids_of(p2), vehicle_ids_of(p2), a, c, s2)
            &&& forall|b: Seq<u32>| #[trigger] is_assignment(t2, b) ==> part_cost(t2, a, 0, c) <= part_cost(t2, b, 0, c)
        };
        lemma_assignment_relabel(p2, p, inv, a2, c);
        let b2 = Seq::new(a2.len(), |i: int| a2[inv[i]]);
        assert(is_assignment(t, b2));
        assert(part_cost(t, a1, 0, c) <= part_cost(t, b2, 0, c));
        assert(part_cost(t2, a2, 0, c) <= part_cost(t2, b1, 0, c));
        crate::laws::lemma_routes_match_used(t, order_ids_of(p), vehicle_ids_of(p), a1, c, s);
        crate::laws::lemma_routes_match_used(t2, order_ids_of(p2), vehicle_ids_of(p2), a2, c, s2);
    } else if exists|a: Seq<u32>| #[trigger] is_assignment(t2, a) {
        let a2 = choose|a: Seq<u32>| #[trigger] is_assignment(t2, a);
        lemma_assignment_relabel(p2, p, inv, a2, c);
        assert(is_assignment(t, Seq::new(a2.len(), |i: int| a2[inv[i]])));
    }
}

/// The inverse of a reordering is a reordering, and undoes it both ways.
pub proof fn lemma_inverse_perm(pi: Seq<int>, n: int)
    requires
        is_permutation(pi, n),
    ensures
        is_permutation(inverse(pi), n),
        forall|j: int| 0 <= j < n ==> pi[#[trigger] inverse(pi)[j]] == j,
        forall|i: int| 0 <= i < n ==> inverse(pi)[#[trigger] pi[i]] == i,
{
    let inv = inverse(pi);
    assert forall|j: int| 0 <= j < n implies 0 <= #[trigger] inv[j] < n && pi[inv[j]] == j by {
        assert(lists(pi, j));
    }
    assert forall|j: int, l: int| 0 <= j < n && 0 <= l < n && #[trigger] inv[j] == #[trigger] inv[l] implies j == l by {
        assert(pi[inv[j]] == j);
        assert(pi[inv[l]] == l);
    }
    assert forall|i: int| 0 <= i < n implies #[trigger] inv[pi[i]] == i by {
        let j = pi[i];
        assert(pi[inv[j]] == j);
    }
    assert forall|i: int| 0 <= i < n implies #[trigger] lists(inv, i) by {
        assert(inv[pi[i]] == i);
    }
}

} // verus!
