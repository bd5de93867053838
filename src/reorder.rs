//! Reordering the orders: renumbering the orders renumbers route nodes and
//! masks, and changes no cost.
use vstd::prelude::*;
use vstd::arithmetic::div_mod::lemma_fundamental_div_mod_converse;
use crate::bits::{in_mask, within, full_of, lemma_set_bit, lemma_bits_within, lemma_no_bits};
use crate::context::{tables_of};
use crate::model::{Problem, ProblemSolution};
use crate::solution::{solution_ok, describes, total, is_empty_solution};
use crate::solver::{order_ids_of, vehicle_ids_of};
use crate::relabel::{is_permutation, inverse, lemma_inverse_perm};
use crate::bits::{lemma_same_bits, lemma_full, lemma_mask_facts};
use crate::route::{Criterion, walk, bit, last_leg, lemma_walk_bounds, complete, feasible, route_cost, is_min_cost, lemma_min_cost_unique};
use crate::assign::{vehicle_cost, lemma_vehicle_cost_nonneg, part_cost, union_from, disjoint_from, is_assignment};

verus! {

/// `p2` is `p` with its orders renumbered: order `i` of `p2` is order
/// `sg[i]` of `p`.
pub open spec fn orders_permuted(p: Problem, p2: Problem, sg: Seq<int>) -> bool {
    &&& p2.vehicles@ == p.vehicles@
    &&& p2.num_points == p.num_points
    &&& p2.distances@ == p.distances@
    &&& p2.capacity == p.capacity
    &&& p2.orders@.len() == p.orders@.len()
    &&& is_permutation(sg, p.orders@.len() as int)
    &&& forall|i: int| 0 <= i < sg.len() ==> p2.orders@[i] == p.orders@[#[trigger] sg[i]]
}

/// Node `x` of the renumbered orders in the old numbering.
pub open spec fn node_map(sg: Seq<int>, x: u8) -> u8 {
    (2 * sg[x as int / 2] + x as int % 2) as u8
}

pub open spec fn route_map(sg: Seq<int>, q: Seq<u8>) -> Seq<u8> {
    Seq::new(q.len(), |j: int| node_map(sg, q[j]))
}

/// The bits below `j` of the mask whose bit `l` is bit `inv[l]` of `m`.
pub open spec fn mask_part(inv: Seq<int>, m: u32, j: nat) -> u32
    decreases j,
{
    if j == 0 {
        0
    } else {
        let r = mask_part(inv, m, (j - 1) as nat);
        if in_mask(m, inv[j - 1]) { r | bit(j - 1) } else { r }
    }
}

/// Mask `m` of the renumbered orders in the old numbering.
pub open spec fn mask_map(sg: Seq<int>, m: u32) -> u32 {
    mask_part(inverse(sg), m, sg.len())
}

proof fn lemma_mask_part_bits(inv: Seq<int>, m: u32, j: nat)
    requires
        j <= 32,
    ensures
        forall|l: u32| l < 32 ==> #[trigger] in_mask(mask_part(inv, m, j), l as int) == (l < j && in_mask(m, inv[l as int])),
    decreases j,
{
    if j == 0 {
        assert forall|l: u32| l < 32 implies !#[trigger] in_mask(mask_part(inv, m, j), l as int) by {
            lemma_no_bits(l);
        }
    } else {
        lemma_mask_part_bits(inv, m, (j - 1) as nat);
        let r = mask_part(inv, m, (j - 1) as nat);
        lemma_set_bit(r, (j - 1) as u32);
    }
}

/// Bit `l` of the mapped mask is bit `inverse(sg)[l]` of the mask.
pub proof fn lemma_mask_map_bits(sg: Seq<int>, m: u32)
    requires
        sg.len() <= 16,
    ensures
        forall|l: u32| l < 32 ==> #[trigger] in_mask(mask_map(sg, m), l as int) == (l < sg.len() && in_mask(m, inverse(sg)[l as int])),
{
    lemma_mask_part_bits(inverse(sg), m, sg.len());
}

/// Bit `sg[k]` of the mapped mask is bit `k` of the mask.
pub proof fn lemma_map_bit(sg: Seq<int>, n: int, m: u32, k: int)
    requires
        0 <= n <= 16,
        is_permutation(sg, n),
        0 <= k < n,
    ensures
        in_mask(mask_map(sg, m), sg[k]) == in_mask(m, k),
{
    lemma_inverse_perm(sg, n);
    lemma_mask_map_bits(sg, m);
    assert(in_mask(mask_map(sg, m), (sg[k] as u32) as int) == (sg[k] < n && in_mask(m, inverse(sg)[sg[k]])));
}

/// Adding order `k` adds order `sg[k]`.
pub proof fn lemma_map_set(sg: Seq<int>, n: int, m: u32, k: int)
    requires
        0 <= n <= 16,
        is_permutation(sg, n),
        0 <= k < n,
    ensures
        mask_map(sg, m | bit(k)) == mask_map(sg, m) | bit(sg[k]),
{
    let inv = inverse(sg);
    lemma_inverse_perm(sg, n);
    lemma_mask_map_bits(sg, m);
    lemma_mask_map_bits(sg, m | bit(k));
    lemma_set_bit(m, k as u32);
    lemma_set_bit(mask_map(sg, m), sg[k] as u32);
    assert forall|l: u32| l < 32 implies #[trigger] in_mask(mask_map(sg, m | bit(k)), l as int)
        == in_mask(mask_map(sg, m) | bit(sg[k]), l as int) by {
        if l < n {
            assert(sg[inv[l as int]] == l);
        }
    }
    lemma_same_bits(mask_map(sg, m | bit(k)), mask_map(sg, m) | bit(sg[k]));
}

/// The empty and the full mask map to themselves, and every mapped mask
/// lies in the full one.
pub proof fn lemma_map_ends(sg: Seq<int>, n: int, m: u32)
    requires
        0 <= n <= 16,
        is_permutation(sg, n),
    ensures
        mask_map(sg, 0) == 0,
        mask_map(sg, full_of(n as nat)) == full_of(n as nat),
        within(mask_map(sg, m), full_of(n as nat)),
{
    let inv = inverse(sg);
    let f = full_of(n as nat);
    lemma_inverse_perm(sg, n);
    lemma_full(n as u32);
    lemma_mask_map_bits(sg, 0);
    lemma_mask_map_bits(sg, f);
    lemma_mask_map_bits(sg, m);
    assert forall|l: u32| l < 32 implies #[trigger] in_mask(mask_map(sg, 0), l as int) == in_mask(0, l as int) by {
        lemma_no_bits(l);
        if l < n {
            lemma_no_bits(inv[l as int] as u32);
        }
    }
    lemma_same_bits(mask_map(sg, 0), 0);
    assert forall|l: u32| l < 32 implies #[trigger] in_mask(mask_map(sg, f), l as int) == in_mask(f, l as int) by {
        if l < n {
            assert(in_mask(f, (inv[l as int] as u32) as int));
        }
    }
    lemma_same_bits(mask_map(sg, f), f);
    lemma_bits_within(mask_map(sg, m), f);
}

pub proof fn lemma_map_or(sg: Seq<int>, n: int, m: u32, a: u32)
    requires
        0 <= n <= 16,
        is_permutation(sg, n),
    ensures
        mask_map(sg, m | a) == mask_map(sg, m) | mask_map(sg, a),
{
    let inv = inverse(sg);
    lemma_inverse_perm(sg, n);
    lemma_mask_map_bits(sg, m);
    lemma_mask_map_bits(sg, a);
    lemma_mask_map_bits(sg, m | a);
    assert forall|l: u32| l < 32 implies #[trigger] in_mask(mask_map(sg, m | a), l as int)
        == in_mask(mask_map(sg, m) | mask_map(sg, a), l as int) by {
        crate::bits::lemma_or_bit(mask_map(sg, m), mask_map(sg, a), l);
        if l < n {
            crate::bits::lemma_or_bit(m, a, inv[l as int] as u32);
        }
    }
    lemma_same_bits(mask_map(sg, m | a), mask_map(sg, m) | mask_map(sg, a));
}

/// On masks of the first `n` orders the map loses nothing: it is one to
/// one, sends only the empty mask to the empty mask, and keeps masks apart.
pub proof fn lemma_map_faithful(sg: Seq<int>, n: int, m: u32, a: u32)
    requires
        0 <= n <= 16,
        is_permutation(sg, n),
        within(m, full_of(n as nat)),
        within(a, full_of(n as nat)),
    ensures
        mask_map(sg, m) == mask_map(sg, a) ==> m == a,
        (mask_map(sg, m) == 0) == (m == 0),
        (mask_map(sg, m) & mask_map(sg, a) == 0) == (m & a == 0),
{
    let inv = inverse(sg);
    let f = full_of(n as nat);
    lemma_inverse_perm(sg, n);
    lemma_full(n as u32);
    lemma_mask_map_bits(sg, m);
    lemma_mask_map_bits(sg, a);
    lemma_bits_within(m, f);
    lemma_bits_within(a, f);
    assert forall|l: u32| l < 32 && l < n implies
        #[trigger] in_mask(m, l as int) == in_mask(mask_map(sg, m), sg[l as int])
        && in_mask(a, l as int) == in_mask(mask_map(sg, a), sg[l as int]) by {
        lemma_map_bit(sg, n, m, l as int);
        lemma_map_bit(sg, n, a, l as int);
    }
    if mask_map(sg, m) == mask_map(sg, a) {
        assert forall|l: u32| l < 32 implies #[trigger] in_mask(m, l as int) == in_mask(a, l as int) by {
            if l < n {
                assert(in_mask(m, l as int) == in_mask(mask_map(sg, m), sg[l as int]));
            }
        }
        lemma_same_bits(m, a);
    }
    lemma_map_ends(sg, n, m);
    if m != 0 {
        lemma_nonzero_bit(m);
        let l = choose|l: u32| l < 32 && #[trigger] in_mask(m, l as int);
        assert(in_mask(m, l as int) == in_mask(mask_map(sg, m), sg[l as int]));
        lemma_no_bits(sg[l as int] as u32);
    }
    crate::bits::lemma_and_zero(m, a);
    crate::bits::lemma_and_zero(mask_map(sg, m), mask_map(sg, a));
    if m & a == 0 {
        assert forall|l: u32| l < 32 implies !(#[trigger] in_mask(mask_map(sg, m), l as int) && in_mask(mask_map(sg, a), l as int)) by {
            if l < n {
                let u = inv[l as int] as u32;
                assert(!(in_mask(m, u as int) && in_mask(a, u as int)));
            }
        }
    }
    if mask_map(sg, m) & mask_map(sg, a) == 0 {
        assert forall|l: u32| l < 32 implies !(#[trigger] in_mask(m, l as int) && in_mask(a, l as int)) by {
            if l < n {
                let u = sg[l as int] as u32;
                assert(!(in_mask(mask_map(sg, m), u as int) && in_mask(mask_map(sg, a), u as int)));
                assert(in_mask(m, l as int) == in_mask(mask_map(sg, m), sg[l as int]));
            }
        }
    }
}

/// A non-empty mask has a bit set.
proof fn lemma_nonzero_bit(m: u32)
    requires
        m != 0,
    ensures
        exists|l: u32| l < 32 && #[trigger] in_mask(m, l as int),
{
    if forall|l: u32| l < 32 ==> !#[trigger] in_mask(m, l as int) {
        assert forall|l: u32| l < 32 implies #[trigger] in_mask(m, l as int) == in_mask(0, l as int) by {
            lemma_no_bits(l);
        }
        lemma_same_bits(m, 0);
    }
}

/// The renumbered problem is well formed, and the inverse renumbering
/// gives back the first problem.
pub proof fn lemma_orders_inverse(p: Problem, p2: Problem, sg: Seq<int>)
    requires
        p.wf(),
        orders_permuted(p, p2, sg),
    ensures
        p2.wf(),
        orders_permuted(p2, p, inverse(sg)),
{
    let n = sg.len() as int;
    lemma_inverse_perm(sg, n);
    assert forall|j: int| 0 <= j < n implies p.orders@[j] == p2.orders@[#[trigger] inverse(sg)[j]] by {
        assert(sg[inverse(sg)[j]] == j);
    }
    assert forall|k: int| 0 <= k < p2.orders@.len() implies {
        &&& (#[trigger] p2.orders@[k]).pickup_location < p2.num_points
        &&& p2.orders@[k].delivery_location < p2.num_points
    } by {
        assert(p2.orders@[k] == p.orders@[sg[k]]);
    }
}

/// Node `y` of a route is the pickup or delivery of an order.
proof fn lemma_node_map(sg: Seq<int>, n: int, y: u8, z: u8)
    requires
        0 <= n <= 16,
        is_permutation(sg, n),
        (y as int) / 2 < n,
        (z as int) / 2 < n,
    ensures
        node_map(sg, y) as int / 2 == sg[y as int / 2],
        node_map(sg, y) as int % 2 == y as int % 2,
        (node_map(sg, y) == node_map(sg, z)) == (y == z),
{
}

/// Vehicle `v` driving a route of the renumbered orders drives the mapped
/// route of the old ones, over the mapped orders, at the same costs.
#[verifier::rlimit(50)]
pub proof fn lemma_walk_reorder(p: Problem, p2: Problem, sg: Seq<int>, v: int, m2: u32, q: Seq<u8>)
    requires
        p.wf(),
        orders_permuted(p, p2, sg),
        0 <= v < p.vehicles@.len(),
        within(m2, full_of(p.orders@.len() as nat)),
        walk(tables_of(p2), v, m2, q).ok,
    ensures
        ({
            let w2 = walk(tables_of(p2), v, m2, q);
            let w = walk(tables_of(p), v, mask_map(sg, m2), route_map(sg, q));
            &&& w.ok
            &&& w.pick == mask_map(sg, w2.pick)
            &&& w.deliv == mask_map(sg, w2.deliv)
            &&& w.load == w2.load
            &&& w.dist == w2.dist
            &&& w.empty == w2.empty
            &&& w.price == w2.price
        }),
    decreases q.len(),
{
    let t = tables_of(p);
    let t2 = tables_of(p2);
    let n = p.orders@.len() as int;
    let f = full_of(n as nat);
    let mm = mask_map(sg, m2);
    lemma_orders_inverse(p, p2, sg);
    crate::laws::lemma_tables_wf(p);
    crate::laws::lemma_tables_wf(p2);
    let rq = route_map(sg, q);
    if q.len() == 0 {
        lemma_map_ends(sg, n, 0);
    } else {
        let q0 = q.drop_last();
        assert(rq.drop_last() =~= route_map(sg, q0));
        lemma_walk_reorder(p, p2, sg, v, m2, q0);
        let s2 = walk(t2, v, m2, q0);
        let s = walk(t, v, mm, route_map(sg, q0));
        let x = q.last();
        let k2 = x as int / 2;
        assert(k2 < n);
        lemma_node_map(sg, n, x, x);
        let y = node_map(sg, x);
        assert(rq.last() == y);
        let k = sg[k2];
        // the leg
        if q.len() == 1 {
            let nv = p.vehicles@.len() as int;
            lemma_fundamental_div_mod_converse(v * n + k2, n, v, k2);
            lemma_fundamental_div_mod_converse(v * n + k, n, v, k);
            assert(v * n + k2 < nv * n) by (nonlinear_arith)
                requires 0 <= v < nv, 0 <= k2 < n;
            assert(v * n + k < nv * n) by (nonlinear_arith)
                requires 0 <= v < nv, 0 <= k < n;
            assert(p2.orders@[k2] == p.orders@[k]);
            assert(last_leg(t2, v, q) == last_leg(t, v, rq));
        } else {
            let z = q[q.len() - 2];
            assert(z == q0.last());
            assert(z as int / 2 < n);
            lemma_node_map(sg, n, z, x);
            let zm = node_map(sg, z);
            assert(rq[rq.len() - 2] == zm);
            let nn = 2 * n;
            lemma_fundamental_div_mod_converse(z * nn + x, nn, z as int, x as int);
            lemma_fundamental_div_mod_converse(zm * nn + y, nn, zm as int, y as int);
            assert(z * nn + x < nn * nn) by (nonlinear_arith)
                requires 0 <= z < nn, 0 <= x < nn;
            assert(zm * nn + y < nn * nn) by (nonlinear_arith)
                requires 0 <= zm < nn, 0 <= y < nn;
            assert(nn * nn == 4 * n * n) by (nonlinear_arith)
                requires nn == 2 * n;
            assert(p2.orders@[z as int / 2] == p.orders@[sg[z as int / 2]]);
            assert(p2.orders@[k2] == p.orders@[k]);
            assert(p2.node_point(z as int) == p.node_point(zm as int));
            assert(p2.node_point(x as int) == p.node_point(y as int));
            assert(last_leg(t2, v, q) == last_leg(t, v, rq));
        }
        // the step
        lemma_map_bit(sg, n, m2, k2);
        lemma_map_bit(sg, n, s2.pick, k2);
        lemma_map_bit(sg, n, s2.deliv, k2);
        lemma_map_set(sg, n, s2.pick, k2);
        lemma_map_set(sg, n, s2.deliv, k2);
        lemma_walk_bounds(t2, v, m2, q0);
        lemma_mask_facts(s2.deliv, s2.pick, m2);
        lemma_mask_facts(s2.pick, m2, f);
        lemma_mask_facts(s2.deliv, m2, f);
        lemma_map_faithful(sg, n, s2.pick, s2.deliv);
        assert(t2.loads[k2] == t.loads[k]);
    }
}

/// Mapping a mask there and back gives it again.
proof fn lemma_map_back(sg: Seq<int>, n: int, m: u32)
    requires
        0 <= n <= 16,
        is_permutation(sg, n),
        within(m, full_of(n as nat)),
    ensures
        mask_map(inverse(sg), mask_map(sg, m)) == m,
{
    let inv = inverse(sg);
    lemma_inverse_perm(sg, n);
    lemma_inverse_perm(inv, n);
    lemma_full(n as u32);
    lemma_bits_within(m, full_of(n as nat));
    lemma_mask_map_bits(inv, mask_map(sg, m));
    assert forall|l: u32| l < 32 implies #[trigger] in_mask(mask_map(inv, mask_map(sg, m)), l as int) == in_mask(m, l as int) by {
        if l < n {
            assert(inverse(inv)[l as int] == sg[l as int]) by {
                assert(inv[sg[l as int]] == l);
                assert(inv[inverse(inv)[l as int]] == l);
            }
            lemma_map_bit(sg, n, m, l as int);
        }
    }
    lemma_same_bits(mask_map(inv, mask_map(sg, m)), m);
}

/// A complete route over renumbered orders maps to one over the old orders
/// at the same costs.
proof fn lemma_complete_there(p: Problem, p2: Problem, sg: Seq<int>, v: int, m2: u32, q: Seq<u8>)
    requires
        p.wf(),
        orders_permuted(p, p2, sg),
        0 <= v < p.vehicles@.len(),
        within(m2, full_of(p.orders@.len() as nat)),
        complete(tables_of(p2), v, m2, q),
    ensures
        complete(tables_of(p), v, mask_map(sg, m2), route_map(sg, q)),
        forall|c: Criterion| #[trigger] route_cost(tables_of(p), v, mask_map(sg, m2), route_map(sg, q), c)
            == route_cost(tables_of(p2), v, m2, q, c),
{
    lemma_walk_reorder(p, p2, sg, v, m2, q);
}

/// A complete route over the mapped old orders maps back to one over the
/// renumbered orders at the same costs.
proof fn lemma_complete_back(p: Problem, p2: Problem, sg: Seq<int>, v: int, m2: u32, q: Seq<u8>)
    requires
        p.wf(),
        orders_permuted(p, p2, sg),
        0 <= v < p.vehicles@.len(),
        within(m2, full_of(p.orders@.len() as nat)),
        complete(tables_of(p), v, mask_map(sg, m2), q),
    ensures
        complete(tables_of(p2), v, m2, route_map(inverse(sg), q)),
        forall|c: Criterion| #[trigger] route_cost(tables_of(p2), v, m2, route_map(inverse(sg), q), c)
            == route_cost(tables_of(p), v, mask_map(sg, m2), q, c),
{
    let n = p.orders@.len() as int;
    lemma_orders_inverse(p, p2, sg);
    lemma_map_back(sg, n, m2);
    lemma_map_ends(sg, n, m2);
    lemma_walk_reorder(p2, p, inverse(sg), v, mask_map(sg, m2), q);
}

/// A vehicle can serve a set of renumbered orders exactly when it can serve
/// the mapped set of old ones, at the same least costs.
pub proof fn lemma_cost_reorder(p: Problem, p2: Problem, sg: Seq<int>, v: int, m2: u32, c: Criterion)
    requires
        p.wf(),
        orders_permuted(p, p2, sg),
        0 <= v < p.vehicles@.len(),
        within(m2, full_of(p.orders@.len() as nat)),
    ensures
        feasible(tables_of(p2), v, m2) == feasible(tables_of(p), v, mask_map(sg, m2)),
        m2 == 0 || feasible(tables_of(p2), v, m2)
            ==> vehicle_cost(tables_of(p2), v, m2, c) == vehicle_cost(tables_of(p), v, mask_map(sg, m2), c),
{
    let t = tables_of(p);
    let t2 = tables_of(p2);
    let n = p.orders@.len() as int;
    let mm = mask_map(sg, m2);
    let inv = inverse(sg);
    lemma_orders_inverse(p, p2, sg);
    crate::laws::lemma_tables_wf(p2);
    lemma_full(n as u32);
    lemma_mask_facts(full_of(n as nat), 0u32, 0u32);
    lemma_map_faithful(sg, n, m2, 0);
    lemma_map_ends(sg, n, m2);
    if feasible(t2, v, m2) {
        let q = choose|q: Seq<u8>| #[trigger] complete(t2, v, m2, q);
        lemma_complete_there(p, p2, sg, v, m2, q);
    }
    if feasible(t, v, mm) {
        let q = choose|q: Seq<u8>| #[trigger] complete(t, v, mm, q);
        lemma_complete_back(p, p2, sg, v, m2, q);
    }
    if feasible(t2, v, m2) && m2 != 0 {
        lemma_vehicle_cost_nonneg(t2, v, m2, c);
        let x = vehicle_cost(t2, v, m2, c);
        assert(is_min_cost(t, v, mm, c, x)) by {
            let q = choose|q: Seq<u8>| #[trigger] complete(t2, v, m2, q) && route_cost(t2, v, m2, q, c) == x;
            lemma_complete_there(p, p2, sg, v, m2, q);
            assert forall|r: Seq<u8>| #[trigger] complete(t, v, mm, r) implies x <= route_cost(t, v, mm, r, c) by {
                lemma_complete_back(p, p2, sg, v, m2, r);
            }
        }
        lemma_min_cost_unique(t, v, mm, c, x);
    }
}

/// An assignment of renumbered orders, read through the renumbering.
pub open spec fn assignment_map(sg: Seq<int>, a2: Seq<u32>) -> Seq<u32> {
    Seq::new(a2.len(), |v: int| mask_map(sg, a2[v]))
}

proof fn lemma_tail_reorder(p: Problem, p2: Problem, sg: Seq<int>, a2: Seq<u32>, i: int, c: Criterion)
    requires
        p.wf(),
        orders_permuted(p, p2, sg),
        a2.len() == p.vehicles@.len(),
        0 <= i <= a2.len(),
        disjoint_from(a2, i),
        within(union_from(a2, i), full_of(p.orders@.len() as nat)),
        crate::assign::servable_from(tables_of(p2), a2, i),
    ensures
        union_from(assignment_map(sg, a2), i) == mask_map(sg, union_from(a2, i)),
        disjoint_from(assignment_map(sg, a2), i),
        crate::assign::servable_from(tables_of(p), assignment_map(sg, a2), i),
        part_cost(tables_of(p), assignment_map(sg, a2), i, c) == part_cost(tables_of(p2), a2, i, c),
    decreases a2.len() - i,
{
    let n = p.orders@.len() as int;
    let f = full_of(n as nat);
    let am = assignment_map(sg, a2);
    if i == a2.len() {
        lemma_map_ends(sg, n, 0);
    } else {
        let x = a2[i];
        let y = union_from(a2, i + 1);
        lemma_mask_facts(x, y, f);
        lemma_mask_facts(y, x | y, f);
        lemma_mask_facts(x, x | y, f);
        lemma_tail_reorder(p, p2, sg, a2, i + 1, c);
        lemma_map_or(sg, n, x, y);
        lemma_map_faithful(sg, n, x, y);
        lemma_full(n as u32);
        lemma_mask_facts(f, 0u32, 0u32);
        lemma_map_faithful(sg, n, x, 0);
        lemma_map_ends(sg, n, x);
        lemma_cost_reorder(p, p2, sg, i, x, c);
        assert(am[i] == mask_map(sg, x));
    }
}

/// An assignment of the renumbered orders, read through the renumbering, is
/// one of the old orders at the same cost under each criterion.
pub proof fn lemma_assignment_reorder(p: Problem, p2: Problem, sg: Seq<int>, a2: Seq<u32>, c: Criterion)
    requires
        p.wf(),
        orders_permuted(p, p2, sg),
        is_assignment(tables_of(p2), a2),
    ensures
        is_assignment(tables_of(p), assignment_map(sg, a2)),
        part_cost(tables_of(p), assignment_map(sg, a2), 0, c) == part_cost(tables_of(p2), a2, 0, c),
{
    let n = p.orders@.len() as int;
    lemma_full(n as u32);
    lemma_mask_facts(full_of(n as nat), full_of(n as nat), 0u32);
    lemma_tail_reorder(p, p2, sg, a2, 0, c);
    lemma_map_ends(sg, n, 0);
}

/// Renumbering the orders changes neither the optimal total under any
/// criterion nor whether the solution is empty; routes may differ only
/// among equally cheap ones.
pub proof fn lemma_order_numbering_invariant(p: Problem, p2: Problem, sg: Seq<int>, c: Criterion, s: ProblemSolution, s2: ProblemSolution)
    requires
        p.wf(),
        orders_permuted(p, p2, sg),
        solution_ok(tables_of(p), order_ids_of(p), vehicle_ids_of(p), c, s),
        solution_ok(tables_of(p2), order_ids_of(p2), vehicle_ids_of(p2), c, s2),
    ensures
        total(s, c) == total(s2, c),
        is_empty_solution(s) == is_empty_solution(s2),
{
    let t = tables_of(p);
    let t2 = tables_of(p2);
    let n = p.orders@.len() as int;
    lemma_orders_inverse(p, p2, sg);
    let inv = inverse(sg);
    crate::laws::lemma_tables_wf(p);
    crate::laws::lemma_tables_wf(p2);
    if exists|a: Seq<u32>| #[trigger] is_assignment(t, a) {
        let a1 = choose|a: Seq<u32>| {
            &&& #[trigger] is_assignment(t, a)
            &&& describes(t, order_ids_of(p), vehicle_ids_of(p), a, c, s)
            &&& forall|b: Seq<u32>| #[trigger] is_assignment(t, b) ==> part_cost(t, a, 0, c) <= part_cost(t, b, 0, c)
        };
        lemma_assignment_reorder(p2, p, inv, a1, c);
        let b1 = assignment_map(inv, a1);
        assert(is_assignment(t2, b1));
        let a2 = choose|a: Seq<u32>| {
            &&& #[trigger] is_assignment(t2, a)
            &&& describes(t2, order_ids_of(p2), vehicle_ids_of(p2), a, c, s2)
            &&& forall|b: Seq<u32>| #[trigger] is_assignment(t2, b) ==> part_cost(t2, a, 0, c) <= part_cost(t2, b, 0, c)
        };
        lemma_assignment_reorder(p, p2, sg, a2, c);
        let b2 = assignment_map(sg, a2);
        assert(is_assignment(t, b2));
        assert(part_cost(t, a1, 0, c) <= part_cost(t, b2, 0, c));
        assert(part_cost(t2, a2, 0, c) <= part_cost(t2, b1, 0, c));
        crate::laws::lemma_routes_match_used(t, order_ids_of(p), vehicle_ids_of(p), a1, c, s);
        crate::laws::lemma_routes_match_used(t2, order_ids_of(p2), vehicle_ids_of(p2), a2, c, s2);
    } else if exists|a: Seq<u32>| #[trigger] is_assignment(t2, a) {
        let a2 = choose|a: Seq<u32>| #[trigger] is_assignment(t2, a);
        lemma_assignment_reorder(p, p2, sg, a2, c);
        assert(is_assignment(t, assignment_map(sg, a2)));
    }
}

} // verus!
