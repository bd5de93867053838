//! Splits of the orders among the vehicles, and what a split costs.
use vstd::prelude::*;
use crate::bits::within;
use crate::context::TablesView;
use crate::route::{Criterion, feasible, min_cost, is_min_cost, complete, route_cost, lemma_walk_bounds};

verus! {

/// Orders given to vehicles `i..` by `a`.
pub open spec fn union_from(a: Seq<u32>, i: int) -> u32
    decreases a.len() - i,
{
    if i < 0 || i >= a.len() {
        0
    } else {
        a[i] | union_from(a, i + 1)
    }
}

/// No order is given to two of the vehicles `i..`.
pub open spec fn disjoint_from(a: Seq<u32>, i: int) -> bool
    decreases a.len() - i,
{
    if i < 0 || i >= a.len() {
        true
    } else {
        a[i] & union_from(a, i + 1) == 0 && disjoint_from(a, i + 1)
    }
}

/// Each of the vehicles `i..` that is given orders has a route for them.
pub open spec fn servable_from(t: TablesView, a: Seq<u32>, i: int) -> bool {
    forall|j: int| i <= j < a.len() && #[trigger] a[j] != 0 ==> feasible(t, j, a[j])
}

/// `a` gives the orders of `rest` to the vehicles `i..`, each order to one
/// vehicle, each vehicle orders it can serve.
pub open spec fn splits(t: TablesView, a: Seq<u32>, i: int, rest: u32) -> bool {
    &&& a.len() == t.n_vehicles
    &&& 0 <= i <= a.len()
    &&& disjoint_from(a, i)
    &&& union_from(a, i) == rest
    &&& servable_from(t, a, i)
}

/// A split of all orders among all vehicles.
pub open spec fn is_assignment(t: TablesView, a: Seq<u32>) -> bool {
    splits(t, a, 0, t.full_mask)
}

/// Least cost under `c` of vehicle `v` serving `mask`; nothing when unused.
pub open spec fn vehicle_cost(t: TablesView, v: int, mask: u32, c: Criterion) -> int {
    if mask == 0 { 0 } else { min_cost(t, v, mask, c) }
}

/// Cost under `c` of the vehicles `i..` of `a`, each on its cheapest route.
pub open spec fn part_cost(t: TablesView, a: Seq<u32>, i: int, c: Criterion) -> int
    decreases a.len() - i,
{
    if i < 0 || i >= a.len() {
        0
    } else {
        vehicle_cost(t, i, a[i], c) + part_cost(t, a, i + 1, c)
    }
}

/// A subset that some route serves has a cheapest route.
pub proof fn lemma_min_exists(t: TablesView, v: int, mask: u32, c: Criterion, q: Seq<u8>, bound: nat)
    requires
        t.wf(),
        0 <= v < t.n_vehicles,
        complete(t, v, mask, q),
        route_cost(t, v, mask, q, c) <= bound,
    ensures
        is_min_cost(t, v, mask, c, min_cost(t, v, mask, c)),
        min_cost(t, v, mask, c) >= 0,
    decreases bound,
{
    if exists|r: Seq<u8>| #[trigger] complete(t, v, mask, r) && route_cost(t, v, mask, r, c) < bound {
        let r = choose|r: Seq<u8>| #[trigger] complete(t, v, mask, r) && route_cost(t, v, mask, r, c) < bound;
        lemma_walk_bounds(t, v, mask, r);
        lemma_min_exists(t, v, mask, c, r, (bound - 1) as nat);
    } else {
        lemma_walk_bounds(t, v, mask, q);
        assert(route_cost(t, v, mask, q, c) == bound);
        assert(is_min_cost(t, v, mask, c, bound as int));
        crate::route::lemma_min_cost_unique(t, v, mask, c, bound as int);
    }
}

pub proof fn lemma_vehicle_cost_nonneg(t: TablesView, v: int, mask: u32, c: Criterion)
    requires
        t.wf(),
        0 <= v < t.n_vehicles,
        mask != 0 ==> feasible(t, v, mask),
    ensures
        vehicle_cost(t, v, mask, c) >= 0,
        mask != 0 ==> is_min_cost(t, v, mask, c, vehicle_cost(t, v, mask, c)),
{
    if mask != 0 {
        let q = choose|q: Seq<u8>| #[trigger] complete(t, v, mask, q);
        lemma_walk_bounds(t, v, mask, q);
        lemma_min_exists(t, v, mask, c, q, route_cost(t, v, mask, q, c) as nat);
    }
}

pub proof fn lemma_part_cost_nonneg(t: TablesView, a: Seq<u32>, i: int, c: Criterion)
    requires
        t.wf(),
        a.len() == t.n_vehicles,
        0 <= i,
        servable_from(t, a, i),
    ensures
        part_cost(t, a, i, c) >= 0,
    decreases a.len() - i,
{
    if i < a.len() {
        lemma_vehicle_cost_nonneg(t, i, a[i], c);
        lemma_part_cost_nonneg(t, a, i + 1, c);
    }
}

/// Vehicles `i..` given nothing serve nothing and cost nothing.
pub proof fn lemma_zero_tail(t: TablesView, a: Seq<u32>, i: int)
    requires
        0 <= i,
        forall|j: int| i <= j < a.len() ==> #[trigger] a[j] == 0,
    ensures
        union_from(a, i) == 0,
        disjoint_from(a, i),
        servable_from(t, a, i),
        forall|c: Criterion| #[trigger] part_cost(t, a, i, c) == 0,
    decreases a.len() - i,
{
    if i < a.len() {
        lemma_zero_tail(t, a, i + 1);
        crate::bits::lemma_mask_facts(0u32, 0u32, 0u32);
        assert forall|c: Criterion| #[trigger] part_cost(t, a, i, c) == 0 by {
            assert(part_cost(t, a, i, c) == vehicle_cost(t, i, a[i], c) + part_cost(t, a, i + 1, c));
        }
    }
}

/// Vehicles `i..` that together get nothing each get nothing.
pub proof fn lemma_union_zero(t: TablesView, a: Seq<u32>, i: int)
    requires
        0 <= i,
        union_from(a, i) == 0,
    ensures
        forall|j: int| i <= j < a.len() ==> #[trigger] a[j] == 0,
        forall|c: Criterion| #[trigger] part_cost(t, a, i, c) == 0,
    decreases a.len() - i,
{
    if i < a.len() {
        let x = a[i];
        let y = union_from(a, i + 1);
        crate::bits::lemma_mask_facts(x, y, 0u32);
        lemma_union_zero(t, a, i + 1);
        assert forall|c: Criterion| #[trigger] part_cost(t, a, i, c) == 0 by {
            assert(part_cost(t, a, i, c) == vehicle_cost(t, i, a[i], c) + part_cost(t, a, i + 1, c));
        }
    }
}

/// Changing what vehicle `i` gets leaves the vehicles after it alone.
pub proof fn lemma_tail_same(t: TablesView, a: Seq<u32>, i: int, x: u32, k: int)
    requires
        0 <= i < k,
        i < a.len(),
    ensures
        union_from(a.update(i, x), k) == union_from(a, k),
        disjoint_from(a.update(i, x), k) == disjoint_from(a, k),
        forall|c: Criterion| #[trigger] part_cost(t, a.update(i, x), k, c) == part_cost(t, a, k, c),
    decreases a.len() - k,
{
    if k < a.len() {
        lemma_tail_same(t, a, i, x, k + 1);
        assert forall|c: Criterion| #[trigger] part_cost(t, a.update(i, x), k, c) == part_cost(t, a, k, c) by {
            assert(part_cost(t, a, k, c) == vehicle_cost(t, k, a[k], c) + part_cost(t, a, k + 1, c));
            assert(part_cost(t, a.update(i, x), k, c)
                == vehicle_cost(t, k, a.update(i, x)[k], c) + part_cost(t, a.update(i, x), k + 1, c));
        }
    }
}

/// Giving the orders of `s`, which no vehicle has yet, to vehicle `i`, which
/// had none, and to no vehicle after it.
pub proof fn lemma_place(t: TablesView, a: Seq<u32>, i: int, s: u32, j: int)
    requires
        0 <= j <= i < a.len(),
        forall|k: int| i <= k < a.len() ==> #[trigger] a[k] == 0,
        disjoint_from(a, j),
        s & union_from(a, j) == 0,
    ensures
        union_from(a.update(i, s), j) == union_from(a, j) | s,
        disjoint_from(a.update(i, s), j),
        forall|c: Criterion| #[trigger] part_cost(t, a.update(i, s), j, c)
            == part_cost(t, a, j, c) + vehicle_cost(t, i, s, c),
    decreases i - j,
{
    let b = a.update(i, s);
    lemma_zero_tail(t, a, i + 1);
    lemma_zero_tail(t, a, i);
    if j == i {
        lemma_tail_same(t, a, i, s, i + 1);
        crate::bits::lemma_mask_facts(s, 0u32, 0u32);
        assert(union_from(a, i) == 0);
        assert forall|c: Criterion| #[trigger] part_cost(t, b, j, c)
            == part_cost(t, a, j, c) + vehicle_cost(t, i, s, c) by {
            assert(part_cost(t, a, i, c) == vehicle_cost(t, i, a[i], c) + part_cost(t, a, i + 1, c));
            assert(part_cost(t, b, i, c) == vehicle_cost(t, i, b[i], c) + part_cost(t, b, i + 1, c));
        }
    } else {
        let x = a[j];
        let y = union_from(a, j + 1);
        crate::bits::lemma_mask_facts(s, x, y);
        crate::bits::lemma_mask_facts(x, s, 0u32);
        lemma_place(t, a, i, s, j + 1);
        crate::bits::lemma_mask_facts(x, y, s);
        assert forall|c: Criterion| #[trigger] part_cost(t, b, j, c)
            == part_cost(t, a, j, c) + vehicle_cost(t, i, s, c) by {
            assert(part_cost(t, a, j, c) == vehicle_cost(t, j, a[j], c) + part_cost(t, a, j + 1, c));
            assert(part_cost(t, b, j, c) == vehicle_cost(t, j, b[j], c) + part_cost(t, b, j + 1, c));
        }
    }
}

/// The cost under `c` of a complete route of `v` over `mask` is bounded by
/// the mask.
pub proof fn lemma_complete_bounds(t: TablesView, v: int, mask: u32, q: Seq<u8>)
    requires
        t.wf(),
        0 <= v < t.n_vehicles,
        complete(t, v, mask, q),
    ensures
        0 <= route_cost(t, v, mask, q, Criterion::Empty) <= route_cost(t, v, mask, q, Criterion::Distance),
        route_cost(t, v, mask, q, Criterion::Distance) <= mask * 0x2_0000_0000,
        0 <= route_cost(t, v, mask, q, Criterion::Price) <= mask * 0x2_0000_0000_0000_0000,
{
    lemma_walk_bounds(t, v, mask, q);
    let w = crate::route::walk(t, v, mask, q);
    let p = w.pick;
    let d = w.deliv;
    assert(d == mask);
    crate::bits::lemma_mask_facts(p, d, 0u32);
}

/// Disjoint parts add up: the orders of vehicles `i..` number the orders of
/// vehicle `i` plus those of vehicles `i + 1..`, as masks.
pub proof fn lemma_union_split(a: Seq<u32>, i: int)
    requires
        0 <= i < a.len(),
        disjoint_from(a, i),
    ensures
        union_from(a, i) == a[i] + union_from(a, i + 1),
        within(a[i], union_from(a, i)),
        within(union_from(a, i + 1), union_from(a, i)),
{
    let x = a[i];
    let y = union_from(a, i + 1);
    crate::bits::lemma_mask_facts(x, y, 0u32);
}

/// What the vehicles `i..` of a split of `rest` cost is bounded by `rest`.
pub proof fn lemma_part_cost_bound(t: TablesView, a: Seq<u32>, i: int, rest: u32)
    requires
        t.wf(),
        splits(t, a, i, rest),
    ensures
        0 <= part_cost(t, a, i, Criterion::Empty) <= part_cost(t, a, i, Criterion::Distance),
        part_cost(t, a, i, Criterion::Distance) <= rest * 0x2_0000_0000,
        0 <= part_cost(t, a, i, Criterion::Price) <= rest * 0x2_0000_0000_0000_0000,
    decreases a.len() - i,
{
    if i < a.len() {
        lemma_union_split(a, i);
        lemma_part_cost_bound(t, a, i + 1, union_from(a, i + 1));
        let m = a[i];
        if m != 0 {
            lemma_vehicle_cost_nonneg(t, i, m, Criterion::Distance);
            lemma_vehicle_cost_nonneg(t, i, m, Criterion::Empty);
            lemma_vehicle_cost_nonneg(t, i, m, Criterion::Price);
            let qd = choose|q: Seq<u8>| #[trigger] complete(t, i, m, q) && route_cost(t, i, m, q, Criterion::Distance) == vehicle_cost(t, i, m, Criterion::Distance);
            let qe = choose|q: Seq<u8>| #[trigger] complete(t, i, m, q) && route_cost(t, i, m, q, Criterion::Empty) == vehicle_cost(t, i, m, Criterion::Empty);
            let qp = choose|q: Seq<u8>| #[trigger] complete(t, i, m, q) && route_cost(t, i, m, q, Criterion::Price) == vehicle_cost(t, i, m, Criterion::Price);
            lemma_complete_bounds(t, i, m, qd);
            lemma_complete_bounds(t, i, m, qe);
            lemma_complete_bounds(t, i, m, qp);
            assert(vehicle_cost(t, i, m, Criterion::Empty) <= route_cost(t, i, m, qd, Criterion::Empty));
        }
    }
}

/// The search tries mask `x` for a vehicle before mask `y`: it tries the
/// non-empty masks in descending order, then leaves the vehicle unused.
pub open spec fn comes_first(x: u32, y: u32) -> bool {
    x != 0 && (y == 0 || x > y)
}

/// `b` and `a` agree on vehicles below `i`, and `b` gives vehicle `i`
/// (below `k`) a mask tried first.
pub open spec fn assign_differs(b: Seq<u32>, a: Seq<u32>, i: int, k: int) -> bool {
    &&& 0 <= i < k
    &&& i < b.len()
    &&& i < a.len()
    &&& b.take(i) == a.take(i)
    &&& comes_first(b[i], a[i])
}

/// The search reaches `b` before `a`, deciding on the first `k` vehicles.
pub open spec fn assign_before(b: Seq<u32>, a: Seq<u32>, k: int) -> bool {
    exists|i: int| #[trigger] assign_differs(b, a, i, k)
}

pub proof fn lemma_assign_antisym(a: Seq<u32>, b: Seq<u32>, k: int)
    requires
        assign_before(a, b, k),
    ensures
        !assign_before(b, a, k),
{
    let i = choose|i: int| #[trigger] assign_differs(a, b, i, k);
    if assign_before(b, a, k) {
        let j = choose|j: int| #[trigger] assign_differs(b, a, j, k);
        if i < j {
            assert(b.take(j)[i] == a.take(j)[i]);
        } else if j < i {
            assert(a.take(i)[j] == b.take(i)[j]);
        }
    }
}

/// Coming before `a` on the first `k` vehicles carries over to any `c`
/// that agrees with `a` there, and to any later `k2`.
pub proof fn lemma_assign_prefix(b: Seq<u32>, a: Seq<u32>, c: Seq<u32>, k: int, k2: int)
    requires
        assign_before(b, a, k),
        k <= k2,
        k <= c.len(),
        k <= a.len(),
        c.take(k) == a.take(k),
    ensures
        assign_before(b, c, k2),
{
    let i = choose|i: int| #[trigger] assign_differs(b, a, i, k);
    assert(c.take(i) =~= a.take(i)) by {
        assert forall|j: int| 0 <= j < i implies c.take(i)[j] == a.take(i)[j] by {
            assert(c.take(k)[j] == c[j]);
            assert(a.take(k)[j] == a[j]);
        }
    }
    assert(c.take(k)[i] == c[i]);
    assert(a.take(k)[i] == a[i]);
    assert(assign_differs(b, c, i, k2));
}

/// Coming before `a` with vehicle `i` given `s`, on the first `i + 1`
/// vehicles.
pub proof fn lemma_assign_child(b: Seq<u32>, a: Seq<u32>, i: int, s: u32)
    requires
        0 <= i < a.len(),
        b.len() == a.len(),
    ensures
        assign_before(b, a.update(i, s), i + 1) <==> (assign_before(b, a, i)
            || (b.take(i) == a.take(i) && comes_first(b[i], s))),
{
    let a1 = a.update(i, s);
    assert(a1.take(i) =~= a.take(i));
    if assign_before(b, a1, i + 1) {
        let j = choose|j: int| #[trigger] assign_differs(b, a1, j, i + 1);
        if j < i {
            assert(a1.take(j) =~= a.take(j));
            assert(assign_differs(b, a, j, i));
        }
    }
    if assign_before(b, a, i) {
        let j = choose|j: int| #[trigger] assign_differs(b, a, j, i);
        assert(a1.take(j) =~= a.take(j));
        assert(assign_differs(b, a1, j, i + 1));
    }
    if b.take(i) == a.take(i) && comes_first(b[i], s) {
        assert(assign_differs(b, a1, i, i + 1));
    }
}

pub proof fn lemma_disjoint_tail(a: Seq<u32>, i: int)
    requires
        0 <= i,
        disjoint_from(a, 0),
    ensures
        disjoint_from(a, i),
    decreases i,
{
    if i > 0 {
        lemma_disjoint_tail(a, i - 1);
    }
}

/// Costs of the vehicles before `k` depend on what they get alone.
pub proof fn lemma_part_prefix(t: TablesView, a: Seq<u32>, b: Seq<u32>, i: int, k: int, c: Criterion)
    requires
        0 <= i <= k <= a.len(),
        a.len() == b.len(),
        a.take(k) == b.take(k),
    ensures
        part_cost(t, a, i, c) - part_cost(t, a, k, c) == part_cost(t, b, i, c) - part_cost(t, b, k, c),
    decreases k - i,
{
    if i < k {
        lemma_part_prefix(t, a, b, i + 1, k, c);
        assert(a.take(k)[i] == a[i]);
        assert(b.take(k)[i] == b[i]);
    }
}

/// An assignment that agrees with `a0` on the vehicles before `k`, where
/// `a0` gives those vehicles exactly the orders of `covered` and nothing
/// after, gives the vehicles from `k` on the other orders.
pub proof fn lemma_under_union(a0: Seq<u32>, b: Seq<u32>, k: int, i: int, covered: u32)
    requires
        0 <= i <= k <= a0.len(),
        b.len() == a0.len(),
        b.take(k) == a0.take(k),
        forall|j: int| k <= j < a0.len() ==> #[trigger] a0[j] == 0,
        disjoint_from(b, 0),
    ensures
        union_from(b, i) == union_from(a0, i) | union_from(b, k),
        union_from(a0, i) & union_from(b, k) == 0,
    decreases k - i,
{
    let u = union_from(b, k);
    if i == k {
        lemma_zero_tail_union(a0, k);
        crate::bits::lemma_mask_facts(u, 0u32, 0u32);
    } else {
        lemma_under_union(a0, b, k, i + 1, covered);
        assert(b.take(k)[i] == b[i]);
        assert(a0.take(k)[i] == a0[i]);
        let x = a0[i];
        let y = union_from(a0, i + 1);
        lemma_disjoint_tail(b, i);
        crate::bits::lemma_mask_facts(x, y, u);
        crate::bits::lemma_mask_facts(u, x, y);
        crate::bits::lemma_mask_facts(u, x | y, 0u32);
        crate::bits::lemma_mask_facts(x | y, u, 0u32);
        crate::bits::lemma_mask_facts(u, y, 0u32);
        crate::bits::lemma_mask_facts(y, u, 0u32);
    }
}

proof fn lemma_zero_tail_union(a: Seq<u32>, k: int)
    requires
        0 <= k,
        forall|j: int| k <= j < a.len() ==> #[trigger] a[j] == 0,
    ensures
        union_from(a, k) == 0,
    decreases a.len() - k,
{
    if k < a.len() {
        lemma_zero_tail_union(a, k + 1);
        crate::bits::lemma_mask_facts(0u32, 0u32, 0u32);
    }
}

} // verus!
