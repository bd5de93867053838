//! What a route of one vehicle is, and what it costs: a left fold over its
//! nodes from the vehicle's start.
use vstd::prelude::*;
use crate::bits::{in_mask, within, lemma_set_bit, lemma_bits_within};
use crate::context::TablesView;

verus! {

/// The three objectives.
#[derive(Clone, Copy, PartialEq, Eq, Debug)]
pub enum Criterion {
    Distance,
    Empty,
    Price,
}

/// The state of a vehicle after driving a sequence of nodes.
pub struct Walk {
    /// Every step so far was allowed.
    pub ok: bool,
    /// Orders picked up.
    pub pick: u32,
    /// Orders delivered.
    pub deliv: u32,
    /// Load units on board.
    pub load: int,
    pub dist: int,
    pub empty: int,
    pub price: int,
}

impl Walk {
    pub open spec fn cost(self, c: Criterion) -> int {
        match c {
            Criterion::Distance => self.dist,
            Criterion::Empty => self.empty,
            Criterion::Price => self.price,
        }
    }
}

pub open spec fn bit(k: int) -> u32 {
    1u32 << (k as u32)
}

/// Length of the last leg of `p`: from the vehicle's start for the first
/// node, else from the node before it.
pub open spec fn last_leg(t: TablesView, v: int, p: Seq<u8>) -> int {
    let x = p.last() as int;
    if p.len() == 1 {
        t.veh_start_mat[v * t.n_orders + x / 2] as int
    } else {
        t.dist_mat[p[p.len() - 2] as int * t.num_nodes + x] as int
    }
}

/// Vehicle `v` serving the orders of `mask` along the nodes `p`.
pub open spec fn walk(t: TablesView, v: int, mask: u32, p: Seq<u8>) -> Walk
    decreases p.len(),
{
    if p.len() == 0 {
        Walk { ok: true, pick: 0, deliv: 0, load: 0, dist: 0, empty: 0, price: 0 }
    } else {
        let s = walk(t, v, mask, p.drop_last());
        let x = p.last() as int;
        let k = x / 2;
        let leg = last_leg(t, v, p);
        let price = s.price + leg * t.prices[v] as int;
        if x % 2 == 0 {
            let allowed = k < t.n_orders && in_mask(mask, k) && !in_mask(s.pick, k)
                && s.load + t.loads[k] <= t.capacity;
            Walk {
                ok: s.ok && allowed,
                pick: s.pick | bit(k),
                deliv: s.deliv,
                load: s.load + t.loads[k],
                dist: s.dist + leg,
                empty: if s.pick == s.deliv { s.empty + leg } else { s.empty },
                price,
            }
        } else {
            let allowed = k < t.n_orders && in_mask(s.pick, k) && !in_mask(s.deliv, k);
            Walk {
                ok: s.ok && allowed,
                pick: s.pick,
                deliv: s.deliv | bit(k),
                load: s.load - t.loads[k],
                dist: s.dist + leg,
                empty: s.empty,
                price,
            }
        }
    }
}

/// `p` is a route of vehicle `v` that picks up and delivers every order of
/// `mask` and no other, each pickup before its delivery, within capacity.
pub open spec fn complete(t: TablesView, v: int, mask: u32, p: Seq<u8>) -> bool {
    walk(t, v, mask, p).ok && walk(t, v, mask, p).deliv == mask
}

pub open spec fn route_cost(t: TablesView, v: int, mask: u32, p: Seq<u8>, c: Criterion) -> int {
    walk(t, v, mask, p).cost(c)
}

/// Some route of vehicle `v` serves exactly the orders of `mask`.
pub open spec fn feasible(t: TablesView, v: int, mask: u32) -> bool {
    exists|q: Seq<u8>| #[trigger] complete(t, v, mask, q)
}

/// `m` is the least cost under `c` of a route of `v` serving `mask`.
pub open spec fn is_min_cost(t: TablesView, v: int, mask: u32, c: Criterion, m: int) -> bool {
    &&& exists|q: Seq<u8>| #[trigger] complete(t, v, mask, q) && route_cost(t, v, mask, q, c) == m
    &&& forall|q: Seq<u8>| #[trigger] complete(t, v, mask, q) ==> m <= route_cost(t, v, mask, q, c)
}

pub open spec fn min_cost(t: TablesView, v: int, mask: u32, c: Criterion) -> int {
    choose|m: int| is_min_cost(t, v, mask, c, m)
}

pub proof fn lemma_min_cost_unique(t: TablesView, v: int, mask: u32, c: Criterion, m: int)
    requires
        is_min_cost(t, v, mask, c, m),
    ensures
        min_cost(t, v, mask, c) == m,
{
    let m2 = min_cost(t, v, mask, c);
    assert(is_min_cost(t, v, mask, c, m2));
    let q1 = choose|q: Seq<u8>| #[trigger] complete(t, v, mask, q) && route_cost(t, v, mask, q, c) == m;
    let q2 = choose|q: Seq<u8>| #[trigger] complete(t, v, mask, q) && route_cost(t, v, mask, q, c) == m2;
    assert(m <= route_cost(t, v, mask, q2, c));
    assert(m2 <= route_cost(t, v, mask, q1, c));
}

/// Bounds that hold along every allowed walk.
pub proof fn lemma_walk_bounds(t: TablesView, v: int, mask: u32, p: Seq<u8>)
    requires
        t.wf(),
        0 <= v < t.n_vehicles,
        walk(t, v, mask, p).ok,
    ensures
        ({
            let w = walk(t, v, mask, p);
            &&& within(w.deliv, w.pick)
            &&& within(w.pick, mask)
            &&& -(w.deliv as int) * 0x1_0000_0000 <= w.load <= t.capacity
            &&& 0 <= w.empty <= w.dist
            &&& w.dist <= (w.pick + w.deliv) * 0x1_0000_0000
            &&& 0 <= w.price <= (w.pick + w.deliv) * 0x1_0000_0000_0000_0000
            &&& p.len() == 0 ==> w.pick == 0
            &&& w.pick == 0 ==> w.deliv == 0
        }),
    decreases p.len(),
{
    let w = walk(t, v, mask, p);
    if p.len() == 0 {
        crate::bits::lemma_mask_facts(0u32, 0u32, 0u32);
        crate::bits::lemma_mask_facts(mask, 0u32, 0u32);
    } else {
        let q = p.drop_last();
        lemma_walk_bounds(t, v, mask, q);
        let s = walk(t, v, mask, q);
        let x = p.last() as int;
        let k = x / 2;
        let leg = last_leg(t, v, p);
        assert(0 <= k < 16);
        lemma_set_bit(s.pick, k as u32);
        lemma_set_bit(s.deliv, k as u32);
        lemma_bits_within(s.deliv, s.pick);
        lemma_bits_within(s.pick, mask);
        lemma_bits_within(w.deliv, w.pick);
        lemma_bits_within(w.pick, mask);
        assert(0 <= leg < 0x1_0000_0000);
        let r = t.prices[v] as int;
        assert(0 <= leg * r <= 0x1_0000_0000_0000_0000) by (nonlinear_arith)
            requires 0 <= leg < 0x1_0000_0000, 0 <= r < 0x1_0000_0000;
        if w.pick == 0 {
            assert(s.pick | bit(k) != 0) by {
                assert(in_mask(s.pick | bit(k), k));
                assert(in_mask(0u32, k) == false) by {
                    let kk = k as u32;
                    crate::bits::lemma_no_bits(kk);
                }
            }
            assert(x % 2 == 1);
            assert(in_mask(s.pick, k));
            let kk = k as u32;
            crate::bits::lemma_no_bits(kk);
            assert(false);
        }
    }
}

/// A prefix of an allowed walk is allowed and costs no more.
pub proof fn lemma_prefix(t: TablesView, v: int, mask: u32, q: Seq<u8>, i: int)
    requires
        t.wf(),
        0 <= v < t.n_vehicles,
        walk(t, v, mask, q).ok,
        0 <= i <= q.len(),
    ensures
        walk(t, v, mask, q.take(i)).ok,
        walk(t, v, mask, q.take(i)).dist <= walk(t, v, mask, q).dist,
        walk(t, v, mask, q.take(i)).empty <= walk(t, v, mask, q).empty,
        walk(t, v, mask, q.take(i)).price <= walk(t, v, mask, q).price,
    decreases q.len(),
{
    if i == q.len() {
        assert(q.take(i) =~= q);
    } else {
        let r = q.drop_last();
        lemma_prefix(t, v, mask, r, i);
        assert(r.take(i) =~= q.take(i));
        lemma_walk_bounds(t, v, mask, r);
        let leg = last_leg(t, v, q);
        let rate = t.prices[v] as int;
        assert(0 <= leg * rate) by (nonlinear_arith)
            requires 0 <= leg, 0 <= rate;
    }
}

/// Every node of an allowed walk names one of the orders.
pub proof fn lemma_nodes_in_range(t: TablesView, v: int, mask: u32, p: Seq<u8>)
    requires
        t.wf(),
        0 <= v < t.n_vehicles,
        walk(t, v, mask, p).ok,
    ensures
        forall|i: int| 0 <= i < p.len() ==> (#[trigger] p[i]) / 2 < t.n_orders,
{
    assert forall|i: int| 0 <= i < p.len() implies (#[trigger] p[i]) / 2 < t.n_orders by {
        lemma_prefix(t, v, mask, p, i + 1);
        let q = p.take(i + 1);
        assert(q.last() == p[i]);
    }
}

} // verus!
