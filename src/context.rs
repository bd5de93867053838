//! The solver's state: distance tables, the memo of per-vehicle results and
//! the best assignments found.
use vstd::prelude::*;
use crate::bits::{full_of, within};
use crate::model::Problem;
use crate::tsp::{DIST_NONE, PRICE_NONE};
use vstd::arithmetic::div_mod::lemma_fundamental_div_mod_converse;
use crate::types::InternalBestResults;

verus! {

/// Distance tables and per-order and per-vehicle numbers of one problem.
pub struct Tables {
    pub n_orders: usize,
    pub num_nodes: usize,
    pub n_vehicles: usize,
    /// `num_nodes × num_nodes`, row-major.
    pub dist_mat: Vec<u32>,
    /// `n_vehicles × n_orders`, row-major: start of vehicle to pickup of order.
    pub veh_start_mat: Vec<u32>,
    pub loads: Vec<u32>,
    pub prices: Vec<u32>,
    pub capacity: u32,
    pub full_mask: u32,
}

pub struct TablesView {
    pub n_orders: int,
    pub num_nodes: int,
    pub n_vehicles: int,
    pub dist_mat: Seq<u32>,
    pub veh_start_mat: Seq<u32>,
    pub loads: Seq<u32>,
    pub prices: Seq<u32>,
    pub capacity: u32,
    pub full_mask: u32,
}

impl View for Tables {
    type V = TablesView;

    open spec fn view(&self) -> TablesView {
        TablesView {
            n_orders: self.n_orders as int,
            num_nodes: self.num_nodes as int,
            n_vehicles: self.n_vehicles as int,
            dist_mat: self.dist_mat@,
            veh_start_mat: self.veh_start_mat@,
            loads: self.loads@,
            prices: self.prices@,
            capacity: self.capacity,
            full_mask: self.full_mask,
        }
    }
}

impl TablesView {
    pub open spec fn wf(self) -> bool {
        &&& 0 <= self.n_orders <= 16
        &&& 0 <= self.n_vehicles
        &&& self.num_nodes == 2 * self.n_orders
        &&& self.dist_mat.len() == self.num_nodes * self.num_nodes
        &&& self.veh_start_mat.len() == self.n_vehicles * self.n_orders
        &&& self.loads.len() == self.n_orders
        &&& self.prices.len() == self.n_vehicles
        &&& self.full_mask == full_of(self.n_orders as nat)
    }
}

/// The tables of `p`: distances between route nodes (zero on the diagonal),
/// from each vehicle's start to each pickup, the loads and the rates.
pub open spec fn tables_of(p: Problem) -> TablesView {
    let n = p.orders@.len() as int;
    let nv = p.vehicles@.len() as int;
    TablesView {
        n_orders: n,
        num_nodes: 2 * n,
        n_vehicles: nv,
        dist_mat: Seq::new((4 * n * n) as nat, |i: int| {
            let a = i / (2 * n);
            let b = i % (2 * n);
            if a == b { 0u32 } else { p.distances@[p.node_point(a) * p.num_points + p.node_point(b)] }
        }),
        veh_start_mat: Seq::new((nv * n) as nat, |i: int|
            p.distances@[p.vehicles@[i / n].start_location as int * p.num_points + p.orders@[i % n].pickup_location as int]
        ),
        loads: Seq::new(n as nat, |k: int| p.orders@[k].load),
        prices: Seq::new(nv as nat, |v: int| p.vehicles@[v].price_km),
        capacity: p.capacity,
        full_mask: full_of(n as nat),
    }
}

pub struct SolverContext {
    pub tables: Tables,
    pub order_ids: Vec<u32>,
    pub vehicle_ids: Vec<u32>,
    /// One slot per vehicle and subset of orders, at `v * 2^n + mask`.
    pub memo: Vec<Option<InternalBestResults>>,
    pub best_dist: u64,
    pub best_dist_assignments: Vec<u32>,
    pub best_price: u128,
    pub best_price_assignments: Vec<u32>,
    pub best_empty: u64,
    pub best_empty_assignments: Vec<u32>,
}

impl SolverContext {
    pub open spec fn t(self) -> TablesView {
        self.tables@
    }

    pub open spec fn slot(self, v: int, mask: u32) -> int {
        v * (self.tables.full_mask as int + 1) + mask as int
    }

    /// The memo holds, in each filled slot, the result owed for that
    /// vehicle and subset.
    pub open spec fn memo_ok(self) -> bool {
        forall|v: int, mask: u32| 0 <= v < self.t().n_vehicles && within(mask, self.t().full_mask)
            && (#[trigger] self.memo@[self.slot(v, mask)]) is Some
            ==> crate::tsp::triple_ok(self.t(), v, mask, self.memo@[self.slot(v, mask)]->0)
    }

    pub open spec fn wf(self) -> bool {
        &&& self.t().wf()
        &&& self.memo@.len() == self.t().n_vehicles * (self.tables.full_mask as int + 1)
        &&& self.memo_ok()
        &&& self.order_ids@.len() == self.t().n_orders
        &&& self.vehicle_ids@.len() == self.t().n_vehicles
        &&& self.best_dist_assignments@.len() == self.t().n_vehicles
        &&& self.best_price_assignments@.len() == self.t().n_vehicles
        &&& self.best_empty_assignments@.len() == self.t().n_vehicles
    }
}

fn zeros(len: usize) -> (r: Vec<u32>)
    ensures
        r@ == Seq::new(len as nat, |i: int| 0u32),
{
    let mut r: Vec<u32> = Vec::new();
    while r.len() < len
        invariant
            r@.len() <= len,
            forall|i: int| 0 <= i < r@.len() ==> r@[i] == 0u32,
        decreases len - r@.len(),
    {
        r.push(0);
    }
    assert(r@ =~= Seq::new(len as nat, |i: int| 0u32));
    r
}

/// Point of route node `i` of `problem`.
fn node_point(problem: &Problem, i: usize) -> (r: usize)
    requires
        problem.wf(),
        i < 2 * problem.orders@.len(),
    ensures
        r == problem.node_point(i as int),
        r < problem.num_points,
{
    let o = &problem.orders[i / 2];
    if i % 2 == 0 {
        o.pickup_location
    } else {
        o.delivery_location
    }
}

fn point_distance(problem: &Problem, a: usize, b: usize) -> (r: u32)
    requires
        problem.wf(),
        a < problem.num_points,
        b < problem.num_points,
    ensures
        r == problem.distances@[a * problem.num_points + b],
{
    let np = problem.num_points;
    let len = problem.distances.len();
    proof {
        assert(a * np + b < np * np) by (nonlinear_arith)
            requires a < np, b < np;
    }
    problem.distances[a * np + b]
}

impl SolverContext {
    /// The tables of `problem`, an empty memo, and no assignment found yet.
    pub fn new(problem: &Problem) -> (ctx: SolverContext)
        requires
            problem.wf(),
        ensures
            ctx.wf(),
            ctx.t() == tables_of(*problem),
            ctx.order_ids@ == Seq::new(problem.orders@.len(), |k: int| problem.orders@[k].id),
            ctx.vehicle_ids@ == Seq::new(problem.vehicles@.len(), |v: int| problem.vehicles@[v].id),
            ctx.best_dist == DIST_NONE,
            ctx.best_price == PRICE_NONE,
            ctx.best_empty == DIST_NONE,
            forall|x: int| 0 <= x < ctx.memo@.len() ==> #[trigger] ctx.memo@[x] is None,
            forall|v: int| 0 <= v < problem.vehicles@.len() ==> #[trigger] ctx.best_dist_assignments@[v] == 0,
            forall|v: int| 0 <= v < problem.vehicles@.len() ==> #[trigger] ctx.best_price_assignments@[v] == 0,
            forall|v: int| 0 <= v < problem.vehicles@.len() ==> #[trigger] ctx.best_empty_assignments@[v] == 0,
    {
        let ghost tv = tables_of(*problem);
        let n = problem.orders.len();
        let nv = problem.vehicles.len();
        let nn = 2 * n;

        let mut dist_mat: Vec<u32> = Vec::new();
        let mut i: usize = 0;
        while i < nn
            invariant
                tv == tables_of(*problem),
                problem.wf(),
                n == problem.orders@.len(),
                nn == 2 * n,
                i <= nn,
                dist_mat@.len() == i * nn,
                forall|x: int| 0 <= x < dist_mat@.len() ==> #[trigger] dist_mat@[x] == tv.dist_mat[x],
            decreases nn - i,
        {
            let pa = node_point(problem, i);
            let mut j: usize = 0;
            while j < nn
                invariant
                    tv == tables_of(*problem),
                    problem.wf(),
                    n == problem.orders@.len(),
                    nn == 2 * n,
                    i < nn,
                    j <= nn,
                    pa == problem.node_point(i as int),
                    pa < problem.num_points,
                    dist_mat@.len() == i * nn + j,
                    forall|x: int| 0 <= x < dist_mat@.len() ==> #[trigger] dist_mat@[x] == tv.dist_mat[x],
                decreases nn - j,
            {
                let d = if i != j {
                    let pb = node_point(problem, j);
                    point_distance(problem, pa, pb)
                } else {
                    0
                };
                proof {
                    lemma_fundamental_div_mod_converse(i * nn + j, nn as int, i as int, j as int);
                    assert(i * nn + j < nn * nn) by (nonlinear_arith)
                        requires i < nn, j < nn;
                    assert(nn * nn == 4 * n * n) by (nonlinear_arith)
                        requires nn == 2 * n;
                }
                assert(d == tv.dist_mat[i * nn + j]);
                dist_mat.push(d);
                j = j + 1;
                proof {
                    assert(dist_mat@.len() == i * nn + j);
                }
            }
            i = i + 1;
            proof {
                assert(dist_mat@.len() == i * nn) by (nonlinear_arith)
                    requires dist_mat@.len() == (i - 1) * nn + nn;
            }
        }
        proof {
            assert(nn * nn == 4 * n * n) by (nonlinear_arith)
                requires nn == 2 * n;
            assert(dist_mat@ =~= tv.dist_mat);
        }

        let mut veh_start_mat: Vec<u32> = Vec::new();
        let mut v: usize = 0;
        while v < nv
            invariant
                tv == tables_of(*problem),
                problem.wf(),
                n == problem.orders@.len(),
                nv == problem.vehicles@.len(),
                v <= nv,
                veh_start_mat@.len() == v * n,
                forall|x: int| 0 <= x < veh_start_mat@.len() ==> #[trigger] veh_start_mat@[x] == tv.veh_start_mat[x],
            decreases nv - v,
        {
            let start = problem.vehicles[v].start_location;
            let mut k: usize = 0;
            while k < n
                invariant
                    tv == tables_of(*problem),
                    problem.wf(),
                    n == problem.orders@.len(),
                    nv == problem.vehicles@.len(),
                    v < nv,
                    k <= n,
                    start == problem.vehicles@[v as int].start_location,
                    veh_start_mat@.len() == v * n + k,
                    forall|x: int| 0 <= x < veh_start_mat@.len() ==> #[trigger] veh_start_mat@[x] == tv.veh_start_mat[x],
                decreases n - k,
            {
                let d = point_distance(problem, start, problem.orders[k].pickup_location);
                proof {
                    lemma_fundamental_div_mod_converse(v * n + k, n as int, v as int, k as int);
                    assert(v * n + k < nv * n) by (nonlinear_arith)
                        requires v < nv, k < n;
                }
                assert(d == tv.veh_start_mat[v * n + k]);
                veh_start_mat.push(d);
                k = k + 1;
            }
            v = v + 1;
            proof {
                assert(veh_start_mat@.len() == v * n) by (nonlinear_arith)
                    requires veh_start_mat@.len() == (v - 1) * n + n;
            }
        }
        proof {
            assert(veh_start_mat@ =~= tv.veh_start_mat);
        }

        let mut loads: Vec<u32> = Vec::new();
        let mut order_ids: Vec<u32> = Vec::new();
        let mut k: usize = 0;
        while k < n
            invariant
                n == problem.orders@.len(),
                k <= n,
                loads@ == Seq::new(k as nat, |q: int| problem.orders@[q].load),
                order_ids@ == Seq::new(k as nat, |q: int| problem.orders@[q].id),
            decreases n - k,
        {
            loads.push(problem.orders[k].load);
            order_ids.push(problem.orders[k].id);
            k = k + 1;
            proof {
                assert(loads@ =~= Seq::new(k as nat, |q: int| problem.orders@[q].load));
                assert(order_ids@ =~= Seq::new(k as nat, |q: int| problem.orders@[q].id));
            }
        }

        let mut prices: Vec<u32> = Vec::new();
        let mut vehicle_ids: Vec<u32> = Vec::new();
        let mut w: usize = 0;
        while w < nv
            invariant
                nv == problem.vehicles@.len(),
                w <= nv,
                prices@ == Seq::new(w as nat, |q: int| problem.vehicles@[q].price_km),
                vehicle_ids@ == Seq::new(w as nat, |q: int| problem.vehicles@[q].id),
            decreases nv - w,
        {
            prices.push(problem.vehicles[w].price_km);
            vehicle_ids.push(problem.vehicles[w].id);
            w = w + 1;
            proof {
                assert(prices@ =~= Seq::new(w as nat, |q: int| problem.vehicles@[q].price_km));
                assert(vehicle_ids@ =~= Seq::new(w as nat, |q: int| problem.vehicles@[q].id));
            }
        }

        proof {
            crate::bits::lemma_full(n as u32);
            crate::bits::lemma_set_bit(0, n as u32);
        }
        let full_mask: u32 = (1u32 << (n as u32)) - 1;
        let slots = nv * (full_mask as usize + 1);
        let mut memo: Vec<Option<InternalBestResults>> = Vec::new();
        while memo.len() < slots
            invariant
                memo@.len() <= slots,
                forall|x: int| 0 <= x < memo@.len() ==> #[trigger] memo@[x] is None,
            decreases slots - memo@.len(),
        {
            memo.push(None);
        }

        let tables = Tables {
            n_orders: n,
            num_nodes: nn,
            n_vehicles: nv,
            dist_mat,
            veh_start_mat,
            loads,
            prices,
            capacity: problem.capacity,
            full_mask,
        };
        let ctx = SolverContext {
            tables,
            order_ids,
            vehicle_ids,
            memo,
            best_dist: DIST_NONE,
            best_dist_assignments: zeros(nv),
            best_price: PRICE_NONE,
            best_price_assignments: zeros(nv),
            best_empty: DIST_NONE,
            best_empty_assignments: zeros(nv),
        };
        proof {
            assert(ctx.t() =~= tv);
            assert forall|v: int, mask: u32| 0 <= v < ctx.t().n_vehicles && within(mask, ctx.t().full_mask)
                && (#[trigger] ctx.memo@[ctx.slot(v, mask)]) is Some
                implies crate::tsp::triple_ok(ctx.t(), v, mask, ctx.memo@[ctx.slot(v, mask)]->0) by {
                crate::tsp::lemma_within_le(mask, full_mask);
                assert(v * (full_mask as int + 1) + mask < nv * (full_mask as int + 1)) by (nonlinear_arith)
                    requires v < nv, mask <= full_mask;
            }
        }
        ctx
    }
}

} // verus!
