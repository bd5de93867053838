//! The search over splits of the orders among the vehicles.
use vstd::prelude::*;
use crate::assign::{splits, is_assignment, part_cost, union_from, lemma_place, lemma_union_zero, lemma_part_cost_nonneg, lemma_complete_bounds, assign_before, assign_differs, lemma_assign_antisym, lemma_assign_prefix, lemma_assign_child, lemma_under_union, lemma_part_prefix, lemma_zero_tail, lemma_part_cost_bound};
use crate::bits::within;
use crate::context::{SolverContext, TablesView};
use crate::route::{Criterion, lemma_min_cost_unique};
use crate::tsp::{solve_tsp, DIST_NONE, PRICE_NONE};

verus! {

/// `best` is the sentinel `none`, or the cost under `c` of the assignment
/// `a` of all orders.
pub open spec fn best_ok(t: TablesView, best: int, none: int, a: Seq<u32>, c: Criterion) -> bool {
    &&& a.len() == t.n_vehicles
    &&& best == none || (is_assignment(t, a) && best == part_cost(t, a, 0, c))
}

pub open spec fn settles_one(t: TablesView, best: int, kept: Seq<u32>, b: Seq<u32>, c: Criterion) -> bool {
    &&& best <= part_cost(t, b, 0, c)
    &&& best == part_cost(t, b, 0, c) ==> !assign_before(b, kept, t.n_vehicles)
}

pub open spec fn kept_one(ob: int, oa: Seq<u32>, nb: int, na: Seq<u32>, a0: Seq<u32>, k: int) -> bool {
    (nb == ob && na == oa) || (nb < ob && na.take(k) == a0.take(k))
}

pub open spec fn placed_one(best: int, none: int, kept: Seq<u32>, a0: Seq<u32>, k: int, s: int) -> bool {
    ||| best == none
    ||| assign_before(kept, a0, k)
    ||| kept.take(k) == a0.take(k) && k < kept.len() && kept[k] > s
}

/// Above every mask: no vehicle is given more.
pub open spec fn no_mask() -> int {
    0x1_0000_0000
}

impl SolverContext {
    /// Each best value found so far belongs to the assignment kept with it.
    pub open spec fn search_ok(self) -> bool {
        &&& best_ok(self.t(), self.best_dist as int, DIST_NONE as int, self.best_dist_assignments@, Criterion::Distance)
        &&& best_ok(self.t(), self.best_empty as int, DIST_NONE as int, self.best_empty_assignments@, Criterion::Empty)
        &&& best_ok(self.t(), self.best_price as int, PRICE_NONE as int, self.best_price_assignments@, Criterion::Price)
    }

    /// `b` costs no less than each best value, and where it costs the same,
    /// the search does not reach it before the kept assignment.
    pub open spec fn settles(self, b: Seq<u32>) -> bool {
        &&& settles_one(self.t(), self.best_dist as int, self.best_dist_assignments@, b, Criterion::Distance)
        &&& settles_one(self.t(), self.best_empty as int, self.best_empty_assignments@, b, Criterion::Empty)
        &&& settles_one(self.t(), self.best_price as int, self.best_price_assignments@, b, Criterion::Price)
    }

    /// Each best value and its assignment are those of `o`, or the value is
    /// strictly lower and the assignment agrees with `a0` on the first `k`
    /// vehicles.
    pub open spec fn kept_bests(self, o: SolverContext, a0: Seq<u32>, k: int) -> bool {
        &&& kept_one(o.best_dist as int, o.best_dist_assignments@, self.best_dist as int, self.best_dist_assignments@, a0, k)
        &&& kept_one(o.best_empty as int, o.best_empty_assignments@, self.best_empty as int, self.best_empty_assignments@, a0, k)
        &&& kept_one(o.best_price as int, o.best_price_assignments@, self.best_price as int, self.best_price_assignments@, a0, k)
    }

    /// Each kept assignment is none yet, or reached before `a0` on the first
    /// `k` vehicles, or agrees with `a0` there and gives vehicle `k` a mask
    /// above `s`.
    pub open spec fn placed_bests(self, a0: Seq<u32>, k: int, s: int) -> bool {
        &&& placed_one(self.best_dist as int, DIST_NONE as int, self.best_dist_assignments@, a0, k, s)
        &&& placed_one(self.best_empty as int, DIST_NONE as int, self.best_empty_assignments@, a0, k, s)
        &&& placed_one(self.best_price as int, PRICE_NONE as int, self.best_price_assignments@, a0, k, s)
    }

    /// Nothing but the memo and the best assignments differs.
    pub open spec fn same_problem(self, o: SolverContext) -> bool {
        &&& self.tables == o.tables
        &&& self.order_ids == o.order_ids
        &&& self.vehicle_ids == o.vehicle_ids
    }
}

proof fn lemma_take(covered: u32, full: u32, s: u32)
    requires
        within(covered, full),
        within(s, full ^ covered),
    ensures
        s & covered == 0,
        covered | s == covered + s,
        within(covered | s, full),
        full ^ (covered | s) == (full ^ covered) ^ s,
{
    assert(covered & full == covered && s & (full ^ covered) == s ==> {
        &&& s & covered == 0
        &&& covered | s == covered + s
        &&& (covered | s) & full == covered | s
        &&& full ^ (covered | s) == (full ^ covered) ^ s
    }) by (bit_vector);
}

proof fn lemma_head(x: u32, y: u32, r: u32)
    requires
        x | y == r,
    ensures
        within(x, r),
        x & y == 0 ==> y == r ^ x,
        x == 0 ==> y == r,
{
    assert(x | y == r ==> (x & r == x && (x & y == 0 ==> y == r ^ x) && (x == 0 ==> y == r))) by (bit_vector);
}

proof fn lemma_next_submask(s: u32, r: u32, u: u32)
    requires
        within(s, r),
        s != 0,
    ensures
        ((s - 1) as u32) & r < s,
        within(((s - 1) as u32) & r, r),
        within(u, r) && u < s ==> u <= ((s - 1) as u32) & r,
{
    assert(s & r == s && s != 0 ==> {
        &&& ((s - 1) as u32) & r < s
        &&& (((s - 1) as u32) & r) & r == ((s - 1) as u32) & r
        &&& (u & r == u && u < s ==> u <= ((s - 1) as u32) & r)
    }) by (bit_vector);
}

proof fn lemma_rest(covered: u32, full: u32)
    ensures
        full ^ full == 0,
        covered != full ==> full ^ covered != 0,
        within(0, full ^ covered),
        within(full ^ covered, full ^ covered),
        within(covered, full) ==> within(full ^ covered, full),
{
    assert(full ^ full == 0 && (covered != full ==> full ^ covered != 0)
        && 0u32 & (full ^ covered) == 0u32 && (full ^ covered) & (full ^ covered) == full ^ covered
        && (covered & full == covered ==> (full ^ covered) & full == full ^ covered)) by (bit_vector);
}

proof fn lemma_memo_ok_same(a: SolverContext, b: SolverContext)
    requires
        a.memo_ok(),
        a.memo == b.memo,
        a.tables == b.tables,
    ensures
        b.memo_ok(),
{
    assert forall|v: int, mask: u32| 0 <= v < b.t().n_vehicles && within(mask, b.t().full_mask)
        && (#[trigger] b.memo@[b.slot(v, mask)]) is Some
        implies crate::tsp::triple_ok(b.t(), v, mask, b.memo@[b.slot(v, mask)]->0) by {
        assert(a.slot(v, mask) == b.slot(v, mask));
        assert(a.memo@[a.slot(v, mask)] is Some);
    }
}

pub fn copy_assignments(a: &Vec<u32>) -> (r: Vec<u32>)
    ensures
        r@ == a@,
{
    let mut r: Vec<u32> = Vec::new();
    let mut i: usize = 0;
    while i < a.len()
        invariant
            i <= a.len(),
            r@ == a@.take(i as int),
        decreases a.len() - i,
    {
        r.push(a[i]);
        i = i + 1;
        assert(r@ =~= a@.take(i as int));
    }
    assert(a@.take(a.len() as int) =~= a@);
    r
}

/// What the vehicles from `vi` on get in an assignment that agrees with
/// `a0` before `vi`: the orders outside `am`, each servable.
proof fn lemma_under_rest(t: TablesView, a0: Seq<u32>, b: Seq<u32>, vi: int, am: u32)
    requires
        t.wf(),
        splits(t, a0, 0, am),
        forall|j: int| vi <= j < a0.len() ==> #[trigger] a0[j] == 0,
        0 <= vi <= a0.len(),
        is_assignment(t, b),
        b.take(vi) == a0.take(vi),
    ensures
        union_from(b, vi) == t.full_mask ^ am,
        vi < b.len() ==> within(b[vi], t.full_mask ^ am) && b[vi] <= t.full_mask ^ am,
        vi < b.len() && b[vi] != 0 ==> crate::route::feasible(t, vi, b[vi]),
{
    lemma_under_union(a0, b, vi, 0, am);
    let u = union_from(b, vi);
    lemma_head(am, u, t.full_mask);
    if vi < b.len() {
        crate::bits::lemma_mask_facts(b[vi], union_from(b, vi + 1), 0u32);
        crate::tsp::lemma_within_le(b[vi], t.full_mask ^ am);
    }
}

/// The assignments that agree with `a0` before `vi` when `a0` already gives
/// out every order: `a0` alone.
proof fn lemma_under_full(t: TablesView, a0: Seq<u32>, b: Seq<u32>, vi: int, am: u32)
    requires
        t.wf(),
        splits(t, a0, 0, am),
        am == t.full_mask,
        forall|j: int| vi <= j < a0.len() ==> #[trigger] a0[j] == 0,
        0 <= vi <= a0.len(),
        is_assignment(t, b),
        b.take(vi) == a0.take(vi),
    ensures
        b == a0,
{
    lemma_under_rest(t, a0, b, vi, am);
    lemma_rest(am, am);
    lemma_union_zero(t, b, vi);
    assert(b =~= a0) by {
        assert forall|j: int| 0 <= j < b.len() implies b[j] == a0[j] by {
            if j < vi {
                assert(b.take(vi)[j] == a0.take(vi)[j]);
                assert(b.take(vi)[j] == b[j]);
                assert(a0.take(vi)[j] == a0[j]);
            } else {
                assert(b[j] == 0);
                assert(a0[j] == 0);
            }
        }
    }
}

/// With the aggregate no lower than a best value, an assignment agreeing
/// with `a0` before `vi` is settled for that criterion.
proof fn lemma_settle_under(t: TablesView, best: int, none: int, kept: Seq<u32>, a0: Seq<u32>, vi: int, b: Seq<u32>, c: Criterion)
    requires
        t.wf(),
        is_assignment(t, b),
        a0.len() == t.n_vehicles,
        0 <= vi <= a0.len(),
        b.take(vi) == a0.take(vi),
        forall|j: int| vi <= j < a0.len() ==> #[trigger] a0[j] == 0,
        best <= part_cost(t, a0, 0, c),
        placed_one(best, none, kept, a0, vi, no_mask()),
        kept.len() <= a0.len(),
        c == Criterion::Price ==> none == PRICE_NONE,
        c != Criterion::Price ==> none == DIST_NONE,
    ensures
        settles_one(t, best, kept, b, c),
{
    lemma_zero_tail(t, a0, vi);
    lemma_part_prefix(t, a0, b, 0, vi, c);
    lemma_part_cost_nonneg(t, b, vi, c);
    lemma_part_cost_bound(t, b, 0, t.full_mask);
    crate::bits::lemma_full(t.n_orders as u32);
    if best == part_cost(t, b, 0, c) {
        lemma_assign_prefix(kept, a0, b, vi, t.n_vehicles);
        lemma_assign_antisym(kept, b, t.n_vehicles);
    }
}

/// Explores every way to give the orders outside `assignment_mask` to the
/// vehicles from `vehicle_idx` on, where `assignments` already gives the
/// orders of `assignment_mask` to the vehicles before it at the three costs
/// `current_*`. Vehicles are decided in fleet order; each tries the
/// non-empty subsets of the orders left in descending order, then none. An
/// assignment of all orders replaces the best one under a criterion only
/// when strictly cheaper, so among equally cheap assignments the first
/// reached stays.
#[verifier::rlimit(100)]
pub fn solve_recursive(
    ctx: &mut SolverContext,
    vehicle_idx: usize,
    assignment_mask: u32,
    current_dist: u64,
    current_price: u128,
    current_empty: u64,
    assignments: &mut Vec<u32>,
)
    requires
        old(ctx).wf(),
        old(ctx).search_ok(),
        vehicle_idx <= old(ctx).tables.n_vehicles,
        within(assignment_mask, old(ctx).tables.full_mask),
        splits(old(ctx).t(), old(assignments)@, 0, assignment_mask),
        forall|j: int| vehicle_idx <= j < old(assignments)@.len() ==> #[trigger] old(assignments)@[j] == 0,
        current_dist == part_cost(old(ctx).t(), old(assignments)@, 0, Criterion::Distance),
        current_empty == part_cost(old(ctx).t(), old(assignments)@, 0, Criterion::Empty),
        current_price == part_cost(old(ctx).t(), old(assignments)@, 0, Criterion::Price),
        current_dist <= assignment_mask * 0x2_0000_0000,
        current_empty <= current_dist,
        current_price <= assignment_mask * 0x2_0000_0000_0000_0000,
        old(ctx).placed_bests(old(assignments)@, vehicle_idx as int, no_mask()),
        forall|b: Seq<u32>| #[trigger] is_assignment(old(ctx).t(), b) && assign_before(b, old(assignments)@, vehicle_idx as int)
            ==> old(ctx).settles(b),
    ensures
        final(ctx).wf(),
        final(ctx).search_ok(),
        final(ctx).same_problem(*old(ctx)),
        final(assignments)@ == old(assignments)@,
        final(ctx).kept_bests(*old(ctx), old(assignments)@, vehicle_idx as int),
        forall|b: Seq<u32>| #[trigger] is_assignment(old(ctx).t(), b)
            && (assign_before(b, old(assignments)@, vehicle_idx as int) || b.take(vehicle_idx as int) == old(assignments)@.take(vehicle_idx as int))
            ==> final(ctx).settles(b),
    decreases usize::MAX - vehicle_idx,
{
    let ghost t = ctx.t();
    let ghost vi = vehicle_idx as int;
    let ghost a0 = assignments@;
    let ghost ctx0 = *ctx;
    let ghost nv = t.n_vehicles;
    let full = ctx.tables.full_mask;
    let remaining = full ^ assignment_mask;
    proof {
        lemma_rest(assignment_mask, full);
    }

    if current_dist >= ctx.best_dist && current_price >= ctx.best_price && current_empty >= ctx.best_empty {
        proof {
            assert forall|b: Seq<u32>| #[trigger] is_assignment(t, b)
                && (assign_before(b, a0, vi) || b.take(vi) == a0.take(vi)) implies ctx.settles(b) by {
                if !assign_before(b, a0, vi) {
                    lemma_settle_under(t, ctx.best_dist as int, DIST_NONE as int, ctx.best_dist_assignments@, a0, vi, b, Criterion::Distance);
                    lemma_settle_under(t, ctx.best_empty as int, DIST_NONE as int, ctx.best_empty_assignments@, a0, vi, b, Criterion::Empty);
                    lemma_settle_under(t, ctx.best_price as int, PRICE_NONE as int, ctx.best_price_assignments@, a0, vi, b, Criterion::Price);
                }
            }
        }
        return;
    }

    if assignment_mask == full {
        if current_dist < ctx.best_dist {
            ctx.best_dist = current_dist;
            ctx.best_dist_assignments = copy_assignments(assignments);
        }
        if current_price < ctx.best_price {
            ctx.best_price = current_price;
            ctx.best_price_assignments = copy_assignments(assignments);
        }
        if current_empty < ctx.best_empty {
            ctx.best_empty = current_empty;
            ctx.best_empty_assignments = copy_assignments(assignments);
        }
        proof {
            lemma_memo_ok_same(ctx0, *ctx);
            assert(a0.take(vi) == a0.take(vi));
            assert forall|b: Seq<u32>| #[trigger] is_assignment(t, b)
                && (assign_before(b, a0, vi) || b.take(vi) == a0.take(vi)) implies ctx.settles(b) by {
                if !assign_before(b, a0, vi) {
                    lemma_under_full(t, a0, b, vi, assignment_mask);
                    lemma_irreflexive(a0, nv);
                    if assign_before(ctx0.best_dist_assignments@, a0, vi) {
                        lemma_assign_prefix(ctx0.best_dist_assignments@, a0, a0, vi, nv);
                        lemma_assign_antisym(ctx0.best_dist_assignments@, a0, nv);
                    }
                    if assign_before(ctx0.best_empty_assignments@, a0, vi) {
                        lemma_assign_prefix(ctx0.best_empty_assignments@, a0, a0, vi, nv);
                        lemma_assign_antisym(ctx0.best_empty_assignments@, a0, nv);
                    }
                    if assign_before(ctx0.best_price_assignments@, a0, vi) {
                        lemma_assign_prefix(ctx0.best_price_assignments@, a0, a0, vi, nv);
                        lemma_assign_antisym(ctx0.best_price_assignments@, a0, nv);
                    }
                    lemma_part_cost_bound(t, a0, 0, full);
                    crate::bits::lemma_full(t.n_orders as u32);
                } else {
                    assert(ctx0.settles(b));
                }
            }
        }
        return;
    }

    if vehicle_idx >= ctx.tables.n_vehicles {
        proof {
            assert forall|b: Seq<u32>| #[trigger] is_assignment(t, b)
                && (assign_before(b, a0, vi) || b.take(vi) == a0.take(vi)) implies ctx.settles(b) by {
                if !assign_before(b, a0, vi) {
                    lemma_under_rest(t, a0, b, vi, assignment_mask);
                }
            }
        }
        return;
    }

    let mut submask = remaining;
    proof {
        assert forall|b: Seq<u32>| #[trigger] is_assignment(t, b)
            && (assign_before(b, a0, vi) || (b.take(vi) == a0.take(vi) && b[vi] > submask)) implies ctx.settles(b) by {
            if !assign_before(b, a0, vi) {
                lemma_under_rest(t, a0, b, vi, assignment_mask);
            }
        }
    }
    while submask != 0
        invariant
            ctx.wf(),
            ctx.search_ok(),
            ctx.same_problem(ctx0),
            t == ctx.t(),
            vi == vehicle_idx as int,
            nv == t.n_vehicles,
            vehicle_idx < ctx.tables.n_vehicles,
            full == ctx.tables.full_mask,
            remaining == full ^ assignment_mask,
            assignment_mask != full,
            within(assignment_mask, full),
            assignments@ == a0,
            splits(t, a0, 0, assignment_mask),
            forall|j: int| vehicle_idx <= j < a0.len() ==> #[trigger] a0[j] == 0,
            current_dist == part_cost(t, a0, 0, Criterion::Distance),
            current_empty == part_cost(t, a0, 0, Criterion::Empty),
            current_price == part_cost(t, a0, 0, Criterion::Price),
            current_dist <= assignment_mask * 0x2_0000_0000,
            current_empty <= current_dist,
            current_price <= assignment_mask * 0x2_0000_0000_0000_0000,
            within(submask, remaining),
            ctx.kept_bests(ctx0, a0, vi),
            ctx.placed_bests(a0, vi, submask as int),
            forall|b: Seq<u32>| #[trigger] is_assignment(t, b)
                && (assign_before(b, a0, vi) || (b.take(vi) == a0.take(vi) && b[vi] > submask)) ==> ctx.settles(b),
        decreases submask,
    {
        let ghost ctx1 = *ctx;
        let ghost s = submask;
        let ghost a1 = a0.update(vi, s);
        proof {
            assert(within(submask, full)) by {
                let am = assignment_mask;
                lemma_rest(am, full);
                crate::bits::lemma_mask_facts(s, full ^ am, full);
            }
            lemma_next_submask(s, remaining, 0);
            assert(a1.take(vi) =~= a0.take(vi));
        }
        let res = solve_tsp(ctx, vehicle_idx, submask);
        let ghost ctxt = *ctx;
        if res.valid {
            proof {
                lemma_take(assignment_mask, full, s);
                assert(union_from(a0, 0) == assignment_mask);
                lemma_place(t, a0, vi, s, 0);
                crate::bits::lemma_full(t.n_orders as u32);
                lemma_min_cost_unique(t, vi, s, Criterion::Distance, res.min_dist.total_dist as int);
                lemma_min_cost_unique(t, vi, s, Criterion::Empty, res.min_empty.total_empty as int);
                lemma_min_cost_unique(t, vi, s, Criterion::Price, res.min_price.total_price as int);
                lemma_complete_bounds(t, vi, s, res.min_dist.path@);
                lemma_complete_bounds(t, vi, s, res.min_empty.path@);
                lemma_complete_bounds(t, vi, s, res.min_price.path@);
                assert(res.min_empty.total_empty <= res.min_dist.total_dist);
                crate::tsp::lemma_within_le(assignment_mask | s, full);
                lemma_placed_child(ctx.best_dist as int, DIST_NONE as int, ctx.best_dist_assignments@, a0, vi, s);
                lemma_placed_child(ctx.best_empty as int, DIST_NONE as int, ctx.best_empty_assignments@, a0, vi, s);
                lemma_placed_child(ctx.best_price as int, PRICE_NONE as int, ctx.best_price_assignments@, a0, vi, s);
                assert forall|b: Seq<u32>| #[trigger] is_assignment(t, b) && assign_before(b, a1, vi + 1) implies ctx.settles(b) by {
                    lemma_assign_child(b, a0, vi, s);
                }
            }
            assignments[vehicle_idx] = submask;
            proof {
                assert(assignments@ == a1);
                assert(splits(t, a1, 0, assignment_mask | s));
            }
            solve_recursive(
                ctx,
                vehicle_idx + 1,
                assignment_mask | submask,
                current_dist + res.min_dist.total_dist,
                current_price + res.min_price.total_price,
                current_empty + res.min_empty.total_empty,
                assignments,
            );
            assignments[vehicle_idx] = 0;
            proof {
                assert(assignments@ =~= a0);
                lemma_kept_step(ctx0, ctx1, ctxt, *ctx, a0, vi, s, ((s - 1) as u32) & remaining);
                assert forall|b: Seq<u32>| #[trigger] is_assignment(t, b)
                    && (assign_before(b, a0, vi) || (b.take(vi) == a0.take(vi) && b[vi] > ((s - 1) as u32) & remaining))
                    implies ctx.settles(b) by {
                    lemma_assign_child(b, a0, vi, s);
                    if !assign_before(b, a0, vi) {
                        lemma_under_rest(t, a0, b, vi, assignment_mask);
                        lemma_next_submask(s, remaining, b[vi]);
                        if b[vi] == s {
                            assert(b.take(vi + 1) =~= a1.take(vi + 1)) by {
                                assert forall|j: int| 0 <= j < vi + 1 implies #[trigger] b.take(vi + 1)[j] == a1.take(vi + 1)[j] by {
                                    if j < vi {
                                        assert(b.take(vi)[j] == a0.take(vi)[j]);
                                    }
                                }
                            }
                        }
                    }
                }
            }
        } else {
            proof {
                assert forall|b: Seq<u32>| #[trigger] is_assignment(t, b)
                    && (assign_before(b, a0, vi) || (b.take(vi) == a0.take(vi) && b[vi] > ((s - 1) as u32) & remaining))
                    implies ctx.settles(b) by {
                    assert(ctx1.settles(b) ==> ctx.settles(b));
                    if !assign_before(b, a0, vi) {
                        lemma_under_rest(t, a0, b, vi, assignment_mask);
                        lemma_next_submask(s, remaining, b[vi]);
                    }
                }
                lemma_placed_next(ctx.best_dist as int, DIST_NONE as int, ctx.best_dist_assignments@, a0, vi, s, ((s - 1) as u32) & remaining);
                lemma_placed_next(ctx.best_empty as int, DIST_NONE as int, ctx.best_empty_assignments@, a0, vi, s, ((s - 1) as u32) & remaining);
                lemma_placed_next(ctx.best_price as int, PRICE_NONE as int, ctx.best_price_assignments@, a0, vi, s, ((s - 1) as u32) & remaining);
            }
        }
        let next = (submask - 1) & remaining;
        submask = next;
    }

    proof {
        lemma_placed_skip(ctx.best_dist as int, DIST_NONE as int, ctx.best_dist_assignments@, a0, vi);
        lemma_placed_skip(ctx.best_empty as int, DIST_NONE as int, ctx.best_empty_assignments@, a0, vi);
        lemma_placed_skip(ctx.best_price as int, PRICE_NONE as int, ctx.best_price_assignments@, a0, vi);
        assert forall|b: Seq<u32>| #[trigger] is_assignment(t, b) && assign_before(b, a0, vi + 1) implies ctx.settles(b) by {
            lemma_assign_child(b, a0, vi, 0);
            assert(a0.update(vi, 0) =~= a0);
        }
    }
    let ghost ctx2 = *ctx;
    solve_recursive(ctx, vehicle_idx + 1, assignment_mask, current_dist, current_price, current_empty, assignments);
    proof {
        lemma_kept_skip(ctx0, ctx2, *ctx, a0, vi);
        assert forall|b: Seq<u32>| #[trigger] is_assignment(t, b)
            && (assign_before(b, a0, vi) || b.take(vi) == a0.take(vi)) implies ctx.settles(b) by {
            lemma_assign_child(b, a0, vi, 0);
            assert(a0.update(vi, 0) =~= a0);
            if !assign_before(b, a0, vi) && b[vi] == 0 {
                assert(b.take(vi + 1) =~= a0.take(vi + 1)) by {
                    assert forall|j: int| 0 <= j < vi + 1 implies #[trigger] b.take(vi + 1)[j] == a0.take(vi + 1)[j] by {
                        if j < vi {
                            assert(b.take(vi)[j] == a0.take(vi)[j]);
                        }
                    }
                }
            }
        }
    }
}

proof fn lemma_irreflexive(a: Seq<u32>, k: int)
    ensures
        !assign_before(a, a, k),
{
    if assign_before(a, a, k) {
        let i = choose|i: int| #[trigger] assign_differs(a, a, i, k);
    }
}

/// Kept assignments found before `a0`, or under it with vehicle `vi` above
/// `s`, come before `a0` with vehicle `vi` given `s`.
proof fn lemma_placed_child(best: int, none: int, kept: Seq<u32>, a0: Seq<u32>, vi: int, s: u32)
    requires
        placed_one(best, none, kept, a0, vi, s as int),
        0 <= vi < a0.len(),
        kept.len() == a0.len(),
        s != 0,
    ensures
        placed_one(best, none, kept, a0.update(vi, s), vi + 1, no_mask()),
{
    lemma_assign_child(kept, a0, vi, s);
}

/// After trying `s`, what was placed stays placed for the next mask below it.
proof fn lemma_placed_next(best: int, none: int, kept: Seq<u32>, a0: Seq<u32>, vi: int, s: u32, next: u32)
    requires
        placed_one(best, none, kept, a0, vi, s as int),
        next < s,
    ensures
        placed_one(best, none, kept, a0, vi, next as int),
{
}

/// After all masks, what was placed comes before `a0` with vehicle `vi`
/// unused.
proof fn lemma_placed_skip(best: int, none: int, kept: Seq<u32>, a0: Seq<u32>, vi: int)
    requires
        placed_one(best, none, kept, a0, vi, 0),
        0 <= vi < a0.len(),
        kept.len() == a0.len(),
        a0[vi] == 0,
    ensures
        placed_one(best, none, kept, a0, vi + 1, no_mask()),
{
    lemma_assign_child(kept, a0, vi, 0);
    assert(a0.update(vi, 0) =~= a0);
}

proof fn lemma_take_shorter(x: Seq<u32>, y: Seq<u32>, k: int)
    requires
        0 <= k,
        k + 1 <= x.len(),
        k + 1 <= y.len(),
        x.take(k + 1) == y.take(k + 1),
    ensures
        x.take(k) == y.take(k),
        x[k] == y[k],
{
    assert(x.take(k) =~= y.take(k)) by {
        assert forall|j: int| 0 <= j < k implies x.take(k)[j] == y.take(k)[j] by {
            assert(x.take(k + 1)[j] == y.take(k + 1)[j]);
        }
    }
    assert(x.take(k + 1)[k] == y.take(k + 1)[k]);
    assert(x.take(k + 1)[k] == x[k]);
    assert(y.take(k + 1)[k] == y[k]);
}

proof fn lemma_kept_one_step(ob: int, oa: Seq<u32>, b1: int, k1: Seq<u32>, b2: int, k2: Seq<u32>,
    none: int, a0: Seq<u32>, vi: int, s: u32, next: u32)
    requires
        kept_one(ob, oa, b1, k1, a0, vi),
        placed_one(b1, none, k1, a0, vi, s as int),
        kept_one(b1, k1, b2, k2, a0.update(vi, s), vi + 1),
        0 <= vi < a0.len(),
        k2.len() == a0.len(),
        next < s,
    ensures
        kept_one(ob, oa, b2, k2, a0, vi),
        placed_one(b2, none, k2, a0, vi, next as int),
{
    let a1 = a0.update(vi, s);
    assert(a1.take(vi) =~= a0.take(vi));
    if !(b2 == b1 && k2 == k1) {
        lemma_take_shorter(k2, a1, vi);
    }
}

proof fn lemma_kept_step(c0: SolverContext, c1: SolverContext, ct: SolverContext, c2: SolverContext, a0: Seq<u32>, vi: int, s: u32, next: u32)
    requires
        c1.kept_bests(c0, a0, vi),
        c1.placed_bests(a0, vi, s as int),
        ct.best_dist == c1.best_dist,
        ct.best_empty == c1.best_empty,
        ct.best_price == c1.best_price,
        ct.best_dist_assignments == c1.best_dist_assignments,
        ct.best_empty_assignments == c1.best_empty_assignments,
        ct.best_price_assignments == c1.best_price_assignments,
        c2.kept_bests(ct, a0.update(vi, s), vi + 1),
        0 <= vi < a0.len(),
        c2.best_dist_assignments@.len() == a0.len(),
        c2.best_empty_assignments@.len() == a0.len(),
        c2.best_price_assignments@.len() == a0.len(),
        next < s,
    ensures
        c2.kept_bests(c0, a0, vi),
        c2.placed_bests(a0, vi, next as int),
{
    lemma_kept_one_step(c0.best_dist as int, c0.best_dist_assignments@, c1.best_dist as int, c1.best_dist_assignments@,
        c2.best_dist as int, c2.best_dist_assignments@, DIST_NONE as int, a0, vi, s, next);
    lemma_kept_one_step(c0.best_empty as int, c0.best_empty_assignments@, c1.best_empty as int, c1.best_empty_assignments@,
        c2.best_empty as int, c2.best_empty_assignments@, DIST_NONE as int, a0, vi, s, next);
    lemma_kept_one_step(c0.best_price as int, c0.best_price_assignments@, c1.best_price as int, c1.best_price_assignments@,
        c2.best_price as int, c2.best_price_assignments@, PRICE_NONE as int, a0, vi, s, next);
}

proof fn lemma_kept_one_skip(ob: int, oa: Seq<u32>, b1: int, k1: Seq<u32>, b2: int, k2: Seq<u32>, a0: Seq<u32>, vi: int)
    requires
        kept_one(ob, oa, b1, k1, a0, vi),
        kept_one(b1, k1, b2, k2, a0, vi + 1),
        0 <= vi < a0.len(),
        k2.len() == a0.len(),
    ensures
        kept_one(ob, oa, b2, k2, a0, vi),
{
    if !(b2 == b1 && k2 == k1) {
        lemma_take_shorter(k2, a0, vi);
    }
}

proof fn lemma_kept_skip(c0: SolverContext, c1: SolverContext, c2: SolverContext, a0: Seq<u32>, vi: int)
    requires
        c1.kept_bests(c0, a0, vi),
        c2.kept_bests(c1, a0, vi + 1),
        0 <= vi < a0.len(),
        c2.best_dist_assignments@.len() == a0.len(),
        c2.best_empty_assignments@.len() == a0.len(),
        c2.best_price_assignments@.len() == a0.len(),
    ensures
        c2.kept_bests(c0, a0, vi),
{
    lemma_kept_one_skip(c0.best_dist as int, c0.best_dist_assignments@, c1.best_dist as int, c1.best_dist_assignments@,
        c2.best_dist as int, c2.best_dist_assignments@, a0, vi);
    lemma_kept_one_skip(c0.best_empty as int, c0.best_empty_assignments@, c1.best_empty as int, c1.best_empty_assignments@,
        c2.best_empty as int, c2.best_empty_assignments@, a0, vi);
    lemma_kept_one_skip(c0.best_price as int, c0.best_price_assignments@, c1.best_price as int, c1.best_price_assignments@,
        c2.best_price as int, c2.best_price_assignments@, a0, vi);
}

} // verus!
