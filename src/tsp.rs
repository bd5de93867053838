//! The per-vehicle search: every pickup-and-delivery order of a subset of
//! orders, with the three cheapest routes kept.
use vstd::prelude::*;
use crate::bits::{in_mask, within, lemma_set_bit, lemma_bits_within};
use crate::context::{Tables, TablesView, SolverContext};
use crate::route::{Criterion, Walk, walk, complete, feasible, is_min_cost, route_cost, last_leg, lemma_walk_bounds, lemma_prefix};
use crate::types::{PathBuffer, InternalTspResult, InternalBestResults};

verus! {

/// Stands for "no route yet" among distances: above every route's cost.
pub const DIST_NONE: u64 = 0xffff_ffff_ffff_ffff;
/// Stands for "no route yet" among prices: above every route's price.
pub const PRICE_NONE: u128 = 0xffff_ffff_ffff_ffff_ffff_ffff_ffff_ffff;

/// `q` continues `p`.
pub open spec fn extends(q: Seq<u8>, p: Seq<u8>) -> bool {
    q.len() >= p.len() && q.take(p.len() as int) == p
}

/// The value that `r` is kept for under criterion `c`.
pub open spec fn key(r: InternalTspResult, c: Criterion) -> int {
    match c {
        Criterion::Distance => r.total_dist as int,
        Criterion::Empty => r.total_empty as int,
        Criterion::Price => r.total_price as int,
    }
}

pub open spec fn none_key(c: Criterion) -> int {
    match c {
        Criterion::Price => PRICE_NONE as int,
        _ => DIST_NONE as int,
    }
}

/// The costs that `r` holds are those of `w`.
pub open spec fn records(r: InternalTspResult, w: Walk) -> bool {
    &&& r.total_dist == w.dist
    &&& r.total_empty == w.empty
    &&& r.total_price == w.price
}

/// `r` is empty (its key is the sentinel) or a complete route with its
/// own costs.
pub open spec fn record_ok(t: TablesView, v: int, mask: u32, r: InternalTspResult, c: Criterion) -> bool {
    key(r, c) == none_key(c) || (complete(t, v, mask, r.path@) && records(r, walk(t, v, mask, r.path@)))
}

/// The cheapest routes found so far under each criterion.
pub struct Bests {
    pub dist: InternalTspResult,
    pub empty: InternalTspResult,
    pub price: InternalTspResult,
}

impl Bests {
    pub open spec fn wf(self, t: TablesView, v: int, mask: u32) -> bool {
        &&& record_ok(t, v, mask, self.dist, Criterion::Distance)
        &&& record_ok(t, v, mask, self.empty, Criterion::Empty)
        &&& record_ok(t, v, mask, self.price, Criterion::Price)
    }

    /// Each record of `self` is that of `o`, or strictly cheaper and found
    /// among the continuations of `p`.
    pub open spec fn kept_from(self, o: Bests, p: Seq<u8>) -> bool {
        &&& kept(o.dist, self.dist, Criterion::Distance, p)
        &&& kept(o.empty, self.empty, Criterion::Empty, p)
        &&& kept(o.price, self.price, Criterion::Price, p)
    }

    /// Each record is empty, or was found before `p`, or continues `p` with a
    /// next step on an order below `o`.
    pub open spec fn placed(self, p: Seq<u8>, o: int) -> bool {
        &&& placed(self.dist, Criterion::Distance, p, o)
        &&& placed(self.empty, Criterion::Empty, p, o)
        &&& placed(self.price, Criterion::Price, p, o)
    }

    /// Route `q` costs no less than the keys, and where it costs the same
    /// under a criterion it does not come before that criterion's record.
    pub open spec fn below(self, t: TablesView, v: int, mask: u32, q: Seq<u8>) -> bool {
        &&& settles(self.dist, Criterion::Distance, walk(t, v, mask, q).dist, q)
        &&& settles(self.empty, Criterion::Empty, walk(t, v, mask, q).empty, q)
        &&& settles(self.price, Criterion::Price, walk(t, v, mask, q).price, q)
    }
}

/// A route of cost `cost` is no cheaper than `r`, and on a tie does not come
/// before it.
pub open spec fn settles(r: InternalTspResult, c: Criterion, cost: int, q: Seq<u8>) -> bool {
    &&& key(r, c) <= cost
    &&& cost == key(r, c) ==> !lex_before(q, r.path@)
}

pub open spec fn same_record(a: InternalTspResult, b: InternalTspResult) -> bool {
    &&& a.path@ == b.path@
    &&& a.total_dist == b.total_dist
    &&& a.total_empty == b.total_empty
    &&& a.total_price == b.total_price
}

pub open spec fn kept(o: InternalTspResult, n: InternalTspResult, c: Criterion, p: Seq<u8>) -> bool {
    same_record(n, o) || (key(n, c) < key(o, c) && extends(n.path@, p))
}

pub open spec fn placed(r: InternalTspResult, c: Criterion, p: Seq<u8>, o: int) -> bool {
    ||| key(r, c) == none_key(c)
    ||| lex_before(r.path@, p)
    ||| extends(r.path@, p) && r.path@.len() > p.len() && (r.path@[p.len() as int] as int) / 2 < o
}

/// `q` comes before `p` in the search: at the first node where they
/// differ, the node of `q` is lower.
pub open spec fn lex_before(q: Seq<u8>, p: Seq<u8>) -> bool {
    exists|i: int| #[trigger] differs_first(q, p, i)
}

pub open spec fn differs_first(q: Seq<u8>, p: Seq<u8>, i: int) -> bool {
    &&& 0 <= i < q.len()
    &&& i < p.len()
    &&& q.take(i) == p.take(i)
    &&& q[i] < p[i]
}

pub proof fn lemma_lex_antisym(a: Seq<u8>, b: Seq<u8>)
    requires
        lex_before(a, b),
    ensures
        !lex_before(b, a),
{
    let i = choose|i: int| #[trigger] differs_first(a, b, i);
    if lex_before(b, a) {
        let j = choose|j: int| #[trigger] differs_first(b, a, j);
        if i < j {
            assert(b.take(j)[i] == a.take(j)[i]);
        } else if j < i {
            assert(a.take(i)[j] == b.take(i)[j]);
        }
    }
}

/// What comes before `p` comes before every continuation of `p`.
pub proof fn lemma_lex_extend(a: Seq<u8>, p: Seq<u8>, q: Seq<u8>)
    requires
        lex_before(a, p),
        extends(q, p),
    ensures
        lex_before(a, q),
{
    let i = choose|i: int| #[trigger] differs_first(a, p, i);
    assert(q.take(i) =~= p.take(i)) by {
        assert(q.take(p.len() as int) == p);
        assert forall|j: int| 0 <= j < i implies q.take(i)[j] == p.take(i)[j] by {
            assert(q.take(p.len() as int)[j] == q[j]);
        }
    }
    assert(q[i] == p[i]) by {
        assert(q.take(p.len() as int)[i] == q[i]);
    }
    assert(differs_first(a, q, i));
}

/// A continuation of `p` does not come before `p`.
pub proof fn lemma_lex_not_ext(q: Seq<u8>, p: Seq<u8>)
    requires
        extends(q, p),
    ensures
        !lex_before(q, p),
{
    if lex_before(q, p) {
        let i = choose|i: int| #[trigger] differs_first(q, p, i);
        assert(q.take(p.len() as int)[i] == q[i]);
    }
}

/// Coming before `p` followed by node `x`.
pub proof fn lemma_lex_child(q: Seq<u8>, p: Seq<u8>, x: u8)
    ensures
        lex_before(q, p.push(x)) <==> (lex_before(q, p)
            || (extends(q, p) && q.len() > p.len() && q[p.len() as int] < x)),
{
    let p1 = p.push(x);
    assert(p1.take(p.len() as int) =~= p);
    if lex_before(q, p1) {
        let i = choose|i: int| #[trigger] differs_first(q, p1, i);
        if i < p.len() {
            assert(p1.take(i) =~= p.take(i));
            assert(differs_first(q, p, i));
        } else {
            assert(q.take(p.len() as int) == p);
        }
    }
    if lex_before(q, p) {
        let i = choose|i: int| #[trigger] differs_first(q, p, i);
        assert(p1.take(i) =~= p.take(i));
        assert(differs_first(q, p1, i));
    }
    if extends(q, p) && q.len() > p.len() && q[p.len() as int] < x {
        assert(differs_first(q, p1, p.len() as int));
    }
}

/// Every complete route that continues `p` is settled by `b`.
pub open spec fn covers(t: TablesView, v: int, mask: u32, p: Seq<u8>, b: Bests) -> bool {
    forall|q: Seq<u8>| #[trigger] complete(t, v, mask, q) && extends(q, p) ==> b.below(t, v, mask, q)
}

/// Every complete route that comes before `p` is settled by `b`.
pub open spec fn settled_before(t: TablesView, v: int, mask: u32, p: Seq<u8>, b: Bests) -> bool {
    forall|q: Seq<u8>| #[trigger] complete(t, v, mask, q) && lex_before(q, p) ==> b.below(t, v, mask, q)
}

/// Records kept from `o`, or strictly improved, still settle what `o` did.
proof fn lemma_settles_kept(t: TablesView, v: int, mask: u32, o: Bests, b: Bests, p: Seq<u8>, q: Seq<u8>)
    requires
        b.kept_from(o, p),
        o.below(t, v, mask, q),
    ensures
        b.below(t, v, mask, q),
{
}

/// Keeping twice is keeping, under the shorter prefix.
proof fn lemma_kept_trans(b0: Bests, b1: Bests, b2: Bests, p: Seq<u8>, p1: Seq<u8>)
    requires
        b1.kept_from(b0, p),
        b2.kept_from(b1, p1),
        extends(p1, p),
    ensures
        b2.kept_from(b0, p),
{
    assert forall|r: Seq<u8>| extends(r, p1) implies extends(r, p) by {
        assert(p1.take(p.len() as int) == p);
        assert(r.take(p.len() as int) =~= p1.take(p.len() as int)) by {
            assert forall|j: int| 0 <= j < p.len() implies r.take(p.len() as int)[j] == p1.take(p.len() as int)[j] by {
                assert(r.take(p1.len() as int)[j] == r[j]);
            }
        }
    }
}

pub proof fn lemma_within_le(a: u32, b: u32)
    requires
        within(a, b),
    ensures
        a <= b,
{
    crate::bits::lemma_mask_facts(a, b, 0u32);
}

/// Walk facts at an allowed node sequence whose masks lie in the full mask.
proof fn lemma_walk_small(t: TablesView, v: int, mask: u32, p: Seq<u8>)
    requires
        t.wf(),
        0 <= v < t.n_vehicles,
        within(mask, t.full_mask),
        walk(t, v, mask, p).ok,
    ensures
        ({
            let w = walk(t, v, mask, p);
            &&& w.pick <= mask < 65536
            &&& w.deliv <= mask
            &&& within(w.pick, mask)
            &&& 0 <= w.empty <= w.dist < DIST_NONE
            &&& 0 <= w.price < PRICE_NONE
            &&& -(w.deliv as int) * 0x1_0000_0000 <= w.load <= t.capacity
            &&& p.len() > 0 ==> p.last() < t.num_nodes
            &&& p.len() == 0 ==> w.pick == 0
            &&& w.pick == 0 ==> w.deliv == 0
        }),
{
    let w = walk(t, v, mask, p);
    lemma_walk_bounds(t, v, mask, p);
    crate::bits::lemma_full(t.n_orders as u32);
    lemma_within_le(mask, t.full_mask);
    lemma_within_le(w.pick, mask);
    lemma_bits_within(w.deliv, w.pick);
    lemma_bits_within(w.pick, mask);
    lemma_bits_within(w.deliv, mask);
    lemma_within_le(w.deliv, mask);
}

/// After reaching the full subset at `p`, keeping `p` where it is cheaper
/// covers every continuation of `p`.
proof fn lemma_cover_by_prefix(t: TablesView, v: int, mask: u32, p: Seq<u8>, b: Bests)
    requires
        t.wf(),
        0 <= v < t.n_vehicles,
        walk(t, v, mask, p).ok,
        at_or_before(b.dist, Criterion::Distance, walk(t, v, mask, p).dist, p),
        at_or_before(b.empty, Criterion::Empty, walk(t, v, mask, p).empty, p),
        at_or_before(b.price, Criterion::Price, walk(t, v, mask, p).price, p),
    ensures
        covers(t, v, mask, p, b),
{
    assert forall|q: Seq<u8>| #[trigger] complete(t, v, mask, q) && extends(q, p) implies b.below(t, v, mask, q) by {
        lemma_prefix(t, v, mask, q, p.len() as int);
        assert(q.take(p.len() as int) == p);
        lemma_lex_not_ext(q, p);
        if lex_before(b.dist.path@, p) {
            lemma_lex_extend(b.dist.path@, p, q);
            lemma_lex_antisym(b.dist.path@, q);
        }
        if lex_before(b.empty.path@, p) {
            lemma_lex_extend(b.empty.path@, p, q);
            lemma_lex_antisym(b.empty.path@, q);
        }
        if lex_before(b.price.path@, p) {
            lemma_lex_extend(b.price.path@, p, q);
            lemma_lex_antisym(b.price.path@, q);
        }
    }
}

/// `r` costs no more than `cost`, and where it costs the same its route is
/// `p` or comes before `p`.
pub open spec fn at_or_before(r: InternalTspResult, c: Criterion, cost: int, p: Seq<u8>) -> bool {
    &&& key(r, c) <= cost
    &&& cost == key(r, c) ==> (r.path@ == p || lex_before(r.path@, p))
}

/// What the step after `p` of a complete route `q` can be.
pub proof fn lemma_next_step(t: TablesView, v: int, mask: u32, p: Seq<u8>, q: Seq<u8>)
    requires
        t.wf(),
        0 <= v < t.n_vehicles,
        complete(t, v, mask, q),
        extends(q, p),
        q.len() > p.len(),
    ensures
        ({
            let x = q[p.len() as int];
            let k = x as int / 2;
            let s = walk(t, v, mask, p);
            let q1 = q.take(p.len() as int + 1);
            &&& extends(q, q1)
            &&& k < t.n_orders
            &&& x % 2 == 0 ==> q1 == p.push((2 * k) as u8) && in_mask(mask, k) && !in_mask(s.pick, k)
                && s.load + t.loads[k] <= t.capacity
            &&& x % 2 == 1 ==> q1 == p.push((2 * k + 1) as u8) && in_mask(s.pick, k) && !in_mask(s.deliv, k)
        }),
{
    let q1 = q.take(p.len() as int + 1);
    lemma_prefix(t, v, mask, q, p.len() as int + 1);
    assert(q1.drop_last() =~= p) by {
        assert(q.take(p.len() as int) == p);
    }
    let x = q[p.len() as int];
    let k = x as int / 2;
    if x % 2 == 0 {
        assert(q1 =~= p.push((2 * k) as u8));
    } else {
        assert(q1 =~= p.push((2 * k + 1) as u8));
    }
    assert(q1.take(q1.len() as int) =~= q1);
    assert(q.take(q1.len() as int) =~= q1);
}

/// Records found before `p`, or under `p` on orders below `o`, come
/// before `p` followed by a node `x` of order `o` or above.
proof fn lemma_placed_child(b: Bests, p: Seq<u8>, o: int, x: u8)
    requires
        b.placed(p, o),
        x as int >= 2 * o,
    ensures
        b.placed(p.push(x), 0),
{
    lemma_lex_child(b.dist.path@, p, x);
    lemma_lex_child(b.empty.path@, p, x);
    lemma_lex_child(b.price.path@, p, x);
}

/// After the branch through order `o`, the records lie before `p` or under
/// it on orders up to `o`.
proof fn lemma_placed_after(bb: Bests, b: Bests, p: Seq<u8>, o: int, x: u8)
    requires
        bb.placed(p, o),
        b.kept_from(bb, p.push(x)),
        x as int / 2 == o,
    ensures
        b.placed(p, o + 1),
{
    let p1 = p.push(x);
    assert(p1.take(p.len() as int) =~= p);
    assert forall|r: Seq<u8>| extends(r, p1) implies extends(r, p) && r.len() > p.len() && r[p.len() as int] == x by {
        assert(r.take(p1.len() as int) == p1);
        assert(r.take(p.len() as int) =~= p) by {
            assert forall|j: int| 0 <= j < p.len() implies r.take(p.len() as int)[j] == p[j] by {
                assert(r.take(p1.len() as int)[j] == r[j]);
            }
        }
        assert(r.take(p1.len() as int)[p.len() as int] == r[p.len() as int]);
    }
}

/// Routes before `p` followed by `x` are those before `p`, and those under
/// `p` whose next node is lower: all settled already.
proof fn lemma_settled_child(t: TablesView, v: int, mask: u32, p: Seq<u8>, b: Bests, o: int, x: u8)
    requires
        t.wf(),
        0 <= v < t.n_vehicles,
        settled_before(t, v, mask, p, b),
        forall|q: Seq<u8>| #[trigger] complete(t, v, mask, q) && extends(q, p) && q.len() > p.len()
            && (q[p.len() as int] as int) / 2 < o ==> b.below(t, v, mask, q),
        x as int == 2 * o || (x as int == 2 * o + 1 && in_mask(walk(t, v, mask, p).pick, o)),
    ensures
        settled_before(t, v, mask, p.push(x), b),
{
    assert forall|q: Seq<u8>| #[trigger] complete(t, v, mask, q) && lex_before(q, p.push(x)) implies b.below(t, v, mask, q) by {
        lemma_lex_child(q, p, x);
        if !lex_before(q, p) {
            lemma_next_step(t, v, mask, p, q);
        }
    }
}

/// Extends the route `path` (vehicle `v` at node `last`, having picked up
/// `pick` and delivered `deliv` at costs `c_*` with `c_load` on board) in
/// every allowed way, ascending by order, until all of `mask` is delivered.
/// Each complete route that is strictly cheaper than the record under a
/// criterion replaces it, so among equally cheap routes the first found
/// stays. A branch stops early once it is no cheaper than the records under
/// all three criteria, since costs only grow along a route.
#[verifier::rlimit(80)]
fn dfs(
    t: &Tables,
    v: usize,
    mask: u32,
    last: Option<usize>,
    c_dist: u64,
    c_empty: u64,
    c_price: u128,
    c_load: i64,
    path: &mut Vec<u8>,
    pick: u32,
    deliv: u32,
    b: &mut Bests,
)
    requires
        t@.wf(),
        v < t.n_vehicles,
        within(mask, t.full_mask),
        ({
            let w = walk(t@, v as int, mask, old(path)@);
            &&& w.ok
            &&& w.pick == pick
            &&& w.deliv == deliv
            &&& w.load == c_load
            &&& w.dist == c_dist
            &&& w.empty == c_empty
            &&& w.price == c_price
        }),
        last is None <==> old(path)@.len() == 0,
        last is Some ==> last->0 == old(path)@.last(),
        old(b).wf(t@, v as int, mask),
        old(b).placed(old(path)@, 0),
        settled_before(t@, v as int, mask, old(path)@, *old(b)),
    ensures
        final(path)@ == old(path)@,
        final(b).wf(t@, v as int, mask),
        final(b).kept_from(*old(b), old(path)@),
        settled_before(t@, v as int, mask, old(path)@, *final(b)),
        covers(t@, v as int, mask, old(path)@, *final(b)),
    decreases 131072 - pick - deliv,
{
    let ghost p = path@;
    let ghost tt = t@;
    let ghost vv = v as int;
    proof {
        lemma_walk_small(tt, vv, mask, p);
        assert(p.take(p.len() as int) =~= p);
    }
    if c_dist >= b.dist.total_dist && c_empty >= b.empty.total_empty && c_price >= b.price.total_price {
        proof {
            lemma_cover_by_prefix(tt, vv, mask, p, *b);
        }
        return;
    }
    if deliv == mask {
        let ghost b0 = *b;
        if c_dist < b.dist.total_dist {
            b.dist = InternalTspResult { path: PathBuffer::from_nodes(path), total_dist: c_dist, total_empty: c_empty, total_price: c_price };
        }
        if c_empty < b.empty.total_empty {
            b.empty = InternalTspResult { path: PathBuffer::from_nodes(path), total_dist: c_dist, total_empty: c_empty, total_price: c_price };
        }
        if c_price < b.price.total_price {
            b.price = InternalTspResult { path: PathBuffer::from_nodes(path), total_dist: c_dist, total_empty: c_empty, total_price: c_price };
        }
        proof {
            lemma_cover_by_prefix(tt, vv, mask, p, *b);
            assert forall|q: Seq<u8>| #[trigger] complete(tt, vv, mask, q) && lex_before(q, p) implies b.below(tt, vv, mask, q) by {
                lemma_settles_kept(tt, vv, mask, b0, *b, p, q);
            }
        }
        return;
    }
    let ghost b0 = *b;
    let n = t.n_orders;
    let nn = t.num_nodes;
    let mut o: usize = 0;
    while o < n
        invariant
            tt == t@,
            vv == v as int,
            t@.wf(),
            v < t.n_vehicles,
            within(mask, t.full_mask),
            n == t.n_orders,
            nn == t.num_nodes,
            o <= n,
            path@ == p,
            b0 == *old(b),
            b.wf(tt, vv, mask),
            b.kept_from(b0, p),
            b.placed(p, o as int),
            settled_before(tt, vv, mask, p, *b),
            ({
                let w = walk(tt, vv, mask, p);
                &&& w.ok
                &&& w.pick == pick
                &&& w.deliv == deliv
                &&& w.load == c_load
                &&& w.dist == c_dist
                &&& w.empty == c_empty
                &&& w.price == c_price
                &&& w.pick <= mask < 65536
                &&& w.deliv <= mask
                &&& within(w.pick, mask)
                &&& -(w.deliv as int) * 0x1_0000_0000 <= w.load <= t.capacity
            }),
            deliv != mask,
            last is None <==> p.len() == 0,
            last is Some ==> last->0 == p.last(),
            p.len() > 0 ==> p.last() < nn,
            forall|q: Seq<u8>| #[trigger] complete(tt, vv, mask, q) && extends(q, p) && q.len() > p.len()
                && (q[p.len() as int] as int) / 2 < o ==> b.below(tt, vv, mask, q),
        decreases n - o,
    {
        let ghost bb = *b;
        let ob: u32 = 1u32 << (o as u32);
        let ghost pu: Seq<u8> = p.push((2 * o) as u8);
        let ghost du: Seq<u8> = p.push((2 * o + 1) as u8);
        proof {
            assert(pu.drop_last() =~= p);
            assert(du.drop_last() =~= p);
            assert(pu.take(p.len() as int) =~= p);
            assert(du.take(p.len() as int) =~= p);
            lemma_set_bit(pick, o as u32);
            lemma_set_bit(deliv, o as u32);
            lemma_bits_within(pick, mask);
        }
        let lv = t.loads[o];
        if mask & ob != 0 && pick & ob == 0 && c_load + lv as i64 <= t.capacity as i64 {
            let leg: u32 = match last {
                None => {
                    let vl = t.veh_start_mat.len();
                    proof {
                        assert(v * n + o < t.n_vehicles * t.n_orders) by (nonlinear_arith)
                            requires v < t.n_vehicles, o < n, n == t.n_orders;
                    }
                    t.veh_start_mat[v * n + o]
                },
                Some(prev) => {
                    proof {
                        assert(prev * nn + 2 * o < nn * nn && nn * nn <= 1024) by (nonlinear_arith)
                            requires prev < nn, 2 * o < nn, nn <= 32;
                    }
                    t.dist_mat[prev * nn + 2 * o]
                },
            };
            proof {
                assert(last_leg(tt, vv, pu) == leg);
                assert(walk(tt, vv, mask, pu).ok);
                lemma_walk_small(tt, vv, mask, pu);
                lemma_placed_child(*b, p, o as int, (2 * o) as u8);
                lemma_settled_child(tt, vv, mask, p, *b, o as int, (2 * o) as u8);
            }
            let rate = t.prices[v];
            let add_empty: u64 = if pick == deliv { leg as u64 } else { 0 };
            path.push((2 * o) as u8);
            dfs(
                t, v, mask, Some(2 * o),
                c_dist + leg as u64, c_empty + add_empty,
                c_price + (leg as u128) * (rate as u128), c_load + lv as i64,
                path, pick | ob, deliv, b,
            );
            path.pop();
            proof {
                assert(path@ =~= p);
                lemma_kept_trans(b0, bb, *b, p, pu);
                lemma_placed_after(bb, *b, p, o as int, (2 * o) as u8);
                assert forall|q: Seq<u8>| #[trigger] complete(tt, vv, mask, q) && lex_before(q, p) implies b.below(tt, vv, mask, q) by {
                    lemma_lex_child(q, p, (2 * o) as u8);
                }
                assert forall|q: Seq<u8>| #[trigger] complete(tt, vv, mask, q) && extends(q, p) && q.len() > p.len()
                    && (q[p.len() as int] as int) / 2 < o + 1 implies b.below(tt, vv, mask, q) by {
                    lemma_lex_child(q, p, (2 * o) as u8);
                    lemma_next_step(tt, vv, mask, p, q);
                }
            }
        } else if mask & ob != 0 && pick & ob != 0 && deliv & ob == 0 {
            let prev: usize = match last {
                Some(x) => x,
                None => {
                    proof {
                        crate::bits::lemma_no_bits(o as u32);
                    }
                    0
                },
            };
            proof {
                assert(prev * nn + 2 * o + 1 < nn * nn && nn * nn <= 1024) by (nonlinear_arith)
                    requires prev < nn, 2 * o + 1 < nn, nn <= 32;
            }
            let leg = t.dist_mat[prev * nn + 2 * o + 1];
            proof {
                assert(last_leg(tt, vv, du) == leg);
                assert(walk(tt, vv, mask, du).ok);
                lemma_walk_small(tt, vv, mask, du);
                lemma_placed_child(*b, p, o as int, (2 * o + 1) as u8);
                lemma_settled_child(tt, vv, mask, p, *b, o as int, (2 * o + 1) as u8);
            }
            let rate = t.prices[v];
            path.push((2 * o + 1) as u8);
            dfs(
                t, v, mask, Some(2 * o + 1),
                c_dist + leg as u64, c_empty,
                c_price + (leg as u128) * (rate as u128), c_load - lv as i64,
                path, pick, deliv | ob, b,
            );
            path.pop();
            proof {
                assert(path@ =~= p);
                lemma_kept_trans(b0, bb, *b, p, du);
                lemma_placed_after(bb, *b, p, o as int, (2 * o + 1) as u8);
                assert forall|q: Seq<u8>| #[trigger] complete(tt, vv, mask, q) && lex_before(q, p) implies b.below(tt, vv, mask, q) by {
                    lemma_lex_child(q, p, (2 * o + 1) as u8);
                }
                assert forall|q: Seq<u8>| #[trigger] complete(tt, vv, mask, q) && extends(q, p) && q.len() > p.len()
                    && (q[p.len() as int] as int) / 2 < o + 1 implies b.below(tt, vv, mask, q) by {
                    lemma_lex_child(q, p, (2 * o + 1) as u8);
                    lemma_next_step(tt, vv, mask, p, q);
                }
            }
        } else {
            proof {
                assert forall|q: Seq<u8>| #[trigger] complete(tt, vv, mask, q) && extends(q, p) && q.len() > p.len()
                    && (q[p.len() as int] as int) / 2 < o + 1 implies b.below(tt, vv, mask, q) by {
                    lemma_next_step(tt, vv, mask, p, q);
                    let ou = o as u32;
                    assert(in_mask(pick, ou as int) ==> in_mask(mask, ou as int));
                }
            }
        }
        o = o + 1;
    }
    proof {
        assert forall|q: Seq<u8>| #[trigger] complete(tt, vv, mask, q) && extends(q, p) implies b.below(tt, vv, mask, q) by {
            if q.len() == p.len() {
                assert(q.take(p.len() as int) =~= q);
            } else {
                let q1 = q.take(p.len() as int + 1);
                lemma_prefix(tt, vv, mask, q, p.len() as int + 1);
                assert(q1.drop_last() =~= p) by {
                    assert(q.take(p.len() as int) == p);
                }
                assert(q1.last() == q[p.len() as int]);
            }
        }
    }
}

/// `r` is a complete route of `v` over `mask` with its own costs, and no
/// route of `v` over `mask` is cheaper under `c`.
pub open spec fn result_ok(t: TablesView, v: int, mask: u32, r: InternalTspResult, c: Criterion) -> bool {
    &&& complete(t, v, mask, r.path@)
    &&& records(r, walk(t, v, mask, r.path@))
    &&& is_min_cost(t, v, mask, c, key(r, c))
    &&& first_cheapest(t, v, mask, c, r.path@)
}

/// No route of `v` over `mask` as cheap under `c` as `p` comes before `p`
/// in the search: of the cheapest routes, `p` is the one found first.
pub open spec fn first_cheapest(t: TablesView, v: int, mask: u32, c: Criterion, p: Seq<u8>) -> bool {
    forall|q: Seq<u8>| #[trigger] complete(t, v, mask, q)
        && route_cost(t, v, mask, q, c) == route_cost(t, v, mask, p, c) ==> !lex_before(q, p)
}

/// What the per-vehicle search owes for vehicle `v` and the orders of
/// `mask`: valid exactly when some route serves them, and then the cheapest
/// route under each criterion.
pub open spec fn triple_ok(t: TablesView, v: int, mask: u32, r: InternalBestResults) -> bool {
    &&& r.valid == feasible(t, v, mask)
    &&& r.valid ==> {
        &&& result_ok(t, v, mask, r.min_dist, Criterion::Distance)
        &&& result_ok(t, v, mask, r.min_empty, Criterion::Empty)
        &&& result_ok(t, v, mask, r.min_price, Criterion::Price)
    }
    &&& !r.valid ==> {
        &&& blank(r.min_dist)
        &&& blank(r.min_empty)
        &&& blank(r.min_price)
    }
}

/// No nodes and zero costs.
pub open spec fn blank(r: InternalTspResult) -> bool {
    &&& r.path@.len() == 0
    &&& r.total_dist == 0
    &&& r.total_empty == 0
    &&& r.total_price == 0
}

proof fn lemma_slot_injective(f: int, v1: int, m1: int, v2: int, m2: int)
    requires
        0 <= v1,
        0 <= v2,
        0 <= m1 <= f,
        0 <= m2 <= f,
        v1 * (f + 1) + m1 == v2 * (f + 1) + m2,
    ensures
        v1 == v2,
        m1 == m2,
{
    if v1 < v2 {
        assert(v1 * (f + 1) + (f + 1) <= v2 * (f + 1)) by (nonlinear_arith)
            requires v1 < v2, 0 <= f;
    } else if v2 < v1 {
        assert(v2 * (f + 1) + (f + 1) <= v1 * (f + 1)) by (nonlinear_arith)
            requires v2 < v1, 0 <= f;
    }
}

fn empty_result(dist: u64, empty: u64, price: u128) -> (r: InternalTspResult)
    ensures
        r.path@ == Seq::<u8>::empty(),
        r.total_dist == dist,
        r.total_empty == empty,
        r.total_price == price,
{
    InternalTspResult { path: PathBuffer::default(), total_dist: dist, total_empty: empty, total_price: price }
}

/// The three cheapest routes of vehicle `vehicle_idx` over the orders of
/// `target_mask`, computed once and then answered from the memo.
pub fn solve_tsp(ctx: &mut SolverContext, vehicle_idx: usize, target_mask: u32) -> (r: InternalBestResults)
    requires
        old(ctx).wf(),
        vehicle_idx < old(ctx).tables.n_vehicles,
        within(target_mask, old(ctx).tables.full_mask),
    ensures
        final(ctx).wf(),
        final(ctx).tables == old(ctx).tables,
        final(ctx).order_ids == old(ctx).order_ids,
        final(ctx).vehicle_ids == old(ctx).vehicle_ids,
        final(ctx).best_dist == old(ctx).best_dist,
        final(ctx).best_price == old(ctx).best_price,
        final(ctx).best_empty == old(ctx).best_empty,
        final(ctx).best_dist_assignments == old(ctx).best_dist_assignments,
        final(ctx).best_price_assignments == old(ctx).best_price_assignments,
        final(ctx).best_empty_assignments == old(ctx).best_empty_assignments,
        triple_ok(old(ctx).t(), vehicle_idx as int, target_mask, r),
        final(ctx).memo@.len() == old(ctx).memo@.len(),
        forall|i: int| 0 <= i < old(ctx).memo@.len() && i != old(ctx).slot(vehicle_idx as int, target_mask)
            ==> #[trigger] final(ctx).memo@[i] == old(ctx).memo@[i],
        final(ctx).memo@[old(ctx).slot(vehicle_idx as int, target_mask)] is Some,
        final(ctx).memo@[old(ctx).slot(vehicle_idx as int, target_mask)]->0.same(r),
        old(ctx).memo@[old(ctx).slot(vehicle_idx as int, target_mask)] is Some
            ==> r.same(old(ctx).memo@[old(ctx).slot(vehicle_idx as int, target_mask)]->0),
{
    let ghost t = ctx.t();
    let ghost v = vehicle_idx as int;
    let full = ctx.tables.full_mask;
    proof {
        crate::bits::lemma_full(t.n_orders as u32);
        lemma_within_le(target_mask, full);
        assert(vehicle_idx * (full as int + 1) + target_mask < t.n_vehicles * (full as int + 1)) by (nonlinear_arith)
            requires vehicle_idx < t.n_vehicles, target_mask <= full;
    }
    let memo_len = ctx.memo.len();
    let cache_idx = vehicle_idx * (full as usize + 1) + target_mask as usize;
    assert(cache_idx == ctx.slot(v, target_mask));
    match &ctx.memo[cache_idx] {
        Some(cached) => {
            return cached.duplicate();
        },
        None => {},
    }
    let mut b = Bests {
        dist: empty_result(DIST_NONE, 0, 0),
        empty: empty_result(0, DIST_NONE, 0),
        price: empty_result(0, 0, PRICE_NONE),
    };
    let mut path: Vec<u8> = Vec::new();
    let ghost root = Seq::<u8>::empty();
    proof {
        assert(path@ == root);
        assert forall|q: Seq<u8>| !lex_before(q, root) by {
            if lex_before(q, root) {
                let i = choose|i: int| #[trigger] differs_first(q, root, i);
            }
        }
    }
    dfs(&ctx.tables, vehicle_idx, target_mask, None, 0, 0, 0, 0, &mut path, 0, 0, &mut b);
    proof {
        assert forall|q: Seq<u8>| #[trigger] complete(t, v, target_mask, q) implies b.below(t, v, target_mask, q) by {
            assert(q.take(0) =~= root);
            assert(extends(q, root));
        }
    }
    let result = if b.dist.total_dist < DIST_NONE {
        proof {
            let q = b.dist.path@;
            lemma_walk_small(t, v, target_mask, q);
            assert(feasible(t, v, target_mask));
            assert(b.below(t, v, target_mask, q));
            assert(is_min_cost(t, v, target_mask, Criterion::Distance, key(b.dist, Criterion::Distance)));
            lemma_walk_small(t, v, target_mask, b.empty.path@);
            lemma_walk_small(t, v, target_mask, b.price.path@);
            assert(is_min_cost(t, v, target_mask, Criterion::Empty, key(b.empty, Criterion::Empty)));
            assert(is_min_cost(t, v, target_mask, Criterion::Price, key(b.price, Criterion::Price)));
        }
        InternalBestResults { min_dist: b.dist, min_price: b.price, min_empty: b.empty, valid: true }
    } else {
        proof {
            if feasible(t, v, target_mask) {
                let q = choose|q: Seq<u8>| #[trigger] complete(t, v, target_mask, q);
                lemma_walk_small(t, v, target_mask, q);
            }
        }
        InternalBestResults {
            min_dist: empty_result(0, 0, 0),
            min_price: empty_result(0, 0, 0),
            min_empty: empty_result(0, 0, 0),
            valid: false,
        }
    };
    let ghost ctx0 = *ctx;
    assert(triple_ok(t, v, target_mask, result));
    let stored = result.duplicate();
    assert(triple_ok(t, v, target_mask, stored));
    ctx.memo[cache_idx] = Some(stored);
    proof {
        assert forall|w: int, m: u32| 0 <= w < t.n_vehicles && within(m, t.full_mask)
            && (#[trigger] ctx.memo@[ctx.slot(w, m)]) is Some
            implies triple_ok(t, w, m, ctx.memo@[ctx.slot(w, m)]->0) by {
            lemma_within_le(m, t.full_mask);
            assert(w * (full as int + 1) + m < t.n_vehicles * (full as int + 1)) by (nonlinear_arith)
                requires w < t.n_vehicles, m <= full;
            if ctx.slot(w, m) == cache_idx {
                lemma_slot_injective(full as int, w, m as int, v, target_mask as int);
            } else {
                assert(ctx0.slot(w, m) == ctx.slot(w, m));
                assert(ctx0.memo@[ctx0.slot(w, m)] == ctx.memo@[ctx.slot(w, m)]);
            }
        }
    }
    result
}

} // verus!
