//! Route construction for vehicle routing: customers are taken farthest
//! from the depot first; each opens a route, which is then grown by the
//! best feasible insertion until none is left.

use vstd::prelude::*;
use crate::sums::{
    distinct_below, lemma_distinct_len_avoiding, lemma_distinct_sum_bound, lemma_insert_contains, lemma_insert_distinct, lemma_push_contains,
    lemma_masked_sum_nonneg_bound, lemma_masked_sum_update, lemma_prefix_sum_le, lemma_seq_sum_insert,
    masked_sum, one_fn, seq_sum,
};
use crate::vehicle_routing::{
    best_insertion_at, find_best_insertion, insertion_ok, lemma_insertion_keeps_on_time, lemma_time_bound, nodes_ok,
    route_ok, windows_ok, within, VrpInstance,
};

verus! {

/// Customer `a` comes before customer `b` in the order of increasing
/// distance from the depot, ties by index.
pub open spec fn depot_before(inst: VrpInstance, a: int, b: int) -> bool {
    inst.dist(0, a) < inst.dist(0, b) || (inst.dist(0, a) == inst.dist(0, b) && a < b)
}

/// `order` lists every customer once, by increasing distance from the
/// depot, ties by index.
pub open spec fn is_depot_order(inst: VrpInstance, order: Seq<usize>) -> bool {
    let n = inst.num_nodes as int;
    &&& order.len() == n - 1
    &&& forall|a: int| 0 <= a < order.len() ==> 1 <= #[trigger] order[a] < n
    &&& forall|c: int| 1 <= c < n ==> #[trigger] order.contains(c as usize)
    &&& forall|a: int, b: int|
        0 <= a < b < order.len() ==> depot_before(inst, #[trigger] order[a] as int, #[trigger] order[b] as int)
}

/// The customers by increasing distance from the depot; customers at the
/// same distance keep their index order.
pub fn depot_order(inst: &VrpInstance) -> (order: Vec<usize>)
    requires
        inst.wf(),
    ensures
        is_depot_order(*inst, order@),
{
    let n = inst.num_nodes;
    let dm0 = &inst.distance_matrix[0];
    let mut order: Vec<usize> = Vec::new();
    let mut p: usize = 1;
    while p < n
        invariant
            inst.wf(),
            n == inst.num_nodes,
            dm0@ == inst.distance_matrix@[0]@,
            1 <= p <= n,
            order.len() == p - 1,
            forall|a: int| 0 <= a < order.len() ==> 1 <= #[trigger] order@[a] < p,
            forall|c: int| 1 <= c < p ==> #[trigger] order@.contains(c as usize),
            forall|a: int, b: int|
                0 <= a < b < order.len() ==> depot_before(*inst, #[trigger] order@[a] as int, #[trigger] order@[b] as int),
        decreases n - p,
    {
        let mut q: usize = 0;
        while q < order.len() && (dm0[order[q]] < dm0[p] || (dm0[order[q]] == dm0[p] && order[q] < p))
            invariant
                inst.wf(),
                n == inst.num_nodes,
                dm0@ == inst.distance_matrix@[0]@,
                1 <= p < n,
                q <= order.len(),
                forall|a: int| 0 <= a < order.len() ==> 1 <= #[trigger] order@[a] < p,
                forall|a: int| 0 <= a < q ==> depot_before(*inst, #[trigger] order@[a] as int, p as int),
            decreases order.len() - q,
        {
            q = q + 1;
        }
        let ghost o = order@;
        order.insert(q, p);
        proof {
            lemma_insert_contains(o, q as int, p);
            assert forall|c: int| 1 <= c < p + 1 implies #[trigger] order@.contains(c as usize) by {
                if c < p {
                    assert(o.contains(c as usize));
                }
            }
            assert forall|a: int, b: int| 0 <= a < b < order.len() implies depot_before(
                *inst,
                #[trigger] order@[a] as int,
                #[trigger] order@[b] as int,
            ) by {
                if a < q && b == q {
                } else if a < q && b > q {
                    assert(order@[b] == o[b - 1]);
                    if q < o.len() {
                        assert(depot_before(*inst, o[q as int] as int, o[b - 1] as int) || b - 1 == q);
                    }
                } else if a == q {
                    assert(order@[b] == o[b - 1]);
                    assert(!depot_before(*inst, o[q as int] as int, p as int));
                    if b - 1 > q {
                        assert(depot_before(*inst, o[q as int] as int, o[b - 1] as int));
                    }
                } else if a > q {
                    assert(order@[a] == o[a - 1] && order@[b] == o[b - 1]);
                } else {
                    assert(order@[a] == o[a] && order@[b] == o[b]);
                }
            }
        }
        p = p + 1;
    }
    order
}

/// The customers below `u` not yet routed (`mask`) whose demand still
/// fits a route carrying `demand`, in increasing index order.
pub open spec fn cands_upto(inst: VrpInstance, mask: Seq<bool>, demand: int, u: int) -> Seq<usize>
    decreases u,
{
    if u <= 0 {
        Seq::empty()
    } else {
        let prev = cands_upto(inst, mask, demand, u - 1);
        if mask[u - 1] && demand + inst.demand(u - 1) <= inst.max_capacity {
            prev.push((u - 1) as usize)
        } else {
            prev
        }
    }
}

/// The customers not yet routed whose demand still fits a route carrying
/// `demand`, in increasing index order.
pub open spec fn cands_of(inst: VrpInstance, mask: Seq<bool>, demand: int) -> Seq<usize> {
    cands_upto(inst, mask, demand, inst.num_nodes as int)
}

/// The customers not yet routed whose demand still fits the route, in
/// increasing index order.
pub fn insertion_candidates(inst: &VrpInstance, remaining: &Vec<bool>, route_demand: i32) -> (cands: Vec<usize>)
    requires
        inst.wf(),
        remaining.len() == inst.num_nodes,
        -0x3fff_ffff <= route_demand <= 0x3fff_ffff,
    ensures
        cands@ == cands_of(*inst, remaining@, route_demand as int),
        nodes_ok(*inst, cands@),
        forall|a: int, b: int| 0 <= a < b < cands.len() ==> #[trigger] cands@[a] < #[trigger] cands@[b],
        forall|u: int|
            0 <= u < inst.num_nodes ==> (#[trigger] cands@.contains(u as usize) <==> (remaining@[u] && route_demand
                + inst.demand(u) <= inst.max_capacity)),
{
    let n = inst.num_nodes;
    proof {
        lemma_time_bound(*inst, 0);
    }
    let mut cands: Vec<usize> = Vec::new();
    let mut u: usize = 0;
    while u < n
        invariant
            inst.wf(),
            n == inst.num_nodes,
            remaining.len() == n,
            -0x3fff_ffff <= route_demand <= 0x3fff_ffff,
            0 <= inst.lim(),
            8 * inst.lim() <= 0x7fff_ffff,
            u <= n,
            cands@ == cands_upto(*inst, remaining@, route_demand as int, u as int),
            forall|a: int| 0 <= a < cands.len() ==> #[trigger] cands@[a] < u,
            forall|a: int, b: int| 0 <= a < b < cands.len() ==> #[trigger] cands@[a] < #[trigger] cands@[b],
            forall|v: int|
                0 <= v < n ==> (#[trigger] cands@.contains(v as usize) <==> (v < u && remaining@[v] && route_demand
                    + inst.demand(v) <= inst.max_capacity)),
        decreases n - u,
    {
        proof {
            assert(within(inst.demand(u as int), inst.lim()));
        }
        let ghost before = cands@;
        if remaining[u] && route_demand + inst.demands[u] <= inst.max_capacity {
            cands.push(u);
            proof {
                lemma_push_contains(before, u);
            }
        }
        proof {
            assert forall|v: int| 0 <= v < n implies (#[trigger] cands@.contains(v as usize) <==> (v < u + 1
                && remaining@[v] && route_demand + inst.demand(v) <= inst.max_capacity)) by {
                assert(before.contains(v as usize) <==> (v < u && remaining@[v] && route_demand + inst.demand(v)
                    <= inst.max_capacity));
                if v == u && cands@ == before && cands@.contains(v as usize) {
                    let k = choose|k: int| 0 <= k < before.len() && before[k] == v as usize;
                    assert(before[k] < u);
                }
            }
        }
        u = u + 1;
    }
    cands
}

/// The customers a route visits: all but its first and last node.
pub open spec fn interior(route: Seq<usize>) -> Seq<usize> {
    route.subrange(1, route.len() - 1)
}

/// `j |-> demands[j]`.
pub open spec fn demand_fn(inst: VrpInstance) -> spec_fn(int) -> int {
    |j: int| inst.demand(j)
}

/// `j |-> |demands[j]|`.
pub open spec fn abs_demand_fn(inst: VrpInstance) -> spec_fn(int) -> int {
    |j: int| if inst.demand(j) < 0 { -inst.demand(j) } else { inst.demand(j) }
}

/// The total demand of a route's customers.
pub open spec fn demand_of_route(inst: VrpInstance, route: Seq<usize>) -> int {
    seq_sum(demand_fn(inst), interior(route))
}

/// A route leaves the depot and returns to it, and visits distinct
/// customers in between.
pub open spec fn route_shape(inst: VrpInstance, route: Seq<usize>) -> bool {
    &&& route.len() >= 3
    &&& route[0] == 0
    &&& route.last() == 0
    &&& distinct_below(interior(route), inst.num_nodes as int)
    &&& !interior(route).contains(0)
}

/// Some route of `routes` visits customer `c`.
pub open spec fn served(routes: Seq<Vec<usize>>, c: usize) -> bool {
    exists|k: int| 0 <= k < routes.len() && #[trigger] interior(routes[k]@).contains(c)
}

/// Every route is well shaped, no customer is visited by two routes, and
/// every route carries at most the capacity unless it visits a single
/// customer.
pub open spec fn routes_valid(inst: VrpInstance, routes: Seq<Vec<usize>>) -> bool {
    &&& forall|k: int| 0 <= k < routes.len() ==> route_shape(inst, #[trigger] routes[k]@)
    &&& forall|k1: int, k2: int, c: usize|
        0 <= k1 < routes.len() && 0 <= k2 < routes.len() && k1 != k2 && #[trigger] interior(routes[k1]@).contains(c)
            ==> !#[trigger] interior(routes[k2]@).contains(c)
    &&& forall|k: int|
        0 <= k < routes.len() ==> demand_of_route(inst, #[trigger] routes[k]@) <= inst.max_capacity || interior(
            routes[k]@,
        ).len() == 1
}

/// A solution: valid routes that together visit every customer.
pub open spec fn is_solution(inst: VrpInstance, routes: Seq<Vec<usize>>) -> bool {
    &&& routes_valid(inst, routes)
    &&& forall|c: int| 1 <= c < inst.num_nodes ==> #[trigger] served(routes, c as usize)
}

/// No customer outside the first `k + 1` routes could have been inserted
/// feasibly into route `k` within the capacity.
pub open spec fn route_maximal(inst: VrpInstance, routes: Seq<Vec<usize>>, k: int) -> bool {
    forall|u: int, p: int|
        1 <= u < inst.num_nodes && !served(routes.take(k + 1), u as usize) && demand_of_route(inst, routes[k]@)
            + inst.demand(u) <= inst.max_capacity ==> !#[trigger] insertion_ok(inst, routes[k]@, u, p)
}

/// Some candidate of `cands` can be inserted feasibly into `route`.
pub open spec fn can_grow(inst: VrpInstance, route: Seq<usize>, cands: Seq<usize>) -> bool {
    exists|i: int, p: int| 0 <= i < cands.len() && #[trigger] insertion_ok(inst, route, cands[i] as int, p)
}

/// The best insertion of a candidate into `route`, as (index into
/// `cands`, position); meaningful when `can_grow`.
pub open spec fn best_insertion(inst: VrpInstance, route: Seq<usize>, cands: Seq<usize>) -> (int, int) {
    choose|q: (int, int)| best_insertion_at(inst, route, cands, q.0, q.1)
}

/// One growth step of a route under construction, with the mask of the
/// customers not yet routed: the best insertion among the candidates
/// (see `cands_of`) is made, if there is a feasible one.
pub open spec fn grow_step(inst: VrpInstance, route: Seq<usize>, mask: Seq<bool>) -> (Seq<usize>, Seq<bool>) {
    let cands = cands_of(inst, mask, demand_of_route(inst, route));
    if can_grow(inst, route, cands) {
        let q = best_insertion(inst, route, cands);
        let u = cands[q.0];
        (route.insert(q.1, u), mask.update(u as int, false))
    } else {
        (route, mask)
    }
}

/// The route and mask after `k` growth steps.
pub open spec fn grow_after(inst: VrpInstance, route: Seq<usize>, mask: Seq<bool>, k: nat) -> (Seq<usize>, Seq<bool>)
    decreases k,
{
    if k == 0 {
        (route, mask)
    } else {
        let prev = grow_after(inst, route, mask, (k - 1) as nat);
        grow_step(inst, prev.0, prev.1)
    }
}

/// After `k` growth steps no candidate can be inserted any more.
pub open spec fn settled_after(inst: VrpInstance, route: Seq<usize>, mask: Seq<bool>, k: nat) -> bool {
    let st = grow_after(inst, route, mask, k);
    !can_grow(inst, st.0, cands_of(inst, st.1, demand_of_route(inst, st.0)))
}

/// The route grown from `route` until no candidate fits, with the mask
/// left then.
pub open spec fn grown(inst: VrpInstance, route: Seq<usize>, mask: Seq<bool>) -> (Seq<usize>, Seq<bool>) {
    grow_after(inst, route, mask, choose|k: nat| #[trigger] settled_after(inst, route, mask, k))
}

/// The mask of the customers at the start: all but the depot.
pub open spec fn initial_mask(n: int) -> Seq<bool> {
    Seq::new(n as nat, |j: int| j != 0)
}

/// One step of the construction: a customer already routed is skipped;
/// another opens the route depot - customer - depot, which is grown (see
/// `grown`) and added to the routes.
pub open spec fn build_step(inst: VrpInstance, st: (Seq<Seq<usize>>, Seq<bool>), node: usize) -> (
    Seq<Seq<usize>>,
    Seq<bool>,
) {
    if !st.1[node as int] {
        st
    } else {
        let g = grown(inst, seq![0usize, node, 0usize], st.1.update(node as int, false));
        (st.0.push(g.0), g.1)
    }
}

/// The routes and mask after the construction has taken the last `m`
/// customers of `order`, from the last one backwards.
pub open spec fn build_after(inst: VrpInstance, order: Seq<usize>, m: nat) -> (Seq<Seq<usize>>, Seq<bool>)
    decreases m,
{
    if m == 0 {
        (Seq::empty(), initial_mask(inst.num_nodes as int))
    } else {
        build_step(inst, build_after(inst, order, (m - 1) as nat), order[order.len() - m])
    }
}

/// The customers by increasing distance from the depot (see
/// `is_depot_order`).
pub open spec fn depot_order_of(inst: VrpInstance) -> Seq<usize> {
    choose|o: Seq<usize>| is_depot_order(inst, o)
}

/// The routes the construction builds: customers are taken farthest from
/// the depot first.
pub open spec fn constructed_routes(inst: VrpInstance) -> Seq<Seq<usize>> {
    build_after(inst, depot_order_of(inst), (inst.num_nodes - 1) as nat).0
}

/// The views of a list of routes.
pub open spec fn route_views(routes: Seq<Vec<usize>>) -> Seq<Seq<usize>> {
    routes.map_values(|r: Vec<usize>| r@)
}

proof fn lemma_depot_order_agree(inst: VrpInstance, o1: Seq<usize>, o2: Seq<usize>, a: int)
    requires
        is_depot_order(inst, o1),
        is_depot_order(inst, o2),
        0 <= a < o1.len(),
    ensures
        forall|b: int| 0 <= b <= a ==> #[trigger] o1[b] == o2[b],
    decreases a,
{
    if a > 0 {
        lemma_depot_order_agree(inst, o1, o2, a - 1);
    }
    let x = o1[a];
    let y = o2[a];
    if x != y {
        assert(o2.contains(x as usize));
        let b = choose|b: int| 0 <= b < o2.len() && o2[b] == x;
        assert(o1.contains(y as usize));
        let c = choose|c: int| 0 <= c < o1.len() && o1[c] == y;
        if b < a {
            assert(o1[b] == o2[b]);
            assert(depot_before(inst, o1[b] as int, o1[a] as int));
        }
        if c < a {
            assert(o1[c] == o2[c]);
            assert(depot_before(inst, o2[c] as int, o2[a] as int));
        }
        assert(depot_before(inst, o2[a] as int, o2[b] as int));
        assert(depot_before(inst, o1[a] as int, o1[c] as int));
    }
}

/// The customers have one order by increasing distance from the depot.
pub proof fn lemma_depot_order_unique(inst: VrpInstance, o1: Seq<usize>, o2: Seq<usize>)
    requires
        is_depot_order(inst, o1),
        is_depot_order(inst, o2),
    ensures
        o1 == o2,
{
    if o1.len() > 0 {
        lemma_depot_order_agree(inst, o1, o2, o1.len() - 1);
    }
    assert(o1 =~= o2);
}

/// There is at most one best insertion.
pub proof fn lemma_best_insertion_unique(inst: VrpInstance, route: Seq<usize>, cands: Seq<usize>, i: int, pos: int)
    requires
        best_insertion_at(inst, route, cands, i, pos),
    ensures
        best_insertion(inst, route, cands) == (i, pos),
{
    let w = (i, pos);
    assert(best_insertion_at(inst, route, cands, w.0, w.1));
    let q = best_insertion(inst, route, cands);
    assert(best_insertion_at(inst, route, cands, q.0, q.1));
    assert(insertion_ok(inst, route, cands[i] as int, pos));
    assert(insertion_ok(inst, route, cands[q.0] as int, q.1));
}

/// Once no candidate fits, growth leaves route and mask as they are.
proof fn lemma_grow_settles(inst: VrpInstance, route: Seq<usize>, mask: Seq<bool>, k: nat, m: nat)
    requires
        k <= m,
        settled_after(inst, route, mask, k),
    ensures
        grow_after(inst, route, mask, m) == grow_after(inst, route, mask, k),
    decreases m - k,
{
    if m > k {
        lemma_grow_settles(inst, route, mask, k, (m - 1) as nat);
    }
}

/// Growth has one outcome: the first settled point of the trajectory.
pub proof fn lemma_grown_is(inst: VrpInstance, route: Seq<usize>, mask: Seq<bool>, k: nat)
    requires
        settled_after(inst, route, mask, k),
    ensures
        grown(inst, route, mask) == grow_after(inst, route, mask, k),
{
    let k2 = choose|k2: nat| #[trigger] settled_after(inst, route, mask, k2);
    assert(settled_after(inst, route, mask, k2));
    if k <= k2 {
        lemma_grow_settles(inst, route, mask, k, k2);
    } else {
        lemma_grow_settles(inst, route, mask, k2, k);
    }
}

/// Each customer can be served alone on time: the route depot - customer
/// - depot meets the time windows.
pub open spec fn singletons_on_time(inst: VrpInstance) -> bool {
    forall|c: int| 1 <= c < inst.num_nodes ==> #[trigger] route_ok(inst, singleton_route(c as usize))
}

/// The route depot - `c` - depot.
pub open spec fn singleton_route(c: usize) -> Seq<usize> {
    seq![0usize, c, 0usize]
}

/// A route's demand is bounded by the total absolute demand.
proof fn lemma_route_demand_bound(inst: VrpInstance, route: Seq<usize>)
    requires
        inst.wf(),
        distinct_below(interior(route), inst.num_nodes as int),
    ensures
        -0x3fff_ffff <= demand_of_route(inst, route) <= 0x3fff_ffff,
{
    let n = inst.num_nodes as int;
    let l = inst.lim();
    assert forall|j: int| 0 <= j < n implies -abs_demand_fn(inst)(j) <= #[trigger] demand_fn(inst)(j) <= abs_demand_fn(
        inst,
    )(j) by {}
    lemma_distinct_sum_bound(demand_fn(inst), abs_demand_fn(inst), interior(route), n);
    assert forall|j: int| 0 <= j < n implies #[trigger] abs_demand_fn(inst)(j) <= l by {
        assert(within(inst.demand(j), l));
    }
    lemma_prefix_sum_le(abs_demand_fn(inst), n, l);
    lemma_time_bound(inst, n);
    assert(n * l <= 0x3fff_ffff) by (nonlinear_arith)
        requires (2 * n + 16) * l <= 0x7fff_ffff, 0 <= l, 0 <= n;
}

/// Routes built greedily: repeatedly take the customer farthest from the
/// depot that no route visits yet (ties: larger index first), open the
/// route depot - customer - depot, and insert the best feasible customer
/// whose demand still fits (see `find_best_insertion`) until none is left.
/// The result is `constructed_routes`: it visits every customer exactly
/// once, and no route could take another customer of a later route.
/// When every ready time is at most its due time and each customer can be
/// served alone on time, every route meets the time windows.
pub fn build_routes(inst: &VrpInstance) -> (routes: Vec<Vec<usize>>)
    requires
        inst.wf(),
    ensures
        route_views(routes@) == constructed_routes(*inst),
        is_solution(*inst, routes@),
        forall|k: int| 0 <= k < routes@.len() ==> #[trigger] route_maximal(*inst, routes@, k),
        windows_ok(*inst) && singletons_on_time(*inst) ==> forall|k: int|
            0 <= k < routes@.len() ==> route_ok(*inst, #[trigger] routes@[k]@),
{
    let n = inst.num_nodes;
    let ghost ni = n as int;
    let mut routes: Vec<Vec<usize>> = Vec::new();
    let mut nodes = depot_order(inst);
    let ghost order = nodes@;
    proof {
        let d = depot_order_of(*inst);
        assert(is_depot_order(*inst, d));
        lemma_depot_order_unique(*inst, order, d);
        assert(nodes@ =~= order.take(nodes.len() as int));
    }
    let mut remaining: Vec<bool> = Vec::new();
    let mut i: usize = 0;
    while i < n
        invariant
            i <= n,
            remaining.len() == i,
            forall|j: int| 0 <= j < i ==> #[trigger] remaining@[j],
        decreases n - i,
    {
        remaining.push(true);
        i = i + 1;
    }
    remaining.set(0, false);
    proof {
        assert(remaining@ =~= initial_mask(ni));
        assert(route_views(routes@) =~= Seq::<Seq<usize>>::empty());
    }
    while nodes.len() > 0
        invariant
            inst.wf(),
            order == depot_order_of(*inst),
            order.len() == ni - 1,
            nodes.len() <= order.len(),
            nodes@ == order.take(nodes.len() as int),
            (route_views(routes@), remaining@) == build_after(*inst, order, (order.len() - nodes.len()) as nat),
            n == inst.num_nodes,
            ni == n,
            remaining.len() == n,
            !remaining@[0],
            forall|a: int| 0 <= a < nodes.len() ==> 1 <= #[trigger] nodes@[a] < n,
            forall|c: int| 1 <= c < n && #[trigger] remaining@[c] ==> nodes@.contains(c as usize),
            routes_valid(*inst, routes@),
            forall|c: int| 1 <= c < n ==> (#[trigger] remaining@[c] <==> !served(routes@, c as usize)),
            forall|k: int| 0 <= k < routes@.len() ==> #[trigger] route_maximal(*inst, routes@, k),
            windows_ok(*inst) && singletons_on_time(*inst) ==> forall|k: int|
                0 <= k < routes@.len() ==> route_ok(*inst, #[trigger] routes@[k]@),
        decreases nodes.len(),
    {
        let ghost old_nodes = nodes@;
        let popped = nodes.pop();
        let node = match popped {
            Option::Some(x) => x,
            Option::None => 0,
        };
        proof {
            assert(node == old_nodes[old_nodes.len() - 1]);
            assert(1 <= node < n);
            assert forall|c: int| 1 <= c < n && #[trigger] remaining@[c] && c != node implies nodes@.contains(c as usize) by {
                assert(old_nodes.contains(c as usize));
                let k = choose|k: int| 0 <= k < old_nodes.len() && old_nodes[k] == c as usize;
                assert(k != old_nodes.len() - 1);
                assert(nodes@[k] == c as usize);
            }
            assert forall|a: int| 0 <= a < nodes.len() implies 1 <= #[trigger] nodes@[a] < n by {
                assert(nodes@[a] == old_nodes[a]);
            }
        }
        let ghost m: nat = (order.len() - nodes.len()) as nat;
        let ghost st = build_after(*inst, order, (m - 1) as nat);
        proof {
            assert(old_nodes == order.take(old_nodes.len() as int));
            assert(nodes@ =~= old_nodes.drop_last());
            assert(nodes@ =~= order.take(nodes.len() as int));
            assert(old_nodes[old_nodes.len() - 1] == order[old_nodes.len() - 1]);
            assert(node == order[order.len() - m]);
            assert(build_after(*inst, order, m) == build_step(*inst, st, node));
        }
        if !remaining[node] {
            continue;
        }
        remaining.set(node, false);
        let ghost mask0 = remaining@;
        let mut route: Vec<usize> = Vec::new();
        route.push(0);
        route.push(node);
        route.push(0);
        let mut route_demand: i32 = inst.demands[node];
        let ghost start = route@;
        let ghost mut steps: nat = 0;
        proof {
            assert(start =~= seq![0usize, node, 0usize]);
            if singletons_on_time(*inst) {
                assert(start == singleton_route(node));
                assert(route_ok(*inst, singleton_route((node as int) as usize)));
            }
            assert(interior(route@) =~= seq![node]);
            assert(seq![node].drop_last() =~= Seq::<usize>::empty());
            assert(seq_sum(demand_fn(*inst), Seq::<usize>::empty()) == 0);
            assert(seq_sum(demand_fn(*inst), seq![node]) == seq_sum(demand_fn(*inst), seq![node].drop_last())
                + demand_fn(*inst)(node as int));
            assert(distinct_below(seq![node], ni));
            assert(interior(route@)[0] == node);
            assert forall|c: int| 1 <= c < n implies (#[trigger] remaining@[c] <==> (!served(routes@, c as usize)
                && !interior(route@).contains(c as usize))) by {
                if c == node {
                    assert(interior(route@)[0] == node);
                }
            }
        }
        loop
            invariant
                inst.wf(),
                n == inst.num_nodes,
                ni == n,
                remaining.len() == n,
                !remaining@[0],
                routes_valid(*inst, routes@),
                route_shape(*inst, route@),
                1 <= node < n,
                interior(route@).contains(node),
                forall|c: int| 1 <= c < n && #[trigger] remaining@[c] && c != node ==> nodes@.contains(c as usize),
                forall|a: int| 0 <= a < nodes.len() ==> 1 <= #[trigger] nodes@[a] < n,
                route.len() <= n + 1,
                start == seq![0usize, node, 0usize],
                windows_ok(*inst) && singletons_on_time(*inst) ==> route_ok(*inst, route@),
                windows_ok(*inst) && singletons_on_time(*inst) ==> forall|k: int|
                    0 <= k < routes@.len() ==> route_ok(*inst, #[trigger] routes@[k]@),
                (route@, remaining@) == grow_after(*inst, start, mask0, steps),
                route_demand == demand_of_route(*inst, route@),
                route_demand <= inst.max_capacity || interior(route@).len() == 1,
                forall|c: int|
                    1 <= c < n ==> (#[trigger] remaining@[c] <==> (!served(routes@, c as usize) && !interior(
                        route@,
                    ).contains(c as usize))),
                forall|c: usize| #[trigger] interior(route@).contains(c) ==> !served(routes@, c),
            ensures
                (route@, remaining@) == grown(*inst, start, mask0),
                windows_ok(*inst) && singletons_on_time(*inst) ==> route_ok(*inst, route@),
                routes_valid(*inst, routes@),
                route_shape(*inst, route@),
                interior(route@).contains(node),
                route_demand == demand_of_route(*inst, route@),
                route_demand <= inst.max_capacity || interior(route@).len() == 1,
                forall|c: int|
                    1 <= c < n ==> (#[trigger] remaining@[c] <==> (!served(routes@, c as usize) && !interior(
                        route@,
                    ).contains(c as usize))),
                forall|c: usize| #[trigger] interior(route@).contains(c) ==> !served(routes@, c),
                forall|u: int, p: int|
                    1 <= u < n && remaining@[u] && route_demand + inst.demand(u) <= inst.max_capacity
                        ==> !#[trigger] insertion_ok(*inst, route@, u, p),
            decreases masked_sum(one_fn(), remaining@, ni),
        {
            proof {
                lemma_route_demand_bound(*inst, route@);
                assert forall|k: int| 0 <= k < route@.len() implies #[trigger] route@[k] < n by {
                    if 1 <= k < route@.len() - 1 {
                        assert(interior(route@)[k - 1] == route@[k]);
                    }
                }
            }
            let cands = insertion_candidates(inst, &remaining, route_demand);
            let ghost cs = cands@;
            match find_best_insertion(&route, cands, inst) {
                Option::None => {
                    proof {
                        assert forall|u: int, p: int|
                            1 <= u < n && remaining@[u] && route_demand + inst.demand(u) <= inst.max_capacity
                                implies !#[trigger] insertion_ok(*inst, route@, u, p) by {
                            assert(cs.contains(u as usize));
                            let k = choose|k: int| 0 <= k < cs.len() && cs[k] == u as usize;
                            assert(!insertion_ok(*inst, route@, cs[k] as int, p));
                        }
                        assert(!can_grow(*inst, route@, cs));
                        assert(settled_after(*inst, start, mask0, steps));
                        lemma_grown_is(*inst, start, mask0, steps);
                    }
                    break;
                },
                Option::Some((best_node, best_pos)) => {
                    let ghost old_route = route@;
                    let ghost old_mask = remaining@;
                    proof {
                        let k = choose|k: int|
                            0 <= k < cs.len() && cs[k] == best_node && #[trigger] crate::vehicle_routing::best_insertion_at(
                                *inst,
                                old_route,
                                cs,
                                k,
                                best_pos as int,
                            );
                        assert(cs[k] < n);
                        lemma_best_insertion_unique(*inst, old_route, cs, k, best_pos as int);
                        if windows_ok(*inst) && singletons_on_time(*inst) {
                            lemma_insertion_keeps_on_time(*inst, old_route, best_node, best_pos as int);
                        }
                        assert(insertion_ok(*inst, old_route, cs[k] as int, best_pos as int));
                        assert(can_grow(*inst, old_route, cs));
                        assert(cs.contains((best_node as int) as usize));
                        assert(remaining@[best_node as int]);
                        assert(best_node != 0);
                        assert(!interior(old_route).contains(best_node));
                        lemma_masked_sum_update(one_fn(), old_mask, ni, best_node as int, false);
                        assert(interior(old_route.insert(best_pos as int, best_node)) =~= interior(old_route).insert(
                            best_pos - 1,
                            best_node,
                        ));
                        lemma_insert_distinct(interior(old_route), ni, best_pos - 1, best_node);
                        lemma_seq_sum_insert(demand_fn(*inst), interior(old_route), best_pos - 1, best_node);
                        assert(best_node < n);
                        assert(within(inst.demand(best_node as int), inst.lim()));
                    }
                    assert(-0x3fff_ffff <= route_demand <= 0x3fff_ffff);
                    proof {
                        lemma_time_bound(*inst, 0);
                    }
                    remaining.set(best_node, false);
                    route_demand = route_demand + inst.demands[best_node];
                    route.insert(best_pos, best_node);
                    proof {
                        let ir = interior(route@);
                        lemma_insert_contains(interior(old_route), best_pos - 1, best_node);
                        lemma_distinct_len_avoiding(ir, ni, 0);
                        assert(route@.last() == old_route.last());
                        assert forall|c: int| 1 <= c < n implies (#[trigger] remaining@[c] <==> (!served(
                            routes@,
                            c as usize,
                        ) && !interior(route@).contains(c as usize))) by {
                            assert(old_mask[c] <==> (!served(routes@, c as usize) && !interior(old_route).contains(
                                c as usize,
                            )));
                        }
                        assert forall|c: usize| #[trigger] interior(route@).contains(c) implies !served(routes@, c) by {
                            if c != best_node {
                                assert(interior(old_route).contains(c));
                            }
                        }
                        assert forall|i: int| 0 <= i < ni implies 0 <= #[trigger] one_fn()(i) by {}
                        lemma_masked_sum_nonneg_bound(one_fn(), remaining@, ni);
                        assert(interior(route@).contains(node));
                        assert(grow_step(*inst, old_route, old_mask) == (route@, remaining@));
                        assert(grow_after(*inst, start, mask0, (steps + 1) as nat) == (route@, remaining@));
                        steps = steps + 1;
                    }
                },
            }
        }
        let ghost old_routes = routes@;
        proof {
            lemma_distinct_len_avoiding(interior(route@), ni, 0);
        }
        routes.push(route);
        proof {
            let rs = routes@;
            assert(route_views(rs) =~= route_views(old_routes).push(route@));
            let last = old_routes.len() as int;
            assert(rs[last]@ == route@);
            assert forall|c: usize| #[trigger] served(rs, c) <==> (served(old_routes, c) || interior(route@).contains(c)) by {
                if served(rs, c) {
                    let k = choose|k: int| 0 <= k < rs.len() && #[trigger] interior(rs[k]@).contains(c);
                    if k < last {
                        assert(rs[k] == old_routes[k]);
                    }
                }
                if served(old_routes, c) {
                    let k = choose|k: int| 0 <= k < old_routes.len() && #[trigger] interior(old_routes[k]@).contains(c);
                    assert(rs[k] == old_routes[k]);
                }
                if interior(route@).contains(c) {
                    assert(interior(rs[last]@).contains(c));
                }
            }
            assert forall|k: int| 0 <= k < rs.len() implies route_shape(*inst, #[trigger] rs[k]@) by {
                if k < last {
                    assert(rs[k] == old_routes[k]);
                }
            }
            assert forall|k1: int, k2: int, c: usize|
                0 <= k1 < rs.len() && 0 <= k2 < rs.len() && k1 != k2 && #[trigger] interior(rs[k1]@).contains(c)
                    implies !#[trigger] interior(rs[k2]@).contains(c) by {
                if k1 < last && k2 < last {
                    assert(rs[k1] == old_routes[k1] && rs[k2] == old_routes[k2]);
                } else if k1 == last {
                    assert(rs[k2] == old_routes[k2]);
                    if interior(rs[k2]@).contains(c) {
                        assert(interior(old_routes[k2]@).contains(c));
                        assert(served(old_routes, c));
                    }
                } else {
                    assert(rs[k1] == old_routes[k1]);
                    assert(interior(old_routes[k1]@).contains(c));
                    assert(served(old_routes, c));
                }
            }
            assert forall|k: int| 0 <= k < rs.len() implies demand_of_route(*inst, #[trigger] rs[k]@) <= inst.max_capacity
                || interior(rs[k]@).len() == 1 by {
                if k < last {
                    assert(rs[k] == old_routes[k]);
                }
            }
            assert forall|c: int| 1 <= c < n implies (#[trigger] remaining@[c] <==> !served(rs, c as usize)) by {}
            assert forall|k: int| 0 <= k < rs.len() implies #[trigger] route_maximal(*inst, rs, k) by {
                if k < last {
                    assert(rs.take(k + 1) =~= old_routes.take(k + 1));
                    assert(rs[k] == old_routes[k]);
                    assert(route_maximal(*inst, old_routes, k));
                } else {
                    assert(rs.take(k + 1) =~= rs);
                    assert forall|u: int, p: int|
                        1 <= u < n && !served(rs.take(k + 1), u as usize) && demand_of_route(*inst, rs[k]@) + inst.demand(u)
                            <= inst.max_capacity implies !#[trigger] insertion_ok(*inst, rs[k]@, u, p) by {
                        assert(!served(rs, u as usize));
                        assert(remaining@[u]);
                    }
                }
            }
            assert forall|c: int| 1 <= c < n && #[trigger] remaining@[c] implies nodes@.contains(c as usize) by {
                assert(c != node);
            }
            assert(nodes@ == old_nodes.drop_last());
            assert(nodes@ =~= order.take(nodes.len() as int));
        }
    }
    proof {
        assert forall|c: int| 1 <= c < n implies #[trigger] served(routes@, c as usize) by {
            if !served(routes@, c as usize) {
                assert(remaining@[c]);
                assert(nodes@.contains(c as usize));
            }
        }
    }
    routes
}

} // verus!
