//! 2-opt improvement of vehicle routes.

use vstd::prelude::*;
use crate::sums::{lemma_seq_sum_as_masked, mask_of};
use crate::vehicle_routing::{
    best_insertion_at, insertion_ok, insertion_score, lemma_time_bound, nodes_ok, route_feasible, route_ok, within,
    VrpInstance,
};
use crate::vrp_construct::{
    demand_fn, demand_of_route, interior, is_solution, route_shape, route_views, routes_valid, served,
};

verus! {

/// `sum_{a <= k < b} d(route[k], route[k + 1])`.
pub open spec fn edges(inst: VrpInstance, route: Seq<usize>, a: int, b: int) -> int
    decreases b - a,
{
    if b <= a {
        0
    } else {
        edges(inst, route, a, b - 1) + inst.dist(route[b - 1] as int, route[b] as int)
    }
}

/// The distance driven along `route`.
pub open spec fn route_length(inst: VrpInstance, route: Seq<usize>) -> int {
    edges(inst, route, 0, route.len() - 1)
}

/// The distance driven along all routes.
pub open spec fn total_length(inst: VrpInstance, routes: Seq<Vec<usize>>) -> int
    decreases routes.len(),
{
    if routes.len() == 0 {
        0
    } else {
        total_length(inst, routes.drop_last()) + route_length(inst, routes.last()@)
    }
}

/// `route` with the segment `route[i + 1..=j]` reversed.
pub open spec fn reverse_segment(route: Seq<usize>, i: int, j: int) -> Seq<usize> {
    Seq::new(route.len(), |k: int| if i + 1 <= k <= j { route[i + 1 + j - k] } else { route[k] })
}

/// The change of length when `route[i + 1..=j]` is reversed, for a
/// symmetric distance: the edges `(route[i], route[i + 1])` and
/// `(route[j], route[j + 1])` are replaced by `(route[i], route[j])` and
/// `(route[i + 1], route[j + 1])`.
pub open spec fn two_opt_delta(inst: VrpInstance, route: Seq<usize>, i: int, j: int) -> int {
    inst.dist(route[i] as int, route[j] as int) + inst.dist(route[i + 1] as int, route[j + 1] as int) - (inst.dist(
        route[i] as int,
        route[i + 1] as int,
    ) + inst.dist(route[j] as int, route[j + 1] as int))
}

/// Reversing `route[i + 1..=j]` shortens the route and keeps it on time.
pub open spec fn improving_move(inst: VrpInstance, route: Seq<usize>, i: int, j: int) -> bool {
    &&& 0 <= i
    &&& i + 2 <= j
    &&& j + 1 < route.len()
    &&& two_opt_delta(inst, route, i, j) < 0
    &&& route_ok(inst, reverse_segment(route, i, j))
}

/// `(i, j)` is the improving move of smallest change, the first one (by
/// `i`, then `j`) among those of equal change.
pub open spec fn best_move_at(inst: VrpInstance, route: Seq<usize>, i: int, j: int) -> bool {
    &&& improving_move(inst, route, i, j)
    &&& forall|i2: int, j2: int|
        #[trigger] improving_move(inst, route, i2, j2) ==> two_opt_delta(inst, route, i, j) <= two_opt_delta(
            inst,
            route,
            i2,
            j2,
        ) && ((i2 < i || (i2 == i && j2 < j)) ==> two_opt_delta(inst, route, i, j) < two_opt_delta(inst, route, i2, j2))
}

/// No improving move is left in `route`.
pub open spec fn two_opt_optimal(inst: VrpInstance, route: Seq<usize>) -> bool {
    forall|i: int, j: int| !#[trigger] improving_move(inst, route, i, j)
}

/// The best improving move of `route` (meaningful when one exists).
pub open spec fn best_move(inst: VrpInstance, route: Seq<usize>) -> (int, int) {
    choose|p: (int, int)| best_move_at(inst, route, p.0, p.1)
}

/// `route` after `k` steps of 2-opt, each step applying the best
/// improving move; a route without improving move stays as it is.
pub open spec fn two_opt_after(inst: VrpInstance, route: Seq<usize>, k: nat) -> Seq<usize>
    decreases k,
{
    if k == 0 {
        route
    } else {
        let prev = two_opt_after(inst, route, (k - 1) as nat);
        if two_opt_optimal(inst, prev) {
            prev
        } else {
            reverse_segment(prev, best_move(inst, prev).0, best_move(inst, prev).1)
        }
    }
}

/// 2-opt leads from `from` to `to`: `to` lies on the trajectory
/// `two_opt_after` of `from`.
pub open spec fn two_opt_reaches(inst: VrpInstance, from: Seq<usize>, to: Seq<usize>) -> bool {
    exists|k: nat| #[trigger] two_opt_after(inst, from, k) == to
}

/// The route 2-opt ends with: the first route without improving move on
/// the trajectory `two_opt_after` (see `lemma_two_opt_outcome_unique`).
pub open spec fn two_opt_outcome(inst: VrpInstance, route: Seq<usize>) -> Seq<usize> {
    two_opt_after(inst, route, choose|k: nat| two_opt_optimal(inst, #[trigger] two_opt_after(inst, route, k)))
}

/// One 2-opt pass over a list of routes: each route of at least five
/// nodes is replaced by its `two_opt_outcome`, the others stay.
pub open spec fn two_opt_pass_result(inst: VrpInstance, routes: Seq<Seq<usize>>) -> Seq<Seq<usize>> {
    routes.map_values(|r: Seq<usize>| if r.len() >= 5 { two_opt_outcome(inst, r) } else { r })
}

/// There is at most one best move.
pub proof fn lemma_best_move_unique(inst: VrpInstance, route: Seq<usize>, i: int, j: int)
    requires
        best_move_at(inst, route, i, j),
    ensures
        best_move(inst, route) == (i, j),
{
    let w = (i, j);
    assert(best_move_at(inst, route, w.0, w.1));
    let p = best_move(inst, route);
    assert(best_move_at(inst, route, p.0, p.1));
    assert(improving_move(inst, route, i, j));
    assert(improving_move(inst, route, p.0, p.1));
}

/// Once a route has no improving move, further 2-opt steps leave it as
/// it is.
proof fn lemma_two_opt_settles(inst: VrpInstance, route: Seq<usize>, k: nat, m: nat)
    requires
        k <= m,
        two_opt_optimal(inst, two_opt_after(inst, route, k)),
    ensures
        two_opt_after(inst, route, m) == two_opt_after(inst, route, k),
    decreases m - k,
{
    if m > k {
        lemma_two_opt_settles(inst, route, k, (m - 1) as nat);
    }
}

/// 2-opt has one outcome: any two routes without improving move on the
/// trajectory of a route are the same route.
pub proof fn lemma_two_opt_outcome_unique(inst: VrpInstance, route: Seq<usize>, k1: nat, k2: nat)
    requires
        two_opt_optimal(inst, two_opt_after(inst, route, k1)),
        two_opt_optimal(inst, two_opt_after(inst, route, k2)),
    ensures
        two_opt_after(inst, route, k1) == two_opt_after(inst, route, k2),
{
    if k1 <= k2 {
        lemma_two_opt_settles(inst, route, k1, k2);
    } else {
        lemma_two_opt_settles(inst, route, k2, k1);
    }
}

/// A route without improving move reached by 2-opt is the outcome.
proof fn lemma_two_opt_outcome(inst: VrpInstance, route: Seq<usize>, result: Seq<usize>)
    requires
        two_opt_reaches(inst, route, result),
        two_opt_optimal(inst, result),
    ensures
        two_opt_outcome(inst, route) == result,
{
    let s = choose|s: nat| #[trigger] two_opt_after(inst, route, s) == result;
    assert(two_opt_optimal(inst, two_opt_after(inst, route, s)));
    let k = choose|k: nat| two_opt_optimal(inst, #[trigger] two_opt_after(inst, route, k));
    lemma_two_opt_outcome_unique(inst, route, s, k);
}

proof fn lemma_edges_split(inst: VrpInstance, route: Seq<usize>, a: int, b: int, c: int)
    requires
        a <= b <= c,
    ensures
        edges(inst, route, a, c) == edges(inst, route, a, b) + edges(inst, route, b, c),
    decreases c - b,
{
    if c > b {
        lemma_edges_split(inst, route, a, b, c - 1);
    }
}

/// Sequences that agree on `a..=b` have the same edges there.
proof fn lemma_edges_frame(inst: VrpInstance, s: Seq<usize>, t: Seq<usize>, a: int, b: int)
    requires
        forall|k: int| a <= k <= b ==> #[trigger] s[k] == t[k],
    ensures
        edges(inst, s, a, b) == edges(inst, t, a, b),
    decreases b - a,
{
    if b > a {
        lemma_edges_frame(inst, s, t, a, b - 1);
        assert(s[b - 1] == t[b - 1] && s[b] == t[b]);
    }
}

/// Edges of a reversed stretch, with a symmetric distance: if
/// `t[k] == s[c - k]` on `a..=b`, the edges of `t` there are those of `s`
/// on `c - b..=c - a`.
proof fn lemma_edges_reversed(inst: VrpInstance, s: Seq<usize>, t: Seq<usize>, a: int, b: int, c: int)
    requires
        inst.wf(),
        a <= b,
        0 <= c - b,
        c - a < s.len(),
        nodes_ok(inst, s),
        forall|k: int| a <= k <= b ==> #[trigger] t[k] == s[c - k],
    ensures
        edges(inst, t, a, b) == edges(inst, s, c - b, c - a),
    decreases b - a,
{
    if b > a {
        lemma_edges_reversed(inst, s, t, a, b - 1, c);
        assert(t[b - 1] == s[c - b + 1] && t[b] == s[c - b]);
        assert(s[c - b] < inst.num_nodes && s[c - b + 1] < inst.num_nodes);
        assert(inst.dist(s[c - b + 1] as int, s[c - b] as int) == inst.dist(s[c - b] as int, s[c - b + 1] as int));
        lemma_edges_split(inst, s, c - b, c - b + 1, c - a);
        assert(edges(inst, s, c - b, c - b + 1) == edges(inst, s, c - b, c - b) + inst.dist(
            s[c - b] as int,
            s[c - b + 1] as int,
        ));
    }
}

/// With a symmetric distance, reversing `route[i + 1..=j]` changes the
/// route's length by `two_opt_delta`.
pub proof fn lemma_reverse_length(inst: VrpInstance, route: Seq<usize>, i: int, j: int)
    requires
        inst.wf(),
        nodes_ok(inst, route),
        0 <= i,
        i + 1 <= j,
        j + 1 < route.len(),
    ensures
        route_length(inst, reverse_segment(route, i, j)) == route_length(inst, route) + two_opt_delta(inst, route, i, j),
{
    let t = reverse_segment(route, i, j);
    let last = route.len() - 1;
    lemma_edges_split(inst, route, 0, i, last);
    lemma_edges_split(inst, route, i, i + 1, last);
    lemma_edges_split(inst, route, i + 1, j, last);
    lemma_edges_split(inst, route, j, j + 1, last);
    lemma_edges_split(inst, t, 0, i, last);
    lemma_edges_split(inst, t, i, i + 1, last);
    lemma_edges_split(inst, t, i + 1, j, last);
    lemma_edges_split(inst, t, j, j + 1, last);
    lemma_edges_frame(inst, route, t, 0, i);
    lemma_edges_frame(inst, route, t, j + 1, last);
    lemma_edges_reversed(inst, route, t, i + 1, j, i + 1 + j);
    assert(t[i] == route[i] && t[i + 1] == route[j] && t[j] == route[i + 1] && t[j + 1] == route[j + 1]);
    assert(edges(inst, t, i, i + 1) == edges(inst, t, i, i) + inst.dist(t[i] as int, t[i + 1] as int));
    assert(edges(inst, t, j, j + 1) == edges(inst, t, j, j) + inst.dist(t[j] as int, t[j + 1] as int));
    assert(edges(inst, route, i, i + 1) == edges(inst, route, i, i) + inst.dist(route[i] as int, route[i + 1] as int));
    assert(edges(inst, route, j, j + 1) == edges(inst, route, j, j) + inst.dist(route[j] as int, route[j + 1] as int));
}

/// Past an insertion at `p`, the edges are those of the route one
/// position later.
proof fn lemma_edges_insert_shift(inst: VrpInstance, r: Seq<usize>, p: int, u: usize, a: int, b: int)
    requires
        1 <= p <= a <= b < r.len(),
    ensures
        edges(inst, r.insert(p, u), a + 1, b + 1) == edges(inst, r, a, b),
    decreases b - a,
{
    if b > a {
        lemma_edges_insert_shift(inst, r, p, u, a, b - 1);
        assert(r.insert(p, u)[b] == r[b - 1] && r.insert(p, u)[b + 1] == r[b]);
    }
}

/// The length that inserting `u` before `route[pos]` adds to the route.
pub open spec fn added_length(inst: VrpInstance, route: Seq<usize>, u: int, pos: int) -> int {
    route_length(inst, route.insert(pos, u as usize)) - route_length(inst, route)
}

/// The score of an insertion is the customer's distance from the depot
/// minus exactly the length the insertion adds to the route.
pub proof fn lemma_insertion_score_charges_added_length(inst: VrpInstance, route: Seq<usize>, u: usize, pos: int)
    requires
        1 <= pos < route.len(),
    ensures
        insertion_score(inst, route, u as int, pos) == inst.dist(0, u as int) - added_length(
            inst,
            route,
            u as int,
            pos,
        ),
        added_length(inst, route, u as int, pos) == inst.dist(route[pos - 1] as int, u as int) + inst.dist(
            u as int,
            route[pos] as int,
        ) - inst.dist(route[pos - 1] as int, route[pos] as int),
{
    let r2 = route.insert(pos, u);
    let last = route.len() - 1;
    lemma_edges_split(inst, route, 0, pos - 1, last);
    lemma_edges_split(inst, route, pos - 1, pos, last);
    lemma_edges_split(inst, r2, 0, pos - 1, last + 1);
    lemma_edges_split(inst, r2, pos - 1, pos, last + 1);
    lemma_edges_split(inst, r2, pos, pos + 1, last + 1);
    lemma_edges_frame(inst, route, r2, 0, pos - 1);
    lemma_edges_insert_shift(inst, route, pos, u, pos, last);
    assert(r2[pos - 1] == route[pos - 1] && r2[pos] == u && r2[pos + 1] == route[pos]);
    assert(edges(inst, route, pos - 1, pos) == edges(inst, route, pos - 1, pos - 1) + inst.dist(
        route[pos - 1] as int,
        route[pos] as int,
    ));
    assert(edges(inst, r2, pos - 1, pos) == edges(inst, r2, pos - 1, pos - 1) + inst.dist(r2[pos - 1] as int, u as int));
    assert(edges(inst, r2, pos, pos + 1) == edges(inst, r2, pos, pos) + inst.dist(u as int, r2[pos + 1] as int));
}

/// The best insertion gains most: no feasible insertion of a candidate
/// has a larger distance from the depot net of the length it adds.
pub proof fn lemma_best_insertion_adds_least(inst: VrpInstance, route: Seq<usize>, cand: Seq<usize>, i: int, pos: int)
    requires
        best_insertion_at(inst, route, cand, i, pos),
    ensures
        forall|i2: int, p2: int|
            0 <= i2 < cand.len() && #[trigger] insertion_ok(inst, route, cand[i2] as int, p2) ==> inst.dist(
                0,
                cand[i2] as int,
            ) - added_length(inst, route, cand[i2] as int, p2) <= inst.dist(0, cand[i] as int) - added_length(
                inst,
                route,
                cand[i] as int,
                pos,
            ),
{
    lemma_insertion_score_charges_added_length(inst, route, cand[i], pos);
    assert forall|i2: int, p2: int|
        0 <= i2 < cand.len() && #[trigger] insertion_ok(inst, route, cand[i2] as int, p2) implies inst.dist(
            0,
            cand[i2] as int,
        ) - added_length(inst, route, cand[i2] as int, p2) <= inst.dist(0, cand[i] as int) - added_length(
            inst,
            route,
            cand[i] as int,
            pos,
        ) by {
        lemma_insertion_score_charges_added_length(inst, route, cand[i2], p2);
    }
}

/// A route's length is at least `-(b - a) L`.
proof fn lemma_edges_lower(inst: VrpInstance, route: Seq<usize>, a: int, b: int)
    requires
        inst.wf(),
        nodes_ok(inst, route),
        0 <= a <= b < route.len(),
    ensures
        edges(inst, route, a, b) + (b - a) * inst.lim() >= 0,
    decreases b - a,
{
    if b > a {
        lemma_edges_lower(inst, route, a, b - 1);
        assert(route[b - 1] < inst.num_nodes && route[b] < inst.num_nodes);
        assert(within(inst.dist(route[b - 1] as int, route[b] as int), inst.lim()));
        assert((b - 1 - a) * inst.lim() + inst.lim() == (b - a) * inst.lim()) by (nonlinear_arith);
    } else {
        assert((b - a) * inst.lim() == 0) by (nonlinear_arith) requires b == a;
    }
}

/// Reverses `v[lo..=hi]` in place.
pub fn reverse_range(v: &mut Vec<usize>, lo: usize, hi: usize)
    requires
        1 <= lo,
        lo <= hi < old(v).len(),
    ensures
        final(v)@ == reverse_segment(old(v)@, lo - 1, hi as int),
{
    let ghost o = v@;
    let mut a = lo;
    let mut b = hi;
    while a < b
        invariant
            lo <= a,
            b <= hi,
            hi < o.len(),
            a + b == lo + hi,
            a <= b + 1,
            v@.len() == o.len(),
            forall|k: int|
                0 <= k < o.len() ==> #[trigger] v@[k] == (if (lo <= k < a || b < k <= hi) {
                    o[lo + hi - k]
                } else {
                    o[k]
                }),
        decreases b + 1 - a,
    {
        let x = v[a];
        let y = v[b];
        v.set(a, y);
        v.set(b, x);
        a = a + 1;
        b = b - 1;
    }
    assert(v@ =~= reverse_segment(o, lo - 1, hi as int));
}

/// Reversing a stretch of the interior keeps the route's shape, its
/// customers and its demand.
pub proof fn lemma_reverse_keeps_route(inst: VrpInstance, route: Seq<usize>, i: int, j: int)
    requires
        inst.wf(),
        route_shape(inst, route),
        0 <= i,
        i + 1 <= j,
        j + 1 < route.len(),
    ensures
        route_shape(inst, reverse_segment(route, i, j)),
        forall|c: usize| #[trigger] interior(reverse_segment(route, i, j)).contains(c) <==> interior(route).contains(c),
        demand_of_route(inst, reverse_segment(route, i, j)) == demand_of_route(inst, route),
        reverse_segment(route, i, j).len() == route.len(),
{
    let t = reverse_segment(route, i, j);
    let it = interior(t);
    let ir = interior(route);
    let n = inst.num_nodes as int;
    assert forall|k: int| 0 <= k < it.len() implies #[trigger] it[k] == ir[(if i <= k < j { i + j - 1 - k } else { k })] by {
        assert(it[k] == t[k + 1]);
    }
    assert forall|c: usize| #[trigger] it.contains(c) <==> ir.contains(c) by {
        if it.contains(c) {
            let k = choose|k: int| 0 <= k < it.len() && it[k] == c;
            let m = if i <= k < j { i + j - 1 - k } else { k };
            assert(ir[m] == c);
        }
        if ir.contains(c) {
            let m = choose|m: int| 0 <= m < ir.len() && ir[m] == c;
            let k = if i <= m < j { i + j - 1 - m } else { m };
            assert(it[k] == c);
        }
    }
    assert forall|p: int| 0 <= p < it.len() implies #[trigger] it[p] < n by {
        let m = if i <= p < j { i + j - 1 - p } else { p };
        assert(ir[m] < n);
    }
    assert forall|p: int, q: int| 0 <= p < it.len() && 0 <= q < it.len() && p != q implies it[p] != it[q] by {
        let mp = if i <= p < j { i + j - 1 - p } else { p };
        let mq = if i <= q < j { i + j - 1 - q } else { q };
        assert(it[p] == ir[mp] && it[q] == ir[mq]);
    }
    assert(t[0] == route[0]);
    assert(t.last() == route.last());
    lemma_seq_sum_as_masked(demand_fn(inst), ir, mask_of(ir, n), n);
    lemma_seq_sum_as_masked(demand_fn(inst), it, mask_of(ir, n), n);
}

/// The best improving 2-opt move of `route`: the reversal of
/// `route[i + 1..=j]` that shortens the route most while keeping it on
/// time (the first such among equals); none when no reversal both
/// shortens the route and keeps it on time.
pub fn best_two_opt_move(inst: &VrpInstance, route: &Vec<usize>) -> (best: Option<(usize, usize)>)
    requires
        inst.wf(),
        nodes_ok(*inst, route@),
        5 <= route.len() <= inst.num_nodes + 1,
    ensures
        best is None <==> two_opt_optimal(*inst, route@),
        best matches Some((i, j)) ==> best_move_at(*inst, route@, i as int, j as int),
{
    let n = route.len();
    let ghost r = route@;
    let dm = &inst.distance_matrix;
    let mut best_delta: i64 = 0;
    let mut best_ij: Option<(usize, usize)> = Option::None;
    let mut i: usize = 0;
    while i < n - 3
        invariant
            inst.wf(),
            r == route@,
            dm@ == inst.distance_matrix@,
            nodes_ok(*inst, r),
            n == r.len(),
            5 <= n <= inst.num_nodes + 1,
            i <= n - 3,
            best_delta <= 0,
            best_ij is None ==> best_delta == 0,
            best_ij is None ==> forall|i2: int, j2: int| i2 < i ==> !#[trigger] improving_move(*inst, r, i2, j2),
            best_ij matches Some((bi, bj)) ==> {
                &&& improving_move(*inst, r, bi as int, bj as int)
                &&& best_delta == two_opt_delta(*inst, r, bi as int, bj as int)
                &&& bi < i
                &&& forall|i2: int, j2: int|
                    i2 < i && #[trigger] improving_move(*inst, r, i2, j2) ==> best_delta <= two_opt_delta(
                        *inst,
                        r,
                        i2,
                        j2,
                    ) && ((i2 < bi || (i2 == bi && j2 < bj)) ==> best_delta < two_opt_delta(*inst, r, i2, j2))
            },
        decreases n - 3 - i,
    {
        let mut j: usize = i + 2;
        while j < n - 1
            invariant
                inst.wf(),
                r == route@,
                dm@ == inst.distance_matrix@,
                nodes_ok(*inst, r),
                n == r.len(),
                5 <= n <= inst.num_nodes + 1,
                i < n - 3,
                i + 2 <= j <= n - 1,
                best_delta <= 0,
                best_ij is None ==> best_delta == 0,
                best_ij is None ==> forall|i2: int, j2: int|
                    (i2 < i || (i2 == i && j2 < j)) ==> !#[trigger] improving_move(*inst, r, i2, j2),
                best_ij matches Some((bi, bj)) ==> {
                    &&& improving_move(*inst, r, bi as int, bj as int)
                    &&& best_delta == two_opt_delta(*inst, r, bi as int, bj as int)
                    &&& (bi < i || (bi == i && bj < j))
                    &&& forall|i2: int, j2: int|
                        (i2 < i || (i2 == i && j2 < j)) && #[trigger] improving_move(*inst, r, i2, j2) ==> best_delta
                            <= two_opt_delta(*inst, r, i2, j2) && ((i2 < bi || (i2 == bi && j2 < bj)) ==> best_delta
                            < two_opt_delta(*inst, r, i2, j2))
                },
            decreases n - 1 - j,
        {
            let a = route[i];
            let b = route[i + 1];
            let c = route[j];
            let d = route[j + 1];
            let delta = (dm[a][c] as i64 + dm[b][d] as i64) - (dm[a][b] as i64 + dm[c][d] as i64);
            proof {
                assert(delta == two_opt_delta(*inst, r, i as int, j as int));
            }
            if delta < best_delta {
                let mut cand = route.clone();
                reverse_range(&mut cand, i + 1, j);
                proof {
                    assert(cand@ =~= reverse_segment(r, i as int, j as int));
                    assert forall|k: int| 0 <= k < cand@.len() implies #[trigger] cand@[k] < inst.num_nodes by {
                        if i + 1 <= k <= j {
                            assert(r[i + 1 + j - k] < inst.num_nodes);
                        } else {
                            assert(r[k] < inst.num_nodes);
                        }
                    }
                }
                if route_feasible(&cand, inst) {
                    best_delta = delta;
                    best_ij = Option::Some((i, j));
                }
            }
            j = j + 1;
        }
        i = i + 1;
    }
    proof {
        assert forall|i2: int, j2: int| i2 >= n - 3 implies !#[trigger] improving_move(*inst, r, i2, j2) by {}
    }
    best_ij
}

/// A well shaped route visits nodes of the instance.
proof fn lemma_shape_nodes(inst: VrpInstance, route: Seq<usize>)
    requires
        route_shape(inst, route),
        inst.num_nodes >= 1,
    ensures
        nodes_ok(inst, route),
{
    assert forall|k: int| 0 <= k < route.len() implies #[trigger] route[k] < inst.num_nodes by {
        if 1 <= k < route.len() - 1 {
            assert(interior(route)[k - 1] == route[k]);
        }
    }
}

/// Applies the best 2-opt move (see `best_two_opt_move`) to `route` until
/// none is left; returns whether any move was applied. The result is the
/// first route without improving move on the trajectory `two_opt_after`.
/// The route keeps its shape, its customers and its demand; when it
/// changed it is on time and strictly shorter.
pub fn two_opt_route(inst: &VrpInstance, route: &mut Vec<usize>) -> (improved: bool)
    requires
        inst.wf(),
        route_shape(*inst, old(route)@),
        5 <= old(route).len() <= inst.num_nodes + 1,
    ensures
        route_shape(*inst, final(route)@),
        final(route)@.len() == old(route)@.len(),
        forall|c: usize| #[trigger] interior(final(route)@).contains(c) <==> interior(old(route)@).contains(c),
        demand_of_route(*inst, final(route)@) == demand_of_route(*inst, old(route)@),
        two_opt_optimal(*inst, final(route)@),
        final(route)@ == two_opt_outcome(*inst, old(route)@),
        improved ==> route_ok(*inst, final(route)@) && route_length(*inst, final(route)@) < route_length(
            *inst,
            old(route)@,
        ),
        !improved ==> final(route)@ == old(route)@,
{
    let ghost o = route@;
    let ghost lim = inst.lim();
    let ghost len = o.len() as int;
    proof {
        lemma_shape_nodes(*inst, o);
        lemma_edges_lower(*inst, o, 0, len - 1);
    }
    let mut improved = false;
    let mut local = true;
    let ghost mut steps: nat = 0;
    while local
        invariant
            inst.wf(),
            lim == inst.lim(),
            route@ == two_opt_after(*inst, o, steps),
            len == o.len(),
            route_shape(*inst, route@),
            nodes_ok(*inst, route@),
            route@.len() == len,
            5 <= len <= inst.num_nodes + 1,
            forall|c: usize| #[trigger] interior(route@).contains(c) <==> interior(o).contains(c),
            demand_of_route(*inst, route@) == demand_of_route(*inst, o),
            !local ==> two_opt_optimal(*inst, route@),
            improved ==> route_ok(*inst, route@) && route_length(*inst, route@) < route_length(*inst, o),
            !improved ==> route@ == o,
            route_length(*inst, route@) + (len - 1) * lim >= 0,
        decreases route_length(*inst, route@) + (len - 1) * lim + (if local { 1int } else { 0int }),
    {
        local = false;
        match best_two_opt_move(inst, route) {
            Option::Some((i, j)) => {
                let ghost before = route@;
                proof {
                    lemma_reverse_length(*inst, before, i as int, j as int);
                    lemma_reverse_keeps_route(*inst, before, i as int, j as int);
                    lemma_best_move_unique(*inst, before, i as int, j as int);
                }
                reverse_range(route, i + 1, j);
                proof {
                    lemma_shape_nodes(*inst, route@);
                    lemma_edges_lower(*inst, route@, 0, len - 1);
                    assert(two_opt_after(*inst, o, (steps + 1) as nat) == route@);
                    steps = steps + 1;
                }
                local = true;
                improved = true;
            },
            Option::None => {},
        }
    }
    proof {
        assert(two_opt_after(*inst, o, steps) == route@);
        lemma_two_opt_outcome(*inst, o, route@);
    }
    improved
}

/// `sum over routes of (len - 1) L`: how far below zero the total length
/// can go.
pub open spec fn length_slack(inst: VrpInstance, routes: Seq<Vec<usize>>) -> int
    decreases routes.len(),
{
    if routes.len() == 0 {
        0
    } else {
        length_slack(inst, routes.drop_last()) + (routes.last()@.len() - 1) * inst.lim()
    }
}

proof fn lemma_total_length_update(inst: VrpInstance, routes: Seq<Vec<usize>>, r: int, x: Vec<usize>)
    requires
        0 <= r < routes.len(),
    ensures
        total_length(inst, routes.update(r, x)) == total_length(inst, routes) - route_length(inst, routes[r]@)
            + route_length(inst, x@),
        x@.len() == routes[r]@.len() ==> length_slack(inst, routes.update(r, x)) == length_slack(inst, routes),
    decreases routes.len(),
{
    let u = routes.update(r, x);
    if r < routes.len() - 1 {
        assert(u.drop_last() =~= routes.drop_last().update(r, x));
        lemma_total_length_update(inst, routes.drop_last(), r, x);
    } else {
        assert(u.drop_last() =~= routes.drop_last());
    }
}

/// The total length of valid routes is at least `-length_slack`. Since
/// every improving pass (see `two_opt_pass`) keeps the slack and strictly
/// shortens the routes, passes can improve at most `total_length +
/// length_slack` times in a row: repeating passes while one improves
/// terminates.
pub proof fn lemma_total_length_lower(inst: VrpInstance, routes: Seq<Vec<usize>>)
    requires
        inst.wf(),
        routes_valid(inst, routes),
    ensures
        total_length(inst, routes) + length_slack(inst, routes) >= 0,
    decreases routes.len(),
{
    if routes.len() > 0 {
        let l = routes.len() - 1;
        assert(routes_valid(inst, routes.drop_last())) by {
            assert forall|k: int| 0 <= k < routes.drop_last().len() implies route_shape(inst, #[trigger] routes.drop_last()[k]@) by {
                assert(routes.drop_last()[k] == routes[k]);
            }
            assert forall|k1: int, k2: int, c: usize|
                0 <= k1 < routes.drop_last().len() && 0 <= k2 < routes.drop_last().len() && k1 != k2
                    && #[trigger] interior(routes.drop_last()[k1]@).contains(c) implies !#[trigger] interior(
                routes.drop_last()[k2]@,
            ).contains(c) by {
                assert(routes.drop_last()[k1] == routes[k1] && routes.drop_last()[k2] == routes[k2]);
            }
            assert forall|k: int| 0 <= k < routes.drop_last().len() implies demand_of_route(
                inst,
                #[trigger] routes.drop_last()[k]@,
            ) <= inst.max_capacity || interior(routes.drop_last()[k]@).len() == 1 by {
                assert(routes.drop_last()[k] == routes[k]);
            }
        }
        lemma_total_length_lower(inst, routes.drop_last());
        assert(route_shape(inst, routes[l]@));
        lemma_time_bound(inst, 0);
        lemma_shape_nodes(inst, routes[l]@);
        lemma_edges_lower(inst, routes[l]@, 0, routes[l]@.len() - 1);
        assert(routes.last() == routes[l]);
        assert((routes[l]@.len() - 1) * inst.lim() >= 0) by (nonlinear_arith)
            requires routes[l]@.len() >= 3, inst.lim() >= 0;
    }
}

/// Replacing a route by one with the same customers, demand and length in
/// a well shaped route keeps a solution a solution.
proof fn lemma_replace_route(inst: VrpInstance, routes: Seq<Vec<usize>>, r: int, x: Vec<usize>)
    requires
        inst.wf(),
        is_solution(inst, routes),
        0 <= r < routes.len(),
        route_shape(inst, x@),
        forall|c: usize| #[trigger] interior(x@).contains(c) <==> interior(routes[r]@).contains(c),
        demand_of_route(inst, x@) == demand_of_route(inst, routes[r]@),
        x@.len() == routes[r]@.len(),
    ensures
        is_solution(inst, routes.update(r, x)),
{
    let u = routes.update(r, x);
    assert forall|k: int, c: usize| 0 <= k < u.len() implies (#[trigger] interior(u[k]@).contains(c) <==> interior(
        routes[k]@,
    ).contains(c)) by {}
    assert(interior(x@).len() == interior(routes[r]@).len());
    assert forall|k: int| 0 <= k < u.len() implies route_shape(inst, #[trigger] u[k]@) by {}
    assert forall|k1: int, k2: int, c: usize|
        0 <= k1 < u.len() && 0 <= k2 < u.len() && k1 != k2 && #[trigger] interior(u[k1]@).contains(c) implies !#[trigger] interior(
        u[k2]@,
    ).contains(c) by {
        assert(interior(routes[k1]@).contains(c));
        if interior(u[k2]@).contains(c) {
            assert(interior(routes[k2]@).contains(c));
        }
    }
    assert forall|k: int| 0 <= k < u.len() implies demand_of_route(inst, #[trigger] u[k]@) <= inst.max_capacity
        || interior(u[k]@).len() == 1 by {}
    assert forall|c: int| 1 <= c < inst.num_nodes implies #[trigger] served(u, c as usize) by {
        assert(served(routes, c as usize));
        let k = choose|k: int| 0 <= k < routes.len() && #[trigger] interior(routes[k]@).contains(c as usize);
        assert(interior(u[k]@).contains(c as usize));
    }
}

/// One pass of 2-opt over all routes of at least five nodes (see
/// `two_opt_route`); shorter routes are left as they are
/// (`two_opt_pass_result`). Returns whether any route changed. The routes
/// stay a solution, keep their lengths, and their total length strictly
/// drops when one changed; each route keeps its customers and its ends at
/// the depot, and a route on time stays on time.
pub fn two_opt_pass(inst: &VrpInstance, routes: &mut Vec<Vec<usize>>) -> (improved_any: bool)
    requires
        inst.wf(),
        is_solution(*inst, old(routes)@),
    ensures
        is_solution(*inst, final(routes)@),
        final(routes)@.len() == old(routes)@.len(),
        forall|k: int| 0 <= k < old(routes)@.len() ==> (#[trigger] final(routes)@[k])@.len() == old(routes)@[k]@.len(),
        forall|k: int| 0 <= k < final(routes)@.len() && final(routes)@[k]@.len() >= 5 ==> two_opt_optimal(*inst, #[trigger] final(routes)@[k]@),
        route_views(final(routes)@) == two_opt_pass_result(*inst, route_views(old(routes)@)),
        forall|k: int| 0 <= k < final(routes)@.len() && final(routes)@[k]@.len() < 5 ==> #[trigger] final(routes)@[k] == old(routes)@[k],
        length_slack(*inst, final(routes)@) == length_slack(*inst, old(routes)@),
        improved_any ==> total_length(*inst, final(routes)@) < total_length(*inst, old(routes)@),
        !improved_any ==> total_length(*inst, final(routes)@) == total_length(*inst, old(routes)@),
        !improved_any ==> route_views(final(routes)@) == route_views(old(routes)@),
        forall|k: int|
            0 <= k < old(routes)@.len() && route_ok(*inst, old(routes)@[k]@) ==> route_ok(
                *inst,
                #[trigger] final(routes)@[k]@,
            ),
        forall|k: int, c: usize|
            0 <= k < old(routes)@.len() ==> (#[trigger] interior(final(routes)@[k]@).contains(c) <==> interior(
                old(routes)@[k]@,
            ).contains(c)),
        forall|k: int|
            0 <= k < old(routes)@.len() ==> #[trigger] final(routes)@[k]@[0] == 0 && final(routes)@[k]@.last() == 0,
{
    let ghost o = routes@;
    let mut improved_any = false;
    let nr = routes.len();
    let mut r: usize = 0;
    while r < nr
        invariant
            inst.wf(),
            nr == routes.len(),
            routes@.len() == o.len(),
            r <= nr,
            is_solution(*inst, routes@),
            forall|k: int| 0 <= k < o.len() ==> (#[trigger] routes@[k])@.len() == o[k]@.len(),
            forall|k: int| 0 <= k < r && routes@[k]@.len() >= 5 ==> two_opt_optimal(*inst, #[trigger] routes@[k]@),
            forall|k: int| 0 <= k < r && o[k]@.len() >= 5 ==> #[trigger] routes@[k]@ == two_opt_outcome(*inst, o[k]@),
            forall|k: int| 0 <= k < routes@.len() && (k >= r || routes@[k]@.len() < 5) ==> #[trigger] routes@[k] == o[k],
            length_slack(*inst, routes@) == length_slack(*inst, o),
            improved_any ==> total_length(*inst, routes@) < total_length(*inst, o),
            !improved_any ==> total_length(*inst, routes@) == total_length(*inst, o),
            !improved_any ==> forall|k: int| 0 <= k < r ==> (#[trigger] routes@[k])@ == o[k]@,
            forall|k: int| 0 <= k < o.len() && route_ok(*inst, o[k]@) ==> route_ok(*inst, #[trigger] routes@[k]@),
            forall|k: int, c: usize|
                0 <= k < o.len() ==> (#[trigger] interior(routes@[k]@).contains(c) <==> interior(o[k]@).contains(c)),
        decreases nr - r,
    {
        if routes[r].len() < 5 {
            r = r + 1;
            continue;
        }
        let mut route = routes[r].clone();
        let ghost before = routes@;
        proof {
            assert(route@ =~= before[r as int]@);
            assert(route_shape(*inst, before[r as int]@));
            lemma_distinct_len_avoiding_route(*inst, before[r as int]@);
        }
        let improved = two_opt_route(inst, &mut route);
        proof {
            lemma_replace_route(*inst, before, r as int, route);
            lemma_total_length_update(*inst, before, r as int, route);
        }
        routes.set(r, route);
        if improved {
            improved_any = true;
        }
        proof {
            assert(routes@ == before.update(r as int, route));
        }
        r = r + 1;
    }
    assert(route_views(routes@) =~= two_opt_pass_result(*inst, route_views(o)));
    if !improved_any {
        assert(route_views(routes@) =~= route_views(o));
    }
    improved_any
}

/// A well shaped route has at most `num_nodes + 1` nodes.
proof fn lemma_distinct_len_avoiding_route(inst: VrpInstance, route: Seq<usize>)
    requires
        inst.wf(),
        route_shape(inst, route),
    ensures
        route.len() <= inst.num_nodes + 1,
{
    crate::sums::lemma_distinct_len_avoiding(interior(route), inst.num_nodes as int, 0);
}

} // verus!
