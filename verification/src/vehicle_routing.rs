//! Vehicle routing with time windows: the instance, the timing of routes,
//! and the feasibility checks used while building and improving routes.

use vstd::prelude::*;

verus! {

/// A vehicle routing instance with time windows. Node 0 is the depot;
/// nodes `1..num_nodes` are customers.
pub struct VrpInstance {
    pub num_nodes: usize,
    pub distance_matrix: Vec<Vec<i32>>,
    pub max_capacity: i32,
    pub demands: Vec<i32>,
    pub ready_times: Vec<i32>,
    pub due_times: Vec<i32>,
    pub service_time: i32,
}

/// Bound on the magnitude of every distance, time, demand and the
/// capacity, under which no `i32` computation of a route's timing, of
/// an insertion's cost or of a route's demand can overflow: along a route
/// of up to `n + 1` legs each leg adds at most a distance, a wait up to a
/// ready time and a service time, and an insertion adds a few distances
/// more, all of which stays below `(2 n + 16)` times the bound.
pub open spec fn vrp_limit(n: int) -> int {
    0x7fff_ffffint / (2 * n + 16)
}

pub open spec fn within(x: int, lim: int) -> bool {
    -lim <= x <= lim
}

impl VrpInstance {
    pub open spec fn lim(&self) -> int {
        vrp_limit(self.num_nodes as int)
    }

    /// `distance_matrix[a][b]`.
    pub open spec fn dist(&self, a: int, b: int) -> int {
        self.distance_matrix@[a]@[b] as int
    }

    pub open spec fn ready(&self, a: int) -> int {
        self.ready_times@[a] as int
    }

    pub open spec fn due(&self, a: int) -> int {
        self.due_times@[a] as int
    }

    pub open spec fn demand(&self, a: int) -> int {
        self.demands@[a] as int
    }

    /// The shapes agree with `num_nodes`, there is a depot, the distance
    /// matrix is symmetric, and every magnitude is within `vrp_limit`.
    pub open spec fn wf(&self) -> bool {
        let n = self.num_nodes as int;
        let lim = self.lim();
        &&& 1 <= n <= 0xffff_ffff
        &&& self.distance_matrix.len() == n
        &&& forall|a: int| 0 <= a < n ==> (#[trigger] self.distance_matrix@[a]).len() == n
        &&& self.demands.len() == n
        &&& self.ready_times.len() == n
        &&& self.due_times.len() == n
        &&& forall|a: int, b: int| 0 <= a < n && 0 <= b < n ==> #[trigger] self.dist(a, b) == self.dist(b, a)
        &&& forall|a: int, b: int| 0 <= a < n && 0 <= b < n ==> within(#[trigger] self.dist(a, b), lim)
        &&& forall|a: int| 0 <= a < n ==> within(#[trigger] self.demand(a), lim)
        &&& forall|a: int| 0 <= a < n ==> within(#[trigger] self.ready(a), lim)
        &&& forall|a: int| 0 <= a < n ==> within(#[trigger] self.due(a), lim)
        &&& within(self.service_time as int, lim)
        &&& within(self.max_capacity as int, lim)
    }
}

impl VrpInstance {
    /// Whether the instance is well formed (see `wf`).
    pub fn check(&self) -> (ok: bool)
        ensures
            ok == self.wf(),
    {
        let n = self.num_nodes;
        if n < 1 || n > 0xffff_ffff || self.distance_matrix.len() != n || self.demands.len() != n
            || self.ready_times.len() != n || self.due_times.len() != n {
            return false;
        }
        let lim: i64 = (0x7fff_ffffu64 / (2 * (n as u64) + 16)) as i64;
        assert(lim == self.lim());
        let st = self.service_time as i64;
        let cap = self.max_capacity as i64;
        if st < -lim || st > lim || cap < -lim || cap > lim {
            return false;
        }
        let mut a: usize = 0;
        while a < n
            invariant
                n == self.num_nodes,
                1 <= n <= 0xffff_ffff,
                lim == self.lim(),
                self.distance_matrix.len() == n,
                self.demands.len() == n,
                self.ready_times.len() == n,
                self.due_times.len() == n,
                a <= n,
                forall|y: int| 0 <= y < a ==> (#[trigger] self.distance_matrix@[y]).len() == n,
                forall|y: int| 0 <= y < a ==> within(#[trigger] self.demand(y), lim as int),
                forall|y: int| 0 <= y < a ==> within(#[trigger] self.ready(y), lim as int),
                forall|y: int| 0 <= y < a ==> within(#[trigger] self.due(y), lim as int),
            decreases n - a,
        {
            if self.distance_matrix[a].len() != n {
                proof {
                    if self.wf() {
                        assert((self.distance_matrix@[a as int]).len() == n);
                    }
                }
                return false;
            }
            let d = self.demands[a] as i64;
            let r = self.ready_times[a] as i64;
            let u = self.due_times[a] as i64;
            if d < -lim || d > lim || r < -lim || r > lim || u < -lim || u > lim {
                assert(!within(self.demand(a as int), lim as int) || !within(self.ready(a as int), lim as int)
                    || !within(self.due(a as int), lim as int));
                return false;
            }
            a = a + 1;
        }
        let mut a: usize = 0;
        while a < n
            invariant
                n == self.num_nodes,
                lim == self.lim(),
                self.distance_matrix.len() == n,
                forall|y: int| 0 <= y < n ==> (#[trigger] self.distance_matrix@[y]).len() == n,
                a <= n,
                forall|x: int, y: int| 0 <= x < a && 0 <= y < n ==> #[trigger] self.dist(x, y) == self.dist(y, x),
                forall|x: int, y: int| 0 <= x < a && 0 <= y < n ==> within(#[trigger] self.dist(x, y), lim as int),
            decreases n - a,
        {
            let mut b: usize = 0;
            while b < n
                invariant
                    n == self.num_nodes,
                    lim == self.lim(),
                    self.distance_matrix.len() == n,
                    forall|y: int| 0 <= y < n ==> (#[trigger] self.distance_matrix@[y]).len() == n,
                    a < n,
                    b <= n,
                    forall|x: int, y: int| 0 <= x < a && 0 <= y < n ==> #[trigger] self.dist(x, y) == self.dist(y, x),
                    forall|x: int, y: int| 0 <= x < a && 0 <= y < n ==> within(#[trigger] self.dist(x, y), lim as int),
                    forall|y: int| 0 <= y < b ==> #[trigger] self.dist(a as int, y) == self.dist(y, a as int),
                    forall|y: int| 0 <= y < b ==> within(#[trigger] self.dist(a as int, y), lim as int),
                decreases n - b,
            {
                let v = self.distance_matrix[a][b];
                if v != self.distance_matrix[b][a] || (v as i64) < -lim || (v as i64) > lim {
                    assert(self.dist(a as int, b as int) != self.dist(b as int, a as int) || !within(
                        self.dist(a as int, b as int),
                        lim as int,
                    ));
                    return false;
                }
                b = b + 1;
            }
            a = a + 1;
        }
        proof {
            assert forall|x: int, y: int| 0 <= x < n && 0 <= y < n implies within(#[trigger] self.dist(x, y), lim as int) by {}
        }
        true
    }
}

pub open spec fn max_int(a: int, b: int) -> int {
    if a >= b { a } else { b }
}

/// Nodes of `route` are nodes of the instance.
pub open spec fn nodes_ok(inst: VrpInstance, route: Seq<usize>) -> bool {
    forall|k: int| 0 <= k < route.len() ==> #[trigger] route[k] < inst.num_nodes
}

/// The time at which service at `route[k]` ends when the route is driven
/// from its start at time 0, waiting for each node's ready time (due times
/// are not checked).
pub open spec fn depart(inst: VrpInstance, route: Seq<usize>, k: int) -> int
    decreases k,
{
    if k <= 0 {
        0
    } else {
        max_int(
            inst.ready(route[k] as int),
            depart(inst, route, k - 1) + inst.dist(route[k - 1] as int, route[k] as int),
        ) + inst.service_time
    }
}

/// Driving on from `node`, left at time `t`, through `route[pos..]`, every
/// node is reached by its due time (the check is made on arrival, before
/// any wait).
pub open spec fn suffix_ok(inst: VrpInstance, route: Seq<usize>, node: int, t: int, pos: int) -> bool
    decreases route.len() - pos,
{
    if pos >= route.len() || pos < 0 {
        true
    } else {
        let next = route[pos] as int;
        let arrival = t + inst.dist(node, next);
        if arrival > inst.due(next) {
            false
        } else {
            suffix_ok(inst, route, next, max_int(arrival, inst.ready(next)) + inst.service_time, pos + 1)
        }
    }
}

/// Driving on from `node`, left at time `t`, through `route[k..]`, the
/// service at every node starts by its due time (the check is made after
/// waiting for the ready time).
pub open spec fn route_ok_from(inst: VrpInstance, route: Seq<usize>, node: int, t: int, k: int) -> bool
    decreases route.len() - k,
{
    if k >= route.len() || k < 0 {
        true
    } else {
        let next = route[k] as int;
        let start = max_int(t + inst.dist(node, next), inst.ready(next));
        if start > inst.due(next) {
            false
        } else {
            route_ok_from(inst, route, next, start + inst.service_time, k + 1)
        }
    }
}

/// Driving `route` from its first node at time 0, every later node is
/// served by its due time.
pub open spec fn route_ok(inst: VrpInstance, route: Seq<usize>) -> bool {
    route_ok_from(inst, route, route[0] as int, 0, 1)
}

/// `2 k L`: a bound on times after `k` legs.
pub open spec fn time_bound(inst: VrpInstance, k: int) -> int {
    2 * k * inst.lim()
}

pub proof fn lemma_time_bound(inst: VrpInstance, k: int)
    requires
        inst.wf(),
        0 <= k <= inst.num_nodes + 2,
    ensures
        time_bound(inst, k + 1) == time_bound(inst, k) + 2 * inst.lim(),
        0 <= time_bound(inst, k),
        time_bound(inst, k) + 8 * inst.lim() <= 0x7fff_ffff,
        0 <= inst.lim(),
        (2 * inst.num_nodes + 16) * inst.lim() <= 0x7fff_ffff,
{
    let n = inst.num_nodes as int;
    let l = inst.lim();
    assert(2 * (k + 1) * l == 2 * k * l + 2 * l) by (nonlinear_arith);
    vstd::arithmetic::div_mod::lemma_fundamental_div_mod(0x7fff_ffff, 2 * n + 16);
    assert(0 <= 0x7fff_ffffint % (2 * n + 16));
    assert(0 <= l) by (nonlinear_arith)
        requires l == 0x7fff_ffffint / (2 * n + 16), 2 * n + 16 > 0;
    assert((2 * n + 16) * l <= 0x7fff_ffff);
    assert(2 * k * l + 8 * l <= (2 * n + 16) * l) by (nonlinear_arith)
        requires 0 <= k <= n + 2, 0 <= l, 0 <= n;
    assert(0 <= 2 * k * l) by (nonlinear_arith)
        requires 0 <= k, 0 <= l;
}

/// Whether `route[start_pos..]` can be driven on time from `curr_node`,
/// left at `curr_time`.
pub fn is_feasible(
    route: &Vec<usize>,
    inst: &VrpInstance,
    start_node: usize,
    start_time: i32,
    start_pos: usize,
) -> (valid: bool)
    requires
        inst.wf(),
        nodes_ok(*inst, route@),
        route.len() <= inst.num_nodes + 1,
        start_node < inst.num_nodes,
        start_pos <= route.len(),
        -2 * inst.lim() <= start_time <= time_bound(*inst, start_pos as int),
    ensures
        valid == suffix_ok(*inst, route@, start_node as int, start_time as int, start_pos as int),
{
    let mut curr_node = start_node;
    let mut curr_time = start_time;
    let mut pos = start_pos;
    let len = route.len();
    while pos < len
        invariant
            inst.wf(),
            nodes_ok(*inst, route@),
            len == route.len(),
            len <= inst.num_nodes + 1,
            curr_node < inst.num_nodes,
            start_pos <= pos <= len,
            -2 * inst.lim() <= curr_time <= time_bound(*inst, pos as int),
            suffix_ok(*inst, route@, curr_node as int, curr_time as int, pos as int) == suffix_ok(
                *inst,
                route@,
                start_node as int,
                start_time as int,
                start_pos as int,
            ),
        decreases len - pos,
    {
        proof {
            lemma_time_bound(*inst, pos as int);
        }
        let next = route[pos];
        curr_time = curr_time + inst.distance_matrix[curr_node][next];
        if curr_time > inst.due_times[route[pos]] {
            return false;
        }
        let r = inst.ready_times[next];
        curr_time = (if curr_time > r { curr_time } else { r }) + inst.service_time;
        curr_node = next;
        pos = pos + 1;
    }
    true
}

/// Whether `route`, driven from its first node at time 0, serves every
/// later node by its due time.
pub fn route_feasible(route: &Vec<usize>, inst: &VrpInstance) -> (ok: bool)
    requires
        inst.wf(),
        nodes_ok(*inst, route@),
        1 <= route.len() <= inst.num_nodes + 1,
    ensures
        ok == route_ok(*inst, route@),
{
    let mut t: i32 = 0;
    let mut prev: usize = route[0];
    let len = route.len();
    let mut k: usize = 1;
    proof {
        lemma_time_bound(*inst, 0);
    }
    while k < len
        invariant
            inst.wf(),
            nodes_ok(*inst, route@),
            len == route.len(),
            len <= inst.num_nodes + 1,
            prev < inst.num_nodes,
            1 <= k <= len,
            -2 * inst.lim() <= t <= time_bound(*inst, k - 1),
            route_ok(*inst, route@) == route_ok_from(*inst, route@, prev as int, t as int, k as int),
        decreases len - k,
    {
        proof {
            lemma_time_bound(*inst, k - 1);
        }
        let n = route[k];
        let a = t + inst.distance_matrix[prev][n];
        let r = inst.ready_times[n];
        t = if a > r { a } else { r };
        if t > inst.due_times[n] {
            return false;
        }
        t = t + inst.service_time;
        prev = n;
        k = k + 1;
    }
    true
}

/// The time service at `u` would start if `u` were inserted before
/// `route[pos]`: on arrival from `route[pos - 1]`, or at `u`'s ready time.
pub open spec fn insert_start(inst: VrpInstance, route: Seq<usize>, u: int, pos: int) -> int {
    max_int(inst.ready(u), depart(inst, route, pos - 1) + inst.dist(route[pos - 1] as int, u))
}

/// Service at `u` could start by its due time at every insertion position
/// `1..=pos`.
pub open spec fn reachable_upto(inst: VrpInstance, route: Seq<usize>, u: int, pos: int) -> bool {
    forall|p: int| 1 <= p <= pos ==> #[trigger] insert_start(inst, route, u, p) <= inst.due(u)
}

/// Inserting `u` before `route[pos]` is considered and feasible: `u` is
/// reachable on time at every position up to `pos`, and the rest of the
/// route stays on time after it.
pub open spec fn insertion_ok(inst: VrpInstance, route: Seq<usize>, u: int, pos: int) -> bool {
    &&& 1 <= pos < route.len()
    &&& reachable_upto(inst, route, u, pos)
    &&& suffix_ok(inst, route, u, insert_start(inst, route, u, pos) + inst.service_time, pos)
}

/// The score of inserting `u` before `route[pos]`: its distance from the
/// depot minus the detour `d(i, u) + d(u, j) - d(i, j)` between the
/// neighbours `i = route[pos - 1]` and `j = route[pos]`.
pub open spec fn insertion_score(inst: VrpInstance, route: Seq<usize>, u: int, pos: int) -> int {
    let i = route[pos - 1] as int;
    let j = route[pos] as int;
    inst.dist(0, u) - (inst.dist(i, u) + inst.dist(u, j) - inst.dist(i, j))
}

/// Candidate `i` at position `pos` is the best insertion: it is feasible,
/// no feasible insertion scores higher, and every feasible insertion
/// before it (by candidate, then by position) scores lower.
pub open spec fn best_insertion_at(inst: VrpInstance, route: Seq<usize>, cand: Seq<usize>, i: int, pos: int) -> bool {
    &&& 0 <= i < cand.len()
    &&& insertion_ok(inst, route, cand[i] as int, pos)
    &&& forall|i2: int, p2: int|
        0 <= i2 < cand.len() && #[trigger] insertion_ok(inst, route, cand[i2] as int, p2) ==> insertion_score(
            inst,
            route,
            cand[i2] as int,
            p2,
        ) <= insertion_score(inst, route, cand[i] as int, pos) && ((i2 < i || (i2 == i && p2 < pos))
            ==> insertion_score(inst, route, cand[i2] as int, p2) < insertion_score(inst, route, cand[i] as int, pos))
}

/// Every node's ready time is at most its due time.
pub open spec fn windows_ok(inst: VrpInstance) -> bool {
    forall|j: int| 0 <= j < inst.num_nodes ==> #[trigger] inst.ready(j) <= inst.due(j)
}

/// Driving `route` from its start, service at `route[j]` starts by its due
/// time.
pub open spec fn on_time_at(inst: VrpInstance, route: Seq<usize>, j: int) -> bool {
    max_int(depart(inst, route, j - 1) + inst.dist(route[j - 1] as int, route[j] as int), inst.ready(route[j] as int))
        <= inst.due(route[j] as int)
}

/// A route on time is on time at each node, and on time from each node on.
proof fn lemma_route_ok_prefix(inst: VrpInstance, r: Seq<usize>, k: int)
    requires
        route_ok(inst, r),
        1 <= k <= r.len(),
    ensures
        route_ok_from(inst, r, r[k - 1] as int, depart(inst, r, k - 1), k),
        forall|j: int| 1 <= j < k ==> #[trigger] on_time_at(inst, r, j),
    decreases k,
{
    if k > 1 {
        lemma_route_ok_prefix(inst, r, k - 1);
        assert(depart(inst, r, k - 1) == max_int(
            inst.ready(r[k - 1] as int),
            depart(inst, r, k - 2) + inst.dist(r[k - 2] as int, r[k - 1] as int),
        ) + inst.service_time);
    }
}

/// An insertion at `p` leaves the departures before `p` as they are.
proof fn lemma_depart_insert(inst: VrpInstance, r: Seq<usize>, p: int, u: usize, j: int)
    requires
        1 <= p <= r.len(),
        0 <= j < p,
    ensures
        depart(inst, r.insert(p, u), j) == depart(inst, r, j),
    decreases j,
{
    if j > 0 {
        lemma_depart_insert(inst, r, p, u, j - 1);
    }
}

/// Past an insertion at `p`, the route is driven as before, one position
/// later.
proof fn lemma_route_ok_from_insert(inst: VrpInstance, r: Seq<usize>, p: int, u: usize, node: int, t: int, k: int)
    requires
        0 <= p <= k <= r.len(),
    ensures
        route_ok_from(inst, r.insert(p, u), node, t, k + 1) == route_ok_from(inst, r, node, t, k),
    decreases r.len() - k,
{
    if k < r.len() {
        let next = r[k] as int;
        let start = max_int(t + inst.dist(node, next), inst.ready(next));
        assert(r.insert(p, u)[k + 1] == r[k]);
        lemma_route_ok_from_insert(inst, r, p, u, next, start + inst.service_time, k + 1);
    }
}

/// With ready times before due times, reaching each node by its due time
/// is being served by it.
proof fn lemma_suffix_ok_on_time(inst: VrpInstance, r: Seq<usize>, node: int, t: int, pos: int)
    requires
        windows_ok(inst),
        nodes_ok(inst, r),
        suffix_ok(inst, r, node, t, pos),
        0 <= pos,
    ensures
        route_ok_from(inst, r, node, t, pos),
    decreases r.len() - pos,
{
    if pos < r.len() {
        let next = r[pos] as int;
        let arrival = t + inst.dist(node, next);
        assert(r[pos] < inst.num_nodes);
        assert(inst.ready(next) <= inst.due(next));
        lemma_suffix_ok_on_time(inst, r, next, max_int(arrival, inst.ready(next)) + inst.service_time, pos + 1);
    }
}

proof fn lemma_insert_front(inst: VrpInstance, r: Seq<usize>, u: usize, p: int, k: int)
    requires
        windows_ok(inst),
        nodes_ok(inst, r),
        route_ok(inst, r),
        insertion_ok(inst, r, u as int, p),
        1 <= k <= p,
    ensures
        route_ok_from(inst, r.insert(p, u), r.insert(p, u)[k - 1] as int, depart(inst, r.insert(p, u), k - 1), k),
    decreases p - k,
{
    let r2 = r.insert(p, u);
    lemma_depart_insert(inst, r, p, u, k - 1);
    if k == p {
        let start = insert_start(inst, r, u as int, p);
        assert(insert_start(inst, r, u as int, p) <= inst.due(u as int));
        lemma_suffix_ok_on_time(inst, r, u as int, start + inst.service_time, p);
        lemma_route_ok_from_insert(inst, r, p, u, u as int, start + inst.service_time, p);
        assert(r2[p] == u);
        assert(r2[p - 1] == r[p - 1]);
    } else {
        lemma_insert_front(inst, r, u, p, k + 1);
        lemma_route_ok_prefix(inst, r, r.len() as int);
        lemma_depart_insert(inst, r, p, u, k);
        assert(on_time_at(inst, r, k));
        assert(r2[k] == r[k] && r2[k - 1] == r[k - 1]);
        assert(depart(inst, r, k) == max_int(
            inst.ready(r[k] as int),
            depart(inst, r, k - 1) + inst.dist(r[k - 1] as int, r[k] as int),
        ) + inst.service_time);
    }
}

/// With every ready time before its due time, an insertion that
/// `insertion_ok` allows keeps a route on time.
pub proof fn lemma_insertion_keeps_on_time(inst: VrpInstance, r: Seq<usize>, u: usize, p: int)
    requires
        windows_ok(inst),
        nodes_ok(inst, r),
        route_ok(inst, r),
        insertion_ok(inst, r, u as int, p),
    ensures
        route_ok(inst, r.insert(p, u)),
{
    lemma_insert_front(inst, r, u, p, 1);
    assert(r.insert(p, u)[0] == r[0]);
}

/// The best insertion of one of the `remaining_nodes` into `route`: the
/// feasible insertion of highest score, the first one in the order of
/// the candidates and then of positions among those of equal score; none
/// when no insertion is feasible.
#[verifier::rlimit(60)]
#[verifier::spinoff_prover]
pub fn find_best_insertion(route: &Vec<usize>, remaining_nodes: Vec<usize>, inst: &VrpInstance) -> (best: Option<
    (usize, usize),
>)
    requires
        inst.wf(),
        nodes_ok(*inst, route@),
        nodes_ok(*inst, remaining_nodes@),
        1 <= route.len() <= inst.num_nodes + 1,
        route@[0] == 0,
    ensures
        best is None <==> forall|i: int, p: int|
            0 <= i < remaining_nodes@.len() ==> !#[trigger] insertion_ok(*inst, route@, remaining_nodes@[i] as int, p),
        best matches Some((u, pos)) ==> exists|i: int|
            0 <= i < remaining_nodes@.len() && remaining_nodes@[i] == u && #[trigger] best_insertion_at(
                *inst,
                route@,
                remaining_nodes@,
                i,
                pos as int,
            ),
{
    let alpha1: i32 = 1;
    let alpha2: i32 = 0;
    let lambda: i32 = 1;
    let ghost r = route@;
    let ghost cand = remaining_nodes@;
    let ghost lim = inst.lim();
    let mut best_c2: Option<i32> = Option::None;
    let mut best: Option<(usize, usize)> = Option::None;
    let ghost mut best_i: int = 0;
    let len = route.len();
    let ncand = remaining_nodes.len();
    let mut i: usize = 0;
    while i < ncand
        invariant
            inst.wf(),
            alpha1 == 1 && alpha2 == 0 && lambda == 1,
            lim == inst.lim(),
            r == route@,
            cand == remaining_nodes@,
            nodes_ok(*inst, r),
            nodes_ok(*inst, cand),
            len == r.len(),
            1 <= len <= inst.num_nodes + 1,
            r[0] == 0,
            ncand == cand.len(),
            i <= ncand,
            best_c2 is None <==> best is None,
            best is None ==> forall|i2: int, p2: int|
                0 <= i2 < i ==> !#[trigger] insertion_ok(*inst, r, cand[i2] as int, p2),
            best matches Some((u, p)) ==> {
                &&& 0 <= best_i < i
                &&& cand[best_i] == u
                &&& insertion_ok(*inst, r, u as int, p as int)
                &&& best_c2 == Some(insertion_score(*inst, r, u as int, p as int) as i32)
                &&& forall|i2: int, p2: int|
                    0 <= i2 < i && #[trigger] insertion_ok(*inst, r, cand[i2] as int, p2) ==> insertion_score(
                        *inst,
                        r,
                        cand[i2] as int,
                        p2,
                    ) <= insertion_score(*inst, r, u as int, p as int) && ((i2 < best_i || (i2 == best_i && p2 < p))
                        ==> insertion_score(*inst, r, cand[i2] as int, p2) < insertion_score(*inst, r, u as int, p as int))
            },
        decreases ncand - i,
    {
        let insert_node = remaining_nodes[i];
        let ghost u = insert_node as int;
        let mut best_c1: Option<i32> = Option::None;
        let mut curr_time: i32 = 0;
        let mut curr_node: usize = 0;
        let ghost mut stale: bool = false;
        let mut pos: usize = 1;
        proof {
            lemma_time_bound(*inst, 0);
        }
        while pos < len
            invariant
                inst.wf(),
                alpha1 == 1 && alpha2 == 0 && lambda == 1,
                lim == inst.lim(),
                r == route@,
                cand == remaining_nodes@,
                nodes_ok(*inst, r),
                nodes_ok(*inst, cand),
                len == r.len(),
                1 <= len <= inst.num_nodes + 1,
                r[0] == 0,
                ncand == cand.len(),
                i < ncand,
                insert_node == cand[i as int],
                u == insert_node,
                1 <= pos <= len,
                curr_node < inst.num_nodes,
                -2 * lim <= curr_time <= time_bound(*inst, pos - 1),
                !stale ==> curr_node == r[pos - 1] && curr_time == depart(*inst, r, pos - 1) && reachable_upto(
                    *inst,
                    r,
                    u,
                    pos - 1,
                ),
                stale ==> !reachable_upto(*inst, r, u, pos - 1) && max_int(
                    inst.ready(u),
                    curr_time + inst.dist(curr_node as int, u),
                ) > inst.due(u),
                best_c1 matches Some(c) ==> best_c2 matches Some(b) && inst.dist(0, u) + c <= b,
                best_c2 is None <==> best is None,
                best is None ==> forall|i2: int, p2: int|
                    (0 <= i2 < i || (i2 == i && p2 < pos)) ==> !#[trigger] insertion_ok(*inst, r, cand[i2] as int, p2),
                best matches Some((bu, bp)) ==> {
                    &&& 0 <= best_i <= i
                    &&& cand[best_i] == bu
                    &&& insertion_ok(*inst, r, bu as int, bp as int)
                    &&& best_c2 == Some(insertion_score(*inst, r, bu as int, bp as int) as i32)
                    &&& (best_i == i ==> bp < pos)
                    &&& forall|i2: int, p2: int|
                        (0 <= i2 < i || (i2 == i && p2 < pos)) && #[trigger] insertion_ok(*inst, r, cand[i2] as int, p2)
                            ==> insertion_score(*inst, r, cand[i2] as int, p2) <= insertion_score(
                            *inst,
                            r,
                            bu as int,
                            bp as int,
                        ) && ((i2 < best_i || (i2 == best_i && p2 < bp)) ==> insertion_score(
                            *inst,
                            r,
                            cand[i2] as int,
                            p2,
                        ) < insertion_score(*inst, r, bu as int, bp as int))
                },
            decreases len - pos,
        {
            let next_node = route[pos];
            proof {
                lemma_time_bound(*inst, pos - 1);
                lemma_time_bound(*inst, pos as int);
                assert(r[pos as int] < inst.num_nodes);
                assert(within(inst.dist(curr_node as int, u), lim));
                assert(within(inst.dist(curr_node as int, next_node as int), lim));
                assert(within(inst.dist(u, next_node as int), lim));
                assert(within(inst.dist(0, u), lim));
                assert(within(inst.ready(u), lim));
                assert(within(inst.ready(next_node as int), lim));
                assert(within(inst.due(u), lim));
            }
            let a_new = curr_time + inst.distance_matrix[curr_node][insert_node];
            let r_new = inst.ready_times[insert_node];
            let new_arrival_time = if r_new > a_new { r_new } else { a_new };
            if new_arrival_time > inst.due_times[insert_node] {
                proof {
                    if !stale {
                        assert(insert_start(*inst, r, u, pos as int) > inst.due(u));
                    }
                    stale = true;
                    assert forall|p2: int| !insertion_ok(*inst, r, u, p2) || p2 < pos as int by {}
                }
                pos = pos + 1;
                continue;
            }
            proof {
                assert(!stale);
                assert(new_arrival_time == insert_start(*inst, r, u, pos as int));
                assert(reachable_upto(*inst, r, u, pos as int));
            }
            let a_old = curr_time + inst.distance_matrix[curr_node][next_node];
            let r_old = inst.ready_times[next_node];
            let old_arrival_time = if r_old > a_old { r_old } else { a_old };
            let c11 = inst.distance_matrix[curr_node][insert_node] + inst.distance_matrix[insert_node][next_node]
                - inst.distance_matrix[curr_node][next_node];
            let c12 = new_arrival_time - old_arrival_time;
            let c1 = -(alpha1 * c11 + alpha2 * c12);
            let c2 = lambda * inst.distance_matrix[0][insert_node] + c1;
            proof {
                assert(c2 == insertion_score(*inst, r, u, pos as int));
            }
            if (match best_c1 {
                Option::None => true,
                Option::Some(x) => c1 > x,
            }) && (match best_c2 {
                Option::None => true,
                Option::Some(x) => c2 > x,
            }) && is_feasible(
                route,
                inst,
                insert_node,
                new_arrival_time + inst.service_time,
                pos,
            ) {
                best_c1 = Option::Some(c1);
                best_c2 = Option::Some(c2);
                best = Option::Some((insert_node, pos));
                proof {
                    best_i = i as int;
                }
            }
            curr_time = old_arrival_time + inst.service_time;
            curr_node = next_node;
            pos = pos + 1;
        }
        i = i + 1;
    }
    proof {
        if let Option::Some((u, p)) = best {
            assert(best_insertion_at(*inst, r, cand, best_i, p as int));
        }
    }
    best
}

} // verus!
