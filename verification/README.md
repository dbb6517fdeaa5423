# tig_swarm

Verified solvers for two challenges of The Innovation Game, written in
Verus.

* **Quadratic knapsack** — choose items maximising their values plus the
  interaction values of the pairs they form, within a weight budget. The
  solver takes items greedily by value density, then alternates rounds of
  tabu search (swap, add and drop moves estimated from per-item interaction
  sums) with random perturbations of the best selection.
* **Vehicle routing with time windows** — visit every customer once from
  a depot within capacity and time windows, minimising distance. The solver
  builds routes by best feasible insertion, then improves each route by
  2-opt until no move shortens it.

## Layout

* `src/` — the verified library.
  * `sums.rs` — finite sums over masks and sequences of indices.
  * `knapsack.rs` — instance, objective, greedy construction along a
    given order of the items.
  * `knapsack_search.rs` — the tabu search state, its moves, rounds and
    perturbation.
  * `knapsack_laws.rs` — the objective under symmetric interactions and
    the exactness of the move estimates.
  * `random.rs` — the random generator of the `rand` crate.
  * `vehicle_routing.rs` — instance, route timing, feasibility, best
    insertion.
  * `vrp_construct.rs` — route construction.
  * `vrp_improve.rs` — 2-opt improvement of routes.
* `tests/` — tests of the library.
* `app/` — the command-line evaluator and the solver entry points that
  take the challenge types and drive the verified steps: they save each
  solution the library marks for saving, order the knapsack items by
  their `f64` density quotients, and run the knapsack rounds against a
  wall-clock deadline.
