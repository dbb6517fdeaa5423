//! Verified heuristics for two combinatorial challenges: the quadratic
//! knapsack problem (greedy construction plus tabu search with random
//! perturbation) and vehicle routing with time windows (insertion
//! construction plus 2-opt improvement).

pub mod sums;
pub mod knapsack;
pub mod random;
pub mod knapsack_search;
pub mod vehicle_routing;
pub mod vrp_construct;
pub mod vrp_improve;
pub mod knapsack_laws;
