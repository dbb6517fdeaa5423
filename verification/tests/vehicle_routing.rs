use std::cell::RefCell;
use tig_swarm::vehicle_routing::{find_best_insertion, is_feasible, route_feasible, VrpInstance};
use tig_swarm::vrp_construct::{build_routes, depot_order, insertion_candidates};
use tig_swarm::vrp_improve::{best_two_opt_move, reverse_range, two_opt_pass, two_opt_route};

/// Solves as the solver does: saves the built routes, then the routes
/// after every pass that shortened them.
fn solve_challenge(inst: &VrpInstance, save: &dyn Fn(&Vec<Vec<usize>>) -> Result<(), String>) -> Result<(), String> {
    let mut routes = build_routes(inst);
    save(&routes)?;
    while two_opt_pass(inst, &mut routes) {
        save(&routes)?;
    }
    Ok(())
}

/// Customers on a line at positions 1..n, the depot at 0.
fn line(n: usize, capacity: i32) -> VrpInstance {
    let dm: Vec<Vec<i32>> = (0..n).map(|a| (0..n).map(|b| (a as i32 - b as i32).abs()).collect()).collect();
    VrpInstance {
        num_nodes: n,
        distance_matrix: dm,
        max_capacity: capacity,
        demands: (0..n).map(|a| if a == 0 { 0 } else { 1 }).collect(),
        ready_times: vec![0; n],
        due_times: vec![100; n],
        service_time: 0,
    }
}

fn length(inst: &VrpInstance, route: &[usize]) -> i64 {
    route.windows(2).map(|w| inst.distance_matrix[w[0]][w[1]] as i64).sum()
}

#[test]
fn depot_order_is_by_increasing_distance() {
    let mut inst = line(5, 10);
    assert_eq!(depot_order(&inst), vec![1, 2, 3, 4]);
    // equal distances keep index order
    inst.distance_matrix[0][3] = 1;
    inst.distance_matrix[3][0] = 1;
    assert_eq!(depot_order(&inst), vec![1, 3, 2, 4]);
}

#[test]
fn candidates_are_remaining_customers_that_fit() {
    let inst = line(5, 3);
    let remaining = vec![false, true, false, true, true];
    assert_eq!(insertion_candidates(&inst, &remaining, 2), vec![1, 3, 4]);
    assert_eq!(insertion_candidates(&inst, &remaining, 3), Vec::<usize>::new());
}

#[test]
fn feasibility_checks_due_times_on_arrival() {
    let mut inst = line(5, 10);
    let route = vec![0, 2, 4, 0];
    assert!(is_feasible(&route, &inst, 0, 0, 1));
    inst.due_times[4] = 3;
    // arrival at 4 is at time 4
    assert!(!is_feasible(&route, &inst, 0, 0, 1));
    assert!(is_feasible(&route, &inst, 4, 0, 3));
    assert!(!route_feasible(&route, &inst));
    inst.due_times[4] = 4;
    assert!(route_feasible(&route, &inst));
}

#[test]
fn route_feasibility_waits_for_ready_times() {
    let mut inst = line(5, 10);
    inst.ready_times[2] = 10;
    inst.due_times[3] = 10;
    // service at 2 starts at 10, arrival at 3 at 11
    assert!(!route_feasible(&vec![0, 2, 3, 0], &inst));
    assert!(route_feasible(&vec![0, 3, 2, 0], &inst));
    // the suffix check compares the arrival before waiting
    inst.ready_times[3] = 50;
    assert!(is_feasible(&vec![0, 3, 0], &inst, 0, 0, 1));
}

#[test]
fn best_insertion_maximises_score_first_on_ties() {
    let inst = line(5, 10);
    assert_eq!(find_best_insertion(&vec![0, 4, 0], vec![1, 2, 3], &inst), Some((3, 1)));
    assert_eq!(find_best_insertion(&vec![0, 3, 4, 0], vec![1, 2], &inst), Some((2, 1)));
    assert_eq!(find_best_insertion(&vec![0, 4, 0], vec![], &inst), None);
}

#[test]
fn no_insertion_when_every_one_is_late() {
    let mut inst = line(5, 10);
    inst.due_times[1] = 0;
    assert_eq!(find_best_insertion(&vec![0, 4, 0], vec![1], &inst), None);
}

#[test]
fn routes_cover_the_line_in_order() {
    let inst = line(5, 10);
    assert_eq!(build_routes(&inst), vec![vec![0, 1, 2, 3, 4, 0]]);
}

#[test]
fn routes_respect_capacity() {
    let inst = line(5, 2);
    assert_eq!(build_routes(&inst), vec![vec![0, 3, 4, 0], vec![0, 1, 2, 0]]);
}

#[test]
fn a_route_over_capacity_keeps_its_single_customer() {
    let mut inst = line(4, 2);
    inst.demands[3] = 5;
    let routes = build_routes(&inst);
    assert_eq!(routes, vec![vec![0, 3, 0], vec![0, 1, 2, 0]]);
}

#[test]
fn reverse_range_reverses_in_place() {
    let mut v = vec![0, 3, 1, 2, 4, 0];
    reverse_range(&mut v, 2, 4);
    assert_eq!(v, vec![0, 3, 4, 2, 1, 0]);
    let mut w = vec![0, 5, 0];
    reverse_range(&mut w, 1, 1);
    assert_eq!(w, vec![0, 5, 0]);
}

#[test]
fn best_two_opt_move_is_the_largest_gain() {
    let inst = line(5, 10);
    assert_eq!(best_two_opt_move(&inst, &vec![0, 3, 1, 2, 4, 0]), Some((1, 4)));
    assert_eq!(best_two_opt_move(&inst, &vec![0, 1, 2, 3, 4, 0]), None);
}

#[test]
fn two_opt_shortens_the_route() {
    let inst = line(5, 10);
    let mut route = vec![0, 3, 1, 2, 4, 0];
    assert_eq!(length(&inst, &route), 12);
    assert!(two_opt_route(&inst, &mut route));
    assert_eq!(route, vec![0, 3, 4, 2, 1, 0]);
    assert_eq!(length(&inst, &route), 8);
    assert!(!two_opt_route(&inst, &mut route));
}

#[test]
fn two_opt_skips_infeasible_reversals() {
    let mut inst = line(5, 10);
    // with a service time of 1, only the given order meets the due times
    // of customers 3 and 1
    inst.service_time = 1;
    inst.due_times[3] = 3;
    inst.due_times[1] = 6;
    assert!(route_feasible(&vec![0, 3, 1, 2, 4, 0], &inst));
    let mut route = vec![0, 3, 1, 2, 4, 0];
    let before = route.clone();
    assert!(!two_opt_route(&inst, &mut route));
    assert_eq!(route, before);
}

#[test]
fn pass_leaves_short_routes_alone() {
    let inst = line(5, 10);
    let mut routes = vec![vec![0, 3, 1, 2, 4, 0], vec![0, 2, 1, 0]];
    assert!(two_opt_pass(&inst, &mut routes));
    assert_eq!(routes, vec![vec![0, 3, 4, 2, 1, 0], vec![0, 2, 1, 0]]);
}

#[test]
fn solver_saves_the_built_routes() {
    let inst = line(5, 10);
    let saved: RefCell<Vec<Vec<Vec<usize>>>> = RefCell::new(Vec::new());
    let save = |routes: &Vec<Vec<usize>>| -> Result<(), String> {
        saved.borrow_mut().push(routes.clone());
        Ok(())
    };
    assert_eq!(solve_challenge(&inst, &save), Ok(()));
    assert_eq!(*saved.borrow(), vec![vec![vec![0, 1, 2, 3, 4, 0]]]);
}

#[test]
fn solver_returns_the_save_error() {
    let inst = line(5, 10);
    let save = |_: &Vec<Vec<usize>>| -> Result<(), String> { Err("disk full".to_string()) };
    assert_eq!(solve_challenge(&inst, &save), Err("disk full".to_string()));
}

#[test]
fn solver_saves_valid_solutions_on_a_grid() {
    // customers on a 4 x 4 grid, Manhattan distances, tight capacity
    let pts: Vec<(i32, i32)> = (0..17).map(|i| if i == 0 { (2, 2) } else { (((i - 1) % 4) as i32 * 3, ((i - 1) / 4) as i32 * 3) }).collect();
    let n = pts.len();
    let dm: Vec<Vec<i32>> = (0..n)
        .map(|a| (0..n).map(|b| (pts[a].0 - pts[b].0).abs() + (pts[a].1 - pts[b].1).abs()).collect())
        .collect();
    let inst = VrpInstance {
        num_nodes: n,
        distance_matrix: dm,
        max_capacity: 4,
        demands: (0..n).map(|a| if a == 0 { 0 } else { 1 }).collect(),
        ready_times: vec![0; n],
        due_times: vec![1000; n],
        service_time: 1,
    };
    assert!(inst.check());
    let saved: RefCell<Vec<Vec<Vec<usize>>>> = RefCell::new(Vec::new());
    let save = |routes: &Vec<Vec<usize>>| -> Result<(), String> {
        saved.borrow_mut().push(routes.clone());
        Ok(())
    };
    solve_challenge(&inst, &save).unwrap();
    let mut last = i64::MAX;
    for routes in saved.borrow().iter() {
        let mut seen = vec![0; n];
        for r in routes {
            assert!(r.len() >= 3 && r[0] == 0 && r[r.len() - 1] == 0);
            assert!(r.len() - 2 <= 4);
            for &c in &r[1..r.len() - 1] {
                seen[c] += 1;
            }
        }
        assert_eq!(seen[0], 0);
        assert!(seen[1..].iter().all(|&k| k == 1));
        let total: i64 = routes.iter().map(|r| length(&inst, r)).sum();
        assert!(total < last);
        last = total;
    }
}

#[test]
fn check_rejects_asymmetric_or_oversized_instances() {
    assert!(line(5, 10).check());
    let mut a = line(5, 10);
    a.distance_matrix[1][2] = 7;
    assert!(!a.check());
    let mut b = line(5, 10);
    b.due_times[2] = 100_000_000;
    assert!(!b.check());
    let mut c = line(5, 10);
    c.num_nodes = 0;
    c.distance_matrix.clear();
    c.demands.clear();
    c.ready_times.clear();
    c.due_times.clear();
    assert!(!c.check());
}

#[test]
fn reversal_changes_length_by_the_delta() {
    let pts: Vec<(i32, i32)> = vec![(0, 0), (5, 1), (2, 7), (9, 4), (3, 3), (8, 8), (1, 6)];
    let n = pts.len();
    let dm: Vec<Vec<i32>> = (0..n)
        .map(|a| (0..n).map(|b| (pts[a].0 - pts[b].0).abs() + (pts[a].1 - pts[b].1).abs()).collect())
        .collect();
    let inst = VrpInstance {
        num_nodes: n,
        distance_matrix: dm.clone(),
        max_capacity: 100,
        demands: vec![1; n],
        ready_times: vec![0; n],
        due_times: vec![1000; n],
        service_time: 0,
    };
    let route = vec![0, 1, 2, 3, 4, 5, 6, 0];
    for i in 0..route.len() - 3 {
        for j in i + 2..route.len() - 1 {
            let mut r = route.clone();
            reverse_range(&mut r, i + 1, j);
            let delta = (dm[route[i]][route[j]] + dm[route[i + 1]][route[j + 1]])
                - (dm[route[i]][route[i + 1]] + dm[route[j]][route[j + 1]]);
            assert_eq!(length(&inst, &r), length(&inst, &route) + delta as i64);
        }
    }
}

#[test]
fn saved_solutions_follow_the_passes() {
    // the same grid as above: each saved solution is the previous one
    // after one 2-opt pass, starting from the built routes
    let pts: Vec<(i32, i32)> = (0..17).map(|i| if i == 0 { (2, 2) } else { (((i - 1) % 4) as i32 * 3, ((i - 1) / 4) as i32 * 3) }).collect();
    let n = pts.len();
    let dm: Vec<Vec<i32>> = (0..n)
        .map(|a| (0..n).map(|b| (pts[a].0 - pts[b].0).abs() + (pts[a].1 - pts[b].1).abs()).collect())
        .collect();
    let inst = VrpInstance {
        num_nodes: n,
        distance_matrix: dm,
        max_capacity: 4,
        demands: (0..n).map(|a| if a == 0 { 0 } else { 1 }).collect(),
        ready_times: vec![0; n],
        due_times: vec![1000; n],
        service_time: 1,
    };
    let saved: RefCell<Vec<Vec<Vec<usize>>>> = RefCell::new(Vec::new());
    let save = |routes: &Vec<Vec<usize>>| -> Result<(), String> {
        saved.borrow_mut().push(routes.clone());
        Ok(())
    };
    solve_challenge(&inst, &save).unwrap();
    let saved = saved.into_inner();
    let built = build_routes(&inst);
    assert_eq!(build_routes(&inst), built);
    assert_eq!(saved[0], built);
    let mut routes = built;
    for later in &saved[1..] {
        assert!(two_opt_pass(&inst, &mut routes));
        assert_eq!(&routes, later);
    }
    assert!(!two_opt_pass(&inst, &mut routes));
}

fn three_nodes(capacity: i32, demands: Vec<i32>, due_times: Vec<i32>) -> VrpInstance {
    VrpInstance {
        num_nodes: 3,
        distance_matrix: vec![vec![0, 10, 20], vec![10, 0, 10], vec![20, 10, 0]],
        max_capacity: capacity,
        demands,
        ready_times: vec![0, 0, 0],
        due_times,
        service_time: 1,
    }
}

fn saves_of(inst: &VrpInstance) -> Vec<Vec<Vec<usize>>> {
    let saved: RefCell<Vec<Vec<Vec<usize>>>> = RefCell::new(Vec::new());
    let save = |routes: &Vec<Vec<usize>>| -> Result<(), String> {
        saved.borrow_mut().push(routes.clone());
        Ok(())
    };
    assert_eq!(solve_challenge(inst, &save), Ok(()));
    saved.into_inner()
}

#[test]
fn capacity_splits_the_far_customer_off() {
    // the farthest customer seeds the first route; 6 + 6 > 10 keeps
    // customer 1 out of it; no 2-opt move applies
    let inst = three_nodes(10, vec![0, 6, 6], vec![1000, 1000, 1000]);
    assert!(inst.check());
    assert_eq!(saves_of(&inst), vec![vec![vec![0, 2, 0], vec![0, 1, 0]]]);
}

#[test]
fn due_time_puts_the_near_customer_after_the_far_one() {
    // visiting 1 before 2 reaches 2 at 10 + 1 + 10 = 21 > 20
    let inst = three_nodes(100, vec![0, 1, 1], vec![1000, 1000, 20]);
    assert!(inst.check());
    assert_eq!(saves_of(&inst), vec![vec![vec![0, 2, 1, 0]]]);
}

#[test]
fn check_accepts_times_up_to_the_limit() {
    // for 5 nodes every magnitude may reach 2147483647 / 26 = 82595524
    let mut a = line(5, 10);
    a.due_times[2] = 82_595_524;
    assert!(a.check());
    a.due_times[2] = 82_595_525;
    assert!(!a.check());
}
