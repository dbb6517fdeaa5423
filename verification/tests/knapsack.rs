use std::cell::RefCell;
use tig_swarm::knapsack::{compute_obj, density_numerators, greedy_initial, KnapsackInstance};
use tig_swarm::knapsack_search::{kick_count, recompute_interaction_sums, unselected_items, Move, RoundAction, TabuSearch};

fn small() -> KnapsackInstance {
    let mut iv = vec![vec![0i32; 4]; 4];
    let mut set = |a: usize, b: usize, v: i32| {
        iv[a][b] = v;
        iv[b][a] = v;
    };
    set(0, 1, 5);
    set(0, 2, -3);
    set(1, 3, 4);
    set(2, 3, -2);
    KnapsackInstance {
        seed: [7u8; 32],
        num_items: 4,
        weights: vec![2, 3, 4, 5],
        values: vec![10, 20, 15, 30],
        interaction_values: iv,
        max_weight: 9,
    }
}

/// A pseudo-random symmetric instance with zero diagonal.
fn generated(n: usize, seed: u64) -> KnapsackInstance {
    let mut state = seed;
    let mut next = move || {
        state = state.wrapping_mul(6364136223846793005).wrapping_add(1442695040888963407);
        (state >> 33) as u32
    };
    let weights: Vec<u32> = (0..n).map(|_| 1 + next() % 50).collect();
    let values: Vec<u32> = (0..n).map(|_| next() % 100).collect();
    let mut iv = vec![vec![0i32; n]; n];
    for a in 0..n {
        for b in (a + 1)..n {
            let v = (next() % 41) as i32 - 20;
            iv[a][b] = v;
            iv[b][a] = v;
        }
    }
    let total: u32 = weights.iter().sum();
    let mut seed_bytes = [0u8; 32];
    for (i, b) in seed_bytes.iter_mut().enumerate() {
        *b = (next() % 256) as u8 ^ (i as u8);
    }
    KnapsackInstance { seed: seed_bytes, num_items: n, weights, values, interaction_values: iv, max_weight: total / 3 }
}

fn objective(inst: &KnapsackInstance, s: &[usize]) -> i64 {
    let mut v: i64 = s.iter().map(|&i| inst.values[i] as i64).sum();
    for a in 0..s.len() {
        for b in (a + 1)..s.len() {
            v += inst.interaction_values[s[a]][s[b]] as i64;
        }
    }
    v
}

fn feasible(inst: &KnapsackInstance, s: &[usize]) -> bool {
    let mut seen = vec![false; inst.num_items];
    let mut w: u64 = 0;
    for &i in s {
        if i >= inst.num_items || seen[i] {
            return false;
        }
        seen[i] = true;
        w += inst.weights[i] as u64;
    }
    w <= inst.max_weight as u64
}

/// The items by decreasing value density compared as `f64`, as the
/// solver orders them (a stable sort).
fn density_order(inst: &KnapsackInstance) -> Vec<usize> {
    let nums = density_numerators(inst);
    let mut items: Vec<(usize, f64)> =
        (0..inst.num_items).map(|i| (i, nums[i] as f64 / inst.weights[i] as f64)).collect();
    items.sort_by(|a, b| b.1.partial_cmp(&a.1).unwrap());
    items.into_iter().map(|(i, _)| i).collect()
}

/// A perturbation as the solver makes it: kick, order the unselected
/// items by `f64` ratio of interaction sum to weight, refill.
fn perturb(st: &mut TabuSearch, inst: &KnapsackInstance) {
    st.kick_items(inst);
    let mut cands: Vec<(usize, f64)> = st
        .unselected
        .iter()
        .enumerate()
        .map(|(p, &i)| (p, st.interaction_sum[i] as f64 / inst.weights[i] as f64))
        .collect();
    cands.sort_by(|a, b| b.1.partial_cmp(&a.1).unwrap());
    let order: Vec<usize> = cands.into_iter().map(|(p, _)| p).collect();
    st.refill_in_order(inst, &order);
}

#[test]
fn compute_obj_adds_values_and_pair_interactions() {
    let inst = small();
    assert_eq!(compute_obj(&inst, &vec![0, 1]), 35);
    assert_eq!(compute_obj(&inst, &vec![1, 3]), 54);
    assert_eq!(compute_obj(&inst, &vec![0, 1, 2]), 47);
    assert_eq!(compute_obj(&inst, &vec![]), 0);
}

#[test]
fn compute_obj_reads_pairs_in_selection_order() {
    let mut inst = small();
    inst.interaction_values[0][1] = 9;
    inst.interaction_values[1][0] = 1;
    assert_eq!(compute_obj(&inst, &vec![0, 1]), 39);
    assert_eq!(compute_obj(&inst, &vec![1, 0]), 31);
}

#[test]
fn density_numerators_are_value_plus_row_total() {
    let inst = small();
    assert_eq!(density_numerators(&inst), vec![12, 29, 10, 32]);
}

#[test]
fn density_order_is_by_decreasing_density() {
    let inst = small();
    assert_eq!(density_order(&inst), vec![1, 3, 0, 2]);
}

#[test]
fn greedy_takes_items_that_fit_in_density_order() {
    let inst = small();
    let order = density_order(&inst);
    let (sel, mask, w) = greedy_initial(&inst, &order);
    assert_eq!(sel, vec![1, 3]);
    assert_eq!(mask, vec![false, true, false, true]);
    assert_eq!(w, 8);
}

#[test]
fn new_search_starts_from_the_greedy_selection() {
    let inst = small();
    let st = TabuSearch::new(&inst, &density_order(&inst));
    assert_eq!(st.selected, vec![1, 3]);
    assert_eq!(st.unselected, vec![0, 2]);
    assert_eq!(st.total_weight, 8);
    assert_eq!(st.interaction_sum, vec![15, 24, 13, 34]);
    assert_eq!(st.best_obj, 54);
    assert_eq!(st.best_selected, vec![1, 3]);
}

#[test]
fn greedy_selection_is_maximal() {
    let inst = generated(40, 11);
    let st = TabuSearch::new(&inst, &density_order(&inst));
    for j in 0..inst.num_items {
        if !st.is_selected[j] {
            assert!(st.total_weight + inst.weights[j] > inst.max_weight);
        }
    }
}

#[test]
fn recompute_sums_over_the_selection() {
    let inst = small();
    let mut sums = vec![0i32; 4];
    recompute_interaction_sums(&inst, &vec![0, 2], &mut sums);
    assert_eq!(sums, vec![7, 25, 12, 28]);
}

#[test]
fn unselected_items_in_index_order() {
    assert_eq!(unselected_items(&vec![true, false, false, true, false]), vec![1, 2, 4]);
    assert_eq!(unselected_items(&vec![]), Vec::<usize>::new());
}

#[test]
fn kick_count_is_a_fifth_at_least_three_at_most_all() {
    assert_eq!(kick_count(0), 0);
    assert_eq!(kick_count(2), 2);
    assert_eq!(kick_count(3), 3);
    assert_eq!(kick_count(10), 3);
    assert_eq!(kick_count(20), 4);
    assert_eq!(kick_count(23), 4);
}

#[test]
fn no_move_at_a_local_optimum() {
    let inst = small();
    let st = TabuSearch::new(&inst, &density_order(&inst));
    let tabu = vec![0u32; 4];
    assert!(matches!(st.choose_move(&inst, &tabu), Move::NoMove));
}

#[test]
fn add_is_chosen_when_an_item_fits_with_positive_sum() {
    let mut inst = small();
    inst.max_weight = 11;
    let mut st = TabuSearch::new(&inst, &density_order(&inst));
    // greedy takes 1, 3 (weight 8) then item 0 (weight 2): weight 10
    assert_eq!(st.selected, vec![1, 3, 0]);
    st.apply_drop(&inst, 2);
    let tabu = vec![0u32; 4];
    match st.choose_move(&inst, &tabu) {
        Move::Add(ui) => assert_eq!(st.unselected[ui], 0),
        _ => panic!("expected an add"),
    }
}

#[test]
fn tabu_items_are_not_moved() {
    let mut inst = small();
    inst.max_weight = 11;
    let mut st = TabuSearch::new(&inst, &density_order(&inst));
    st.apply_drop(&inst, 2);
    let tabu = vec![5u32, 0, 0, 0];
    assert!(!matches!(st.choose_move(&inst, &tabu), Move::Add(_)));
}

#[test]
fn drop_is_chosen_for_a_harmful_item() {
    let mut iv = vec![vec![0i32; 3]; 3];
    iv[0][1] = -50;
    iv[1][0] = -50;
    let inst = KnapsackInstance {
        seed: [1u8; 32],
        num_items: 3,
        weights: vec![1, 1, 1],
        values: vec![10, 10, 10],
        interaction_values: iv,
        max_weight: 3,
    };
    let st = TabuSearch::new(&inst, &density_order(&inst));
    assert_eq!(st.best_obj, -20);
    let tabu = vec![0u32; 3];
    match st.choose_move(&inst, &tabu) {
        Move::Drop(si) => assert!(st.selected[si] == 0 || st.selected[si] == 1),
        _ => panic!("expected a drop"),
    }
}

#[test]
fn apply_moves_keep_sums_and_weight() {
    let inst = small();
    let mut st = TabuSearch::new(&inst, &density_order(&inst));
    st.apply_swap(&inst, 0, 0);
    assert_eq!(st.selected, vec![3, 0]);
    assert_eq!(st.unselected, vec![2, 1]);
    assert_eq!(st.total_weight, 7);
    let mut expect = vec![0i32; 4];
    recompute_interaction_sums(&inst, &st.selected, &mut expect);
    assert_eq!(st.interaction_sum, expect);
}

/// Runs one round as the solver does: step while the round is not over
/// and time remains, saving each new best at once.
fn run_round(
    st: &mut TabuSearch,
    inst: &KnapsackInstance,
    in_time: &dyn Fn() -> bool,
    save: &dyn Fn(&Vec<usize>) -> Result<(), String>,
) -> Result<(), String> {
    let mut round = st.start_round(inst);
    while !round.is_over() && in_time() {
        match st.round_step(inst, &mut round) {
            RoundAction::Save => save(&st.selected)?,
            RoundAction::Continue => {}
            RoundAction::Stop => break,
        }
    }
    Ok(())
}

#[test]
fn round_saves_only_feasible_improving_selections() {
    let inst = generated(30, 5);
    let mut st = TabuSearch::new(&inst, &density_order(&inst));
    let start = st.best_obj;
    let saved: RefCell<Vec<Vec<usize>>> = RefCell::new(Vec::new());
    let save = |items: &Vec<usize>| -> Result<(), String> {
        saved.borrow_mut().push(items.clone());
        Ok(())
    };
    let in_time = || true;
    for _ in 0..5 {
        run_round(&mut st, &inst, &in_time, &save).unwrap();
        perturb(&mut st, &inst);
    }
    assert!(st.best_obj >= start);
    assert!(feasible(&inst, &st.best_selected));
    assert_eq!(st.best_obj, objective(&inst, &st.best_selected));
    let mut last = start;
    for s in saved.borrow().iter() {
        assert!(feasible(&inst, s));
        let v = objective(&inst, s);
        assert!(v > last);
        last = v;
    }
    assert_eq!(last, st.best_obj);
}

#[test]
fn round_stops_when_out_of_time() {
    let inst = generated(20, 9);
    let mut st = TabuSearch::new(&inst, &density_order(&inst));
    let before = st.selected.clone();
    let save = |_: &Vec<usize>| -> Result<(), String> { Ok(()) };
    let in_time = || false;
    run_round(&mut st, &inst, &in_time, &save).unwrap();
    assert_eq!(st.selected, before);
}

/// Greedy by density takes item 0 only; a swap for item 1 and then the
/// addition of item 2 improve on it.
fn misleading() -> KnapsackInstance {
    let mut iv = vec![vec![0i32; 4]; 4];
    iv[1][3] = -100;
    iv[3][1] = -100;
    iv[2][3] = -100;
    iv[3][2] = -100;
    KnapsackInstance {
        seed: [9u8; 32],
        num_items: 4,
        weights: vec![6, 5, 5, 100],
        values: vec![30, 31, 30, 0],
        interaction_values: iv,
        max_weight: 10,
    }
}

#[test]
fn round_finds_the_swap_then_the_add() {
    let inst = misleading();
    let mut st = TabuSearch::new(&inst, &density_order(&inst));
    assert_eq!(st.selected, vec![0]);
    assert_eq!(st.best_obj, 30);
    let saved: RefCell<Vec<Vec<usize>>> = RefCell::new(Vec::new());
    let save = |items: &Vec<usize>| -> Result<(), String> {
        saved.borrow_mut().push(items.clone());
        Ok(())
    };
    let in_time = || true;
    run_round(&mut st, &inst, &in_time, &save).unwrap();
    assert_eq!(*saved.borrow(), vec![vec![1], vec![1, 2]]);
    assert_eq!(st.best_obj, 61);
    assert_eq!(st.best_selected, vec![1, 2]);
}

#[test]
fn round_returns_the_save_error() {
    let inst = misleading();
    let mut st = TabuSearch::new(&inst, &density_order(&inst));
    let save = |_: &Vec<usize>| -> Result<(), String> { Err("full".to_string()) };
    let in_time = || true;
    assert_eq!(run_round(&mut st, &inst, &in_time, &save), Err("full".to_string()));
    assert_eq!(st.best_obj, 31);
    assert_eq!(st.best_selected, vec![1]);
}

#[test]
fn perturb_keeps_best_and_leaves_a_maximal_selection() {
    let inst = generated(40, 3);
    let mut st = TabuSearch::new(&inst, &density_order(&inst));
    let best = st.best_selected.clone();
    let best_obj = st.best_obj;
    let kick = kick_count(best.len());
    perturb(&mut st, &inst);
    assert_eq!(st.best_selected, best);
    assert_eq!(st.best_obj, best_obj);
    assert!(feasible(&inst, &st.selected));
    assert!(st.selected.len() >= best.len() - kick);
    for p in 0..(best.len() - kick) {
        assert!(best.contains(&st.selected[p]));
    }
    for j in 0..inst.num_items {
        if !st.is_selected[j] {
            assert!(st.total_weight + inst.weights[j] > inst.max_weight);
        }
        assert_eq!(st.is_selected[j], st.selected.contains(&j));
        assert_eq!(!st.is_selected[j], st.unselected.contains(&j));
    }
    let w: u32 = st.selected.iter().map(|&i| inst.weights[i]).sum();
    assert_eq!(w, st.total_weight);
}

#[test]
fn perturb_removes_random_items_from_the_best() {
    // every item fits alone, two do not fit together: the best holds one
    // item, the kick removes it and the refill takes the densest item
    let inst = KnapsackInstance {
        seed: [3u8; 32],
        num_items: 3,
        weights: vec![5, 5, 5],
        values: vec![1, 3, 2],
        interaction_values: vec![vec![0; 3]; 3],
        max_weight: 6,
    };
    let mut st = TabuSearch::new(&inst, &density_order(&inst));
    assert_eq!(st.selected, vec![1]);
    perturb(&mut st, &inst);
    assert_eq!(st.selected, vec![1]);
    assert_eq!(st.unselected, vec![0, 2]);
}

#[test]
fn check_accepts_wellformed_and_rejects_bad_instances() {
    assert!(small().check());
    let mut a = small();
    a.weights[2] = 0x8000_0000;
    assert!(!a.check());
    let mut b = small();
    b.interaction_values[1].pop();
    assert!(!b.check());
    let mut c = small();
    c.values[0] = 0x2000_0000;
    assert!(!c.check());
    let mut d = small();
    d.num_items = 5;
    assert!(!d.check());
}

#[test]
fn objective_does_not_depend_on_order_for_symmetric_interactions() {
    let inst = generated(12, 21);
    let a = vec![0, 3, 5, 7, 11];
    let b = vec![11, 5, 0, 7, 3];
    assert_eq!(compute_obj(&inst, &a), compute_obj(&inst, &b));
    assert_eq!(compute_obj(&inst, &a), objective(&inst, &a));
}

#[test]
fn interaction_sums_are_the_exact_gains_of_moves() {
    let inst = generated(25, 17);
    let st = TabuSearch::new(&inst, &density_order(&inst));
    let obj = compute_obj(&inst, &st.selected);
    // adding an unselected item
    for &x in &st.unselected {
        let mut s = st.selected.clone();
        s.push(x);
        assert_eq!(compute_obj(&inst, &s) - obj, st.interaction_sum[x] as i64);
    }
    // dropping a selected item
    for si in 0..st.selected.len() {
        let mut t = TabuSearch::new(&inst, &density_order(&inst));
        t.apply_drop(&inst, si);
        assert_eq!(compute_obj(&inst, &t.selected) - obj, -(st.interaction_sum[st.selected[si]] as i64));
    }
    // swapping, where the weight allows it
    for ui in 0..st.unselected.len() {
        for si in 0..st.selected.len() {
            let a = st.unselected[ui];
            let r = st.selected[si];
            if st.total_weight + inst.weights[a] - inst.weights[r] > inst.max_weight {
                continue;
            }
            let mut t = TabuSearch::new(&inst, &density_order(&inst));
            t.apply_swap(&inst, ui, si);
            let expect = st.interaction_sum[a] as i64 - st.interaction_sum[r] as i64
                - inst.interaction_values[a][r] as i64;
            assert_eq!(compute_obj(&inst, &t.selected) - obj, expect);
        }
    }
}

#[test]
fn round_step_saves_each_new_best() {
    let inst = misleading();
    let mut st = TabuSearch::new(&inst, &density_order(&inst));
    let mut round = st.start_round(&inst);
    assert!(matches!(st.round_step(&inst, &mut round), RoundAction::Save));
    assert_eq!(st.selected, vec![1]);
    assert_eq!(st.best_obj, 31);
    assert!(matches!(st.round_step(&inst, &mut round), RoundAction::Save));
    assert_eq!(st.best_selected, vec![1, 2]);
    assert_eq!(st.best_obj, 61);
    assert_eq!(round.stall, 0);
}

#[test]
fn round_step_stops_an_over_round() {
    let inst = misleading();
    let mut st = TabuSearch::new(&inst, &density_order(&inst));
    let mut round = st.start_round(&inst);
    round.stall = 200;
    assert!(round.is_over());
    let before = st.selected.clone();
    assert!(matches!(st.round_step(&inst, &mut round), RoundAction::Stop));
    assert_eq!(st.selected, before);
    assert_eq!(round.stall, 200);
}

#[test]
fn densities_equal_as_floats_keep_index_order() {
    // 268435458 / 268435457 and 268435457 / 268435456 round to the same
    // f64, so item 0 keeps its place and is the one taken
    let inst = KnapsackInstance {
        seed: [1u8; 32],
        num_items: 2,
        weights: vec![268435457, 268435456],
        values: vec![268435458, 268435457],
        interaction_values: vec![vec![0; 2]; 2],
        max_weight: 268435457,
    };
    assert!(inst.check());
    assert_eq!(density_order(&inst), vec![0, 1]);
    let st = TabuSearch::new(&inst, &density_order(&inst));
    assert_eq!(st.selected, vec![0]);
}

#[test]
fn a_weightless_item_of_positive_value_comes_first() {
    let inst = KnapsackInstance {
        seed: [2u8; 32],
        num_items: 3,
        weights: vec![4, 0, 3],
        values: vec![8, 1, 9],
        interaction_values: vec![vec![0; 3]; 3],
        max_weight: 4,
    };
    assert!(inst.check());
    assert_eq!(density_order(&inst), vec![1, 2, 0]);
    let st = TabuSearch::new(&inst, &density_order(&inst));
    assert_eq!(st.selected, vec![1, 2]);
}
