//! Laws of the knapsack objective for symmetric interactions: it depends
//! only on which items are selected, and the search's interaction sums
//! give the exact change of objective of each move.

use vstd::prelude::*;
use crate::knapsack::{objective, pair_sum, row_fn, value_fn, KnapsackInstance};
use crate::knapsack_search::TabuSearch;
use crate::sums::{
    distinct_below, lemma_masked_sum_frame, lemma_masked_sum_none, lemma_masked_sum_update, lemma_push_distinct,
    lemma_seq_sum_as_masked, lemma_seq_sum_fn_frame, lemma_swap_remove_distinct, mask_of, masked_sum, seq_sum,
};

verus! {

/// `interaction_values[x][j] == interaction_values[j][x]` for all items.
pub open spec fn symmetric(inst: KnapsackInstance) -> bool {
    forall|x: int, j: int|
        0 <= x < inst.num_items && 0 <= j < inst.num_items ==> #[trigger] inst.interaction_values@[x]@[j]
            == inst.interaction_values@[j]@[x]
}

/// `interaction_values[x][x] == 0` for all items.
pub open spec fn zero_diagonal(inst: KnapsackInstance) -> bool {
    forall|x: int| 0 <= x < inst.num_items ==> #[trigger] inst.interaction_values@[x]@[x] == 0
}

/// `j |-> interaction_values[j][x]`.
pub open spec fn col_fn(inst: KnapsackInstance, x: int) -> spec_fn(int) -> int {
    |j: int| inst.interaction_values@[j]@[x] as int
}

/// Interactions among the marked items below `k`: for each marked `i`,
/// its interactions with the marked items below it.
pub open spec fn mask_pairs(inst: KnapsackInstance, m: Seq<bool>, k: int) -> int
    decreases k,
{
    if k <= 0 {
        0
    } else {
        mask_pairs(inst, m, k - 1) + (if m[k - 1] { masked_sum(row_fn(inst, k - 1), m, k - 1) } else { 0 })
    }
}

/// The objective of the items that `m` marks.
pub open spec fn mask_objective(inst: KnapsackInstance, m: Seq<bool>) -> int {
    masked_sum(value_fn(inst), m, inst.num_items as int) + mask_pairs(inst, m, inst.num_items as int)
}

proof fn lemma_mask_pairs_none(inst: KnapsackInstance, m: Seq<bool>, k: int)
    requires
        k <= m.len(),
        forall|j: int| 0 <= j < k ==> !m[j],
    ensures
        mask_pairs(inst, m, k) == 0,
    decreases k,
{
    if k > 0 {
        lemma_mask_pairs_none(inst, m, k - 1);
    }
}

/// Marking `x` adds its interactions with the marked items.
proof fn lemma_mask_pairs_update(inst: KnapsackInstance, m: Seq<bool>, x: int, k: int)
    requires
        inst.wf(),
        symmetric(inst),
        m.len() == inst.num_items,
        0 <= x < inst.num_items,
        !m[x],
        0 <= k <= inst.num_items,
    ensures
        mask_pairs(inst, m.update(x, true), k) == mask_pairs(inst, m, k) + (if k > x {
            masked_sum(row_fn(inst, x), m, k)
        } else {
            0
        }),
    decreases k,
{
    let m2 = m.update(x, true);
    if k > 0 {
        lemma_mask_pairs_update(inst, m, x, k - 1);
        let i = k - 1;
        if i < x {
            lemma_masked_sum_frame(row_fn(inst, i), m2, m, i);
        } else if i == x {
            lemma_masked_sum_frame(row_fn(inst, i), m2, m, i);
        } else {
            lemma_masked_sum_update(row_fn(inst, i), m, i, x, true);
            assert(inst.interaction_values@[i]@[x] == inst.interaction_values@[x]@[i]);
        }
    }
}

/// Marking an unmarked item `x` adds its value and its interactions with
/// the marked items.
pub proof fn lemma_mask_objective_add(inst: KnapsackInstance, m: Seq<bool>, x: int)
    requires
        inst.wf(),
        symmetric(inst),
        m.len() == inst.num_items,
        0 <= x < inst.num_items,
        !m[x],
    ensures
        mask_objective(inst, m.update(x, true)) == mask_objective(inst, m) + inst.values@[x] + masked_sum(
            row_fn(inst, x),
            m,
            inst.num_items as int,
        ),
{
    lemma_masked_sum_update(value_fn(inst), m, inst.num_items as int, x, true);
    lemma_mask_pairs_update(inst, m, x, inst.num_items as int);
}

/// Appending `x` to a selection adds its value and the interactions of the
/// selected items with it.
proof fn lemma_pair_sum_push(inst: KnapsackInstance, s: Seq<usize>, x: usize, a: int)
    requires
        0 <= a <= s.len(),
    ensures
        pair_sum(inst, s.push(x), a) == pair_sum(inst, s, a) + seq_sum(col_fn(inst, x as int), s.take(a)),
    decreases a,
{
    let t = s.push(x);
    if a > 0 {
        lemma_pair_sum_push(inst, s, x, a - 1);
        assert(t[a - 1] == s[a - 1]);
        assert(t.subrange(a, t.len() as int) =~= s.subrange(a, s.len() as int).push(x));
        assert(s.subrange(a, s.len() as int).push(x).drop_last() =~= s.subrange(a, s.len() as int));
        assert(s.take(a).drop_last() =~= s.take(a - 1));
    } else {
        assert(s.take(0) =~= Seq::<usize>::empty());
    }
}

/// Appending an item to a selection adds its value and its interactions
/// with the selected items.
pub proof fn lemma_objective_push(inst: KnapsackInstance, s: Seq<usize>, x: usize)
    requires
        inst.wf(),
        symmetric(inst),
        distinct_below(s, inst.num_items as int),
        x < inst.num_items,
    ensures
        objective(inst, s.push(x)) == objective(inst, s) + inst.values@[x as int] + seq_sum(row_fn(inst, x as int), s),
{
    let t = s.push(x);
    assert(t.drop_last() =~= s);
    lemma_pair_sum_push(inst, s, x, s.len() as int);
    assert(s.take(s.len() as int) =~= s);
    assert(t.subrange(t.len() as int, t.len() as int) =~= Seq::<usize>::empty());
    assert forall|p: int| 0 <= p < s.len() implies #[trigger] col_fn(inst, x as int)(s[p] as int) == row_fn(
        inst,
        x as int,
    )(s[p] as int) by {
        assert(s[p] < inst.num_items);
    }
    lemma_seq_sum_fn_frame(col_fn(inst, x as int), row_fn(inst, x as int), s);
}

/// With symmetric interactions, the objective of a selection of distinct
/// items is the objective of the items it marks.
pub proof fn lemma_objective_as_mask(inst: KnapsackInstance, s: Seq<usize>)
    requires
        inst.wf(),
        symmetric(inst),
        distinct_below(s, inst.num_items as int),
    ensures
        objective(inst, s) == mask_objective(inst, mask_of(s, inst.num_items as int)),
    decreases s.len(),
{
    let n = inst.num_items as int;
    if s.len() == 0 {
        lemma_masked_sum_none(value_fn(inst), mask_of(s, n), n);
        lemma_mask_pairs_none(inst, mask_of(s, n), n);
        assert(s.take(0) =~= s);
    } else {
        let s2 = s.drop_last();
        let x = s.last();
        assert(s2.push(x) =~= s);
        assert(s[s.len() - 1] < n);
        assert(distinct_below(s2, n)) by {
            assert forall|p: int| 0 <= p < s2.len() implies #[trigger] s2[p] < n by {
                assert(s[p] < n);
            }
        }
        assert(!s2.contains(x)) by {
            if s2.contains(x) {
                let p = choose|p: int| 0 <= p < s2.len() && s2[p] == x;
                assert(s[p] == s[s.len() - 1]);
            }
        }
        lemma_objective_as_mask(inst, s2);
        lemma_objective_push(inst, s2, x);
        let m2 = mask_of(s2, n);
        lemma_seq_sum_as_masked(row_fn(inst, x as int), s2, m2, n);
        lemma_mask_objective_add(inst, m2, x as int);
        lemma_push_distinct(s2, n, x);
        assert(m2.update(x as int, true) =~= mask_of(s, n));
    }
}

/// With symmetric interactions, two selections of the same distinct items
/// have the same objective, whatever their order.
pub proof fn lemma_objective_order_free(inst: KnapsackInstance, s: Seq<usize>, t: Seq<usize>)
    requires
        inst.wf(),
        symmetric(inst),
        distinct_below(s, inst.num_items as int),
        distinct_below(t, inst.num_items as int),
        forall|v: usize| #[trigger] s.contains(v) <==> t.contains(v),
    ensures
        objective(inst, s) == objective(inst, t),
{
    lemma_objective_as_mask(inst, s);
    lemma_objective_as_mask(inst, t);
    assert(mask_of(s, inst.num_items as int) =~= mask_of(t, inst.num_items as int));
}

/// With symmetric interactions, the interaction sum of an unselected item
/// is the exact gain of adding it (`apply_add` appends it).
pub proof fn lemma_add_gain(st: TabuSearch, inst: KnapsackInstance, x: int)
    requires
        st.inv(inst),
        symmetric(inst),
        0 <= x < inst.num_items,
        !st.is_selected@[x],
    ensures
        objective(inst, st.selected@.push(x as usize)) == objective(inst, st.selected@) + st.interaction_sum@[x],
{
    lemma_objective_push(inst, st.selected@, x as usize);
    lemma_seq_sum_as_masked(row_fn(inst, x), st.selected@, st.is_selected@, inst.num_items as int);
}

/// With symmetric interactions and a zero diagonal, minus the interaction
/// sum of a selected item is the exact gain of dropping it (the selection
/// that `apply_drop` leaves).
pub proof fn lemma_drop_gain(st: TabuSearch, inst: KnapsackInstance, si: int)
    requires
        st.inv(inst),
        symmetric(inst),
        zero_diagonal(inst),
        0 <= si < st.selected@.len(),
    ensures
        objective(inst, st.selected@.update(si, st.selected@.last()).drop_last()) == objective(inst, st.selected@)
            - st.interaction_sum@[st.selected@[si] as int],
{
    let n = inst.num_items as int;
    let s = st.selected@;
    let r = s[si] as int;
    let s2 = s.update(si, s.last()).drop_last();
    assert(s.contains(s[si]));
    assert(s[si] < n);
    lemma_swap_remove_distinct(s, n, si);
    let m = st.is_selected@;
    let p = m.update(r, false);
    assert(mask_of(s2, n) =~= p);
    assert(mask_of(s, n) =~= m);
    lemma_objective_as_mask(inst, s);
    lemma_objective_as_mask(inst, s2);
    lemma_mask_objective_add(inst, p, r);
    assert(p.update(r, true) =~= m);
    lemma_masked_sum_update(row_fn(inst, r), p, n, r, true);
    assert(inst.interaction_values@[r]@[r] == 0);
}

/// With symmetric interactions and a zero diagonal, the swap estimate
/// `sum[added] - sum[dropped] - interaction(added, dropped)` is the exact
/// gain of the swap (the selection that `apply_swap` leaves).
pub proof fn lemma_swap_gain(st: TabuSearch, inst: KnapsackInstance, ui: int, si: int)
    requires
        st.inv(inst),
        symmetric(inst),
        zero_diagonal(inst),
        0 <= ui < st.unselected@.len(),
        0 <= si < st.selected@.len(),
    ensures
        objective(
            inst,
            st.selected@.update(si, st.selected@.last()).drop_last().push(st.unselected@[ui]),
        ) == objective(inst, st.selected@) + st.interaction_sum@[st.unselected@[ui] as int]
            - st.interaction_sum@[st.selected@[si] as int]
            - inst.interaction_values@[st.unselected@[ui] as int]@[st.selected@[si] as int],
{
    let n = inst.num_items as int;
    let s = st.selected@;
    let r = s[si] as int;
    let a = st.unselected@[ui] as int;
    let s2 = s.update(si, s.last()).drop_last();
    let s3 = s2.push(a as usize);
    assert(s.contains(s[si]));
    assert(s[si] < n);
    assert(st.unselected@.contains(st.unselected@[ui]));
    assert(st.unselected@[ui] < n);
    assert(!st.is_selected@[a]);
    lemma_swap_remove_distinct(s, n, si);
    assert(!s2.contains(a as usize));
    lemma_push_distinct(s2, n, a as usize);
    let m = st.is_selected@;
    let p = m.update(r, false);
    assert(mask_of(s2, n) =~= p);
    assert(mask_of(s3, n) =~= p.update(a, true));
    assert(mask_of(s, n) =~= m);
    assert(p.update(r, true) =~= m);
    lemma_objective_as_mask(inst, s);
    lemma_objective_as_mask(inst, s3);
    lemma_mask_objective_add(inst, p, r);
    lemma_mask_objective_add(inst, p, a);
    lemma_masked_sum_update(row_fn(inst, r), p, n, r, true);
    lemma_masked_sum_update(row_fn(inst, a), p, n, r, true);
    assert(inst.interaction_values@[r]@[r] == 0);
}

} // verus!
