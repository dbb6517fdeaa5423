//! Tabu search with random perturbation for the quadratic knapsack
//! problem, started from the greedy selection by value density.
//!
//! The search keeps, besides the current selection, for every item `x` its
//! interaction sum `values[x] + sum_{s selected} interaction_values[x][s]`,
//! from which the gain of adding, dropping or swapping items is estimated.

use vstd::prelude::*;
use rand::rngs::SmallRng;
use crate::knapsack::{
    abs_row, abs_row_fn, compute_obj, feasible, greedy_fill, greedy_initial, is_item_order,
    lemma_abs_row_nonneg, lemma_objective_bound, lemma_row_sum_bound, magnitude_fn, objective, row_fn, total_weight,
    weight_fn, KnapsackInstance, ROW_LIMIT,
};
use crate::random::{random_index, small_rng_from_seed};
use crate::sums::{
    distinct_below, is_mask_of, lemma_concat_contains, lemma_distinct_covers, lemma_distinct_subrange, lemma_distinct_sum_bound,
    lemma_masked_sum_bound, lemma_masked_sum_nonneg_bound, lemma_masked_sum_update, lemma_push_distinct,
    lemma_seq_sum_as_masked, lemma_seq_sum_concat, lemma_seq_sum_take_step, lemma_swap_remove_distinct, mask_of,
    masked_sum, prefix_sum, seq_sum,
};

verus! {

/// Steps for which a moved item stays tabu.
pub const TABU_TENURE: u32 = 7;

/// Consecutive non-improving moves after which a round ends.
pub const STALL_LIMIT: u32 = 200;

/// The interaction sums of all items for the selection marked by `mask`.
pub open spec fn interaction_sums_ok(inst: KnapsackInstance, mask: Seq<bool>, isum: Seq<i32>) -> bool {
    let n = inst.num_items as int;
    &&& isum.len() == n
    &&& forall|x: int|
        0 <= x < n ==> #[trigger] isum[x] == inst.values@[x] as int + masked_sum(row_fn(inst, x), mask, n)
}

/// The items below `k` that `mask` does not mark, in increasing order.
pub open spec fn unmarked_upto(mask: Seq<bool>, k: int) -> Seq<usize>
    decreases k,
{
    if k <= 0 {
        Seq::empty()
    } else if mask[k - 1] {
        unmarked_upto(mask, k - 1)
    } else {
        unmarked_upto(mask, k - 1).push((k - 1) as usize)
    }
}

/// The state of the search.
pub struct TabuSearch {
    pub selected: Vec<usize>,
    pub unselected: Vec<usize>,
    pub is_selected: Vec<bool>,
    pub total_weight: u32,
    pub interaction_sum: Vec<i32>,
    pub best_obj: i64,
    pub best_selected: Vec<usize>,
    pub best_is_selected: Vec<bool>,
    pub best_weight: u32,
    pub rng: SmallRng,
}

impl TabuSearch {
    /// The state is consistent with the instance: `selected` and
    /// `unselected` partition the items and `is_selected` marks the
    /// former; the total weight and the interaction sums are those of the
    /// selection, which is feasible; the best selection is feasible and
    /// `best_obj` is its objective.
    pub open spec fn inv(&self, inst: KnapsackInstance) -> bool {
        &&& self.core_inv(inst)
        &&& distinct_below(self.unselected@, inst.num_items as int)
        &&& forall|j: int|
            0 <= j < inst.num_items ==> (!#[trigger] self.is_selected@[j] <==> self.unselected@.contains(j as usize))
    }

    /// The invariant apart from the list of unselected items.
    pub open spec fn core_inv(&self, inst: KnapsackInstance) -> bool {
        let n = inst.num_items as int;
        &&& inst.wf()
        &&& distinct_below(self.selected@, n)
        &&& is_mask_of(self.is_selected@, self.selected@, n)
        &&& self.total_weight == masked_sum(weight_fn(inst), self.is_selected@, n)
        &&& self.total_weight <= inst.max_weight
        &&& interaction_sums_ok(inst, self.is_selected@, self.interaction_sum@)
        &&& feasible(inst, self.best_selected@)
        &&& self.best_obj == objective(inst, self.best_selected@)
        &&& is_mask_of(self.best_is_selected@, self.best_selected@, n)
        &&& self.best_weight == total_weight(inst, self.best_selected@)
    }
}

proof fn lemma_unmarked_upto(mask: Seq<bool>, k: int)
    requires
        0 <= k <= mask.len(),
        k <= usize::MAX,
    ensures
        distinct_below(unmarked_upto(mask, k), k),
        forall|j: int| 0 <= j < k ==> (!mask[j] <==> #[trigger] unmarked_upto(mask, k).contains(j as usize)),
        forall|v: usize| #[trigger] unmarked_upto(mask, k).contains(v) ==> v < k,
    decreases k,
{
    if k > 0 {
        lemma_unmarked_upto(mask, k - 1);
        let u = unmarked_upto(mask, k - 1);
        assert forall|p: int| 0 <= p < u.len() implies #[trigger] u[p] < k by {
            assert(u.contains(u[p]));
        }
        if !mask[k - 1] {
            assert(!u.contains((k - 1) as usize));
            lemma_push_distinct(u, k, (k - 1) as usize);
        }
        assert forall|v: usize| #[trigger] unmarked_upto(mask, k).contains(v) implies v < k by {
            if !mask[k - 1] {
                lemma_push_distinct(u, k, (k - 1) as usize);
            }
        }
    }
}

/// The items that `mask` does not mark, in increasing order.
pub fn unselected_items(mask: &Vec<bool>) -> (u: Vec<usize>)
    ensures
        u@ == unmarked_upto(mask@, mask@.len() as int),
        distinct_below(u@, mask@.len() as int),
        forall|j: int| 0 <= j < mask@.len() ==> (!mask@[j] <==> #[trigger] u@.contains(j as usize)),
{
    let n = mask.len();
    let mut u: Vec<usize> = Vec::new();
    let mut i: usize = 0;
    while i < n
        invariant
            n == mask.len(),
            i <= n,
            u@ == unmarked_upto(mask@, i as int),
        decreases n - i,
    {
        if !mask[i] {
            u.push(i);
        }
        i = i + 1;
    }
    proof {
        lemma_unmarked_upto(mask@, n as int);
    }
    u
}

/// Bounds on the interaction sums that the invariant implies.
proof fn lemma_interaction_sum_bound(inst: KnapsackInstance, mask: Seq<bool>, x: int)
    requires
        inst.wf(),
        mask.len() == inst.num_items,
        0 <= x < inst.num_items,
    ensures
        -abs_row(inst, x) <= masked_sum(row_fn(inst, x), mask, inst.num_items as int) <= abs_row(inst, x),
        -ROW_LIMIT <= inst.values@[x] as int + masked_sum(row_fn(inst, x), mask, inst.num_items as int) <= ROW_LIMIT,
        abs_row(inst, x) + inst.values@[x] as int <= ROW_LIMIT,
{
    let n = inst.num_items as int;
    assert forall|j: int| 0 <= j < n implies -abs_row_fn(inst, x)(j) <= #[trigger] row_fn(inst, x)(j) <= abs_row_fn(inst, x)(j) by {}
    lemma_masked_sum_bound(row_fn(inst, x), abs_row_fn(inst, x), mask, n);
    assert(magnitude_fn(inst)(x) <= ROW_LIMIT);
}

/// Sets `interaction_sum[x]` to
/// `values[x] + sum_{s in selected} interaction_values[x][s]` for every
/// item `x`.
pub fn recompute_interaction_sums(inst: &KnapsackInstance, selected: &Vec<usize>, interaction_sum: &mut Vec<i32>)
    requires
        inst.wf(),
        distinct_below(selected@, inst.num_items as int),
        old(interaction_sum).len() == inst.num_items,
    ensures
        final(interaction_sum).len() == inst.num_items,
        forall|x: int|
            0 <= x < inst.num_items ==> #[trigger] final(interaction_sum)@[x] == inst.values@[x] as int + seq_sum(
                row_fn(*inst, x),
                selected@,
            ),
{
    let n = inst.num_items;
    let len = selected.len();
    let ghost s = selected@;
    let mut x: usize = 0;
    while x < n
        invariant
            inst.wf(),
            n == inst.num_items,
            s == selected@,
            len == s.len(),
            distinct_below(s, n as int),
            x <= n,
            interaction_sum.len() == n,
            forall|y: int|
                0 <= y < x ==> #[trigger] interaction_sum@[y] == inst.values@[y] as int + seq_sum(row_fn(*inst, y), s),
        decreases n - x,
    {
        let row = &inst.interaction_values[x];
        let mut acc: i32 = inst.values[x] as i32;
        proof {
            assert(magnitude_fn(*inst)(x as int) <= ROW_LIMIT);
            lemma_abs_row_nonneg(*inst, x as int);
            assert(s.take(0) =~= Seq::<usize>::empty());
        }
        let mut k: usize = 0;
        while k < len
            invariant
                inst.wf(),
                n == inst.num_items,
                s == selected@,
                len == s.len(),
                distinct_below(s, n as int),
                x < n,
                k <= len,
                row@ == inst.interaction_values@[x as int]@,
                inst.values@[x as int] as int + abs_row(*inst, x as int) <= ROW_LIMIT,
                acc == inst.values@[x as int] as int + seq_sum(row_fn(*inst, x as int), s.take(k as int)),
            decreases len - k,
        {
            proof {
                lemma_seq_sum_take_step(row_fn(*inst, x as int), s, k as int);
                assert(s.take(k + 1) =~= s.subrange(0, k + 1));
                lemma_distinct_subrange(s, n as int, 0, k + 1);
                lemma_row_sum_bound(*inst, x as int, s.take(k + 1));
                lemma_abs_row_nonneg(*inst, x as int);
            }
            acc = acc + row[selected[k]];
            k = k + 1;
        }
        assert(s.take(len as int) =~= s);
        interaction_sum.set(x, acc);
        x = x + 1;
    }
}

impl TabuSearch {
    /// The search state for the greedy selection along `order` (the
    /// solver passes the items by decreasing value density, see
    /// `density_numerators`): the selection, its mask, the unselected items
    /// in index order, the interaction sums, and the selection as the best
    /// so far; the random generator is seeded from the instance's seed.
    pub fn new(inst: &KnapsackInstance, order: &Vec<usize>) -> (st: TabuSearch)
        requires
            inst.wf(),
            is_item_order(*inst, order@),
        ensures
            st.inv(*inst),
            st.selected@ == greedy_fill(*inst, order@),
            st.unselected@ == unmarked_upto(st.is_selected@, inst.num_items as int),
            st.best_selected@ == st.selected@,
            st.best_obj == objective(*inst, st.selected@),
            feasible(*inst, st.selected@),
            forall|j: int|
                0 <= j < inst.num_items && !#[trigger] st.is_selected@[j] ==> st.total_weight + inst.weights@[j]
                    > inst.max_weight,
    {
        let n = inst.num_items;
        proof {
            lemma_distinct_covers(order@, n as int);
        }
        let (selected, is_selected, total_weight) = greedy_initial(inst, order);
        let unselected = unselected_items(&is_selected);
        let mut interaction_sum: Vec<i32> = Vec::new();
        let mut i: usize = 0;
        while i < n
            invariant
                i <= n,
                interaction_sum.len() == i,
            decreases n - i,
        {
            interaction_sum.push(0);
            i = i + 1;
        }
        recompute_interaction_sums(inst, &selected, &mut interaction_sum);
        let best_obj = compute_obj(inst, &selected);
        let best_selected = selected.clone();
        let best_is_selected = is_selected.clone();
        let rng = small_rng_from_seed(inst.seed);
        proof {
            assert(best_selected@ =~= selected@);
            assert(best_is_selected@ =~= is_selected@);
            lemma_seq_sum_as_masked(weight_fn(*inst), selected@, is_selected@, n as int);
            assert forall|x: int| 0 <= x < n implies #[trigger] interaction_sum@[x] == inst.values@[x] as int
                + masked_sum(row_fn(*inst, x), is_selected@, n as int) by {
                lemma_seq_sum_as_masked(row_fn(*inst, x), selected@, is_selected@, n as int);
            }
            assert forall|j: int| 0 <= j < n && !#[trigger] is_selected@[j] implies total_weight + inst.weights@[j]
                > inst.max_weight by {
                assert(order@.contains(j as usize));
                let q = choose|q: int| 0 <= q < order@.len() && order@[q] == j as usize;
                assert(!selected@.contains(order@[q]));
            }
        }
        TabuSearch {
            selected,
            unselected,
            is_selected,
            total_weight,
            interaction_sum,
            best_obj,
            best_selected,
            best_is_selected,
            best_weight: total_weight,
            rng,
        }
    }
}

/// Facts about the total weight implied by the invariant.
proof fn lemma_weight_facts(inst: KnapsackInstance, mask: Seq<bool>, j: int)
    requires
        inst.wf(),
        mask.len() == inst.num_items,
        0 <= j < inst.num_items,
    ensures
        mask[j] ==> inst.weights@[j] <= masked_sum(weight_fn(inst), mask, inst.num_items as int),
        masked_sum(weight_fn(inst), mask.update(j, true), inst.num_items as int) == masked_sum(
            weight_fn(inst),
            mask,
            inst.num_items as int,
        ) - (if mask[j] { inst.weights@[j] as int } else { 0 }) + inst.weights@[j],
        masked_sum(weight_fn(inst), mask.update(j, false), inst.num_items as int) == masked_sum(
            weight_fn(inst),
            mask,
            inst.num_items as int,
        ) - (if mask[j] { inst.weights@[j] as int } else { 0 }),
{
    let n = inst.num_items as int;
    lemma_masked_sum_update(weight_fn(inst), mask, n, j, true);
    lemma_masked_sum_update(weight_fn(inst), mask, n, j, false);
    assert forall|i: int| 0 <= i < n implies 0 <= #[trigger] weight_fn(inst)(i) by {}
    lemma_masked_sum_nonneg_bound(weight_fn(inst), mask.update(j, false), n);
}

/// Moves the interaction sums from the selection marked by `mask` to the
/// one with item `j` marked as `marked` (which it was not): every sum
/// grows, or shrinks, by its interaction with `j`.
fn update_sums(inst: &KnapsackInstance, sums: &mut Vec<i32>, Ghost(mask): Ghost<Seq<bool>>, j: usize, marked: bool)
    requires
        inst.wf(),
        j < inst.num_items,
        mask.len() == inst.num_items,
        mask[j as int] != marked,
        interaction_sums_ok(*inst, mask, old(sums)@),
    ensures
        interaction_sums_ok(*inst, mask.update(j as int, marked), final(sums)@),
{
    let ghost n = inst.num_items as int;
    let ghost new_mask = mask.update(j as int, marked);
    let nn = inst.num_items;
    let mut x: usize = 0;
    while x < nn
        invariant
            inst.wf(),
            nn == n,
            n == inst.num_items,
            j < n,
            mask.len() == n,
            mask[j as int] != marked,
            new_mask == mask.update(j as int, marked),
            x <= nn,
            sums.len() == n,
            forall|y: int|
                0 <= y < x ==> #[trigger] sums@[y] == inst.values@[y] as int + masked_sum(row_fn(*inst, y), new_mask, n),
            forall|y: int|
                x <= y < n ==> #[trigger] sums@[y] == inst.values@[y] as int + masked_sum(row_fn(*inst, y), mask, n),
        decreases nn - x,
    {
        proof {
            lemma_masked_sum_update(row_fn(*inst, x as int), mask, n, j as int, marked);
            lemma_interaction_sum_bound(*inst, new_mask, x as int);
        }
        let v = if marked {
            sums[x] + inst.interaction_values[x][j]
        } else {
            sums[x] - inst.interaction_values[x][j]
        };
        sums.set(x, v);
        x = x + 1;
    }
}

impl TabuSearch {
    /// Adds the unselected item at position `ui`: it moves from
    /// `unselected` (whose last element takes its place) to the end of
    /// `selected`, and every interaction sum grows by its interaction with
    /// the item.
    pub fn apply_add(&mut self, inst: &KnapsackInstance, ui: usize)
        requires
            old(self).inv(*inst),
            ui < old(self).unselected.len(),
            old(self).total_weight + inst.weights@[old(self).unselected@[ui as int] as int] <= inst.max_weight,
        ensures
            final(self).inv(*inst),
            final(self).selected@ == old(self).selected@.push(old(self).unselected@[ui as int]),
            final(self).unselected@ == old(self).unselected@.update(ui as int, old(self).unselected@.last()).drop_last(),
            final(self).is_selected@ == old(self).is_selected@.update(old(self).unselected@[ui as int] as int, true),
            !old(self).is_selected@[old(self).unselected@[ui as int] as int],
            final(self).best_obj == old(self).best_obj,
            final(self).best_selected == old(self).best_selected,
            final(self).best_is_selected == old(self).best_is_selected,
            final(self).best_weight == old(self).best_weight,
    {
        let ghost n = inst.num_items as int;
        let ghost old_mask = self.is_selected@;
        let ni = self.unselected[ui];
        proof {
            assert(self.unselected@.contains(ni));
            assert(!self.is_selected@[ni as int]);
            assert(!self.selected@.contains(ni));
            lemma_weight_facts(*inst, old_mask, ni as int);
            lemma_push_distinct(self.selected@, n, ni);
            lemma_swap_remove_distinct(self.unselected@, n, ui as int);
        }
        self.is_selected.set(ni, true);
        self.total_weight = self.total_weight + inst.weights[ni];
        self.selected.push(ni);
        self.unselected.swap_remove(ui);
        update_sums(inst, &mut self.interaction_sum, Ghost(old_mask), ni, true);
        proof {
            assert forall|j: int| 0 <= j < n implies (#[trigger] self.is_selected@[j] <==> self.selected@.contains(j as usize)) by {}
            assert forall|j: int| 0 <= j < n implies (!#[trigger] self.is_selected@[j] <==> self.unselected@.contains(j as usize)) by {}
        }
    }

    /// Drops the selected item at position `si`: it moves from `selected`
    /// (whose last element takes its place) to the end of `unselected`,
    /// and every interaction sum shrinks by its interaction with the item.
    pub fn apply_drop(&mut self, inst: &KnapsackInstance, si: usize)
        requires
            old(self).inv(*inst),
            si < old(self).selected.len(),
        ensures
            final(self).inv(*inst),
            final(self).selected@ == old(self).selected@.update(si as int, old(self).selected@.last()).drop_last(),
            final(self).unselected@ == old(self).unselected@.push(old(self).selected@[si as int]),
            final(self).is_selected@ == old(self).is_selected@.update(old(self).selected@[si as int] as int, false),
            old(self).is_selected@[old(self).selected@[si as int] as int],
            final(self).best_obj == old(self).best_obj,
            final(self).best_selected == old(self).best_selected,
            final(self).best_is_selected == old(self).best_is_selected,
            final(self).best_weight == old(self).best_weight,
    {
        let ghost n = inst.num_items as int;
        let ghost old_mask = self.is_selected@;
        let ri = self.selected[si];
        proof {
            assert(self.selected@.contains(ri));
            assert(self.is_selected@[ri as int]);
            assert(!self.unselected@.contains(ri));
            lemma_weight_facts(*inst, old_mask, ri as int);
            lemma_push_distinct(self.unselected@, n, ri);
            lemma_swap_remove_distinct(self.selected@, n, si as int);
        }
        self.is_selected.set(ri, false);
        self.total_weight = self.total_weight - inst.weights[ri];
        self.selected.swap_remove(si);
        self.unselected.push(ri);
        update_sums(inst, &mut self.interaction_sum, Ghost(old_mask), ri, false);
        proof {
            assert forall|j: int| 0 <= j < n implies (#[trigger] self.is_selected@[j] <==> self.selected@.contains(j as usize)) by {}
            assert forall|j: int| 0 <= j < n implies (!#[trigger] self.is_selected@[j] <==> self.unselected@.contains(j as usize)) by {}
        }
    }

    /// Swaps the unselected item at position `ui` with the selected item at
    /// position `si`: each leaves its list (whose last element takes its
    /// place) and is appended to the other; every interaction sum changes
    /// by the interaction with the added item minus that with the dropped
    /// one.
    pub fn apply_swap(&mut self, inst: &KnapsackInstance, ui: usize, si: usize)
        requires
            old(self).inv(*inst),
            ui < old(self).unselected.len(),
            si < old(self).selected.len(),
            old(self).total_weight + inst.weights@[old(self).unselected@[ui as int] as int]
                - inst.weights@[old(self).selected@[si as int] as int] <= inst.max_weight,
        ensures
            final(self).inv(*inst),
            final(self).selected@ == old(self).selected@.update(si as int, old(self).selected@.last()).drop_last().push(
                old(self).unselected@[ui as int],
            ),
            final(self).unselected@ == old(self).unselected@.update(ui as int, old(self).unselected@.last()).drop_last().push(
                old(self).selected@[si as int],
            ),
            final(self).is_selected@ == old(self).is_selected@.update(old(self).unselected@[ui as int] as int, true).update(
                old(self).selected@[si as int] as int,
                false,
            ),
            !old(self).is_selected@[old(self).unselected@[ui as int] as int],
            old(self).is_selected@[old(self).selected@[si as int] as int],
            final(self).best_obj == old(self).best_obj,
            final(self).best_selected == old(self).best_selected,
            final(self).best_is_selected == old(self).best_is_selected,
            final(self).best_weight == old(self).best_weight,
    {
        let ghost n = inst.num_items as int;
        let ghost old_mask = self.is_selected@;
        let ni = self.unselected[ui];
        let ri = self.selected[si];
        let ghost mid_mask = old_mask.update(ni as int, true);
        proof {
            assert(self.unselected@.contains(ni));
            assert(self.selected@.contains(ri));
            assert(!old_mask[ni as int]);
            assert(old_mask[ri as int]);
            assert(ni != ri);
            lemma_weight_facts(*inst, old_mask, ni as int);
            lemma_weight_facts(*inst, mid_mask, ri as int);
            lemma_swap_remove_distinct(self.selected@, n, si as int);
            lemma_swap_remove_distinct(self.unselected@, n, ui as int);
            let s1 = self.selected@.update(si as int, self.selected@.last()).drop_last();
            let u1 = self.unselected@.update(ui as int, self.unselected@.last()).drop_last();
            assert(!s1.contains(ni));
            assert(!u1.contains(ri));
            lemma_push_distinct(s1, n, ni);
            lemma_push_distinct(u1, n, ri);
        }
        self.is_selected.set(ni, true);
        self.is_selected.set(ri, false);
        self.total_weight = self.total_weight + inst.weights[ni] - inst.weights[ri];
        self.selected.swap_remove(si);
        self.unselected.swap_remove(ui);
        self.selected.push(ni);
        self.unselected.push(ri);
        update_sums(inst, &mut self.interaction_sum, Ghost(old_mask), ni, true);
        update_sums(inst, &mut self.interaction_sum, Ghost(mid_mask), ri, false);
        proof {
            assert forall|j: int| 0 <= j < n implies (#[trigger] self.is_selected@[j] <==> self.selected@.contains(j as usize)) by {}
            assert forall|j: int| 0 <= j < n implies (!#[trigger] self.is_selected@[j] <==> self.unselected@.contains(j as usize)) by {}
        }
    }
}

/// A single interaction is bounded by its row's absolute sum.
proof fn lemma_entry_bound(inst: KnapsackInstance, x: int, j: usize)
    requires
        inst.wf(),
        0 <= x < inst.num_items,
        j < inst.num_items,
    ensures
        -ROW_LIMIT <= inst.interaction_values@[x]@[j as int] <= ROW_LIMIT,
{
    let t = seq![j];
    assert(t.drop_last() =~= Seq::<usize>::empty());
    assert(distinct_below(t, inst.num_items as int));
    let f = abs_row_fn(inst, x);
    assert forall|i: int| 0 <= i < inst.num_items implies -f(i) <= #[trigger] f(i) <= f(i) by {}
    lemma_distinct_sum_bound(f, f, t, inst.num_items as int);
    assert(seq_sum(f, Seq::<usize>::empty()) == 0);
    assert(seq_sum(f, t) == seq_sum(f, t.drop_last()) + f(j as int));
    assert(magnitude_fn(inst)(x) <= ROW_LIMIT);
}

/// The bounds on interaction sums and interactions that the invariant
/// gives.
proof fn lemma_inv_bounds(st: TabuSearch, inst: KnapsackInstance)
    requires
        st.inv(inst),
    ensures
        forall|j: int| 0 <= j < inst.num_items ==> -ROW_LIMIT <= #[trigger] st.interaction_sum@[j] <= ROW_LIMIT,
        forall|x: int, j: int|
            0 <= x < inst.num_items && 0 <= j < inst.num_items ==> -ROW_LIMIT <= #[trigger] inst.interaction_values@[x]@[j]
                <= ROW_LIMIT,
{
    assert forall|j: int| 0 <= j < inst.num_items implies -ROW_LIMIT <= #[trigger] st.interaction_sum@[j] <= ROW_LIMIT by {
        lemma_interaction_sum_bound(inst, st.is_selected@, j);
    }
    assert forall|x: int, j: int| 0 <= x < inst.num_items && 0 <= j < inst.num_items implies -ROW_LIMIT
        <= #[trigger] inst.interaction_values@[x]@[j] <= ROW_LIMIT by {
        lemma_entry_bound(inst, x, j as usize);
    }
}

/// A move of the search.
pub enum Move {
    /// Swap the unselected item at the first position with the selected
    /// item at the second.
    Swap(usize, usize),
    /// Add the unselected item at this position.
    Add(usize),
    /// Drop the selected item at this position.
    Drop(usize),
    /// No move improves the estimate.
    NoMove,
}

/// What the choice of a move reads of a search state: the selected and
/// unselected items, the total weight and the interaction sums.
pub struct SearchView {
    pub selected: Seq<usize>,
    pub unselected: Seq<usize>,
    pub total_weight: int,
    pub interaction_sum: Seq<i32>,
}

impl View for TabuSearch {
    type V = SearchView;

    open spec fn view(&self) -> SearchView {
        SearchView {
            selected: self.selected@,
            unselected: self.unselected@,
            total_weight: self.total_weight as int,
            interaction_sum: self.interaction_sum@,
        }
    }
}

/// The smallest interaction sum among the first `k` selected items
/// (`i32::MAX` for none).
pub open spec fn min_selected_sum(st: SearchView, k: int) -> int
    decreases k,
{
    if k <= 0 {
        i32::MAX as int
    } else {
        let m = min_selected_sum(st, k - 1);
        let v = st.interaction_sum[st.selected[k - 1] as int] as int;
        if v < m { v } else { m }
    }
}

/// The swap scan over the first `si` selected items for the unselected
/// item at position `ui`, from the running best `acc`: a selected item is
/// skipped when tabu or when it is too light to make room (`min_w`); a
/// swap replaces the best when its estimated gain is larger.
pub open spec fn swap_inner(
    st: SearchView,
    inst: KnapsackInstance,
    tabu: Seq<u32>,
    ui: int,
    min_w: int,
    si: int,
    acc: (int, Option<(usize, usize)>),
) -> (int, Option<(usize, usize)>)
    decreases si,
{
    if si <= 0 {
        acc
    } else {
        let prev = swap_inner(st, inst, tabu, ui, min_w, si - 1, acc);
        let ri = st.selected[si - 1] as int;
        let ni = st.unselected[ui] as int;
        if tabu[ri] > 0 || (min_w > 0 && (inst.weights@[ri] as int) < min_w) {
            prev
        } else {
            let diff = st.interaction_sum[ni] - st.interaction_sum[ri] - inst.interaction_values@[ni]@[ri];
            if diff > prev.0 {
                (diff, Some((ui as usize, (si - 1) as usize)))
            } else {
                prev
            }
        }
    }
}

/// The swap scan over the first `ui` unselected items: an unselected item
/// is skipped when tabu or when its interaction sum is below the best gain
/// so far plus the smallest selected sum `msv`; otherwise the selected
/// items are scanned for it.
pub open spec fn swap_outer(st: SearchView, inst: KnapsackInstance, tabu: Seq<u32>, msv: int, ui: int) -> (
    int,
    Option<(usize, usize)>,
)
    decreases ui,
{
    if ui <= 0 {
        (0, None)
    } else {
        let prev = swap_outer(st, inst, tabu, msv, ui - 1);
        let ni = st.unselected[ui - 1] as int;
        if tabu[ni] > 0 || st.interaction_sum[ni] < prev.0 + msv {
            prev
        } else {
            swap_inner(
                st,
                inst,
                tabu,
                ui - 1,
                inst.weights@[ni] - (inst.max_weight - st.total_weight),
                st.selected.len() as int,
                prev,
            )
        }
    }
}

/// The add scan over the first `ui` unselected items, from `init`: an item
/// is skipped when tabu or heavier than the remaining capacity; it becomes
/// the best when its interaction sum is larger.
pub open spec fn add_scan(st: SearchView, inst: KnapsackInstance, tabu: Seq<u32>, init: int, ui: int) -> (
    int,
    Option<usize>,
)
    decreases ui,
{
    if ui <= 0 {
        (init, None)
    } else {
        let prev = add_scan(st, inst, tabu, init, ui - 1);
        let ni = st.unselected[ui - 1] as int;
        if tabu[ni] > 0 || inst.weights@[ni] > inst.max_weight - st.total_weight {
            prev
        } else if st.interaction_sum[ni] > prev.0 {
            (st.interaction_sum[ni] as int, Some((ui - 1) as usize))
        } else {
            prev
        }
    }
}

/// The drop scan over the first `si` selected items, from `init`: an item
/// is skipped when tabu; it becomes the best when minus its interaction
/// sum is larger.
pub open spec fn drop_scan(st: SearchView, tabu: Seq<u32>, init: int, si: int) -> (int, Option<usize>)
    decreases si,
{
    if si <= 0 {
        (init, None)
    } else {
        let prev = drop_scan(st, tabu, init, si - 1);
        let ri = st.selected[si - 1] as int;
        if tabu[ri] > 0 {
            prev
        } else if -st.interaction_sum[ri] > prev.0 {
            (-st.interaction_sum[ri], Some((si - 1) as usize))
        } else {
            prev
        }
    }
}

/// The move of one step: from the best swap, add and drop, an add whose
/// gain is at least the swap's and the drop's, else a drop that beats the
/// swap, else the swap, else none.
pub open spec fn chosen_move(st: SearchView, inst: KnapsackInstance, tabu: Seq<u32>) -> Move {
    let msv = min_selected_sum(st, st.selected.len() as int);
    let sw = swap_outer(st, inst, tabu, msv, st.unselected.len() as int);
    let ad = add_scan(st, inst, tabu, sw.0, st.unselected.len() as int);
    let dr = drop_scan(st, tabu, sw.0, st.selected.len() as int);
    match ad.1 {
        Some(ui) => if ad.0 >= sw.0 && ad.0 >= dr.0 {
            Move::Add(ui)
        } else if dr.0 > sw.0 {
            match dr.1 {
                Some(si) => Move::Drop(si),
                None => Move::NoMove,
            }
        } else {
            match sw.1 {
                Some((u, si)) => Move::Swap(u, si),
                None => Move::NoMove,
            }
        },
        None => if dr.0 > sw.0 {
            match dr.1 {
                Some(si) => Move::Drop(si),
                None => Move::NoMove,
            }
        } else {
            match sw.1 {
                Some((u, si)) => Move::Swap(u, si),
                None => Move::NoMove,
            }
        },
    }
}

/// The estimated gain of swapping the unselected item at position `ui`
/// in for the selected item at position `si`: the added item's sum minus
/// the dropped item's, minus their interaction.
pub open spec fn swap_gain(st: SearchView, inst: KnapsackInstance, ui: int, si: int) -> int {
    let ni = st.unselected[ui] as int;
    let ri = st.selected[si] as int;
    st.interaction_sum[ni] - st.interaction_sum[ri] - inst.interaction_values@[ni]@[ri]
}

/// An unselected position whose item is not tabu and fits in the
/// remaining capacity: a candidate for an add.
pub open spec fn add_candidate(st: SearchView, inst: KnapsackInstance, tabu: Seq<u32>, u: int) -> bool {
    &&& 0 <= u < st.unselected.len()
    &&& tabu[st.unselected[u] as int] == 0
    &&& inst.weights@[st.unselected[u] as int] <= inst.max_weight - st.total_weight
}

/// A selected position whose item is not tabu: a candidate for a drop.
pub open spec fn drop_candidate(st: SearchView, tabu: Seq<u32>, s: int) -> bool {
    &&& 0 <= s < st.selected.len()
    &&& tabu[st.selected[s] as int] == 0
}

/// The add scan ends with the largest interaction sum among the
/// candidates, if it beats `init`, and with `init` otherwise.
proof fn lemma_add_scan(st: SearchView, inst: KnapsackInstance, tabu: Seq<u32>, init: int, k: int)
    requires
        0 <= k <= st.unselected.len(),
        st.unselected.len() <= usize::MAX,
    ensures
        add_scan(st, inst, tabu, init, k).0 >= init,
        forall|u: int| 0 <= u < k && #[trigger] add_candidate(st, inst, tabu, u) ==> st.interaction_sum[st.unselected[u] as int]
            <= add_scan(st, inst, tabu, init, k).0,
        add_scan(st, inst, tabu, init, k).1 is None ==> add_scan(st, inst, tabu, init, k).0 == init,
        add_scan(st, inst, tabu, init, k).1 matches Some(a) ==> a < k && add_candidate(st, inst, tabu, a as int)
            && add_scan(st, inst, tabu, init, k).0 == st.interaction_sum[st.unselected[a as int] as int],
    decreases k,
{
    if k > 0 {
        lemma_add_scan(st, inst, tabu, init, k - 1);
    }
}

/// The drop scan ends with the largest negated interaction sum among the
/// candidates, if it beats `init`, and with `init` otherwise.
proof fn lemma_drop_scan(st: SearchView, tabu: Seq<u32>, init: int, k: int)
    requires
        0 <= k <= st.selected.len(),
        st.selected.len() <= usize::MAX,
    ensures
        drop_scan(st, tabu, init, k).0 >= init,
        forall|s: int| 0 <= s < k && #[trigger] drop_candidate(st, tabu, s) ==> -st.interaction_sum[st.selected[s] as int]
            <= drop_scan(st, tabu, init, k).0,
        drop_scan(st, tabu, init, k).1 is None ==> drop_scan(st, tabu, init, k).0 == init,
        drop_scan(st, tabu, init, k).1 matches Some(a) ==> a < k && drop_candidate(st, tabu, a as int)
            && drop_scan(st, tabu, init, k).0 == -st.interaction_sum[st.selected[a as int] as int],
    decreases k,
{
    if k > 0 {
        lemma_drop_scan(st, tabu, init, k - 1);
    }
}

impl TabuSearch {
    /// A move is admissible in this state: its positions exist, the items
    /// it moves are not tabu, the selection stays within the budget, and
    /// its estimated gain is positive (for an add, the item's interaction
    /// sum; for a drop, minus the item's interaction sum; for a swap, the
    /// added item's sum minus the dropped item's minus their interaction).
    pub open spec fn admissible(&self, inst: KnapsackInstance, tabu: Seq<u32>, m: Move) -> bool {
        match m {
            Move::Swap(ui, si) => {
                let ni = self.unselected@[ui as int] as int;
                let ri = self.selected@[si as int] as int;
                &&& ui < self.unselected.len()
                &&& si < self.selected.len()
                &&& tabu[ni] == 0
                &&& tabu[ri] == 0
                &&& self.total_weight + inst.weights@[ni] - inst.weights@[ri] <= inst.max_weight
                &&& self.interaction_sum@[ni] - self.interaction_sum@[ri] - inst.interaction_values@[ni]@[ri] > 0
            },
            Move::Add(ui) => {
                let ni = self.unselected@[ui as int] as int;
                &&& ui < self.unselected.len()
                &&& tabu[ni] == 0
                &&& self.total_weight + inst.weights@[ni] <= inst.max_weight
                &&& self.interaction_sum@[ni] > 0
            },
            Move::Drop(si) => {
                let ri = self.selected@[si as int] as int;
                &&& si < self.selected.len()
                &&& tabu[ri] == 0
                &&& -self.interaction_sum@[ri] > 0
            },
            Move::NoMove => true,
        }
    }

    /// The move of one step of the search: the best swap, scanning the
    /// unselected items and skipping those whose interaction sum cannot
    /// beat the best gain so far against the smallest selected sum; then
    /// the best add within the remaining capacity and the best drop, each
    /// only if it beats the best swap; an add is preferred to a drop of
    /// equal gain, and either to the swap.
    pub fn choose_move(&self, inst: &KnapsackInstance, tabu: &Vec<u32>) -> (m: Move)
        requires
            self.inv(*inst),
            tabu.len() == inst.num_items,
        ensures
            self.admissible(*inst, tabu@, m),
            m == chosen_move(self@, *inst, tabu@),
            m matches Move::Add(ui) ==> forall|u2: int|
                #[trigger] add_candidate(self@, *inst, tabu@, u2) ==> self.interaction_sum@[self.unselected@[u2] as int]
                    <= self.interaction_sum@[self.unselected@[ui as int] as int],
            m matches Move::Add(ui) ==> forall|s2: int|
                #[trigger] drop_candidate(self@, tabu@, s2) ==> -self.interaction_sum@[self.selected@[s2] as int]
                    <= self.interaction_sum@[self.unselected@[ui as int] as int],
            m matches Move::Drop(si) ==> forall|s2: int|
                #[trigger] drop_candidate(self@, tabu@, s2) ==> self.interaction_sum@[self.selected@[si as int] as int]
                    <= self.interaction_sum@[self.selected@[s2] as int],
            m matches Move::Drop(si) ==> forall|u2: int|
                #[trigger] add_candidate(self@, *inst, tabu@, u2) ==> self.interaction_sum@[self.unselected@[u2] as int]
                    < -self.interaction_sum@[self.selected@[si as int] as int],
            m matches Move::Swap(ui, si) ==> forall|u2: int|
                #[trigger] add_candidate(self@, *inst, tabu@, u2) ==> self.interaction_sum@[self.unselected@[u2] as int]
                    <= swap_gain(self@, *inst, ui as int, si as int),
            m matches Move::Swap(ui, si) ==> forall|s2: int|
                #[trigger] drop_candidate(self@, tabu@, s2) ==> -self.interaction_sum@[self.selected@[s2] as int]
                    <= swap_gain(self@, *inst, ui as int, si as int),
            m is NoMove ==> forall|u2: int|
                #[trigger] add_candidate(self@, *inst, tabu@, u2) ==> self.interaction_sum@[self.unselected@[u2] as int]
                    <= 0,
            m is NoMove ==> forall|s2: int|
                #[trigger] drop_candidate(self@, tabu@, s2) ==> self.interaction_sum@[self.selected@[s2] as int] >= 0,
    {
        let ghost n = inst.num_items as int;
        proof {
            lemma_inv_bounds(*self, *inst);
        }
        let nsel = self.selected.len();
        let nunsel = self.unselected.len();
        let mut min_sel_val: i32 = i32::MAX;
        let mut k: usize = 0;
        while k < nsel
            invariant
                self.inv(*inst),
                n == inst.num_items,
                nsel == self.selected.len(),
                forall|j: int| 0 <= j < n ==> -ROW_LIMIT <= #[trigger] self.interaction_sum@[j] <= ROW_LIMIT,
                k <= nsel,
                k == 0 ==> min_sel_val == i32::MAX,
                k > 0 ==> -ROW_LIMIT <= min_sel_val <= ROW_LIMIT,
                min_sel_val == min_selected_sum(self@, k as int),
            decreases nsel - k,
        {
            let v = self.interaction_sum[self.selected[k]];
            if v < min_sel_val {
                min_sel_val = v;
            }
            k = k + 1;
        }
        let mut best_diff: i32 = 0;
        let mut best_swap: Option<(usize, usize)> = Option::None;
        let mut ui: usize = 0;
        while ui < nunsel
            invariant
                self.inv(*inst),
                n == inst.num_items,
                nsel == self.selected.len(),
                nunsel == self.unselected.len(),
                tabu.len() == n,
                forall|j: int| 0 <= j < n ==> -ROW_LIMIT <= #[trigger] self.interaction_sum@[j] <= ROW_LIMIT,
                forall|x: int, j: int|
                    0 <= x < n && 0 <= j < n ==> -ROW_LIMIT <= #[trigger] inst.interaction_values@[x]@[j] <= ROW_LIMIT,
                nsel == 0 ==> min_sel_val == i32::MAX,
                nsel > 0 ==> -ROW_LIMIT <= min_sel_val <= ROW_LIMIT,
                ui <= nunsel,
                min_sel_val == min_selected_sum(self@, nsel as int),
                (best_diff as int, best_swap) == swap_outer(self@, *inst, tabu@, min_sel_val as int, ui as int),
                0 <= best_diff <= 3 * ROW_LIMIT,
                nsel == 0 ==> best_diff == 0,
                best_swap is None ==> best_diff == 0,
                best_swap matches Some((a, b)) ==> best_diff > 0 && self.admissible(*inst, tabu@, Move::Swap(a, b))
                    && best_diff == self.interaction_sum@[self.unselected@[a as int] as int]
                    - self.interaction_sum@[self.selected@[b as int] as int]
                    - inst.interaction_values@[self.unselected@[a as int] as int]@[self.selected@[b as int] as int],
            decreases nunsel - ui,
        {
            let ni = self.unselected[ui];
            if tabu[ni] > 0 {
                ui = ui + 1;
                continue;
            }
            let nv = self.interaction_sum[ni];
            if nv < best_diff + min_sel_val {
                ui = ui + 1;
                continue;
            }
            let min_w: i32 = inst.weights[ni] as i32 - (inst.max_weight as i32 - self.total_weight as i32);
            let ghost acc0 = (best_diff as int, best_swap);
            let mut si: usize = 0;
            while si < nsel
                invariant
                    acc0 == swap_outer(self@, *inst, tabu@, min_sel_val as int, ui as int),
                    min_sel_val == min_selected_sum(self@, nsel as int),
                    (best_diff as int, best_swap) == swap_inner(
                        self@,
                        *inst,
                        tabu@,
                        ui as int,
                        min_w as int,
                        si as int,
                        acc0,
                    ),
                    self.inv(*inst),
                    n == inst.num_items,
                    nsel == self.selected.len(),
                    nunsel == self.unselected.len(),
                    tabu.len() == n,
                    forall|j: int| 0 <= j < n ==> -ROW_LIMIT <= #[trigger] self.interaction_sum@[j] <= ROW_LIMIT,
                    forall|x: int, j: int|
                        0 <= x < n && 0 <= j < n ==> -ROW_LIMIT <= #[trigger] inst.interaction_values@[x]@[j]
                            <= ROW_LIMIT,
                    ui < nunsel,
                    ni == self.unselected@[ui as int],
                    tabu@[ni as int] == 0,
                    nv == self.interaction_sum@[ni as int],
                    min_w == inst.weights@[ni as int] - (inst.max_weight - self.total_weight),
                    si <= nsel,
                    0 <= best_diff <= 3 * ROW_LIMIT,
                    nsel == 0 ==> best_diff == 0,
                    best_swap is None ==> best_diff == 0,
                    best_swap matches Some((a, b)) ==> best_diff > 0 && self.admissible(*inst, tabu@, Move::Swap(a, b))
                        && best_diff == self.interaction_sum@[self.unselected@[a as int] as int]
                        - self.interaction_sum@[self.selected@[b as int] as int]
                        - inst.interaction_values@[self.unselected@[a as int] as int]@[self.selected@[b as int] as int],
                decreases nsel - si,
            {
                let ri = self.selected[si];
                if tabu[ri] > 0 {
                    si = si + 1;
                    continue;
                }
                if min_w > 0 && (inst.weights[ri] as i32) < min_w {
                    si = si + 1;
                    continue;
                }
                let rv = self.interaction_sum[ri];
                let diff = nv - rv - inst.interaction_values[ni][ri];
                if diff > best_diff {
                    best_diff = diff;
                    best_swap = Option::Some((ui, si));
                }
                si = si + 1;
            }
            ui = ui + 1;
        }
        let slack = inst.max_weight - self.total_weight;
        let mut best_add: Option<usize> = Option::None;
        let mut best_add_val = best_diff;
        let ghost sw = (best_diff as int, best_swap);
        let mut ui: usize = 0;
        while ui < nunsel
            invariant
                (best_add_val as int, best_add) == add_scan(self@, *inst, tabu@, best_diff as int, ui as int),
                self.inv(*inst),
                n == inst.num_items,
                nunsel == self.unselected.len(),
                tabu.len() == n,
                slack == inst.max_weight - self.total_weight,
                ui <= nunsel,
                best_add_val >= best_diff >= 0,
                best_add is None ==> best_add_val == best_diff,
                best_add matches Some(a) ==> best_add_val > best_diff && self.admissible(*inst, tabu@, Move::Add(a))
                    && best_add_val == self.interaction_sum@[self.unselected@[a as int] as int],
            decreases nunsel - ui,
        {
            let ni = self.unselected[ui];
            if tabu[ni] > 0 {
                ui = ui + 1;
                continue;
            }
            if inst.weights[ni] > slack {
                ui = ui + 1;
                continue;
            }
            let val = self.interaction_sum[ni];
            if val > best_add_val {
                best_add_val = val;
                best_add = Option::Some(ui);
            }
            ui = ui + 1;
        }
        let mut best_drop: Option<usize> = Option::None;
        let mut best_drop_val = best_diff;
        let mut si: usize = 0;
        while si < nsel
            invariant
                (best_drop_val as int, best_drop) == drop_scan(self@, tabu@, best_diff as int, si as int),
                self.inv(*inst),
                n == inst.num_items,
                nsel == self.selected.len(),
                tabu.len() == n,
                forall|j: int| 0 <= j < n ==> -ROW_LIMIT <= #[trigger] self.interaction_sum@[j] <= ROW_LIMIT,
                si <= nsel,
                best_drop_val >= best_diff >= 0,
                best_drop is None ==> best_drop_val == best_diff,
                best_drop matches Some(b) ==> best_drop_val > best_diff && self.admissible(*inst, tabu@, Move::Drop(b))
                    && best_drop_val == -self.interaction_sum@[self.selected@[b as int] as int],
            decreases nsel - si,
        {
            let ri = self.selected[si];
            if tabu[ri] > 0 {
                si = si + 1;
                continue;
            }
            let marginal = self.interaction_sum[ri];
            let neg = -marginal;
            if neg > best_drop_val {
                best_drop_val = neg;
                best_drop = Option::Some(si);
            }
            si = si + 1;
        }
        proof {
            lemma_add_scan(self@, *inst, tabu@, best_diff as int, nunsel as int);
            lemma_drop_scan(self@, tabu@, best_diff as int, nsel as int);
        }
        if let Option::Some(ui) = best_add {
            if best_add_val >= best_diff && best_add_val >= best_drop_val {
                Move::Add(ui)
            } else if best_drop_val > best_diff {
                if let Option::Some(si) = best_drop {
                    Move::Drop(si)
                } else {
                    Move::NoMove
                }
            } else if let Option::Some((ui, si)) = best_swap {
                Move::Swap(ui, si)
            } else {
                Move::NoMove
            }
        } else if best_drop_val > best_diff {
            if let Option::Some(si) = best_drop {
                Move::Drop(si)
            } else {
                Move::NoMove
            }
        } else if let Option::Some((ui, si)) = best_swap {
            Move::Swap(ui, si)
        } else {
            Move::NoMove
        }
    }
}

/// The search view of a selection and a list of unselected items: the
/// total weight and the interaction sums are those of the selection.
pub open spec fn view_of(inst: KnapsackInstance, selected: Seq<usize>, unselected: Seq<usize>) -> SearchView {
    SearchView {
        selected,
        unselected,
        total_weight: total_weight(inst, selected),
        interaction_sum: interaction_sums_of(inst, mask_of(selected, inst.num_items as int)),
    }
}

/// A consistent state is seen as the view of its two lists.
proof fn lemma_view_of(st: TabuSearch, inst: KnapsackInstance)
    requires
        st.inv(inst),
    ensures
        st@ == view_of(inst, st.selected@, st.unselected@),
{
    let n = inst.num_items as int;
    let m = mask_of(st.selected@, n);
    assert(st.is_selected@ =~= m);
    lemma_seq_sum_as_masked(weight_fn(inst), st.selected@, st.is_selected@, n);
    assert forall|x: int| 0 <= x < n implies #[trigger] st.interaction_sum@[x] == interaction_sums_of(inst, m)[x] by {
        lemma_interaction_sum_bound(inst, m, x);
    }
    assert(st.interaction_sum@ =~= interaction_sums_of(inst, m));
}

/// The two lists after move `m`: an added item goes from the unselected
/// list to the end of the selection, a dropped one from the selection to
/// the end of the unselected list, each list closing the gap with its
/// last element.
pub open spec fn after_move(selected: Seq<usize>, unselected: Seq<usize>, m: Move) -> (Seq<usize>, Seq<usize>) {
    match m {
        Move::Swap(ui, si) => (
            selected.update(si as int, selected.last()).drop_last().push(unselected[ui as int]),
            unselected.update(ui as int, unselected.last()).drop_last().push(selected[si as int]),
        ),
        Move::Add(ui) => (
            selected.push(unselected[ui as int]),
            unselected.update(ui as int, unselected.last()).drop_last(),
        ),
        Move::Drop(si) => (
            selected.update(si as int, selected.last()).drop_last(),
            unselected.push(selected[si as int]),
        ),
        Move::NoMove => (selected, unselected),
    }
}

/// The tabu marks after move `m`: the moved items get `TABU_TENURE`, then
/// every mark ages by one (down to zero).
pub open spec fn tabu_after(tabu: Seq<u32>, selected: Seq<usize>, unselected: Seq<usize>, m: Move) -> Seq<u32> {
    let marked = match m {
        Move::Swap(ui, si) => tabu.update(unselected[ui as int] as int, TABU_TENURE).update(
            selected[si as int] as int,
            TABU_TENURE,
        ),
        Move::Add(ui) => tabu.update(unselected[ui as int] as int, TABU_TENURE),
        Move::Drop(si) => tabu.update(selected[si as int] as int, TABU_TENURE),
        Move::NoMove => tabu,
    };
    marked.map_values(|t: u32| if t > 0 { (t - 1) as u32 } else { 0u32 })
}

/// The state of a round of tabu search.
pub struct RoundState {
    pub selected: Seq<usize>,
    pub unselected: Seq<usize>,
    pub tabu: Seq<u32>,
    pub best_obj: int,
    pub best_selected: Seq<usize>,
    pub stall: int,
    pub stuck: bool,
}

/// One step of a round: the move that `chosen_move` picks is made and
/// the tabu marks are updated; an objective above the best makes the
/// selection the best and resets the stall count, which otherwise grows.
/// Without admissible move the round is stuck and nothing changes.
pub open spec fn round_step(inst: KnapsackInstance, rs: RoundState) -> RoundState {
    let m = chosen_move(view_of(inst, rs.selected, rs.unselected), inst, rs.tabu);
    if m is NoMove {
        RoundState {
            selected: rs.selected,
            unselected: rs.unselected,
            tabu: rs.tabu,
            best_obj: rs.best_obj,
            best_selected: rs.best_selected,
            stall: rs.stall,
            stuck: true,
        }
    } else {
        let lists = after_move(rs.selected, rs.unselected, m);
        let tabu = tabu_after(rs.tabu, rs.selected, rs.unselected, m);
        let obj = objective(inst, lists.0);
        if obj > rs.best_obj {
            RoundState {
                selected: lists.0,
                unselected: lists.1,
                tabu,
                best_obj: obj,
                best_selected: lists.0,
                stall: 0,
                stuck: false,
            }
        } else {
            RoundState {
                selected: lists.0,
                unselected: lists.1,
                tabu,
                best_obj: rs.best_obj,
                best_selected: rs.best_selected,
                stall: rs.stall + 1,
                stuck: false,
            }
        }
    }
}

/// A round is over when it is stuck or has stalled `STALL_LIMIT` steps.
pub open spec fn round_over(rs: RoundState) -> bool {
    rs.stuck || rs.stall >= STALL_LIMIT
}

/// The state at the start of a round: no tabu marks, no stall.
pub open spec fn round_start(st: TabuSearch, n: int) -> RoundState {
    RoundState {
        selected: st.selected@,
        unselected: st.unselected@,
        tabu: Seq::new(n as nat, |j: int| 0u32),
        best_obj: st.best_obj as int,
        best_selected: st.best_selected@,
        stall: 0,
        stuck: false,
    }
}

impl TabuSearch {
    /// Records the current selection as the best one.
    fn record_best(&mut self, inst: &KnapsackInstance, obj: i64)
        requires
            old(self).inv(*inst),
            obj == objective(*inst, old(self).selected@),
        ensures
            final(self).inv(*inst),
            final(self).best_obj == obj,
            final(self).best_selected@ == old(self).selected@,
            final(self).selected == old(self).selected,
            final(self).unselected == old(self).unselected,
            final(self).is_selected == old(self).is_selected,
            final(self).total_weight == old(self).total_weight,
            final(self).interaction_sum == old(self).interaction_sum,
            feasible(*inst, final(self).selected@),
    {
        proof {
            lemma_seq_sum_as_masked(weight_fn(*inst), self.selected@, self.is_selected@, inst.num_items as int);
        }
        self.best_obj = obj;
        self.best_selected = self.selected.clone();
        self.best_is_selected = self.is_selected.clone();
        self.best_weight = self.total_weight;
        proof {
            assert(self.best_selected@ =~= self.selected@);
            assert(self.best_is_selected@ =~= self.is_selected@);
        }
    }

    /// The bookkeeping of a new round: no tabu marks, no stall.
    pub fn start_round(&self, inst: &KnapsackInstance) -> (round: Round)
        requires
            self.inv(*inst),
        ensures
            self.round_state(round) == round_start(*self, inst.num_items as int),
            round.tabu.len() == inst.num_items,
    {
        let n = inst.num_items;
        let mut tabu: Vec<u32> = Vec::new();
        let mut i: usize = 0;
        while i < n
            invariant
                i <= n,
                tabu.len() == i,
                forall|j: int| 0 <= j < i ==> #[trigger] tabu@[j] == 0,
            decreases n - i,
        {
            tabu.push(0);
            i = i + 1;
        }
        proof {
            assert(tabu@ =~= round_start(*self, n as int).tabu);
        }
        Round { tabu, stall: 0, stuck: false }
    }

    /// The state of the round that this search is in, with `round`'s
    /// bookkeeping.
    pub open spec fn round_state(&self, round: Round) -> RoundState {
        RoundState {
            selected: self.selected@,
            unselected: self.unselected@,
            tabu: round.tabu@,
            best_obj: self.best_obj as int,
            best_selected: self.best_selected@,
            stall: round.stall as int,
            stuck: round.stuck,
        }
    }

    /// One step of a round of tabu search (see `round_step`): applies the
    /// move that `choose_move` picks, makes the moved items tabu for
    /// `TABU_TENURE` steps and ages all tabu marks by one. Answers `Save`
    /// when the objective beats the best so far, which the selection then
    /// becomes: the caller hands it to the solution store at once. Answers
    /// `Stop`, changing nothing, when the round is over, and when no move
    /// is admissible (the round is then stuck); otherwise `Continue`.
    pub fn round_step(&mut self, inst: &KnapsackInstance, round: &mut Round) -> (action: RoundAction)
        requires
            old(self).inv(*inst),
            old(round).tabu.len() == inst.num_items,
            old(round).stall <= STALL_LIMIT,
        ensures
            final(self).inv(*inst),
            final(round).tabu.len() == inst.num_items,
            final(round).stall <= STALL_LIMIT,
            round_over(old(self).round_state(*old(round))) ==> action is Stop && final(self).round_state(*final(round))
                == old(self).round_state(*old(round)),
            !round_over(old(self).round_state(*old(round))) ==> final(self).round_state(*final(round)) == round_step(
                *inst,
                old(self).round_state(*old(round)),
            ),
            !round_over(old(self).round_state(*old(round))) ==> (action is Stop <==> final(round).stuck),
            action is Stop ==> final(round).tabu@ == old(round).tabu@ && final(self).is_selected@ == old(
                self,
            ).is_selected@,
            !(action is Stop) ==> old(self).is_selected@ != final(self).is_selected@,
            !(action is Stop) ==> forall|j: int|
                0 <= j < inst.num_items ==> #[trigger] final(round).tabu@[j] == (if old(self).is_selected@[j]
                    != final(self).is_selected@[j] {
                    (TABU_TENURE - 1) as u32
                } else if old(round).tabu@[j] > 0 {
                    (old(round).tabu@[j] - 1) as u32
                } else {
                    0u32
                }),
            action is Save <==> final(self).best_obj > old(self).best_obj,
            action is Save ==> feasible(*inst, final(self).selected@),
            action is Save ==> final(self).best_selected@ == final(self).selected@,
            action is Save ==> final(self).best_obj == objective(*inst, final(self).selected@),
            final(self).best_obj >= old(self).best_obj,
    {
        if round.stuck || round.stall >= STALL_LIMIT {
            return RoundAction::Stop;
        }
        let n = inst.num_items;
        let ghost prev = self.round_state(*round);
        let ghost mask0 = self.is_selected@;
        let ghost tabu0 = round.tabu@;
        let m = self.choose_move(inst, &round.tabu);
        let ghost sel0 = self.selected@;
        let ghost uns0 = self.unselected@;
        proof {
            lemma_view_of(*self, *inst);
        }
        match m {
            Move::Swap(ui, si) => {
                let ni = self.unselected[ui];
                let ri = self.selected[si];
                self.apply_swap(inst, ui, si);
                round.tabu.set(ni, TABU_TENURE);
                round.tabu.set(ri, TABU_TENURE);
            },
            Move::Add(ui) => {
                let ni = self.unselected[ui];
                self.apply_add(inst, ui);
                round.tabu.set(ni, TABU_TENURE);
            },
            Move::Drop(si) => {
                let ri = self.selected[si];
                self.apply_drop(inst, si);
                round.tabu.set(ri, TABU_TENURE);
            },
            Move::NoMove => {
                round.stuck = true;
                return RoundAction::Stop;
            },
        }
        let ghost marked = round.tabu@;
        let ghost stall0 = round.stall;
        proof {
            assert forall|j: int| 0 <= j < n implies #[trigger] marked[j] == (if mask0[j] != self.is_selected@[j] {
                TABU_TENURE
            } else {
                tabu0[j]
            }) by {}
            assert(mask0 != self.is_selected@) by {
                match m {
                    Move::Swap(ui, si) => {
                        let ni = uns0[ui as int];
                        assert(mask0[ni as int] != self.is_selected@[ni as int]);
                    },
                    Move::Add(ui) => {
                        let ni = uns0[ui as int];
                        assert(mask0[ni as int] != self.is_selected@[ni as int]);
                    },
                    Move::Drop(si) => {
                        let ri = sel0[si as int];
                        assert(mask0[ri as int] != self.is_selected@[ri as int]);
                    },
                    Move::NoMove => {},
                }
            }
        }
        let mut t: usize = 0;
        while t < n
            invariant
                t <= n,
                round.stall == stall0,
                stall0 < STALL_LIMIT,
                !round.stuck,
                round.tabu.len() == n,
                marked.len() == n,
                forall|q: int| 0 <= q < t ==> #[trigger] round.tabu@[q] == (if marked[q] > 0 {
                    (marked[q] - 1) as u32
                } else {
                    0u32
                }),
                forall|q: int| t <= q < n ==> #[trigger] round.tabu@[q] == marked[q],
            decreases n - t,
        {
            let aged = round.tabu[t].saturating_sub(1);
            round.tabu.set(t, aged);
            t = t + 1;
        }
        proof {
            assert(round.tabu@ =~= tabu_after(prev.tabu, sel0, uns0, m));
            assert(after_move(sel0, uns0, m) == (self.selected@, self.unselected@));
        }
        let obj = compute_obj(inst, &self.selected);
        if obj > self.best_obj {
            self.record_best(inst, obj);
            round.stall = 0;
            RoundAction::Save
        } else {
            round.stall = round.stall + 1;
            RoundAction::Continue
        }
    }
}

/// The bookkeeping of a round of tabu search: the tabu marks of all
/// items, the number of consecutive steps without improvement, and
/// whether no move was admissible.
pub struct Round {
    pub tabu: Vec<u32>,
    pub stall: u32,
    pub stuck: bool,
}

impl Round {
    /// The round is over: stuck, or `STALL_LIMIT` steps without
    /// improvement.
    pub fn is_over(&self) -> (over: bool)
        ensures
            over == (self.stuck || self.stall >= STALL_LIMIT),
    {
        self.stuck || self.stall >= STALL_LIMIT
    }
}

/// What the caller of a round step does next.
pub enum RoundAction {
    /// Hand the selection, the new best, to the solution store.
    Save,
    /// Go on with the next step.
    Continue,
    /// The round is over.
    Stop,
}

/// The interaction sums of all items for the selection marked by `m`.
pub open spec fn interaction_sums_of(inst: KnapsackInstance, m: Seq<bool>) -> Seq<i32> {
    Seq::new(
        inst.num_items as nat,
        |x: int| (inst.values@[x] as int + masked_sum(row_fn(inst, x), m, inst.num_items as int)) as i32,
    )
}

/// The items of `u` in the order in which `order` lists their positions.
pub open spec fn in_order(u: Seq<usize>, order: Seq<usize>) -> Seq<usize> {
    Seq::new(order.len(), |k: int| u[order[k] as int])
}

/// The items that a refill adds, in order: scanning `cands` beside the
/// selection marked by `m`, of weight `w0`, each item not yet selected is
/// added when it still fits.
pub open spec fn refill(inst: KnapsackInstance, cands: Seq<usize>, m: Seq<bool>, w0: int) -> Seq<usize>
    decreases cands.len(),
{
    if cands.len() == 0 {
        Seq::empty()
    } else {
        let prev = refill(inst, cands.drop_last(), m, w0);
        let x = cands.last();
        if m[x as int] || prev.contains(x) {
            prev
        } else if w0 + total_weight(inst, prev) + inst.weights@[x as int] <= inst.max_weight {
            prev.push(x)
        } else {
            prev
        }
    }
}

/// The selection left and the items removed, in order, when the items
/// at positions `pos[0]`, `pos[1]`, ... are removed one after the other
/// from `s`, the last item taking the place of each removed one.
pub open spec fn kick_out(s: Seq<usize>, pos: Seq<usize>) -> (Seq<usize>, Seq<usize>)
    decreases pos.len(),
{
    if pos.len() == 0 {
        (s, Seq::empty())
    } else {
        let prev = kick_out(s, pos.drop_last());
        let i = pos.last() as int;
        (prev.0.update(i, prev.0.last()).drop_last(), prev.1.push(prev.0[i]))
    }
}

/// What a restart from the best selection `best` leaves when its `kick`
/// removals take the positions `pos` (each below the size of the
/// selection at that point): the selection after the removals, and as
/// unselected items those outside `best` in index order followed by the
/// removed ones in order of removal.
pub open spec fn kick_outcome(
    best: Seq<usize>,
    n: int,
    kick: int,
    pos: Seq<usize>,
    selected: Seq<usize>,
    unselected: Seq<usize>,
) -> bool {
    &&& pos.len() == kick
    &&& forall|q: int| 0 <= q < pos.len() ==> #[trigger] pos[q] < best.len() - q
    &&& selected == kick_out(best, pos).0
    &&& unselected == unmarked_upto(mask_of(best, n), n) + kick_out(best, pos).1
}

/// How many items a perturbation removes from a best selection of `len`
/// items: a fifth of them, at least three, at most all.
pub open spec fn kick_count_spec(len: int) -> int {
    let k = if len / 5 > 3 { len / 5 } else { 3 };
    if k < len { k } else { len }
}

/// `(len / 5).max(3).min(len)`.
pub fn kick_count(len: usize) -> (k: usize)
    ensures
        k == kick_count_spec(len as int),
        len <= 3 ==> k == len,
        3 <= len < 20 ==> k == 3,
        len >= 20 ==> 5 * k <= len < 5 * k + 5,
        k <= len,
{
    let fifth = len / 5;
    let k = if fifth > 3 { fifth } else { 3 };
    if k < len { k } else { len }
}

impl TabuSearch {
    /// Appends the unselected `item` to the selection (the list of
    /// unselected items is left as it is).
    fn add_item(&mut self, inst: &KnapsackInstance, item: usize)
        requires
            old(self).core_inv(*inst),
            item < inst.num_items,
            !old(self).is_selected@[item as int],
            old(self).total_weight + inst.weights@[item as int] <= inst.max_weight,
        ensures
            final(self).core_inv(*inst),
            final(self).selected@ == old(self).selected@.push(item),
            final(self).is_selected@ == old(self).is_selected@.update(item as int, true),
            final(self).total_weight == old(self).total_weight + inst.weights@[item as int],
            final(self).unselected == old(self).unselected,
            final(self).best_obj == old(self).best_obj,
            final(self).best_selected == old(self).best_selected,
            final(self).best_is_selected == old(self).best_is_selected,
            final(self).best_weight == old(self).best_weight,
    {
        let ghost n = inst.num_items as int;
        let ghost old_mask = self.is_selected@;
        proof {
            assert(!self.selected@.contains(item));
            lemma_weight_facts(*inst, old_mask, item as int);
            lemma_push_distinct(self.selected@, n, item);
        }
        self.selected.push(item);
        self.is_selected.set(item, true);
        self.total_weight = self.total_weight + inst.weights[item];
        update_sums(inst, &mut self.interaction_sum, Ghost(old_mask), item, true);
        proof {
            assert forall|j: int| 0 <= j < n implies (#[trigger] self.is_selected@[j] <==> self.selected@.contains(j as usize)) by {}
        }
    }

    /// Restarts from the best selection and removes `kick_count` of its
    /// items at random positions, one after the other (see `kick_out`).
    pub fn kick_items(&mut self, inst: &KnapsackInstance)
        requires
            old(self).inv(*inst),
        ensures
            final(self).inv(*inst),
            final(self).best_obj == old(self).best_obj,
            final(self).best_selected == old(self).best_selected,
            final(self).best_is_selected == old(self).best_is_selected,
            final(self).best_weight == old(self).best_weight,
            exists|pos: Seq<usize>|
                #[trigger] kick_outcome(
                    old(self).best_selected@,
                    inst.num_items as int,
                    kick_count_spec(old(self).best_selected@.len() as int),
                    pos,
                    final(self).selected@,
                    final(self).unselected@,
                ),
    {
        let ghost n = inst.num_items as int;
        let ghost best = self.best_selected@;
        let kick = kick_count(self.best_selected.len());
        self.selected = self.best_selected.clone();
        self.is_selected = self.best_is_selected.clone();
        self.total_weight = self.best_weight;
        self.unselected = unselected_items(&self.is_selected);
        recompute_interaction_sums(inst, &self.selected, &mut self.interaction_sum);
        proof {
            assert(self.selected@ =~= best);
            assert(self.is_selected@ =~= self.best_is_selected@);
            lemma_seq_sum_as_masked(weight_fn(*inst), self.selected@, self.is_selected@, n);
            assert forall|x: int| 0 <= x < n implies #[trigger] self.interaction_sum@[x] == inst.values@[x] as int
                + masked_sum(row_fn(*inst, x), self.is_selected@, n) by {
                lemma_seq_sum_as_masked(row_fn(*inst, x), self.selected@, self.is_selected@, n);
            }
        }
        let ghost best_is = self.best_is_selected;
        let ghost best_obj = self.best_obj;
        let ghost best_sel = self.best_selected;
        let ghost best_w = self.best_weight;
        let ghost u_start = self.unselected@;
        let ghost mut pos: Seq<usize> = Seq::empty();
        proof {
            assert(self.best_is_selected@ =~= mask_of(best, n));
        }
        let mut k: usize = 0;
        while k < kick && self.selected.len() > 0
            invariant
                self.inv(*inst),
                n == inst.num_items,
                kick == kick_count_spec(best.len() as int),
                k <= kick,
                self.best_obj == best_obj,
                self.best_selected == best_sel,
                self.best_is_selected == best_is,
                self.best_weight == best_w,
                best_sel@ == best,
                self.selected@.len() == best.len() - k,
                u_start == unmarked_upto(mask_of(best, n), n),
                pos.len() == k,
                forall|q: int| 0 <= q < pos.len() ==> #[trigger] pos[q] < best.len() - q,
                self.selected@ == kick_out(best, pos).0,
                self.unselected@ == u_start + kick_out(best, pos).1,
            decreases kick - k,
        {
            let idx = random_index(&mut self.rng, self.selected.len());
            let ghost before = self.selected@;
            self.apply_drop(inst, idx);
            proof {
                let p2 = pos.push(idx);
                assert(p2.drop_last() =~= pos);
                assert(kick_out(best, p2).0 == self.selected@);
                assert(self.unselected@ =~= u_start + kick_out(best, p2).1);
                pos = p2;
            }
            k = k + 1;
        }
        proof {
            assert(kick_outcome(best, n, kick as int, pos, self.selected@, self.unselected@));
        }
    }

    /// Scans the unselected items in the order given by `order` (positions
    /// in the list of unselected items; the solver passes them by
    /// decreasing ratio of interaction sum to weight) and adds each one that
    /// still fits (see `refill`); then lists the unselected items in index
    /// order. No item outside the resulting selection fits beside it.
    pub fn refill_in_order(&mut self, inst: &KnapsackInstance, order: &Vec<usize>)
        requires
            old(self).inv(*inst),
            order.len() == old(self).unselected.len(),
            distinct_below(order@, old(self).unselected.len() as int),
        ensures
            final(self).inv(*inst),
            final(self).best_obj == old(self).best_obj,
            final(self).best_selected == old(self).best_selected,
            final(self).best_is_selected == old(self).best_is_selected,
            final(self).best_weight == old(self).best_weight,
            final(self).selected@ == old(self).selected@ + refill(
                *inst,
                in_order(old(self).unselected@, order@),
                mask_of(old(self).selected@, inst.num_items as int),
                total_weight(*inst, old(self).selected@),
            ),
            final(self).unselected@ == unmarked_upto(final(self).is_selected@, inst.num_items as int),
            forall|j: int|
                0 <= j < inst.num_items && !#[trigger] final(self).is_selected@[j] ==> final(self).total_weight
                    + inst.weights@[j] > inst.max_weight,
    {
        let ghost n = inst.num_items as int;
        let nn = inst.num_items;
        let ghost kicked = self.selected@;
        let ghost kicked_mask = self.is_selected@;
        let ghost u0 = self.unselected@;
        let ghost best_is = self.best_is_selected;
        let ghost best_obj = self.best_obj;
        let ghost best_sel = self.best_selected;
        let ghost best_w = self.best_weight;
        let ulen = self.unselected.len();
        proof {
            lemma_distinct_covers(order@, ulen as int);
        }
        let mut candidates: Vec<usize> = Vec::new();
        let mut p: usize = 0;
        while p < order.len()
            invariant
                p <= order.len(),
                order.len() == ulen,
                ulen == self.unselected.len(),
                distinct_below(order@, ulen as int),
                candidates.len() == p,
                forall|q: int| 0 <= q < p ==> #[trigger] candidates@[q] == self.unselected@[order@[q] as int],
            decreases order.len() - p,
        {
            candidates.push(self.unselected[order[p]]);
            p = p + 1;
        }
        proof {
            assert forall|j: int| 0 <= j < n && !kicked_mask[j] implies #[trigger] candidates@.contains(j as usize) by {
                assert(self.unselected@.contains(j as usize));
                let q = choose|q: int| 0 <= q < self.unselected@.len() && self.unselected@[q] == j as usize;
                assert(order@.contains((q as int) as usize));
                let r = choose|r: int| 0 <= r < order@.len() && order@[r] == q as usize;
                assert(candidates@[r] == j as usize);
            }
            assert forall|q: int| 0 <= q < candidates.len() implies #[trigger] candidates@[q] < n by {
                assert(order@[q] < ulen);
                assert(self.unselected@[order@[q] as int] < n);
            }
        }
        let ghost unsel = self.unselected;
        let ghost kw = total_weight(*inst, kicked);
        let ghost km = mask_of(kicked, n);
        let ghost cs = candidates@;
        proof {
            assert(kicked_mask =~= km);
            assert(candidates@ =~= in_order(self.unselected@, order@));
            lemma_seq_sum_as_masked(weight_fn(*inst), kicked, kicked_mask, n);
            assert(cs.take(0) =~= Seq::<usize>::empty());
            assert(kicked + Seq::<usize>::empty() =~= kicked);
            assert(self.selected@.take(kicked.len() as int) =~= kicked);
        }
        let mut c: usize = 0;
        while c < candidates.len()
            invariant
                self.core_inv(*inst),
                n == inst.num_items,
                nn == n,
                c <= candidates.len(),
                forall|q: int| 0 <= q < candidates.len() ==> #[trigger] candidates@[q] < n,
                self.best_obj == best_obj,
                self.best_selected == best_sel,
                self.best_is_selected == best_is,
                self.best_weight == best_w,
                self.unselected == unsel,
                kicked_mask.len() == n,
                forall|j: int| 0 <= j < n && kicked_mask[j] ==> #[trigger] self.is_selected@[j],
                forall|j: int| 0 <= j < n && !kicked_mask[j] ==> #[trigger] candidates@.contains(j as usize),
                forall|q: int|
                    0 <= q < c && !self.is_selected@[candidates@[q] as int] ==> self.total_weight
                        + inst.weights@[#[trigger] candidates@[q] as int] > inst.max_weight,
                self.selected@.len() >= kicked.len(),
                self.selected@.take(kicked.len() as int) == kicked,
                cs == candidates@,
                km == mask_of(kicked, n),
                kw == total_weight(*inst, kicked),
                distinct_below(kicked, n),
                self.selected@ == kicked + refill(*inst, cs.take(c as int), km, kw),
            decreases candidates.len() - c,
        {
            let item = candidates[c];
            let ghost prev = refill(*inst, cs.take(c as int), km, kw);
            proof {
                assert(cs.take(c + 1).drop_last() =~= cs.take(c as int));
                assert(cs.take(c + 1).last() == item);
                lemma_concat_contains(kicked, prev);
                assert(self.is_selected@[item as int] <==> (km[item as int] || prev.contains(item)));
                lemma_seq_sum_as_masked(weight_fn(*inst), self.selected@, self.is_selected@, n);
                lemma_seq_sum_concat(weight_fn(*inst), kicked, prev);
            }
            if self.is_selected[item] {
                c = c + 1;
                continue;
            }
            if self.total_weight + inst.weights[item] <= inst.max_weight {
                let ghost before = self.selected@;
                self.add_item(inst, item);
                proof {
                    assert(self.selected@.take(kicked.len() as int) =~= before.take(kicked.len() as int));
                    assert(kicked + prev.push(item) =~= (kicked + prev).push(item));
                }
            }
            c = c + 1;
        }
        self.unselected = unselected_items(&self.is_selected);
        proof {
            assert forall|j: int| 0 <= j < n && !#[trigger] self.is_selected@[j] implies self.total_weight
                + inst.weights@[j] > inst.max_weight by {
                assert(!kicked_mask[j]);
                assert(candidates@.contains(j as usize));
                let q = choose|q: int| 0 <= q < candidates@.len() && candidates@[q] == j as usize;
                assert(!self.is_selected@[candidates@[q] as int]);
            }
            assert(cs.take(cs.len() as int) =~= cs);
            assert(cs == in_order(u0, order@));
        }
    }
}

} // verus!
