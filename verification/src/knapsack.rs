//! The quadratic knapsack instance, its objective, and the greedy
//! construction along an order of the items.

use vstd::prelude::*;
use crate::sums::{
    distinct_below, lemma_distinct_subrange, lemma_distinct_sum_bound, lemma_masked_sum_nonneg_bound,
    lemma_prefix_sum_bound, lemma_prefix_sum_le, lemma_prefix_sum_mono, lemma_prefix_sum_nonneg, lemma_seq_sum_add, lemma_seq_sum_as_masked,
    lemma_seq_sum_nonneg, lemma_seq_sum_take_le, lemma_seq_sum_take_step, mask_of, prefix_sum, seq_sum,
};

verus! {

/// Largest weight and weight budget: they must convert to `i32` exactly.
pub const WEIGHT_LIMIT: u32 = 0x7fff_ffff;

/// Bound on `values[x] + sum_j |interaction_values[x][j]|` for every item
/// `x`, under which the `i32` move evaluations of the search cannot
/// overflow: an interaction sum is bounded by it, a swap's estimate
/// `sum[a] - sum[b] - interaction_values[a][b]` by three times it, and the
/// scan's cut-off `best gain + smallest selected sum` by four times it,
/// which `i32` just holds.
pub const ROW_LIMIT: i32 = 0x1fff_ffff;

/// Largest number of items.
pub const ITEM_LIMIT: usize = 0xffff_ffff;

/// A quadratic knapsack instance: choose items maximising the sum of their
/// values plus the interaction values of the pairs they form, with total
/// weight at most `max_weight`.
pub struct KnapsackInstance {
    pub seed: [u8; 32],
    pub num_items: usize,
    pub weights: Vec<u32>,
    pub values: Vec<u32>,
    pub interaction_values: Vec<Vec<i32>>,
    pub max_weight: u32,
}

/// `j |-> weights[j]`.
pub open spec fn weight_fn(inst: KnapsackInstance) -> spec_fn(int) -> int {
    |j: int| inst.weights@[j] as int
}

/// `j |-> values[j]`.
pub open spec fn value_fn(inst: KnapsackInstance) -> spec_fn(int) -> int {
    |j: int| inst.values@[j] as int
}

/// `j |-> interaction_values[x][j]`.
pub open spec fn row_fn(inst: KnapsackInstance, x: int) -> spec_fn(int) -> int {
    |j: int| inst.interaction_values@[x]@[j] as int
}

/// `j |-> |interaction_values[x][j]|`.
pub open spec fn abs_row_fn(inst: KnapsackInstance, x: int) -> spec_fn(int) -> int {
    |j: int| {
        let v = inst.interaction_values@[x]@[j] as int;
        if v < 0 { -v } else { v }
    }
}

/// `sum_j |interaction_values[x][j]|`.
pub open spec fn abs_row(inst: KnapsackInstance, x: int) -> int {
    prefix_sum(abs_row_fn(inst, x), inst.num_items as int)
}

/// `x |-> sum_j |interaction_values[x][j]|`.
pub open spec fn abs_rows_fn(inst: KnapsackInstance) -> spec_fn(int) -> int {
    |x: int| abs_row(inst, x)
}

/// `x |-> values[x] + sum_j |interaction_values[x][j]|`, the magnitude
/// that item `x` can contribute to any objective.
pub open spec fn magnitude_fn(inst: KnapsackInstance) -> spec_fn(int) -> int {
    |x: int| inst.values@[x] as int + abs_row(inst, x)
}

/// `sum_j interaction_values[x][j]`, the value-density numerator's
/// interaction part.
pub open spec fn row_total(inst: KnapsackInstance, x: int) -> int {
    prefix_sum(row_fn(inst, x), inst.num_items as int)
}

impl KnapsackInstance {
    /// The shapes agree with `num_items`, and weights, budget and
    /// magnitudes stay within the limits above.
    pub open spec fn wf(&self) -> bool {
        let n = self.num_items as int;
        &&& n <= ITEM_LIMIT
        &&& self.weights.len() == n
        &&& self.values.len() == n
        &&& self.interaction_values.len() == n
        &&& forall|x: int| 0 <= x < n ==> (#[trigger] self.interaction_values@[x]).len() == n
        &&& forall|x: int| 0 <= x < n ==> #[trigger] self.weights@[x] <= WEIGHT_LIMIT
        &&& self.max_weight <= WEIGHT_LIMIT
        &&& forall|x: int| 0 <= x < n ==> #[trigger] magnitude_fn(*self)(x) <= ROW_LIMIT
    }
}

/// Pairwise interactions among the first `a` positions of `s` and the
/// positions after each: `sum_{p < a} sum_{p < q < |s|} iv[s[p]][s[q]]`.
pub open spec fn pair_sum(inst: KnapsackInstance, s: Seq<usize>, a: int) -> int
    decreases a,
{
    if a <= 0 {
        0
    } else {
        pair_sum(inst, s, a - 1) + seq_sum(row_fn(inst, s[a - 1] as int), s.subrange(a, s.len() as int))
    }
}

/// The objective of the selection `s`: the values of its items plus
/// `interaction_values[s[p]][s[q]]` for every pair of positions `p < q`.
pub open spec fn objective(inst: KnapsackInstance, s: Seq<usize>) -> int {
    seq_sum(value_fn(inst), s) + pair_sum(inst, s, s.len() as int)
}

/// Total weight of the selection `s`.
pub open spec fn total_weight(inst: KnapsackInstance, s: Seq<usize>) -> int {
    seq_sum(weight_fn(inst), s)
}

/// `s` is a feasible selection: distinct items, each an item of the
/// instance, of total weight at most the budget.
pub open spec fn feasible(inst: KnapsackInstance, s: Seq<usize>) -> bool {
    &&& distinct_below(s, inst.num_items as int)
    &&& total_weight(inst, s) <= inst.max_weight
}

/// The sum of all item magnitudes fits an `i64` with room to spare.
pub proof fn lemma_total_magnitude(inst: KnapsackInstance)
    requires
        inst.wf(),
    ensures
        0 <= prefix_sum(magnitude_fn(inst), inst.num_items as int) <= 0x1fff_ffff * 0xffff_ffff,
{
    let n = inst.num_items as int;
    assert forall|x: int| 0 <= x < n implies 0 <= #[trigger] magnitude_fn(inst)(x) by {
        lemma_abs_row_nonneg(inst, x);
    }
    lemma_prefix_sum_nonneg(magnitude_fn(inst), n);
    lemma_prefix_sum_le(magnitude_fn(inst), n, 0x1fff_ffff);
    assert(n * 0x1fff_ffff <= 0x1fff_ffff * 0xffff_ffff) by (nonlinear_arith)
        requires 0 <= n <= 0xffff_ffff;
}

pub proof fn lemma_abs_row_nonneg(inst: KnapsackInstance, x: int)
    ensures
        0 <= abs_row(inst, x),
{
    assert forall|j: int| 0 <= j < inst.num_items implies 0 <= #[trigger] abs_row_fn(inst, x)(j) by {}
    lemma_prefix_sum_nonneg(abs_row_fn(inst, x), inst.num_items as int);
}

/// A sum of interactions of row `x` over distinct items is bounded by the
/// row's absolute sum.
pub proof fn lemma_row_sum_bound(inst: KnapsackInstance, x: int, t: Seq<usize>)
    requires
        inst.wf(),
        distinct_below(t, inst.num_items as int),
    ensures
        -abs_row(inst, x) <= seq_sum(row_fn(inst, x), t) <= abs_row(inst, x),
{
    let n = inst.num_items as int;
    assert forall|j: int| 0 <= j < n implies -abs_row_fn(inst, x)(j) <= #[trigger] row_fn(inst, x)(j) <= abs_row_fn(inst, x)(j) by {}
    lemma_distinct_sum_bound(row_fn(inst, x), abs_row_fn(inst, x), t, n);
}

/// Magnitude bound on the pairwise part of the objective.
proof fn lemma_pair_sum_bound(inst: KnapsackInstance, s: Seq<usize>, a: int)
    requires
        inst.wf(),
        distinct_below(s, inst.num_items as int),
        0 <= a <= s.len(),
    ensures
        -seq_sum(abs_rows_fn(inst), s.take(a)) <= pair_sum(inst, s, a) <= seq_sum(abs_rows_fn(inst), s.take(a)),
    decreases a,
{
    if a > 0 {
        lemma_pair_sum_bound(inst, s, a - 1);
        lemma_seq_sum_take_step(abs_rows_fn(inst), s, a - 1);
        lemma_distinct_subrange(s, inst.num_items as int, a, s.len() as int);
        lemma_row_sum_bound(inst, s[a - 1] as int, s.subrange(a, s.len() as int));
    }
}

/// Sums over distinct items of the magnitudes are at most the total.
proof fn lemma_selection_magnitude(inst: KnapsackInstance, s: Seq<usize>)
    requires
        inst.wf(),
        distinct_below(s, inst.num_items as int),
    ensures
        seq_sum(value_fn(inst), s) + seq_sum(abs_rows_fn(inst), s) == seq_sum(magnitude_fn(inst), s),
        0 <= seq_sum(value_fn(inst), s),
        0 <= seq_sum(abs_rows_fn(inst), s),
        seq_sum(magnitude_fn(inst), s) <= prefix_sum(magnitude_fn(inst), inst.num_items as int),
{
    let n = inst.num_items as int;
    lemma_seq_sum_add(value_fn(inst), abs_rows_fn(inst), magnitude_fn(inst), s);
    lemma_seq_sum_nonneg(value_fn(inst), s);
    assert forall|p: int| 0 <= p < s.len() implies 0 <= #[trigger] abs_rows_fn(inst)(s[p] as int) by {
        lemma_abs_row_nonneg(inst, s[p] as int);
    }
    lemma_seq_sum_nonneg(abs_rows_fn(inst), s);
    assert forall|x: int| 0 <= x < n implies 0 <= #[trigger] magnitude_fn(inst)(x) by {
        lemma_abs_row_nonneg(inst, x);
    }
    let m = mask_of(s, n);
    lemma_seq_sum_as_masked(magnitude_fn(inst), s, m, n);
    lemma_masked_sum_nonneg_bound(magnitude_fn(inst), m, n);
}

/// The objective of a selection of distinct items is at most the sum of
/// all item magnitudes.
pub proof fn lemma_objective_bound(inst: KnapsackInstance, s: Seq<usize>)
    requires
        inst.wf(),
        distinct_below(s, inst.num_items as int),
    ensures
        objective(inst, s) <= prefix_sum(magnitude_fn(inst), inst.num_items as int),
        -prefix_sum(magnitude_fn(inst), inst.num_items as int) <= objective(inst, s),
{
    lemma_pair_sum_bound(inst, s, s.len() as int);
    lemma_selection_magnitude(inst, s);
    assert(s.take(s.len() as int) =~= s);
}

/// The objective of the selection `selected`, computed as
/// `sum values + sum_{p < q} interaction_values[selected[p]][selected[q]]`.
pub fn compute_obj(inst: &KnapsackInstance, selected: &Vec<usize>) -> (obj: i64)
    requires
        inst.wf(),
        distinct_below(selected@, inst.num_items as int),
    ensures
        obj == objective(*inst, selected@),
{
    let ghost s = selected@;
    let ghost n = inst.num_items as int;
    proof {
        lemma_total_magnitude(*inst);
        lemma_selection_magnitude(*inst, s);
    }
    let len = selected.len();
    let mut val: i64 = 0;
    let mut i: usize = 0;
    while i < len
        invariant
            inst.wf(),
            s == selected@,
            len == s.len(),
            distinct_below(s, n),
            n == inst.num_items,
            i <= len,
            val == seq_sum(value_fn(*inst), s.take(i as int)),
            0 <= seq_sum(value_fn(*inst), s),
            0 <= seq_sum(abs_rows_fn(*inst), s),
            seq_sum(value_fn(*inst), s) + seq_sum(abs_rows_fn(*inst), s) <= 0x1fff_ffff * 0xffff_ffff,
        decreases len - i,
    {
        proof {
            lemma_seq_sum_take_step(value_fn(*inst), s, i as int);
            lemma_seq_sum_take_le(value_fn(*inst), s, i as int + 1);
        }
        val = val + inst.values[selected[i]] as i64;
        i = i + 1;
    }
    assert(s.take(len as int) =~= s);
    let ghost total_values = seq_sum(value_fn(*inst), s);
    let mut a: usize = 0;
    while a < len
        invariant
            inst.wf(),
            s == selected@,
            len == s.len(),
            distinct_below(s, n),
            n == inst.num_items,
            a <= len,
            total_values == seq_sum(value_fn(*inst), s),
            val == total_values + pair_sum(*inst, s, a as int),
            0 <= total_values,
            0 <= seq_sum(abs_rows_fn(*inst), s),
            total_values + seq_sum(abs_rows_fn(*inst), s) <= 0x1fff_ffff * 0xffff_ffff,
        decreases len - a,
    {
        let ra = selected[a];
        let row = &inst.interaction_values[ra];
        let ghost f = row_fn(*inst, ra as int);
        proof {
            lemma_pair_sum_bound(*inst, s, a as int);
            lemma_seq_sum_take_step(abs_rows_fn(*inst), s, a as int);
            assert forall|j: int| 0 <= #[trigger] abs_rows_fn(*inst)(j) by {
                lemma_abs_row_nonneg(*inst, j);
            }
            lemma_seq_sum_take_le(abs_rows_fn(*inst), s, a as int + 1);
        }
        let mut b: usize = a + 1;
        while b < len
            invariant
                inst.wf(),
                s == selected@,
                len == s.len(),
                distinct_below(s, n),
                n == inst.num_items,
                a < len,
                a + 1 <= b <= len,
                ra == s[a as int],
                row@ == inst.interaction_values@[ra as int]@,
                f == row_fn(*inst, ra as int),
                val == total_values + pair_sum(*inst, s, a as int) + seq_sum(f, s.subrange(a + 1, b as int)),
                -seq_sum(abs_rows_fn(*inst), s.take(a as int)) <= pair_sum(*inst, s, a as int)
                    <= seq_sum(abs_rows_fn(*inst), s.take(a as int)),
                seq_sum(abs_rows_fn(*inst), s.take(a as int)) + abs_row(*inst, ra as int)
                    <= seq_sum(abs_rows_fn(*inst), s),
                0 <= total_values,
                total_values + seq_sum(abs_rows_fn(*inst), s) <= 0x1fff_ffff * 0xffff_ffff,
            decreases len - b,
        {
            proof {
                assert(s.subrange(a + 1, b + 1).drop_last() =~= s.subrange(a + 1, b as int));
                lemma_distinct_subrange(s, n, a + 1, b + 1);
                lemma_row_sum_bound(*inst, ra as int, s.subrange(a + 1, b + 1));
            }
            val = val + row[selected[b]] as i64;
            b = b + 1;
        }
        a = a + 1;
    }
    val
}

/// The numerator of item `x`'s value density:
/// `values[x] + sum_j interaction_values[x][j]`.
pub open spec fn density_numerator(inst: KnapsackInstance, x: int) -> int {
    inst.values@[x] as int + row_total(inst, x)
}

/// The density numerators of all items.
pub open spec fn density_numerators_of(inst: KnapsackInstance) -> Seq<i32> {
    Seq::new(inst.num_items as nat, |x: int| density_numerator(inst, x) as i32)
}

/// `order` lists every item exactly once.
pub open spec fn is_item_order(inst: KnapsackInstance, order: Seq<usize>) -> bool {
    &&& order.len() == inst.num_items
    &&& distinct_below(order, inst.num_items as int)
}

/// The greedy selection along `order`: each item is taken when it still
/// fits beside the items taken before it.
pub open spec fn greedy_fill(inst: KnapsackInstance, order: Seq<usize>) -> Seq<usize>
    decreases order.len(),
{
    if order.len() == 0 {
        Seq::empty()
    } else {
        let prev = greedy_fill(inst, order.drop_last());
        let x = order.last();
        if total_weight(inst, prev) + inst.weights@[x as int] <= inst.max_weight {
            prev.push(x)
        } else {
            prev
        }
    }
}

proof fn lemma_density_numerator_bound(inst: KnapsackInstance, x: int)
    requires
        inst.wf(),
        0 <= x < inst.num_items,
    ensures
        -abs_row(inst, x) <= row_total(inst, x) <= abs_row(inst, x),
        -ROW_LIMIT <= density_numerator(inst, x) <= ROW_LIMIT,
{
    let n = inst.num_items as int;
    assert forall|j: int| 0 <= j < n implies -abs_row_fn(inst, x)(j) <= #[trigger] row_fn(inst, x)(j) <= abs_row_fn(inst, x)(j) by {}
    lemma_prefix_sum_bound(row_fn(inst, x), abs_row_fn(inst, x), n);
    assert(magnitude_fn(inst)(x) <= ROW_LIMIT);
}

/// The density numerator of every item.
pub fn density_numerators(inst: &KnapsackInstance) -> (nums: Vec<i32>)
    requires
        inst.wf(),
    ensures
        nums@ == density_numerators_of(*inst),
{
    let n = inst.num_items;
    let mut nums: Vec<i32> = Vec::new();
    let mut x: usize = 0;
    while x < n
        invariant
            inst.wf(),
            n == inst.num_items,
            x <= n,
            nums.len() == x,
            forall|y: int| 0 <= y < x ==> #[trigger] nums@[y] == density_numerator(*inst, y),
        decreases n - x,
    {
        let row = &inst.interaction_values[x];
        let ghost f = row_fn(*inst, x as int);
        let ghost g = abs_row_fn(*inst, x as int);
        proof {
            lemma_density_numerator_bound(*inst, x as int);
            assert(magnitude_fn(*inst)(x as int) <= ROW_LIMIT);
            assert forall|j: int| 0 <= j < n implies 0 <= #[trigger] g(j) by {}
        }
        let mut total: i32 = 0;
        let mut j: usize = 0;
        while j < n
            invariant
                inst.wf(),
                n == inst.num_items,
                x < n,
                row@ == inst.interaction_values@[x as int]@,
                f == row_fn(*inst, x as int),
                g == abs_row_fn(*inst, x as int),
                forall|i: int| 0 <= i < n ==> 0 <= #[trigger] g(i),
                abs_row(*inst, x as int) <= ROW_LIMIT,
                j <= n,
                total == prefix_sum(f, j as int),
            decreases n - j,
        {
            proof {
                assert forall|i: int| 0 <= i < j + 1 implies -g(i) <= #[trigger] f(i) <= g(i) by {}
                lemma_prefix_sum_bound(f, g, j + 1);
                lemma_prefix_sum_mono(g, j + 1, n as int);
                lemma_abs_row_nonneg(*inst, x as int);
            }
            total = total + row[j];
            j = j + 1;
        }
        proof {
            assert(magnitude_fn(*inst)(x as int) <= ROW_LIMIT);
        }
        nums.push(inst.values[x] as i32 + total);
        x = x + 1;
    }
    assert(nums@ =~= density_numerators_of(*inst));
    nums
}

/// The greedy selection along `order`, with its membership mask and its
/// total weight.
pub fn greedy_initial(inst: &KnapsackInstance, order: &Vec<usize>) -> (res: (Vec<usize>, Vec<bool>, u32))
    requires
        inst.wf(),
        distinct_below(order@, inst.num_items as int),
    ensures
        res.0@ == greedy_fill(*inst, order@),
        feasible(*inst, res.0@),
        res.1@ == mask_of(res.0@, inst.num_items as int),
        res.2 == total_weight(*inst, res.0@),
        forall|q: int|
            0 <= q < order@.len() && !res.0@.contains(#[trigger] order@[q]) ==> res.2 + inst.weights@[order@[q] as int]
                > inst.max_weight,
{
    let n = inst.num_items;
    let mut selected: Vec<usize> = Vec::new();
    let mut is_selected: Vec<bool> = Vec::new();
    let mut i: usize = 0;
    while i < n
        invariant
            i <= n,
            is_selected.len() == i,
            forall|j: int| 0 <= j < i ==> !#[trigger] is_selected@[j],
        decreases n - i,
    {
        is_selected.push(false);
        i = i + 1;
    }
    let mut total: u32 = 0;
    let mut k: usize = 0;
    let ghost o = order@;
    assert(o.take(0) =~= Seq::<usize>::empty());
    while k < order.len()
        invariant
            inst.wf(),
            n == inst.num_items,
            o == order@,
            distinct_below(o, n as int),
            k <= o.len(),
            selected@ == greedy_fill(*inst, o.take(k as int)),
            is_selected.len() == n,
            forall|j: int| 0 <= j < n ==> (#[trigger] is_selected@[j] <==> selected@.contains(j as usize)),
            forall|j: int| 0 <= j < n && #[trigger] is_selected@[j] ==> o.take(k as int).contains(j as usize),
            distinct_below(selected@, n as int),
            total == total_weight(*inst, selected@),
            total <= inst.max_weight,
            forall|q: int|
                0 <= q < k && !selected@.contains(#[trigger] o[q]) ==> total + inst.weights@[o[q] as int] > inst.max_weight,
        decreases o.len() - k,
    {
        let item = order[k];
        proof {
            assert(o.take(k + 1).drop_last() =~= o.take(k as int));
            assert(o[k as int] < n);
            if is_selected@[item as int] {
                let p = choose|p: int| 0 <= p < o.take(k as int).len() && o.take(k as int)[p] == item;
                assert(o[p] == o[k as int]);
            }
        }
        if total + inst.weights[item] <= inst.max_weight {
            let ghost prev = selected@;
            selected.push(item);
            is_selected.set(item, true);
            total = total + inst.weights[item];
            proof {
                assert(selected@.drop_last() =~= prev);
                assert forall|j: int| 0 <= j < n implies (#[trigger] is_selected@[j] <==> selected@.contains(j as usize)) by {
                    if j == item {
                        assert(selected@[prev.len() as int] == item);
                    } else {
                        if prev.contains(j as usize) {
                            let p = choose|p: int| 0 <= p < prev.len() && prev[p] == j as usize;
                            assert(selected@[p] == j as usize);
                        }
                        if selected@.contains(j as usize) {
                            let p = choose|p: int| 0 <= p < selected@.len() && selected@[p] == j as usize;
                            assert(p < prev.len());
                            assert(prev[p] == j as usize);
                        }
                    }
                }
                assert forall|j: int| 0 <= j < n && #[trigger] is_selected@[j] implies o.take(k + 1).contains(j as usize) by {
                    if j == item {
                        assert(o.take(k + 1)[k as int] == item);
                    } else {
                        let p = choose|p: int| 0 <= p < o.take(k as int).len() && o.take(k as int)[p] == j as usize;
                        assert(o.take(k + 1)[p] == j as usize);
                    }
                }
                assert forall|p: int, q: int| 0 <= p < selected@.len() && 0 <= q < selected@.len() && p != q implies selected@[p] != selected@[q] by {
                    if p == prev.len() {
                        assert(prev[q] == selected@[q]);
                        assert(prev.contains(selected@[q]));
                    } else if q == prev.len() {
                        assert(prev[p] == selected@[p]);
                        assert(prev.contains(selected@[p]));
                    }
                }
                assert forall|p: int| 0 <= p < selected@.len() implies #[trigger] selected@[p] < n by {
                    if p < prev.len() {
                        assert(prev[p] == selected@[p]);
                    }
                }
                assert forall|q: int| 0 <= q < k + 1 && !selected@.contains(#[trigger] o[q]) implies total
                    + inst.weights@[o[q] as int] > inst.max_weight by {
                    if q < k && prev.contains(o[q]) {
                        let p = choose|p: int| 0 <= p < prev.len() && prev[p] == o[q];
                        assert(selected@[p] == o[q]);
                    }
                    if q == k {
                        assert(selected@[prev.len() as int] == o[q]);
                    }
                }
            }
        } else {
            proof {
                assert forall|j: int| 0 <= j < n && #[trigger] is_selected@[j] implies o.take(k + 1).contains(j as usize) by {
                    let p = choose|p: int| 0 <= p < o.take(k as int).len() && o.take(k as int)[p] == j as usize;
                    assert(o.take(k + 1)[p] == j as usize);
                }
            }
        }
        k = k + 1;
    }
    assert(o.take(o.len() as int) =~= o);
    assert(is_selected@ =~= mask_of(selected@, n as int));
    (selected, is_selected, total)
}

impl KnapsackInstance {
    /// Whether the instance is well formed (see `wf`).
    pub fn check(&self) -> (ok: bool)
        ensures
            ok == self.wf(),
    {
        let n = self.num_items;
        if n > ITEM_LIMIT || self.weights.len() != n || self.values.len() != n || self.interaction_values.len() != n
            || self.max_weight > WEIGHT_LIMIT {
            return false;
        }
        let mut x: usize = 0;
        while x < n
            invariant
                n == self.num_items,
                n <= ITEM_LIMIT,
                self.weights.len() == n,
                self.values.len() == n,
                self.interaction_values.len() == n,
                self.max_weight <= WEIGHT_LIMIT,
                x <= n,
                forall|y: int| 0 <= y < x ==> (#[trigger] self.interaction_values@[y]).len() == n,
                forall|y: int| 0 <= y < x ==> #[trigger] self.weights@[y] <= WEIGHT_LIMIT,
                forall|y: int| 0 <= y < x ==> #[trigger] magnitude_fn(*self)(y) <= ROW_LIMIT,
            decreases n - x,
        {
            let w = self.weights[x];
            if w > WEIGHT_LIMIT {
                return false;
            }
            let row = &self.interaction_values[x];
            if row.len() != n {
                return false;
            }
            let ghost g = abs_row_fn(*self, x as int);
            if self.values[x] > ROW_LIMIT as u32 {
                proof {
                    lemma_abs_row_nonneg(*self, x as int);
                    assert(magnitude_fn(*self)(x as int) > ROW_LIMIT);
                }
                return false;
            }
            let mut total: i64 = self.values[x] as i64;
            let mut j: usize = 0;
            while j < n
                invariant
                    n == self.num_items,
                    x < n,
                    self.interaction_values.len() == n,
                    self.values.len() == n,
                    row@ == self.interaction_values@[x as int]@,
                    row.len() == n,
                    g == abs_row_fn(*self, x as int),
                    j <= n,
                    total == self.values@[x as int] as int + prefix_sum(g, j as int),
                    total <= ROW_LIMIT,
                decreases n - j,
            {
                let v = row[j];
                let a: i64 = if v < 0 { -(v as i64) } else { v as i64 };
                total = total + a;
                if total > ROW_LIMIT as i64 {
                    proof {
                        assert forall|i: int| 0 <= i < n implies 0 <= #[trigger] g(i) by {}
                        crate::sums::lemma_prefix_sum_mono(g, j + 1, n as int);
                        assert(magnitude_fn(*self)(x as int) > ROW_LIMIT);
                    }
                    return false;
                }
                j = j + 1;
            }
            proof {
                assert(magnitude_fn(*self)(x as int) <= ROW_LIMIT);
            }
            x = x + 1;
        }
        true
    }
}

} // verus!
