//! Finite sums used by the specifications: sums over a boolean mask of
//! indices, over a sequence of indices, and over an index prefix.

use vstd::prelude::*;

verus! {

/// `sum_{j < k, mask[j]} f(j)`.
pub open spec fn masked_sum(f: spec_fn(int) -> int, mask: Seq<bool>, k: int) -> int
    decreases k,
{
    if k <= 0 {
        0
    } else {
        masked_sum(f, mask, k - 1) + (if mask[k - 1] { f(k - 1) } else { 0 })
    }
}

/// `sum_{j < k} f(j)`.
pub open spec fn prefix_sum(f: spec_fn(int) -> int, k: int) -> int
    decreases k,
{
    if k <= 0 {
        0
    } else {
        prefix_sum(f, k - 1) + f(k - 1)
    }
}

/// `sum_{0 <= p < s.len()} f(s[p])`.
pub open spec fn seq_sum(f: spec_fn(int) -> int, s: Seq<usize>) -> int
    decreases s.len(),
{
    if s.len() == 0 {
        0
    } else {
        seq_sum(f, s.drop_last()) + f(s.last() as int)
    }
}

/// The mask of length `n` that marks exactly the members of `s`.
pub open spec fn mask_of(s: Seq<usize>, n: int) -> Seq<bool> {
    Seq::new(n as nat, |j: int| s.contains(j as usize))
}

/// `s` holds distinct indices, each below `n`.
pub open spec fn distinct_below(s: Seq<usize>, n: int) -> bool {
    &&& s.no_duplicates()
    &&& forall|p: int| 0 <= p < s.len() ==> #[trigger] s[p] < n
}

pub proof fn lemma_masked_sum_update(f: spec_fn(int) -> int, mask: Seq<bool>, k: int, i: int, b: bool)
    requires
        0 <= i < k <= mask.len(),
    ensures
        masked_sum(f, mask.update(i, b), k) == masked_sum(f, mask, k) - (if mask[i] { f(i) } else { 0 })
            + (if b { f(i) } else { 0 }),
    decreases k,
{
    if k - 1 > i {
        lemma_masked_sum_update(f, mask, k - 1, i, b);
    } else {
        lemma_masked_sum_frame(f, mask, mask.update(i, b), k - 1);
    }
}

/// Masks that agree below `k` give the same sum.
pub proof fn lemma_masked_sum_frame(f: spec_fn(int) -> int, m1: Seq<bool>, m2: Seq<bool>, k: int)
    requires
        k <= m1.len(),
        k <= m2.len(),
        forall|j: int| 0 <= j < k ==> m1[j] == m2[j],
    ensures
        masked_sum(f, m1, k) == masked_sum(f, m2, k),
    decreases k,
{
    if k > 0 {
        lemma_masked_sum_frame(f, m1, m2, k - 1);
    }
}

/// Functions that agree below `k` give the same masked sum.
pub proof fn lemma_masked_sum_fn_frame(f: spec_fn(int) -> int, g: spec_fn(int) -> int, m: Seq<bool>, k: int)
    requires
        k <= m.len(),
        forall|j: int| 0 <= j < k ==> #[trigger] f(j) == g(j),
    ensures
        masked_sum(f, m, k) == masked_sum(g, m, k),
    decreases k,
{
    if k > 0 {
        lemma_masked_sum_fn_frame(f, g, m, k - 1);
    }
}

pub proof fn lemma_masked_sum_none(f: spec_fn(int) -> int, mask: Seq<bool>, k: int)
    requires
        k <= mask.len(),
        forall|j: int| 0 <= j < k ==> !mask[j],
    ensures
        masked_sum(f, mask, k) == 0,
    decreases k,
{
    if k > 0 {
        lemma_masked_sum_none(f, mask, k - 1);
    }
}

/// A masked sum is bounded by the full sum of a bound on each term.
pub proof fn lemma_masked_sum_bound(f: spec_fn(int) -> int, g: spec_fn(int) -> int, mask: Seq<bool>, k: int)
    requires
        k <= mask.len(),
        forall|j: int| 0 <= j < k ==> -g(j) <= #[trigger] f(j) <= g(j),
    ensures
        -prefix_sum(g, k) <= masked_sum(f, mask, k) <= prefix_sum(g, k),
    decreases k,
{
    if k > 0 {
        lemma_masked_sum_bound(f, g, mask, k - 1);
        assert(-g(k - 1) <= f(k - 1) <= g(k - 1));
    }
}

/// A masked sum of non-negative terms is at most the full sum.
pub proof fn lemma_masked_sum_nonneg_bound(f: spec_fn(int) -> int, mask: Seq<bool>, k: int)
    requires
        k <= mask.len(),
        forall|j: int| 0 <= j < k ==> 0 <= #[trigger] f(j),
    ensures
        0 <= masked_sum(f, mask, k) <= prefix_sum(f, k),
    decreases k,
{
    if k > 0 {
        lemma_masked_sum_nonneg_bound(f, mask, k - 1);
        assert(0 <= f(k - 1));
    }
}

/// The sum over a sequence of distinct indices equals the masked sum over
/// the mask that marks them.
pub proof fn lemma_seq_sum_as_masked(f: spec_fn(int) -> int, s: Seq<usize>, mask: Seq<bool>, n: int)
    requires
        distinct_below(s, n),
        0 <= n <= usize::MAX,
        mask.len() == n,
        forall|j: int| 0 <= j < n ==> (#[trigger] mask[j] <==> s.contains(j as usize)),
    ensures
        seq_sum(f, s) == masked_sum(f, mask, n),
    decreases s.len(),
{
    if s.len() == 0 {
        lemma_masked_sum_none(f, mask, n);
    } else {
        let t = s.last();
        let s2 = s.drop_last();
        let m2 = mask.update(t as int, false);
        assert(s.contains(t));
        assert(s[s.len() - 1] < n);
        assert forall|j: int| 0 <= j < n implies (#[trigger] m2[j] <==> s2.contains(j as usize)) by {
            if j == t {
                if s2.contains(j as usize) {
                    let p = choose|p: int| 0 <= p < s2.len() && s2[p] == j as usize;
                    assert(s[p] == s[s.len() - 1]);
                }
            } else {
                if mask[j] {
                    let p = choose|p: int| 0 <= p < s.len() && s[p] == j as usize;
                    assert(p != s.len() - 1);
                    assert(s2[p] == j as usize);
                }
                if s2.contains(j as usize) {
                    let p = choose|p: int| 0 <= p < s2.len() && s2[p] == j as usize;
                    assert(s[p] == j as usize);
                }
            }
        }
        assert(distinct_below(s2, n)) by {
            assert forall|p: int| 0 <= p < s2.len() implies #[trigger] s2[p] < n by {
                assert(s[p] < n);
            }
        }
        lemma_seq_sum_as_masked(f, s2, m2, n);
        lemma_masked_sum_update(f, mask, n, t as int, false);
        assert(mask[t as int]);
    }
}

/// `seq_sum` distributes over concatenation.
pub proof fn lemma_seq_sum_concat(f: spec_fn(int) -> int, a: Seq<usize>, b: Seq<usize>)
    ensures
        seq_sum(f, a + b) == seq_sum(f, a) + seq_sum(f, b),
    decreases b.len(),
{
    if b.len() == 0 {
        assert(a + b =~= a);
    } else {
        lemma_seq_sum_concat(f, a, b.drop_last());
        assert((a + b).drop_last() =~= a + b.drop_last());
    }
}

/// A sum over the prefix `take(i + 1)` adds the `i`-th term.
pub proof fn lemma_seq_sum_take_step(f: spec_fn(int) -> int, s: Seq<usize>, i: int)
    requires
        0 <= i < s.len(),
    ensures
        seq_sum(f, s.take(i + 1)) == seq_sum(f, s.take(i)) + f(s[i] as int),
{
    assert(s.take(i + 1).drop_last() =~= s.take(i));
}

/// A sum of non-negative terms is non-negative.
pub proof fn lemma_seq_sum_nonneg(f: spec_fn(int) -> int, s: Seq<usize>)
    requires
        forall|p: int| 0 <= p < s.len() ==> 0 <= #[trigger] f(s[p] as int),
    ensures
        0 <= seq_sum(f, s),
    decreases s.len(),
{
    if s.len() > 0 {
        let t = s.drop_last();
        assert forall|p: int| 0 <= p < t.len() implies 0 <= #[trigger] f(t[p] as int) by {
            assert(t[p] == s[p]);
        }
        lemma_seq_sum_nonneg(f, t);
        assert(0 <= f(s[s.len() - 1] as int));
    }
}

/// Termwise addition of sums.
pub proof fn lemma_seq_sum_add(f: spec_fn(int) -> int, g: spec_fn(int) -> int, h: spec_fn(int) -> int, s: Seq<usize>)
    requires
        forall|j: int| #[trigger] h(j) == f(j) + g(j),
    ensures
        seq_sum(h, s) == seq_sum(f, s) + seq_sum(g, s),
    decreases s.len(),
{
    if s.len() > 0 {
        lemma_seq_sum_add(f, g, h, s.drop_last());
        assert(h(s.last() as int) == f(s.last() as int) + g(s.last() as int));
    }
}

/// Functions that agree on the members of `s` have the same sum over it.
pub proof fn lemma_seq_sum_fn_frame(f: spec_fn(int) -> int, g: spec_fn(int) -> int, s: Seq<usize>)
    requires
        forall|p: int| 0 <= p < s.len() ==> #[trigger] f(s[p] as int) == g(s[p] as int),
    ensures
        seq_sum(f, s) == seq_sum(g, s),
    decreases s.len(),
{
    if s.len() > 0 {
        let t = s.drop_last();
        assert forall|p: int| 0 <= p < t.len() implies #[trigger] f(t[p] as int) == g(t[p] as int) by {
            assert(t[p] == s[p]);
        }
        lemma_seq_sum_fn_frame(f, g, t);
        assert(f(s[s.len() - 1] as int) == g(s[s.len() - 1] as int));
    }
}

/// A prefix sum of terms bounded by `c` is at most `k * c`.
pub proof fn lemma_prefix_sum_le(f: spec_fn(int) -> int, k: int, c: int)
    requires
        0 <= k,
        forall|j: int| 0 <= j < k ==> #[trigger] f(j) <= c,
    ensures
        prefix_sum(f, k) <= k * c,
    decreases k,
{
    if k > 0 {
        lemma_prefix_sum_le(f, k - 1, c);
        assert(f(k - 1) <= c);
        assert((k - 1) * c + c == k * c) by (nonlinear_arith);
    } else {
        assert(k * c == 0) by (nonlinear_arith) requires k == 0;
    }
}

/// A prefix sum of non-negative terms is non-negative.
pub proof fn lemma_prefix_sum_nonneg(f: spec_fn(int) -> int, k: int)
    requires
        forall|j: int| 0 <= j < k ==> 0 <= #[trigger] f(j),
    ensures
        0 <= prefix_sum(f, k),
    decreases k,
{
    if k > 0 {
        lemma_prefix_sum_nonneg(f, k - 1);
        assert(0 <= f(k - 1));
    }
}

/// Subranges of a sequence of distinct indices below `n` are such too.
pub proof fn lemma_distinct_subrange(s: Seq<usize>, n: int, a: int, b: int)
    requires
        distinct_below(s, n),
        0 <= a <= b <= s.len(),
    ensures
        distinct_below(s.subrange(a, b), n),
{
    let t = s.subrange(a, b);
    assert forall|p: int| 0 <= p < t.len() implies #[trigger] t[p] < n by {
        assert(t[p] == s[a + p]);
    }
    assert forall|p: int, q: int| 0 <= p < t.len() && 0 <= q < t.len() && p != q implies t[p] != t[q] by {
        assert(t[p] == s[a + p] && t[q] == s[a + q]);
    }
}

/// The sum over distinct indices below `n` of terms bounded by `g` is
/// bounded by the full prefix sum of `g`.
pub proof fn lemma_distinct_sum_bound(f: spec_fn(int) -> int, g: spec_fn(int) -> int, s: Seq<usize>, n: int)
    requires
        distinct_below(s, n),
        0 <= n <= usize::MAX,
        forall|j: int| 0 <= j < n ==> -g(j) <= #[trigger] f(j) <= g(j),
    ensures
        -prefix_sum(g, n) <= seq_sum(f, s) <= prefix_sum(g, n),
{
    let m = mask_of(s, n);
    lemma_seq_sum_as_masked(f, s, m, n);
    lemma_masked_sum_bound(f, g, m, n);
}

/// For non-negative terms, a prefix sums to at most the whole.
pub proof fn lemma_seq_sum_take_le(f: spec_fn(int) -> int, s: Seq<usize>, i: int)
    requires
        0 <= i <= s.len(),
        forall|j: int| 0 <= #[trigger] f(j),
    ensures
        0 <= seq_sum(f, s.take(i)) <= seq_sum(f, s),
{
    assert(s.take(i) + s.skip(i) =~= s);
    lemma_seq_sum_concat(f, s.take(i), s.skip(i));
    lemma_seq_sum_nonneg(f, s.skip(i));
    lemma_seq_sum_nonneg(f, s.take(i));
}

/// A prefix sum of terms bounded by `g` is bounded by the prefix sum of `g`.
pub proof fn lemma_prefix_sum_bound(f: spec_fn(int) -> int, g: spec_fn(int) -> int, k: int)
    requires
        forall|j: int| 0 <= j < k ==> -g(j) <= #[trigger] f(j) <= g(j),
    ensures
        -prefix_sum(g, k) <= prefix_sum(f, k) <= prefix_sum(g, k),
    decreases k,
{
    if k > 0 {
        lemma_prefix_sum_bound(f, g, k - 1);
        assert(-g(k - 1) <= f(k - 1) <= g(k - 1));
    }
}

/// Prefix sums of non-negative terms grow with the prefix.
pub proof fn lemma_prefix_sum_mono(g: spec_fn(int) -> int, k: int, m: int)
    requires
        0 <= k <= m,
        forall|j: int| 0 <= j < m ==> 0 <= #[trigger] g(j),
    ensures
        prefix_sum(g, k) <= prefix_sum(g, m),
    decreases m - k,
{
    if k < m {
        lemma_prefix_sum_mono(g, k, m - 1);
        assert(0 <= g(m - 1));
    }
}

/// Membership of `s` among the indices below `n`, as a mask.
pub open spec fn is_mask_of(mask: Seq<bool>, s: Seq<usize>, n: int) -> bool {
    &&& mask.len() == n
    &&& forall|j: int| 0 <= j < n ==> (#[trigger] mask[j] <==> s.contains(j as usize))
}

/// Removing position `i` by moving the last element into it keeps the
/// other elements, and only them.
pub proof fn lemma_swap_remove_distinct(s: Seq<usize>, n: int, i: int)
    requires
        distinct_below(s, n),
        0 <= i < s.len(),
    ensures
        distinct_below(s.update(i, s.last()).drop_last(), n),
        forall|v: usize| #[trigger] s.update(i, s.last()).drop_last().contains(v) <==> (s.contains(v) && v != s[i]),
        s.update(i, s.last()).drop_last().len() == s.len() - 1,
{
    let r = s.update(i, s.last()).drop_last();
    let l = s.len() - 1;
    assert forall|p: int| 0 <= p < r.len() implies #[trigger] r[p] < n by {
        if p == i { assert(r[p] == s[l]); } else { assert(r[p] == s[p]); }
    }
    assert forall|p: int, q: int| 0 <= p < r.len() && 0 <= q < r.len() && p != q implies r[p] != r[q] by {
        let sp = if p == i { l } else { p };
        let sq = if q == i { l } else { q };
        assert(r[p] == s[sp] && r[q] == s[sq]);
    }
    assert forall|v: usize| #[trigger] r.contains(v) <==> (s.contains(v) && v != s[i]) by {
        if r.contains(v) {
            let p = choose|p: int| 0 <= p < r.len() && r[p] == v;
            let sp = if p == i { l } else { p };
            assert(s[sp] == v);
            assert(sp != i);
        }
        if s.contains(v) && v != s[i] {
            let p = choose|p: int| 0 <= p < s.len() && s[p] == v;
            if p == l {
                assert(r[i] == v);
            } else {
                assert(r[p] == v);
            }
        }
    }
}

/// Appending a fresh index keeps the elements distinct.
pub proof fn lemma_push_distinct(s: Seq<usize>, n: int, v: usize)
    requires
        distinct_below(s, n),
        !s.contains(v),
        v < n,
    ensures
        distinct_below(s.push(v), n),
        forall|w: usize| #[trigger] s.push(v).contains(w) <==> (s.contains(w) || w == v),
{
    let r = s.push(v);
    assert forall|p: int| 0 <= p < r.len() implies #[trigger] r[p] < n by {
        if p < s.len() { assert(r[p] == s[p]); }
    }
    assert forall|p: int, q: int| 0 <= p < r.len() && 0 <= q < r.len() && p != q implies r[p] != r[q] by {
        if p == s.len() {
            assert(r[q] == s[q]);
        } else if q == s.len() {
            assert(r[p] == s[p]);
        } else {
            assert(r[p] == s[p] && r[q] == s[q]);
        }
    }
    assert forall|w: usize| #[trigger] r.contains(w) <==> (s.contains(w) || w == v) by {
        if r.contains(w) {
            let p = choose|p: int| 0 <= p < r.len() && r[p] == w;
            if p < s.len() { assert(s[p] == w); }
        }
        if s.contains(w) {
            let p = choose|p: int| 0 <= p < s.len() && s[p] == w;
            assert(r[p] == w);
        }
        if w == v {
            assert(r[s.len() as int] == w);
        }
    }
}

/// `j |-> 1`.
pub open spec fn one_fn() -> spec_fn(int) -> int {
    |j: int| 1int
}

pub proof fn lemma_seq_sum_one(s: Seq<usize>)
    ensures
        seq_sum(one_fn(), s) == s.len(),
    decreases s.len(),
{
    if s.len() > 0 {
        lemma_seq_sum_one(s.drop_last());
    }
}

/// `n` distinct indices below `n` are all of them.
pub proof fn lemma_distinct_covers(s: Seq<usize>, n: int)
    requires
        distinct_below(s, n),
        s.len() == n,
        n <= usize::MAX,
    ensures
        forall|j: int| 0 <= j < n ==> #[trigger] s.contains(j as usize),
{
    let m = mask_of(s, n);
    lemma_seq_sum_as_masked(one_fn(), s, m, n);
    lemma_seq_sum_one(s);
    assert forall|j: int| 0 <= j < n implies #[trigger] s.contains(j as usize) by {
        if !s.contains(j as usize) {
            assert(!m[j]);
            lemma_masked_sum_update(one_fn(), m, n, j, true);
            assert forall|i: int| 0 <= i < n implies 0 <= #[trigger] one_fn()(i) by {}
            lemma_masked_sum_nonneg_bound(one_fn(), m.update(j, true), n);
            assert forall|i: int| 0 <= i < n implies #[trigger] one_fn()(i) <= 1 by {}
            lemma_prefix_sum_le(one_fn(), n, 1);
        }
    }
}

/// Inserting an element adds its term.
pub proof fn lemma_seq_sum_insert(f: spec_fn(int) -> int, s: Seq<usize>, i: int, x: usize)
    requires
        0 <= i <= s.len(),
    ensures
        seq_sum(f, s.insert(i, x)) == seq_sum(f, s) + f(x as int),
{
    assert(s.insert(i, x) =~= s.take(i) + seq![x] + s.skip(i));
    assert(s =~= s.take(i) + s.skip(i));
    lemma_seq_sum_concat(f, s.take(i) + seq![x], s.skip(i));
    lemma_seq_sum_concat(f, s.take(i), seq![x]);
    lemma_seq_sum_concat(f, s.take(i), s.skip(i));
    assert(seq![x].drop_last() =~= Seq::<usize>::empty());
    assert(seq_sum(f, Seq::<usize>::empty()) == 0);
    assert(seq_sum(f, seq![x]) == seq_sum(f, seq![x].drop_last()) + f(x as int));
}

/// Distinct indices below `n` that avoid `j` number at most `n - 1`.
pub proof fn lemma_distinct_len_avoiding(s: Seq<usize>, n: int, j: int)
    requires
        distinct_below(s, n),
        0 <= j < n <= usize::MAX,
        !s.contains(j as usize),
    ensures
        s.len() <= n - 1,
{
    let m = mask_of(s, n);
    lemma_seq_sum_as_masked(one_fn(), s, m, n);
    lemma_seq_sum_one(s);
    assert(!m[j]);
    lemma_masked_sum_update(one_fn(), m, n, j, true);
    assert forall|i: int| 0 <= i < n implies 0 <= #[trigger] one_fn()(i) by {}
    lemma_masked_sum_nonneg_bound(one_fn(), m.update(j, true), n);
    assert forall|i: int| 0 <= i < n implies #[trigger] one_fn()(i) <= 1 by {}
    lemma_prefix_sum_le(one_fn(), n, 1);
}

/// Inserting a fresh index keeps the elements distinct.
pub proof fn lemma_insert_distinct(s: Seq<usize>, n: int, i: int, v: usize)
    requires
        distinct_below(s, n),
        !s.contains(v),
        v < n,
        0 <= i <= s.len(),
    ensures
        distinct_below(s.insert(i, v), n),
        forall|w: usize| #[trigger] s.insert(i, v).contains(w) <==> (s.contains(w) || w == v),
{
    let r = s.insert(i, v);
    assert forall|p: int| 0 <= p < r.len() implies #[trigger] r[p] < n by {
        if p < i { assert(r[p] == s[p]); } else if p > i { assert(r[p] == s[p - 1]); }
    }
    assert forall|p: int, q: int| 0 <= p < r.len() && 0 <= q < r.len() && p != q implies r[p] != r[q] by {
        let sp = if p < i { p } else { p - 1 };
        let sq = if q < i { q } else { q - 1 };
        if p != i && q != i {
            assert(r[p] == s[sp] && r[q] == s[sq]);
        } else if p == i {
            assert(r[q] == s[sq]);
        } else {
            assert(r[p] == s[sp]);
        }
    }
    assert forall|w: usize| #[trigger] r.contains(w) <==> (s.contains(w) || w == v) by {
        if r.contains(w) {
            let p = choose|p: int| 0 <= p < r.len() && r[p] == w;
            if p < i { assert(s[p] == w); } else if p > i { assert(s[p - 1] == w); }
        }
        if s.contains(w) {
            let p = choose|p: int| 0 <= p < s.len() && s[p] == w;
            if p < i { assert(r[p] == w); } else { assert(r[p + 1] == w); }
        }
        if w == v {
            assert(r[i] == w);
        }
    }
}

/// Membership after `push`.
pub proof fn lemma_push_contains(s: Seq<usize>, x: usize)
    ensures
        forall|w: usize| #[trigger] s.push(x).contains(w) <==> (s.contains(w) || w == x),
{
    let r = s.push(x);
    assert forall|w: usize| #[trigger] r.contains(w) <==> (s.contains(w) || w == x) by {
        if r.contains(w) {
            let p = choose|p: int| 0 <= p < r.len() && r[p] == w;
            if p < s.len() { assert(s[p] == w); }
        }
        if s.contains(w) {
            let p = choose|p: int| 0 <= p < s.len() && s[p] == w;
            assert(r[p] == w);
        }
        if w == x {
            assert(r[s.len() as int] == w);
        }
    }
}

/// Membership after `insert`.
pub proof fn lemma_insert_contains(s: Seq<usize>, i: int, x: usize)
    requires
        0 <= i <= s.len(),
    ensures
        forall|w: usize| #[trigger] s.insert(i, x).contains(w) <==> (s.contains(w) || w == x),
{
    let r = s.insert(i, x);
    assert forall|w: usize| #[trigger] r.contains(w) <==> (s.contains(w) || w == x) by {
        if r.contains(w) {
            let p = choose|p: int| 0 <= p < r.len() && r[p] == w;
            if p < i { assert(s[p] == w); } else if p > i { assert(s[p - 1] == w); }
        }
        if s.contains(w) {
            let p = choose|p: int| 0 <= p < s.len() && s[p] == w;
            if p < i { assert(r[p] == w); } else { assert(r[p + 1] == w); }
        }
        if w == x {
            assert(r[i] == w);
        }
    }
}

/// Membership in a concatenation.
pub proof fn lemma_concat_contains(a: Seq<usize>, b: Seq<usize>)
    ensures
        forall|v: usize| #[trigger] (a + b).contains(v) <==> (a.contains(v) || b.contains(v)),
{
    assert forall|v: usize| #[trigger] (a + b).contains(v) <==> (a.contains(v) || b.contains(v)) by {
        if (a + b).contains(v) {
            let p = choose|p: int| 0 <= p < (a + b).len() && (a + b)[p] == v;
            if p < a.len() { assert(a[p] == v); } else { assert(b[p - a.len()] == v); }
        }
        if a.contains(v) {
            let p = choose|p: int| 0 <= p < a.len() && a[p] == v;
            assert((a + b)[p] == v);
        }
        if b.contains(v) {
            let p = choose|p: int| 0 <= p < b.len() && b[p] == v;
            assert((a + b)[a.len() + p] == v);
        }
    }
}

} // verus!
