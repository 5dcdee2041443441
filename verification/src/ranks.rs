//! What the ranks that `get_order` computes look like: they run without a
//! gap from zero, they keep the order of the values they rank, and ranking
//! them again gives them back.
use vstd::prelude::*;

use crate::util::{all_below, all_distinct, beyond, order_rank, order_ranks, values_beyond};

verus! {

/// The numbers below `k`.
pub open spec fn below(k: nat) -> Set<usize> {
    Set::new(|v: usize| v < k)
}

/// There are `k` numbers below `k`.
pub proof fn lemma_below_len(k: nat)
    requires
        k <= usize::MAX + 1,
    ensures
        below(k).finite(),
        below(k).len() == k,
    decreases k,
{
    if k == 0 {
        assert(below(0) =~= Set::empty());
    } else {
        lemma_below_len((k - 1) as nat);
        assert(below(k) =~= below((k - 1) as nat).insert((k - 1) as usize));
    }
}

/// The values counted for the rank of `x` are values of `s` other than `x`.
proof fn lemma_beyond_within(s: Seq<usize>, x: usize, rev: bool)
    ensures
        s.to_set().finite(),
        values_beyond(s, x, rev).finite(),
        values_beyond(s, x, rev).subset_of(s.to_set().remove(x)),
        s.to_set().len() <= s.len(),
{
    vstd::seq_lib::seq_to_set_is_finite(s);
    s.lemma_cardinality_of_set();
    vstd::set_lib::lemma_len_subset(values_beyond(s, x, rev), s.to_set());
}

/// A value of `s` ranks below the number of distinct values of `s`.
proof fn lemma_rank_bound(s: Seq<usize>, x: usize, rev: bool)
    requires
        s.contains(x),
    ensures
        order_rank(s, x, rev) < s.to_set().len(),
        s.to_set().len() <= s.len(),
{
    lemma_beyond_within(s, x, rev);
    assert(s.to_set().contains(x));
    vstd::set_lib::lemma_len_subset(values_beyond(s, x, rev), s.to_set().remove(x));
}

/// A value that counts for the rank of `x` ranks strictly before `x`.
proof fn lemma_rank_strict(s: Seq<usize>, x: usize, y: usize, rev: bool)
    requires
        s.contains(y),
        beyond(y, x, rev),
    ensures
        order_rank(s, y, rev) < order_rank(s, x, rev),
{
    lemma_beyond_within(s, x, rev);
    lemma_beyond_within(s, y, rev);
    let vx = values_beyond(s, x, rev);
    let vy = values_beyond(s, y, rev);
    assert(s.to_set().contains(y));
    assert(vx.contains(y));
    assert(vy.subset_of(vx.remove(y)));
    vstd::set_lib::lemma_len_subset(vy, vx.remove(y));
}

/// Distinct values of `s` get distinct ranks.
proof fn lemma_rank_injective(s: Seq<usize>, x: usize, y: usize, rev: bool)
    requires
        s.contains(x),
        s.contains(y),
        x != y,
    ensures
        order_rank(s, x, rev) != order_rank(s, y, rev),
{
    if beyond(y, x, rev) {
        lemma_rank_strict(s, x, y, rev);
    } else {
        lemma_rank_strict(s, y, x, rev);
    }
}

/// The ranks of `s` are exactly the numbers below the number of distinct
/// values of `s`.
pub proof fn lemma_ranks_dense(s: Seq<usize>, rev: bool)
    requires
        s.len() <= usize::MAX,
    ensures
        order_ranks(s, rev).to_set() == below(s.to_set().len()),
        s.to_set().len() <= s.len(),
{
    let a = order_ranks(s, rev);
    let set = s.to_set();
    let k = set.len();
    let f = |w: usize| order_rank(s, w, rev) as usize;
    lemma_beyond_within(s, 0, rev);
    lemma_below_len(k);
    assert forall|w: usize| set.contains(w) implies #[trigger] f(w) < k by {
        lemma_rank_bound(s, w, rev);
    }
    assert(vstd::relations::injective_on(f, set)) by {
        assert forall|x1: usize, x2: usize| set.contains(x1) && set.contains(x2) && #[trigger] f(x1) == #[trigger] f(
            x2,
        ) implies x1 == x2 by {
            if x1 != x2 {
                lemma_rank_bound(s, x1, rev);
                lemma_rank_bound(s, x2, rev);
                lemma_rank_injective(s, x1, x2, rev);
            }
        }
    }
    let img = set.map(f);
    vstd::set_lib::lemma_map_size(set, img, f);
    assert(img.subset_of(below(k)));
    vstd::set_lib::lemma_subset_equality(img, below(k));
    assert forall|v: usize| a.to_set().contains(v) <==> img.contains(v) by {
        if a.to_set().contains(v) {
            let i = choose|i: int| 0 <= i < a.len() && a[i] == v;
            assert(set.contains(s[i]));
            assert(f(s[i]) == v);
        }
        if img.contains(v) {
            let w = choose|w: usize| set.contains(w) && f(w) == v;
            let i = choose|i: int| 0 <= i < s.len() && s[i] == w;
            assert(a[i] == v);
            assert(a.contains(v));
        }
    }
    assert(a.to_set() =~= below(k));
}

/// The ranks of a sequence of distinct values list every position once:
/// they are all below the length, and no two are equal.
pub proof fn lemma_ranks_total(s: Seq<usize>, rev: bool)
    requires
        s.len() <= usize::MAX,
        all_distinct(s),
    ensures
        all_below(order_ranks(s, rev), s.len()),
        all_distinct(order_ranks(s, rev)),
{
    let a = order_ranks(s, rev);
    assert forall|i: int| 0 <= i < a.len() implies a[i] < s.len() by {
        assert(s.contains(s[i]));
        lemma_rank_bound(s, s[i], rev);
    }
    assert forall|i: int, j: int| 0 <= i < a.len() && 0 <= j < a.len() && i != j implies a[i] != a[j] by {
        assert(s.contains(s[i]));
        assert(s.contains(s[j]));
        lemma_rank_bound(s, s[i], rev);
        lemma_rank_bound(s, s[j], rev);
        lemma_rank_injective(s, s[i], s[j], rev);
    }
}

/// Ranking a sequence whose values are exactly the numbers below `k`: upward
/// each value is its own rank, downward value `v` gets `k - 1 - v`.
pub proof fn lemma_ranks_of_dense(a: Seq<usize>, k: nat, rev: bool)
    requires
        a.to_set() == below(k),
        k <= usize::MAX,
    ensures
        forall|i: int| 0 <= i < a.len() ==> #[trigger] order_ranks(a, rev)[i] == if rev {
            k - 1 - a[i]
        } else {
            a[i] as int
        },
{
    assert forall|i: int| 0 <= i < a.len() implies #[trigger] order_ranks(a, rev)[i] == if rev {
        k - 1 - a[i]
    } else {
        a[i] as int
    } by {
        let x = a[i];
        assert(a.to_set().contains(x));
        assert(x < k);
        let vb = values_beyond(a, x, rev);
        if rev {
            lemma_below_len(k);
            lemma_below_len((x + 1) as nat);
            assert(vb =~= below(k).difference(below((x + 1) as nat)));
            assert(below(k) =~= vb.union(below((x + 1) as nat)));
            vstd::set_lib::lemma_len_subset(vb, below(k));
            assert(vb.disjoint(below((x + 1) as nat)));
            vstd::set_lib::lemma_set_disjoint_lens(vb, below((x + 1) as nat));
        } else {
            lemma_below_len(x as nat);
            assert(vb =~= below(x as nat));
        }
    }
}

/// A list of `n` distinct numbers below `n` holds every number below `n`.
pub proof fn lemma_total_holds_all(s: Seq<usize>, n: nat)
    requires
        s.len() == n,
        all_below(s, n),
        all_distinct(s),
        n <= usize::MAX,
    ensures
        forall|x: usize| x < n ==> #[trigger] s.contains(x),
{
    s.unique_seq_to_set();
    lemma_below_len(n);
    vstd::seq_lib::seq_to_set_is_finite(s);
    assert(s.to_set().subset_of(below(n)));
    vstd::set_lib::lemma_subset_equality(s.to_set(), below(n));
    assert forall|x: usize| x < n implies #[trigger] s.contains(x) by {
        assert(below(n).contains(x));
        assert(s.to_set().contains(x));
    }
}

/// Ranking upward twice is ranking upward once.
pub proof fn get_order_idempotent(xs: Seq<usize>)
    requires
        xs.len() <= usize::MAX,
    ensures
        order_ranks(order_ranks(xs, false), false) == order_ranks(xs, false),
{
    let a = order_ranks(xs, false);
    lemma_ranks_dense(xs, false);
    lemma_ranks_of_dense(a, xs.to_set().len(), false);
    assert(order_ranks(a, false) =~= a);
}

/// Ranking downward three times is ranking downward once: ranking the
/// ranks downward again turns them around, and a second time back.
pub proof fn get_order_involution(xs: Seq<usize>)
    requires
        xs.len() <= usize::MAX,
    ensures
        order_ranks(order_ranks(order_ranks(xs, true), true), true) == order_ranks(xs, true),
{
    let a = order_ranks(xs, true);
    let k = xs.to_set().len();
    lemma_ranks_dense(xs, true);
    lemma_below_len(k);
    lemma_ranks_of_dense(a, k, true);
    let b = order_ranks(a, true);
    lemma_ranks_dense(a, true);
    lemma_ranks_of_dense(b, k, true);
    let c = order_ranks(b, true);
    assert(c =~= a);
}

} // verus!
