//! Sorting a list of elements by a comparison that the caller gives.
use core::cmp::Ordering;
use vstd::prelude::*;

use crate::tied::is_permutation;

verus! {

/// `f` never answers `Greater` for `(a, b)`: `a` may stand before `b`.
pub open spec fn not_after<F: Fn(&usize, &usize) -> Ordering>(f: F, a: usize, b: usize) -> bool {
    forall|r: Ordering| #[trigger] f.ensures((&a, &b), r) ==> r != Ordering::Greater
}

/// `f` can be called on any two elements and compares them as a total
/// preorder: it answers the same each time, answering `Greater` for
/// `(a, b)` means `b` may stand before `a`, and standing before is
/// transitive.
pub open spec fn total_preorder<F: Fn(&usize, &usize) -> Ordering>(f: F) -> bool {
    &&& forall|a: usize, b: usize| #[trigger] f.requires((&a, &b))
    &&& forall|a: usize, b: usize, r1: Ordering, r2: Ordering|
        #[trigger] f.ensures((&a, &b), r1) && #[trigger] f.ensures((&a, &b), r2) ==> r1 == r2
    &&& forall|a: usize, b: usize, r: Ordering|
        #[trigger] f.ensures((&a, &b), r) && r == Ordering::Greater ==> not_after(f, b, a)
    &&& forall|a: usize, b: usize, c: usize|
        #[trigger] not_after(f, a, b) && #[trigger] not_after(f, b, c) ==> not_after(f, a, c)
}

/// `w` is `v` rearranged by `perm` and sorted by `f`, elements that `f`
/// finds equal keeping their order in `v`.
pub open spec fn stably_sorted_by<F: Fn(&usize, &usize) -> Ordering>(
    f: F,
    v: Seq<usize>,
    w: Seq<usize>,
    perm: Seq<int>,
) -> bool {
    &&& is_permutation(perm, v.len())
    &&& w.len() == v.len()
    &&& forall|k: int| 0 <= k < v.len() ==> #[trigger] w[k] == v[perm[k]]
    &&& forall|p: int, q: int|
        0 <= p < q < v.len() ==> not_after(f, #[trigger] w[p], #[trigger] w[q]) && (not_after(f, w[q], w[p])
            ==> perm[p] < perm[q])
}

/// Sorts `v` by `f` with a stable insertion sort: each element moves left
/// past every element that `f` places after it.
pub fn sort_by_cmp<F: Fn(&usize, &usize) -> Ordering>(v: &mut Vec<usize>, f: F)
    requires
        total_preorder(f),
    ensures
        exists|perm: Seq<int>| stably_sorted_by(f, old(v)@, final(v)@, perm),
{
    let n = v.len();
    let ghost v0 = v@;
    let ghost mut perm: Seq<int> = Seq::new(v@.len(), |k: int| k);
    if n == 0 {
        proof {
            assert(stably_sorted_by(f, v0, v@, perm));
        }
        return;
    }
    let mut i: usize = 1;
    let ghost mut gi: int = 1;
    while i < n
        invariant
            gi == i,
            total_preorder(f),
            n == v@.len(),
            v0.len() == n,
            1 <= i <= n,
            is_permutation(perm, v0.len()),
            forall|k: int| 0 <= k < n ==> #[trigger] v@[k] == v0[perm[k]],
            forall|k: int| i <= k < n ==> #[trigger] perm[k] == k,
            forall|k: int| 0 <= k < i ==> #[trigger] perm[k] < i,
            forall|p: int, q: int|
                0 <= p < q < i ==> not_after(f, #[trigger] v@[p], #[trigger] v@[q]) && (not_after(f, v@[q], v@[p])
                    ==> perm[p] < perm[q]),
        decreases n - i,
    {
        let mut j: usize = i;
        let ghost mut gj: int = gi;
        loop
            invariant
                gj == j,
                gi == i,
                total_preorder(f),
                n == v@.len(),
                v0.len() == n,
                1 <= i < n,
                j <= i,
                is_permutation(perm, v0.len()),
                forall|k: int| 0 <= k < n ==> #[trigger] v@[k] == v0[perm[k]],
                forall|k: int| i < k < n ==> #[trigger] perm[k] == k,
                perm[gj] == i,
                forall|k: int| 0 <= k <= i && k != j ==> #[trigger] perm[k] < i,
                forall|k: int|
                    j < k <= i ==> not_after(f, v@[gj], #[trigger] v@[k]) && !not_after(f, v@[k], v@[gj]),
                forall|p: int, q: int|
                    0 <= p < q <= i && p != j && q != j ==> not_after(f, #[trigger] v@[p], #[trigger] v@[q]) && (
                    not_after(f, v@[q], v@[p]) ==> perm[p] < perm[q]),
            ensures
                gj == j,
                gi == i,
                n == v@.len(),
                j <= i,
                is_permutation(perm, v0.len()),
                forall|k: int| 0 <= k < n ==> #[trigger] v@[k] == v0[perm[k]],
                forall|k: int| i < k < n ==> #[trigger] perm[k] == k,
                perm[gj] == i,
                forall|k: int| 0 <= k <= i && k != j ==> #[trigger] perm[k] < i,
                forall|k: int|
                    j < k <= i ==> not_after(f, v@[gj], #[trigger] v@[k]) && !not_after(f, v@[k], v@[gj]),
                forall|p: int, q: int|
                    0 <= p < q <= i && p != j && q != j ==> not_after(f, #[trigger] v@[p], #[trigger] v@[q]) && (
                    not_after(f, v@[q], v@[p]) ==> perm[p] < perm[q]),
                j > 0 ==> not_after(f, v@[j - 1], v@[gj]),
            decreases j,
        {
            if j == 0 {
                break;
            }
            let a = v[j - 1];
            let b = v[j];
            let r = f(&a, &b);
            let greater = match r {
                Ordering::Greater => true,
                _ => false,
            };
            if !greater {
                proof {
                    assert forall|r2: Ordering| #[trigger] f.ensures((&a, &b), r2) implies r2 != Ordering::Greater by {
                        assert(f.ensures((&a, &b), r));
                    }
                }
                break;
            }
            proof {
                assert(f.ensures((&a, &b), r));
                assert(not_after(f, b, a));
                assert(!not_after(f, a, b));
            }
            v.set(j, a);
            v.set(j - 1, b);
            proof {
                let pj = perm[gj];
                let pj1 = perm[j - 1];
                let old_perm = perm;
                perm = perm.update(gj, pj1).update(gj - 1, pj);
                assert forall|k: int| 0 <= k < n implies #[trigger] v@[k] == v0[perm[k]] by {
                    if k != j && k != j - 1 {
                        assert(perm[k] == old_perm[k]);
                    }
                }
                assert(is_permutation(perm, v0.len())) by {
                    assert forall|x: int, y: int| 0 <= x < n && 0 <= y < n && x != y implies perm[x] != perm[y] by {
                        let ox = if x == gj { gj - 1 } else if x == gj - 1 { gj } else { x };
                        let oy = if y == gj { gj - 1 } else if y == gj - 1 { gj } else { y };
                        assert(perm[x] == old_perm[ox] && perm[y] == old_perm[oy]);
                    }
                }
            }
            j -= 1;
            proof {
                gj = gj - 1;
            }
        }
        proof {
            assert forall|p: int, q: int| 0 <= p < q < i + 1 implies not_after(f, #[trigger] v@[p], #[trigger] v@[q]) && (
            not_after(f, v@[q], v@[p]) ==> perm[p] < perm[q]) by {
                if p == gj {
                } else if q == gj {
                    if p < j - 1 {
                        assert(not_after(f, v@[p], v@[j - 1]));
                    }
                } else if p < j && q > j {
                }
            }
        }
        i += 1;
        proof {
            gi = gi + 1;
        }
    }
    proof {
        assert(stably_sorted_by(f, v0, v@, perm));
    }
}

/// A rearrangement of distinct values below a bound keeps them distinct
/// and below it.
pub proof fn lemma_sorted_keeps_chain<F: Fn(&usize, &usize) -> Ordering>(
    f: F,
    v: Seq<usize>,
    w: Seq<usize>,
    perm: Seq<int>,
    e: nat,
)
    requires
        stably_sorted_by(f, v, w, perm),
        crate::strict::is_chain(e, v),
    ensures
        crate::strict::is_chain(e, w),
{
    assert forall|a: int, b: int| 0 <= a < w.len() && 0 <= b < w.len() && a != b implies w[a] != w[b] by {
        assert(w[a] == v[perm[a]] && w[b] == v[perm[b]]);
        assert(perm[a] != perm[b]);
    }
    assert forall|a: int| 0 <= a < w.len() implies w[a] < e by {
        assert(w[a] == v[perm[a]]);
    }
}

} // verus!
