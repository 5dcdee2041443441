//! # STAR voting
//!
//! Score Then Automatic Runoff: the two candidates with the highest total
//! score meet in a runoff, which the candidate preferred on more ballots
//! wins. Ties are broken by the "Official Tiebreaker Protocol".
use core::cmp::Ordering;
use vstd::prelude::*;

use crate::cardinal::{compare_nat, lemma_total_score_mono, total_score, CardinalDense};
use crate::tied::{completed, is_permutation, lemma_lead_true, stable_sorted, tie_end, tie_shape, top_part, TiedRank};
use crate::util::all_below;

verus! {

broadcast use vstd::seq_lib::group_seq_properties;

/// The number of positions `b` in `lo..hi` other than `a` such that
/// `v[a]` wins more pairwise matchups against `v[b]` than it loses.
pub open spec fn beats_count(data: CardinalDense, v: Seq<usize>, a: int, hi: int) -> nat
    decreases hi,
{
    if hi <= 0 {
        0
    } else {
        beats_count(data, v, a, hi - 1) + if hi - 1 != a && data.wins(v[a], v[hi - 1]) > data.wins(v[hi - 1], v[a]) {
            1nat
        } else {
            0nat
        }
    }
}

/// For each position of `v`, the number of other positions whose element
/// its element beats in pairwise matchups.
pub open spec fn matchup_scores(data: CardinalDense, v: Seq<usize>) -> Seq<usize> {
    Seq::new(v.len(), |a: int| beats_count(data, v, a, v.len() as int) as usize)
}

proof fn lemma_beats_count_bound(data: CardinalDense, v: Seq<usize>, a: int, hi: int)
    ensures
        beats_count(data, v, a, hi) <= if hi < 0 { 0 } else { hi },
    decreases hi,
{
    if hi > 0 {
        lemma_beats_count_bound(data, v, a, hi - 1);
    }
}

/// `n` zeros.
fn zeros(n: usize) -> (res: Vec<usize>)
    ensures
        res@.len() == n,
        forall|i: int| 0 <= i < n ==> #[trigger] res@[i] == 0,
{
    let mut res: Vec<usize> = Vec::new();
    let mut i: usize = 0;
    while i < n
        invariant
            i <= n,
            res@.len() == i,
            forall|k: int| 0 <= k < i ==> #[trigger] res@[k] == 0,
        decreases n - i,
    {
        res.push(0);
        i += 1;
    }
    res
}

/// `(order, tied)` ranks the values of `v` by `scores` (the score of `v[i]`
/// being `scores[i]`), the highest first: equal scores are tied, and come in
/// the opposite of their order in `v`.
pub open spec fn ranked_high_first(v: Seq<usize>, scores: Seq<usize>, order: Seq<usize>, tied: Seq<bool>) -> bool {
    &&& tied.len() + 1 == order.len()
    &&& exists|perm: Seq<int>, s: Seq<usize>| ranked_via(v, scores, order, tied, perm, s)
}

/// `(order, tied)` ranks `v` by `scores` as `ranked_high_first` says, where
/// `perm` and `s` are the stable sort from the lowest score that `order`
/// lists backwards.
pub open spec fn ranked_via(
    v: Seq<usize>,
    scores: Seq<usize>,
    order: Seq<usize>,
    tied: Seq<bool>,
    perm: Seq<int>,
    s: Seq<usize>,
) -> bool {
    &&& stable_sorted(perm, v, scores, order.reverse(), s)
    &&& forall|i: int| 0 <= i < tied.len() ==> #[trigger] tied[i] == (s.reverse()[i] == s.reverse()[i + 1])
}

/// The ranking that `ranked_high_first` describes; there is only one.
pub open spec fn rank_high_first(v: Seq<usize>, scores: Seq<usize>) -> (Seq<usize>, Seq<bool>) {
    choose|r: (Seq<usize>, Seq<bool>)| ranked_high_first(v, scores, r.0, r.1)
}

/// A ranking that fits `ranked_high_first` is `rank_high_first`.
proof fn lemma_rank_high_first(v: Seq<usize>, scores: Seq<usize>, order: Seq<usize>, tied: Seq<bool>)
    requires
        ranked_high_first(v, scores, order, tied),
    ensures
        rank_high_first(v, scores) == (order, tied),
{
    let w = (order, tied);
    assert(ranked_high_first(v, scores, w.0, w.1));
    let r = rank_high_first(v, scores);
    let (p1, s1) = choose|p: Seq<int>, x: Seq<usize>| ranked_via(v, scores, order, tied, p, x);
    let (p2, s2) = choose|p: Seq<int>, x: Seq<usize>| ranked_via(v, scores, r.0, r.1, p, x);
    crate::tied::lemma_stable_sorted_unique(p1, p2, v, scores, order.reverse(), s1, r.0.reverse(), s2);
    assert(order =~= order.reverse().reverse());
    assert(r.0 =~= r.0.reverse().reverse());
    assert(tied =~= r.1) by {
        assert forall|i: int| 0 <= i < tied.len() implies tied[i] == r.1[i] by {
            assert(tied[i] == (s1.reverse()[i] == s1.reverse()[i + 1]));
            assert(r.1[i] == (s2.reverse()[i] == s2.reverse()[i + 1]));
        }
    }
}

/// Turns `ranked`, sorted from the lowest score with `sorted` holding the
/// scores in its order, into a ranking from the highest score that ties
/// neighbours of equal score.
fn highest_first(ranked: TiedRank, sorted: &Vec<usize>) -> (res: TiedRank)
    requires
        ranked.order@.len() == sorted@.len(),
        sorted@.len() > 0,
    ensures
        res.elements == ranked.elements,
        res.order@ == ranked.order@.reverse(),
        res.tied@.len() + 1 == res.order@.len(),
        forall|i: int| 0 <= i < res.tied@.len() ==> #[trigger] res.tied@[i] == (sorted@.reverse()[i] == sorted@.reverse()[i + 1]),
{
    let order = crate::tied::reversed(&ranked.order);
    let high = crate::tied::reversed(sorted);
    let n = high.len();
    let mut tied: Vec<bool> = Vec::new();
    let mut i: usize = 0;
    while i + 1 < n
        invariant
            n == high@.len(),
            high@ == sorted@.reverse(),
            n > 0,
            i + 1 <= n,
            tied@.len() == i,
            forall|k: int| 0 <= k < i ==> #[trigger] tied@[k] == (high@[k] == high@[k + 1]),
        decreases n - i,
    {
        tied.push(high[i] == high[i + 1]);
        i += 1;
    }
    TiedRank { order, tied, elements: ranked.elements }
}

/// Ranks the elements of `v` by the number of pairwise matchups each wins
/// against the others: the more matchups won, the higher the rank.
fn rank_by_matchups(v: &[usize], data: &CardinalDense) -> (res: TiedRank)
    requires
        data.wf(),
        v@.len() > 0,
        all_below(v@, data.elements as nat),
        v@.len() * v@.len() <= usize::MAX,
    ensures
        res.elements == data.elements,
        ranked_high_first(v@, matchup_scores(*data, v@), res.order@, res.tied@),
{
    let l = v.len();
    let mut matrix = zeros(l * l);
    let _ = data.orders.len();
    proof {
        data.lemma_num_orders_bound();
    }
    let ghost m0 = matrix@;
    data.fill_preference_matrix(v, &mut matrix);
    proof {
        assert forall|p: int, q: int|
            0 <= p < l && 0 <= q < l && p != q implies #[trigger] matrix@[p * l + q] == data.wins(v@[p], v@[q]) by {
            crate::util::lemma_mul_block(p, l as int, l as int);
            assert(m0[p * l + q] == 0);
        }
    }
    let mut won = zeros(l);
    let mut i: usize = 0;
    while i < l
        invariant
            data.wf(),
            l == v@.len(),
            l * l <= usize::MAX,
            matrix@.len() == l * l,
            forall|p: int, q: int|
                0 <= p < l && 0 <= q < l && p != q ==> #[trigger] matrix@[p * l + q] == data.wins(v@[p], v@[q]),
            i <= l,
            won@.len() == l,
            forall|a: int| 0 <= a < i ==> #[trigger] won@[a] == beats_count(*data, v@, a, l as int),
            forall|a: int| i <= a < l ==> #[trigger] won@[a] == beats_count(*data, v@, a, i as int),
        decreases l - i,
    {
        let mut j: usize = i + 1;
        proof {
            assert forall|a: int| i <= a < l implies #[trigger] won@[a] == beats_count(*data, v@, a, i as int) by {}
        }
        while j < l
            invariant
                data.wf(),
                l == v@.len(),
                l * l <= usize::MAX,
                matrix@.len() == l * l,
                forall|p: int, q: int|
                    0 <= p < l && 0 <= q < l && p != q ==> #[trigger] matrix@[p * l + q] == data.wins(v@[p], v@[q]),
                i < l,
                i + 1 <= j <= l,
                won@.len() == l,
                forall|a: int| 0 <= a < i ==> #[trigger] won@[a] == beats_count(*data, v@, a, l as int),
                won@[i as int] == beats_count(*data, v@, i as int, j as int),
                forall|a: int| i < a < j ==> #[trigger] won@[a] == beats_count(*data, v@, a, i + 1),
                forall|a: int| j <= a < l ==> #[trigger] won@[a] == beats_count(*data, v@, a, i as int),
            decreases l - j,
        {
            proof {
                crate::util::lemma_mul_block(i as int, l as int, l as int);
                crate::util::lemma_mul_block(j as int, l as int, l as int);
                lemma_beats_count_bound(*data, v@, i as int, j as int);
                lemma_beats_count_bound(*data, v@, j as int, i as int);
            }
            let vi = matrix[i * l + j];
            let vj = matrix[j * l + i];
            if vi < vj {
                won.set(j, won[j] + 1);
            } else if vi > vj {
                won.set(i, won[i] + 1);
            }
            proof {
                assert(won@[i as int] == beats_count(*data, v@, i as int, j + 1));
                assert(won@[j as int] == beats_count(*data, v@, j as int, i + 1));
            }
            j += 1;
        }
        proof {
            assert forall|a: int| i + 1 <= a < l implies #[trigger] won@[a] == beats_count(*data, v@, a, i + 1) by {}
        }
        i += 1;
    }
    proof {
        assert(won@ =~= matchup_scores(*data, v@));
    }
    let ghost scores = won@;
    let order = crate::util::copy_usizes(v);
    let low = TiedRank::from_score(data.elements, order, won.as_mut_slice());
    let res = highest_first(low, &won);
    proof {
        let perm = choose|perm: Seq<int>| stable_sorted(perm, v@, scores, low.order@, won@);
        assert(res.order@.reverse() =~= low.order@);
        assert(stable_sorted(perm, v@, scores, res.order@.reverse(), won@));
        assert(ranked_via(v@, scores, res.order@, res.tied@, perm, won@));
    }
    res
}


/// `w` lists the values of `v` in some order.
pub open spec fn rearranges(v: Seq<usize>, w: Seq<usize>) -> bool {
    exists|perm: Seq<int>| is_permutation(perm, v.len()) && w.len() == v.len() && forall|k: int|
        0 <= k < v.len() ==> #[trigger] w[k] == v[perm[k]]
}

/// For each position of `v`, the number of orders of `data` in which its
/// element scores `rating`.
pub open spec fn rating_counts(data: CardinalDense, v: Seq<usize>, rating: usize) -> Seq<usize> {
    Seq::new(v.len(), |i: int| data.scored(v[i], rating) as usize)
}

/// Ranks the elements of `v` by the number of orders in which each scores
/// `rating`: the more such orders, the higher the rank.
fn rank_by_specific(v: &[usize], data: &CardinalDense, rating: usize) -> (res: TiedRank)
    requires
        data.wf(),
        v@.len() > 0,
        all_below(v@, data.elements as nat),
    ensures
        res.elements == data.elements,
        ranked_high_first(v@, rating_counts(*data, v@, rating), res.order@, res.tied@),
{
    let l = v.len();
    let mut count: Vec<usize> = Vec::new();
    let mut i: usize = 0;
    while i < l
        invariant
            data.wf(),
            l == v@.len(),
            all_below(v@, data.elements as nat),
            i <= l,
            count@.len() == i,
            forall|k: int| 0 <= k < i ==> #[trigger] count@[k] == data.scored(v@[k], rating),
        decreases l - i,
    {
        let (c, _) = data.count_specific(v[i], v[i], rating);
        count.push(c);
        i += 1;
    }
    proof {
        assert(count@ =~= rating_counts(*data, v@, rating));
    }
    let ghost scores = count@;
    let low = TiedRank::from_score(data.elements, crate::util::copy_usizes(v), count.as_mut_slice());
    let res = highest_first(low, &count);
    proof {
        let perm = choose|perm: Seq<int>| stable_sorted(perm, v@, scores, low.order@, count@);
        assert(res.order@.reverse() =~= low.order@);
        assert(stable_sorted(perm, v@, scores, res.order@.reverse(), count@));
        assert(ranked_via(v@, scores, res.order@, res.tied@, perm, count@));
    }
    res
}

/// A stable sort rearranges its values.
proof fn lemma_sorted_rearranges(perm: Seq<int>, a0: Seq<usize>, b0: Seq<usize>, a1: Seq<usize>, b1: Seq<usize>)
    requires
        stable_sorted(perm, a0, b0, a1, b1),
    ensures
        rearranges(a0, a1),
        rearranges(a0, a1.reverse()),
{
    let n = a0.len();
    let rp = Seq::new(n, |k: int| perm[n - 1 - k]);
    assert(is_permutation(rp, n)) by {
        assert forall|i: int, j: int| 0 <= i < n && 0 <= j < n && i != j implies rp[i] != rp[j] by {
            assert(perm[n - 1 - i] != perm[n - 1 - j]);
        }
    }
    assert forall|k: int| 0 <= k < n implies #[trigger] a1.reverse()[k] == a0[rp[k]] by {
        assert(a1[n - 1 - k] == a0[perm[n - 1 - k]]);
    }
}

/// A ranking by score rearranges the values it ranks, read in either
/// direction.
proof fn lemma_ranked_rearranges(v: Seq<usize>, scores: Seq<usize>, order: Seq<usize>, tied: Seq<bool>)
    requires
        ranked_high_first(v, scores, order, tied),
    ensures
        rearranges(v, order),
        rearranges(v, order.reverse()),
        order.len() == v.len(),
{
    let (perm, sc) = choose|perm: Seq<int>, sc: Seq<usize>| ranked_via(v, scores, order, tied, perm, sc);
    lemma_sorted_rearranges(perm, v, scores, order.reverse(), sc);
    assert(order.reverse().reverse() =~= order);
}

/// Replacing positions `lo..hi` of a chain by a rearrangement of them keeps
/// it a chain.
proof fn lemma_rearranged_chain(o: Seq<usize>, lo: int, hi: int, mid: Seq<usize>, e: nat)
    requires
        crate::strict::is_chain(e, o),
        0 <= lo <= hi <= o.len(),
        rearranges(o.subrange(lo, hi), mid),
    ensures
        crate::strict::is_chain(e, o.take(lo) + mid + o.skip(hi)),
        (o.take(lo) + mid + o.skip(hi)).len() == o.len(),
{
    let w = o.take(lo) + mid + o.skip(hi);
    let sub = o.subrange(lo, hi);
    let perm = choose|perm: Seq<int>| is_permutation(perm, sub.len()) && mid.len() == sub.len() && forall|k: int|
        0 <= k < sub.len() ==> #[trigger] mid[k] == sub[perm[k]];
    let src = |i: int| if lo <= i < hi { lo + perm[i - lo] } else { i };
    assert forall|i: int| 0 <= i < w.len() implies #[trigger] w[i] == o[src(i)] && 0 <= src(i) < o.len() by {
        if lo <= i < hi {
            assert(w[i] == mid[i - lo]);
            assert(mid[i - lo] == sub[perm[i - lo]]);
        }
    }
    assert forall|a: int, b: int| 0 <= a < w.len() && 0 <= b < w.len() && a != b implies w[a] != w[b] by {
        assert(w[a] == o[src(a)] && w[b] == o[src(b)]);
        if lo <= a < hi && lo <= b < hi {
            assert(perm[a - lo] != perm[b - lo]);
        }
        assert(src(a) != src(b));
    }
    assert forall|a: int| 0 <= a < w.len() implies w[a] < e by {
        assert(w[a] == o[src(a)]);
    }
}

/// The group `g` ranked by the tiebreaker of stage `stage`: 0 ranks by
/// pairwise matchups won, 1 by the number of highest scores, 2 by the number
/// of lowest scores, the fewest first.
pub open spec fn tiebreak_group(data: CardinalDense, g: Seq<usize>, stage: int) -> (Seq<usize>, Seq<bool>) {
    if stage == 0 {
        rank_high_first(g, matchup_scores(data, g))
    } else if stage == 1 {
        rank_high_first(g, rating_counts(data, g, data.max))
    } else {
        let r = rank_high_first(g, rating_counts(data, g, data.min));
        (r.0.reverse(), r.1.reverse())
    }
}

/// One round of the scoring tiebreak: the group on the threshold of the top
/// `n` is replaced by its ranking at stage `stage`, then the ranking is cut
/// down to its top `n`.
pub open spec fn tiebreak_round(data: CardinalDense, order: Seq<usize>, tied: Seq<bool>, n: int, stage: int) -> (
    Seq<usize>,
    Seq<bool>,
) {
    let hi = tie_end(tied, n);
    let r = tiebreak_group(data, order.subrange(n - 1, hi), stage);
    top_part(order.take(n - 1) + r.0 + order.skip(hi), tied.take(n - 1) + r.1 + tied.skip(hi - 1), n)
}

/// The official tiebreak of the scoring round from stage `stage` on. Rounds
/// are repeated, from stage 0 again whenever one removes candidates and at
/// the next stage when one does not, until the top `n` is decided (`true`)
/// or the stages run out (`false`); with the ranking at that point. A
/// ranking whose top `n` is already decided is only cut down to it.
pub open spec fn official_tiebreak(data: CardinalDense, order: Seq<usize>, tied: Seq<bool>, n: int, stage: int) -> (
    bool,
    Seq<usize>,
    Seq<bool>,
)
    decreases order.len(), 3 - stage,
{
    if stage < 0 || stage >= 3 || n < 1 || n > order.len() {
        (false, order, tied)
    } else if tie_end(tied, n) == n {
        let r = top_part(order, tied, n);
        (true, r.0, r.1)
    } else {
        let r = tiebreak_round(data, order, tied, n, stage);
        if r.0.len() == n {
            (true, r.0, r.1)
        } else if r.0.len() < order.len() {
            official_tiebreak(data, r.0, r.1, n, 0)
        } else if r.0.len() == order.len() {
            official_tiebreak(data, r.0, r.1, n, stage + 1)
        } else {
            (false, order, tied)
        }
    }
}

/// The STAR tiebreak for the scoring round: the group on the threshold of
/// the top `goal_len` is ranked by pairwise matchups won, then by the number
/// of highest scores, then by the number of lowest scores (fewest first),
/// cutting the ranking down to the top `goal_len` after each. Returns true
/// iff the top `goal_len` became decided.
fn tiebreak_scoring_official(ranking: &mut TiedRank, goal_len: usize, data: &CardinalDense) -> (res: bool)
    requires
        old(ranking).valid(),
        1 <= goal_len <= old(ranking).order@.len(),
        old(ranking).elements == data.elements,
        data.wf(),
        data.elements * data.elements <= usize::MAX,
    ensures
        final(ranking).valid(),
        final(ranking).elements == old(ranking).elements,
        goal_len <= final(ranking).order@.len() <= old(ranking).order@.len(),
        res ==> final(ranking).order@.len() == goal_len,
        (res, final(ranking).order@, final(ranking).tied@) == official_tiebreak(
            *data,
            old(ranking).order@,
            old(ranking).tied@,
            goal_len as int,
            0,
        ),
        tie_end(old(ranking).tied@, goal_len as int) == goal_len ==> res && final(ranking).order@ == old(
            ranking,
        ).order@.take(goal_len as int),
{
    let mut tiebreaker: usize = 0;
    let ghost mut first = true;
    loop
        invariant
            first ==> ranking.order@ == old(ranking).order@ && ranking.tied@ == old(ranking).tied@,
            !first ==> tie_end(old(ranking).tied@, goal_len as int) != goal_len,
            ranking.valid(),
            ranking.elements == data.elements,
            old(ranking).elements == data.elements,
            data.wf(),
            data.elements * data.elements <= usize::MAX,
            1 <= goal_len <= ranking.order@.len() <= old(ranking).order@.len(),
            tiebreaker <= 2,
            official_tiebreak(*data, ranking.order@, ranking.tied@, goal_len as int, tiebreaker as int)
                == official_tiebreak(*data, old(ranking).order@, old(ranking).tied@, goal_len as int, 0),
        decreases ranking.order@.len(), 3 - tiebreaker,
    {
        let (order_slice, _tied_slice) = ranking.top_n_threshold(goal_len);
        if order_slice.len() == 0 {
            proof {
                lemma_lead_true(ranking.tied@.skip(goal_len - 1));
                if first {
                    assert(tie_end(old(ranking).tied@, goal_len as int) == goal_len);
                }
            }
            ranking.keep_top(goal_len);
            return true;
        }
        proof {
            lemma_lead_true(ranking.tied@.skip(goal_len - 1));
            let sub = ranking.order@.subrange(goal_len - 1, tie_end(ranking.tied@, goal_len as int));
            assert(order_slice@ == sub);
            assert(all_below(order_slice@, data.elements as nat)) by {
                assert forall|i: int| 0 <= i < order_slice@.len() implies order_slice@[i] < data.elements by {
                    assert(order_slice@[i] == ranking.order@[goal_len - 1 + i]);
                }
            }
            crate::tied::lemma_distinct_below_len(ranking.order@, data.elements as nat);
            assert(order_slice@.len() * order_slice@.len() <= data.elements * data.elements) by (nonlinear_arith)
                requires
                    order_slice@.len() <= data.elements,
            ;
        }
        let tiebreak_rank = if tiebreaker == 0 {
            let t = rank_by_matchups(order_slice.as_slice(), data);
            proof {
                lemma_ranked_rearranges(order_slice@, matchup_scores(*data, order_slice@), t.order@, t.tied@);
                lemma_rank_high_first(order_slice@, matchup_scores(*data, order_slice@), t.order@, t.tied@);
            }
            t
        } else if tiebreaker == 1 {
            let t = rank_by_specific(order_slice.as_slice(), data, data.max);
            proof {
                lemma_ranked_rearranges(order_slice@, rating_counts(*data, order_slice@, data.max), t.order@, t.tied@);
                lemma_rank_high_first(order_slice@, rating_counts(*data, order_slice@, data.max), t.order@, t.tied@);
            }
            t
        } else {
            let mut t = rank_by_specific(order_slice.as_slice(), data, data.min);
            proof {
                lemma_ranked_rearranges(order_slice@, rating_counts(*data, order_slice@, data.min), t.order@, t.tied@);
                lemma_rank_high_first(order_slice@, rating_counts(*data, order_slice@, data.min), t.order@, t.tied@);
            }
            t.reverse();
            t
        };
        proof {
            let perm = choose|perm: Seq<int>| is_permutation(perm, order_slice@.len()) && tiebreak_rank.order@.len()
                == order_slice@.len() && forall|k: int|
                0 <= k < order_slice@.len() ==> #[trigger] tiebreak_rank.order@[k] == order_slice@[perm[k]];
            assert(tiebreak_rank.order@.len() == order_slice@.len());
        }
        let ghost before = *ranking;
        ranking.set_threshold(goal_len, tiebreak_rank.order.as_slice(), tiebreak_rank.tied.as_slice());
        proof {
            lemma_rearranged_chain(
                before.order@,
                goal_len - 1,
                tie_end(before.tied@, goal_len as int),
                tiebreak_rank.order@,
                data.elements as nat,
            );
        }
        proof {
            assert((tiebreak_rank.order@, tiebreak_rank.tied@) == tiebreak_group(
                *data,
                before.order@.subrange(goal_len - 1, tie_end(before.tied@, goal_len as int)),
                tiebreaker as int,
            ));
        }
        let ghost mid = *ranking;
        let before_len = ranking.len();
        ranking.keep_top(goal_len);
        proof {
            assert((ranking.order@, ranking.tied@) == tiebreak_round(
                *data,
                before.order@,
                before.tied@,
                goal_len as int,
                tiebreaker as int,
            ));
        }
        if ranking.len() == goal_len {
            return true;
        }
        proof {
            first = false;
        }
        if ranking.len() == before_len {
            if tiebreaker == 2 {
                proof {
                    assert(official_tiebreak(*data, ranking.order@, ranking.tied@, goal_len as int, 3) == (
                        false,
                        ranking.order@,
                        ranking.tied@,
                    ));
                }
                return false;
            }
            tiebreaker += 1;
        } else {
            tiebreaker = 0;
        }
    }
}


/// The total score of each element of `data`.
pub open spec fn totals(data: CardinalDense) -> Seq<usize> {
    Seq::new(data.elements as nat, |a: int| data.total(a) as usize)
}

/// `(order, tied)` ranks the elements `0..tot.len()` by `tot`: the highest
/// total first, equal totals tied and in increasing order.
pub open spec fn ranked_by_total(tot: Seq<usize>, order: Seq<usize>, tied: Seq<bool>) -> bool {
    &&& order.len() == tot.len()
    &&& tied.len() + 1 == order.len()
    &&& crate::strict::is_chain(tot.len(), order)
    &&& forall|i: int, j: int|
        0 <= i < j < order.len() ==> crate::tied::score_before(tot, #[trigger] order[i], #[trigger] order[j])
    &&& forall|i: int| 0 <= i < tied.len() ==> #[trigger] tied[i] == (tot[order[i] as int] == tot[order[i + 1] as int])
}

/// The ranking that `ranked_by_total` describes; there is only one.
pub open spec fn rank_by_total(tot: Seq<usize>) -> (Seq<usize>, Seq<bool>) {
    choose|r: (Seq<usize>, Seq<bool>)| ranked_by_total(tot, r.0, r.1)
}

/// A ranking that fits `ranked_by_total` is `rank_by_total`.
proof fn lemma_rank_by_total(tot: Seq<usize>, order: Seq<usize>, tied: Seq<bool>)
    requires
        ranked_by_total(tot, order, tied),
        tot.len() <= usize::MAX,
    ensures
        rank_by_total(tot) == (order, tied),
{
    let w = (order, tied);
    assert(ranked_by_total(tot, w.0, w.1));
    let r = rank_by_total(tot);
    let n = tot.len();
    crate::ranks::lemma_total_holds_all(order, n);
    crate::ranks::lemma_total_holds_all(r.0, n);
    let before = |x: usize, y: usize| crate::tied::score_before(tot, x, y);
    assert forall|k: int| 0 <= k < n implies r.0.contains(#[trigger] order[k]) by {
        assert(order[k] < n);
    }
    assert forall|k: int| 0 <= k < n implies order.contains(#[trigger] r.0[k]) by {
        assert(r.0[k] < n);
    }
    assert forall|a: int, b: int| 0 <= a < b < n implies before(order[a], order[b]) by {}
    assert forall|a: int, b: int| 0 <= a < b < n implies before(r.0[a], r.0[b]) by {}
    crate::tied::lemma_sorted_unique(order, r.0, before, 0);
    assert(tied =~= r.1);
}

/// Ranks the elements by their total score, the highest first; with fewer
/// than two elements, all are tied.
fn score_ranking(data: &CardinalDense) -> (res: TiedRank)
    requires
        data.wf(),
        forall|a: int| 0 <= a < data.elements ==> #[trigger] data.total(a) <= usize::MAX,
    ensures
        res.valid(),
        res.elements == data.elements,
        res.order@.len() == data.elements,
        data.elements >= 2 ==> forall|i: int, j: int|
            0 <= i < j < data.elements ==> crate::tied::score_before(totals(*data), res.order@[i], res.order@[j]),
        data.elements >= 2 ==> forall|i: int| 0 <= i < res.tied@.len() ==> #[trigger] res.tied@[i] == (totals(
            *data,
        )[res.order@[i] as int] == totals(*data)[res.order@[i + 1] as int]),
        data.elements >= 2 ==> (res.order@, res.tied@) == rank_by_total(totals(*data)),
{
    let e = data.elements;
    if e < 2 {
        return TiedRank::new_tied(e);
    }
    let mut sum = zeros(e);
    let votes = data.iter();
    let n = votes.len();
    let mut k: usize = 0;
    while k < n
        invariant
            data.wf(),
            e == data.elements,
            e >= 2,
            n == data.num_orders(),
            votes@.len() == n,
            forall|i: int| 0 <= i < n ==> (#[trigger] votes@[i])@ == data.order(i),
            forall|a: int| 0 <= a < e ==> #[trigger] data.total(a) <= usize::MAX,
            k <= n,
            sum@.len() == e,
            forall|a: int| 0 <= a < e ==> #[trigger] sum@[a] == total_score(data.orders@, e as nat, k as nat, a),
        decreases n - k,
    {
        let vals = votes[k].values();
        proof {
            data.lemma_order_len(k as int);
        }
        let mut i: usize = 0;
        while i < e
            invariant
                data.wf(),
                e == data.elements,
                k < n,
                n == data.num_orders(),
                vals@ == data.order(k as int),
                vals@.len() == e,
                forall|a: int| 0 <= a < e ==> #[trigger] data.total(a) <= usize::MAX,
                i <= e,
                sum@.len() == e,
                forall|a: int| 0 <= a < i ==> #[trigger] sum@[a] == total_score(data.orders@, e as nat, (k + 1) as nat, a),
                forall|a: int| i <= a < e ==> #[trigger] sum@[a] == total_score(data.orders@, e as nat, k as nat, a),
            decreases e - i,
        {
            proof {
                lemma_total_score_mono(data.orders@, e as nat, (k + 1) as nat, n as nat, i as int);
                assert(data.total(i as int) <= usize::MAX);
            }
            sum.set(i, sum[i] + vals[i]);
            i += 1;
        }
        k += 1;
    }
    proof {
        assert(sum@ =~= totals(*data));
    }
    let res = TiedRank::from_scores(e, sum.as_slice());
    proof {
        lemma_rank_by_total(totals(*data), res.order@, res.tied@);
    }
    res
}

/// `a` if it is not `Equal`, else `b`.
pub open spec fn then_cmp(a: Ordering, b: Ordering) -> Ordering {
    if a == Ordering::Equal {
        b
    } else {
        a
    }
}

/// The runoff between `a` and `b`, `Greater` when `a` ranks better: the
/// ballots that score one higher than the other decide, then the ballots
/// that give each the maximum score.
fn runoff_round(a: usize, b: usize, data: &CardinalDense) -> (res: Ordering)
    requires
        data.wf(),
        a < data.elements,
        b < data.elements,
    ensures
        res == then_cmp(
            compare_nat(data.wins(a, b), data.wins(b, a)),
            then_cmp(
                compare_nat(data.wins(a, b), data.wins(b, a)),
                compare_nat(data.scored(a, data.max), data.scored(b, data.max)),
            ),
        ),
{
    let mut matrix = zeros(4);
    let keep = vec![a, b];
    let _ = data.orders.len();
    proof {
        data.lemma_num_orders_bound();
        assert(keep@.len() == 2);
    }
    data.fill_preference_matrix(keep.as_slice(), &mut matrix);
    proof {
        assert(matrix@[0int * 2 + 1] == data.wins(keep@[0], keep@[1]));
        assert(matrix@[1int * 2 + 0] == data.wins(keep@[1], keep@[0]));
    }
    let a_v = matrix[1];
    let b_v = matrix[2];
    let first = crate::cardinal::compare_usize(a_v, b_v);
    match first {
        Ordering::Equal => {
            let second = data.compare(a, b);
            match second {
                Ordering::Equal => data.compare_specific(a, b, data.max),
                _ => second,
            }
        },
        _ => first,
    }
}

/// `a` and `b` have the two highest totals, `a` ahead of `b` (by total,
/// then by number), and every other candidate has less than both.
pub open spec fn clear_top_two(tot: Seq<usize>, a: usize, b: usize) -> bool {
    &&& a < tot.len()
    &&& b < tot.len()
    &&& a != b
    &&& crate::tied::score_before(tot, a, b)
    &&& forall|c: int| 0 <= c < tot.len() && c != a && c != b ==> #[trigger] tot[c] < tot[b as int]
}

/// The runoff between `a` and `b` as `runoff_round` decides it, `Greater`
/// when `a` wins.
pub open spec fn runoff_result(data: CardinalDense, a: usize, b: usize) -> Ordering {
    then_cmp(
        compare_nat(data.wins(a, b), data.wins(b, a)),
        then_cmp(
            compare_nat(data.wins(a, b), data.wins(b, a)),
            compare_nat(data.scored(a, data.max), data.scored(b, data.max)),
        ),
    )
}

/// Whether `b` wins the runoff against `a`.
pub open spec fn runoff_lost(data: CardinalDense, a: usize, b: usize) -> bool {
    runoff_result(data, a, b) == Ordering::Less
}

/// Whether the runoff between `a` and `b` is a draw.
pub open spec fn runoff_drawn(data: CardinalDense, a: usize, b: usize) -> bool {
    runoff_result(data, a, b) == Ordering::Equal
}

/// When two candidates stand clear of the rest in total score, the scoring
/// ranking starts with them and does not tie the second with the third.
proof fn lemma_clear_top_two(order: Seq<usize>, tied: Seq<bool>, tot: Seq<usize>, a: usize, b: usize)
    requires
        order.len() == tot.len(),
        2 <= order.len() <= usize::MAX,
        crate::strict::is_chain(order.len(), order),
        tie_shape(order.len(), tied.len()),
        forall|i: int, j: int|
            0 <= i < j < order.len() ==> crate::tied::score_before(tot, #[trigger] order[i], #[trigger] order[j]),
        forall|i: int| 0 <= i < tied.len() ==> #[trigger] tied[i] == (tot[order[i] as int] == tot[order[i + 1] as int]),
        clear_top_two(tot, a, b),
    ensures
        order[0] == a,
        order[1] == b,
        tie_end(tied, 2) == 2,
{
    let n = order.len();
    crate::ranks::lemma_total_holds_all(order, n);
    assert(order.contains(a));
    assert(order.contains(b));
    let pa = choose|p: int| 0 <= p < n && order[p] == a;
    let pb = choose|p: int| 0 <= p < n && order[p] == b;
    if order[0] != a {
        assert(crate::tied::score_before(tot, order[0], order[pa]));
        if order[0] == b {
            assert(false);
        } else {
            assert(tot[order[0] as int] < tot[b as int]);
            assert(false);
        }
    }
    if order[1] != b {
        assert(order[1] != a);
        assert(pb >= 2);
        assert(crate::tied::score_before(tot, order[1], order[pb]));
        assert(tot[order[1] as int] < tot[b as int]);
        assert(false);
    }
    lemma_lead_true(tied.skip(1));
    if n > 2 {
        assert(order[2] != a && order[2] != b);
        assert(tot[order[2] as int] < tot[b as int]);
        assert(!tied[1]);
        assert(!tied.skip(1)[0]);
    }
}

/// The scoring round with at least two candidates: the ranking by total
/// score, tiebroken by the official protocol until the top two are decided
/// (`true`) or the protocol leaves it to chance (`false`).
pub open spec fn scoring_round(data: CardinalDense) -> (bool, Seq<usize>, Seq<bool>) {
    let r = rank_by_total(totals(data));
    official_tiebreak(data, r.0, r.1, 2, 0)
}

/// The ranking that STAR voting gives with at least two candidates: the top
/// two of the scoring round ranked by their runoff (tied when it is drawn),
/// the rest tied below them; or, when the scoring round does not decide a
/// top two, its ranking made complete.
pub open spec fn star_result(data: CardinalDense) -> (Seq<usize>, Seq<bool>) {
    let round = scoring_round(data);
    let a = round.1[0];
    let b = round.1[1];
    if !round.0 {
        completed(round.1, round.2, data.elements as nat, false)
    } else if runoff_lost(data, a, b) {
        completed(seq![b, a], seq![false], data.elements as nat, false)
    } else {
        completed(seq![a, b], seq![runoff_drawn(data, a, b)], data.elements as nat, false)
    }
}

/// STAR voting: a scoring round then an automatic runoff.
pub struct Star {
    pub score: TiedRank,
}

impl Star {
    /// Counts the ballots. With fewer than two candidates, all are tied.
    /// Otherwise the scoring round ranks the candidates by total score and
    /// breaks ties by the official protocol; if it finds a top two, they
    /// meet in the runoff, and the result ranks them by the runoff, the rest
    /// tied below them, the first of them never losing the runoff to the
    /// second; if it does not, the result is the scoring round's ranking
    /// made complete.
    pub fn count(data: &CardinalDense) -> (res: Result<Star, &'static str>)
        requires
            data.wf(),
            data.elements * data.elements <= usize::MAX,
            forall|a: int| 0 <= a < data.elements ==> #[trigger] data.total(a) <= usize::MAX,
        ensures
            res matches Ok(s) && s.score.valid() && s.score.elements == data.elements && s.score.order@.len()
                == data.elements,
            data.elements < 2 ==> (res matches Ok(s) && forall|i: int| 0 <= i < s.score.tied@.len() ==> #[trigger] s.score.tied@[i]),
            data.elements >= 2 ==> (res matches Ok(s) && (s.score.order@, s.score.tied@) == star_result(*data)),
            data.elements >= 2 && scoring_round(*data).0 ==> (res matches Ok(s) && !runoff_lost(
                *data,
                s.score.order@[0],
                s.score.order@[1],
            ) && ((s.score.order@[0] == scoring_round(*data).1[0] && s.score.order@[1] == scoring_round(*data).1[1])
                || (s.score.order@[0] == scoring_round(*data).1[1] && s.score.order@[1] == scoring_round(
                *data,
            ).1[0]))),
            data.elements >= 2 ==> forall|a: usize, b: usize| #[trigger] clear_top_two(totals(*data), a, b) ==> (res matches Ok(s)
                && s.score.order@[0] == (if runoff_lost(*data, a, b) {
                b
            } else {
                a
            }) && s.score.order@[1] == (if runoff_lost(*data, a, b) {
                a
            } else {
                b
            }) && s.score.tied@[0] == runoff_drawn(*data, a, b) && (data.elements > 2
                ==> !s.score.tied@[1]) && forall|i: int| 2 <= i < s.score.tied@.len() ==> #[trigger] s.score.tied@[i]),
    {
        let e = data.elements;
        if e < 2 {
            return Ok(Star { score: TiedRank::new_tied(e) });
        }
        let mut v = score_ranking(data);
        let ghost v0 = v;
        let found = tiebreak_scoring_official(&mut v, 2, data);
        proof {
            assert forall|a: usize, b: usize| #[trigger] clear_top_two(totals(*data), a, b) implies found
                && v.order@[0] == a && v.order@[1] == b by {
                lemma_clear_top_two(v0.order@, v0.tied@, totals(*data), a, b);
                assert(v.order@ == v0.order@.take(2));
            }
        }
        if !found {
            v.make_complete(false);
            return Ok(Star { score: v });
        }
        let a = v.order[0];
        let b = v.order[1];
        proof {
            assert(v.order@[0] != v.order@[1]);
        }
        let mut rank = match runoff_round(a, b, data) {
            Ordering::Less => TiedRank::new(e, vec![b, a], vec![false]),
            Ordering::Equal => TiedRank::new(e, vec![a, b], vec![true]),
            Ordering::Greater => TiedRank::new(e, vec![a, b], vec![false]),
        };
        proof {
            if runoff_lost(*data, a, b) {
                assert(runoff_result(*data, b, a) == Ordering::Greater);
            }
            assert(rank.order@.len() == 2);
            assert(rank.order@ =~= (if runoff_lost(*data, a, b) { seq![b, a] } else { seq![a, b] }));
            assert(rank.tied@ =~= (if runoff_lost(*data, a, b) { seq![false] } else { seq![runoff_drawn(*data, a, b)] }));
            assert(rank.valid()) by {
                assert forall|i: int, j: int| 0 <= i < 2 && 0 <= j < 2 && i != j implies rank.order@[i] != rank.order@[j] by {}
            }
        }
        rank.make_complete(false);
        Ok(Star { score: rank })
    }

    /// The order of the result ranking.
    pub fn get_score(&self) -> (res: &Vec<usize>)
        ensures
            res@ == self.score.order@,
    {
        &self.score.order
    }

    /// The result ranking.
    pub fn as_vote(&self) -> (res: TiedRank)
        ensures
            res.elements == self.score.elements,
            res.order@ == self.score.order@,
            res.tied@ == self.score.tied@,
    {
        TiedRank {
            order: crate::util::copy_usizes(self.score.order.as_slice()),
            tied: crate::util::copy_bools(self.score.tied.as_slice()),
            elements: self.score.elements,
        }
    }
}

/// The number of leading positions of `l` whose score is at most that of
/// position `x`.
pub open spec fn low_count(l: Seq<int>, sc: Seq<usize>, x: int) -> nat
    decreases l.len(),
{
    if l.len() > 0 && sc[l[0]] <= sc[x] {
        1 + low_count(l.skip(1), sc, x)
    } else {
        0
    }
}

/// The positions `0..k` sorted by `sc` from the lowest, each inserted
/// before the first position of a higher score.
pub open spec fn sort_positions(sc: Seq<usize>, k: nat) -> Seq<int>
    decreases k,
{
    if k == 0 {
        Seq::empty()
    } else {
        let l = sort_positions(sc, (k - 1) as nat);
        l.insert(low_count(l, sc, k - 1) as int, k - 1)
    }
}

proof fn lemma_low_count(l: Seq<int>, sc: Seq<usize>, x: int)
    ensures
        low_count(l, sc, x) <= l.len(),
        forall|q: int| 0 <= q < low_count(l, sc, x) ==> sc[#[trigger] l[q]] <= sc[x],
        low_count(l, sc, x) < l.len() ==> sc[l[low_count(l, sc, x) as int]] > sc[x],
    decreases l.len(),
{
    if l.len() > 0 && sc[l[0]] <= sc[x] {
        let d = l.skip(1);
        lemma_low_count(d, sc, x);
        assert forall|q: int| 0 <= q < low_count(l, sc, x) implies sc[#[trigger] l[q]] <= sc[x] by {
            if q > 0 {
                assert(l[q] == d[q - 1]);
            }
        }
        if low_count(l, sc, x) < l.len() {
            assert(l[low_count(l, sc, x) as int] == d[low_count(d, sc, x) as int]);
        }
    }
}

/// The sorted positions form a stable sort of `0..k` by `sc`.
proof fn lemma_sort_positions(sc: Seq<usize>, k: nat)
    requires
        k <= sc.len(),
    ensures
        is_permutation(sort_positions(sc, k), k),
        forall|p: int, q: int|
            0 <= p < q < k ==> sc[sort_positions(sc, k)[p]] < sc[sort_positions(sc, k)[q]] || (sc[sort_positions(
                sc,
                k,
            )[p]] == sc[sort_positions(sc, k)[q]] && sort_positions(sc, k)[p] < sort_positions(sc, k)[q]),
    decreases k,
{
    if k > 0 {
        let l = sort_positions(sc, (k - 1) as nat);
        let x = k - 1;
        lemma_sort_positions(sc, (k - 1) as nat);
        lemma_low_count(l, sc, x);
        let pos = low_count(l, sc, x) as int;
        let t = l.insert(pos, x);
        assert(t == sort_positions(sc, k));
        assert forall|i: int| 0 <= i < k implies 0 <= #[trigger] t[i] < k by {
            if i < pos {
                assert(t[i] == l[i]);
            } else if i > pos {
                assert(t[i] == l[i - 1]);
            }
        }
        assert forall|i: int, j: int| 0 <= i < k && 0 <= j < k && i != j implies t[i] != t[j] by {
            let si = if i < pos { i } else { i - 1 };
            let sj = if j < pos { j } else { j - 1 };
            if i != pos {
                assert(t[i] == l[si]);
            }
            if j != pos {
                assert(t[j] == l[sj]);
            }
        }
        assert forall|p: int, q: int| 0 <= p < q < k implies sc[t[p]] < sc[t[q]] || (sc[t[p]] == sc[t[q]] && t[p] < t[q]) by {
            if p != pos && q != pos {
                let sp = if p < pos { p } else { p - 1 };
                let sq = if q < pos { q } else { q - 1 };
                assert(t[p] == l[sp] && t[q] == l[sq]);
            } else if q == pos {
                assert(t[p] == l[p]);
                assert(sc[l[p]] <= sc[x]);
            } else {
                assert(t[q] == l[q - 1]);
                assert(sc[l[pos]] > sc[x]);
                if q - 1 > pos {
                    assert(sc[l[pos]] < sc[l[q - 1]] || (sc[l[pos]] == sc[l[q - 1]] && l[pos] < l[q - 1]));
                }
            }
        }
    }
}

/// A nonempty sequence has a ranking by any scores of its length.
proof fn lemma_rank_exists(v: Seq<usize>, scores: Seq<usize>)
    requires
        v.len() > 0,
        scores.len() == v.len(),
    ensures
        ranked_high_first(v, scores, rank_high_first(v, scores).0, rank_high_first(v, scores).1),
{
    let n = v.len();
    lemma_sort_positions(scores, n);
    let perm = sort_positions(scores, n);
    let a1 = Seq::new(n, |i: int| v[perm[i]]);
    let b1 = Seq::new(n, |i: int| scores[perm[i]]);
    let order = a1.reverse();
    let tied = Seq::new((n - 1) as nat, |i: int| b1.reverse()[i] == b1.reverse()[i + 1]);
    assert(order.reverse() =~= a1);
    assert(stable_sorted(perm, v, scores, order.reverse(), b1));
    assert(ranked_via(v, scores, order, tied, perm, b1));
    assert(ranked_high_first(v, scores, (order, tied).0, (order, tied).1));
}

/// The ranking by scores that are a function `h` of the elements lists
/// the elements of `v`, from the highest value of `h` down, and ties
/// exactly the neighbours with equal values.
proof fn lemma_high_first_by(v: Seq<usize>, scores: Seq<usize>, h: spec_fn(usize) -> int)
    requires
        v.len() > 0,
        scores.len() == v.len(),
        forall|i: int| 0 <= i < v.len() ==> #[trigger] scores[i] == h(v[i]),
    ensures
        rank_high_first(v, scores).0.len() == v.len(),
        rank_high_first(v, scores).1.len() + 1 == v.len(),
        rearranges(v, rank_high_first(v, scores).0),
        forall|p: int, q: int|
            0 <= p < q < v.len() ==> h(#[trigger] rank_high_first(v, scores).0[p]) >= h(
                #[trigger] rank_high_first(v, scores).0[q],
            ),
        forall|p: int|
            0 <= p < rank_high_first(v, scores).1.len() ==> #[trigger] rank_high_first(v, scores).1[p] == (h(
                rank_high_first(v, scores).0[p],
            ) == h(rank_high_first(v, scores).0[p + 1])),
{
    lemma_rank_exists(v, scores);
    let r = rank_high_first(v, scores);
    let n = v.len() as int;
    lemma_ranked_rearranges(v, scores, r.0, r.1);
    let (perm, s) = choose|perm: Seq<int>, s: Seq<usize>| ranked_via(v, scores, r.0, r.1, perm, s);
    let a1 = r.0.reverse();
    assert(stable_sorted(perm, v, scores, a1, s));
    assert forall|i: int| 0 <= i < n implies #[trigger] s[i] == h(a1[i]) by {
        assert(a1[i] == v[perm[i]] && s[i] == scores[perm[i]]);
    }
    assert forall|p: int, q: int| 0 <= p < q < n implies h(#[trigger] r.0[p]) >= h(#[trigger] r.0[q]) by {
        assert(r.0[p] == a1[n - 1 - p] && r.0[q] == a1[n - 1 - q]);
        assert(s[n - 1 - q] < s[n - 1 - p] || s[n - 1 - q] == s[n - 1 - p]);
    }
    assert forall|p: int| 0 <= p < r.1.len() implies #[trigger] r.1[p] == (h(r.0[p]) == h(r.0[p + 1])) by {
        assert(r.0[p] == a1[n - 1 - p] && r.0[p + 1] == a1[n - 2 - p]);
        assert(s.reverse()[p] == s[n - 1 - p] && s.reverse()[p + 1] == s[n - 2 - p]);
    }
}

proof fn lemma_count_value_le(s: Seq<usize>, e: nat, k: nat, a: int, value: usize)
    ensures
        crate::cardinal::count_value(s, e, k, a, value) <= k,
    decreases k,
{
    if k > 0 {
        lemma_count_value_le(s, e, (k - 1) as nat, a, value);
    }
}

/// Each count of a rating fits in a `usize`.
proof fn lemma_rating_counts(data: CardinalDense, g: Seq<usize>, rating: usize)
    ensures
        forall|i: int| 0 <= i < g.len() ==> #[trigger] rating_counts(data, g, rating)[i] == data.scored(g[i], rating),
{
    data.lemma_num_orders_bound();
    vstd::std_specs::vec::axiom_spec_len(&data.orders);
    assert forall|i: int| 0 <= i < g.len() implies #[trigger] rating_counts(data, g, rating)[i] == data.scored(g[i], rating) by {
        lemma_count_value_le(data.orders@, data.elements as nat, data.num_orders(), g[i] as int, rating);
    }
}

/// The second stage of the scoring tiebreak ranks the tied candidates by
/// the number of ballots giving them the highest score: more such ballots
/// rank higher, and equal numbers stay tied.
pub proof fn tiebreak_most_top_scores(data: CardinalDense, g: Seq<usize>)
    requires
        g.len() > 0,
    ensures
        rearranges(g, tiebreak_group(data, g, 1).0),
        forall|p: int, q: int|
            0 <= p < q < g.len() ==> data.scored(#[trigger] tiebreak_group(data, g, 1).0[p], data.max) >= data.scored(
                #[trigger] tiebreak_group(data, g, 1).0[q],
                data.max,
            ),
        forall|p: int|
            0 <= p < tiebreak_group(data, g, 1).1.len() ==> #[trigger] tiebreak_group(data, g, 1).1[p] == (
            data.scored(tiebreak_group(data, g, 1).0[p], data.max) == data.scored(
                tiebreak_group(data, g, 1).0[p + 1],
                data.max,
            )),
{
    lemma_rating_counts(data, g, data.max);
    let h = |x: usize| data.scored(x, data.max);
    lemma_high_first_by(g, rating_counts(data, g, data.max), h);
}

/// The third stage of the scoring tiebreak ranks the tied candidates by
/// the number of ballots giving them the lowest score: fewer such ballots
/// rank higher, and equal numbers stay tied.
pub proof fn tiebreak_fewest_lowest_scores(data: CardinalDense, g: Seq<usize>)
    requires
        g.len() > 0,
    ensures
        rearranges(g, tiebreak_group(data, g, 2).0),
        forall|p: int, q: int|
            0 <= p < q < g.len() ==> data.scored(#[trigger] tiebreak_group(data, g, 2).0[p], data.min) <= data.scored(
                #[trigger] tiebreak_group(data, g, 2).0[q],
                data.min,
            ),
        forall|p: int|
            0 <= p < tiebreak_group(data, g, 2).1.len() ==> #[trigger] tiebreak_group(data, g, 2).1[p] == (
            data.scored(tiebreak_group(data, g, 2).0[p], data.min) == data.scored(
                tiebreak_group(data, g, 2).0[p + 1],
                data.min,
            )),
{
    lemma_rating_counts(data, g, data.min);
    let h = |x: usize| data.scored(x, data.min);
    let sc = rating_counts(data, g, data.min);
    lemma_high_first_by(g, sc, h);
    let r = rank_high_first(g, sc);
    let n = g.len() as int;
    let o = r.0.reverse();
    let t = r.1.reverse();
    assert(tiebreak_group(data, g, 2) == (o, t));
    assert(rearranges(g, o)) by {
        lemma_rank_exists(g, sc);
        lemma_ranked_rearranges(g, sc, r.0, r.1);
    }
    assert forall|p: int, q: int| 0 <= p < q < n implies h(#[trigger] o[p]) <= h(#[trigger] o[q]) by {
        assert(o[p] == r.0[n - 1 - p] && o[q] == r.0[n - 1 - q]);
    }
    assert forall|p: int| 0 <= p < t.len() implies #[trigger] t[p] == (h(o[p]) == h(o[p + 1])) by {
        let m = r.1.len() as int;
        assert(t[p] == r.1[m - 1 - p]);
        assert(o[p] == r.0[n - 1 - p] && o[p + 1] == r.0[n - 2 - p]);
        assert(m == n - 1);
    }
}

/// The number of elements of `g` that `x` beats in pairwise matchups.
pub open spec fn beaten_in(data: CardinalDense, g: Seq<usize>, x: usize) -> nat {
    g.filter(|y: usize| data.wins(x, y) > data.wins(y, x)).len()
}

proof fn lemma_beats_count_filter(data: CardinalDense, v: Seq<usize>, a: int, hi: int)
    requires
        0 <= a < v.len(),
        0 <= hi <= v.len(),
    ensures
        beats_count(data, v, a, hi) == beaten_in(data, v.take(hi), v[a]),
    decreases hi,
{
    reveal(Seq::filter);
    if hi > 0 {
        lemma_beats_count_filter(data, v, a, hi - 1);
        assert(v.take(hi).drop_last() =~= v.take(hi - 1));
        assert(v.take(hi).last() == v[hi - 1]);
    } else {
        assert(v.take(0) =~= Seq::<usize>::empty());
    }
}

/// The first stage of the scoring tiebreak ranks the tied candidates by
/// the number of others in the group that each beats in pairwise
/// matchups: more such wins rank higher, and equal numbers stay tied.
pub proof fn tiebreak_most_matchups(data: CardinalDense, g: Seq<usize>)
    requires
        0 < g.len() <= usize::MAX,
    ensures
        rearranges(g, tiebreak_group(data, g, 0).0),
        forall|p: int, q: int|
            0 <= p < q < g.len() ==> beaten_in(data, g, #[trigger] tiebreak_group(data, g, 0).0[p]) >= beaten_in(
                data,
                g,
                #[trigger] tiebreak_group(data, g, 0).0[q],
            ),
        forall|p: int|
            0 <= p < tiebreak_group(data, g, 0).1.len() ==> #[trigger] tiebreak_group(data, g, 0).1[p] == (
            beaten_in(data, g, tiebreak_group(data, g, 0).0[p]) == beaten_in(
                data,
                g,
                tiebreak_group(data, g, 0).0[p + 1],
            )),
{
    let sc = matchup_scores(data, g);
    assert forall|i: int| 0 <= i < g.len() implies #[trigger] sc[i] == beaten_in(data, g, g[i]) by {
        lemma_beats_count_filter(data, g, i, g.len() as int);
        lemma_beats_count_bound(data, g, i, g.len() as int);
        assert(g.take(g.len() as int) =~= g);
    }
    let h = |x: usize| beaten_in(data, g, x) as int;
    lemma_high_first_by(g, sc, h);
}

} // verus!
