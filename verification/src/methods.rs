//! # Voting methods
//!
//! Each method counts a collection of votes into a score per candidate,
//! from which a ranking of the candidates follows.
use rand::rngs::StdRng;
use vstd::prelude::*;

use crate::binary::BinaryDense;
use crate::specific::{count_eq, lemma_count_eq_bound, SpecificDense};
use crate::strict::is_total;
use crate::tied::{groups, lemma_groups_split, tie_shape, TiedRank, TiedRankRef};
use crate::toi::{start_of, TiedOrdersIncomplete};
use crate::util::{all_below, get_order, order_ranks};

verus! {

broadcast use vstd::seq_lib::group_seq_properties;

/// The outcome of a single winner election.
pub enum Winner {
    Solo(usize),
    Ties(Vec<usize>),
}

/// The positions of `s`, among the first `k`, that hold `0`, in increasing
/// order.
pub open spec fn zero_positions(s: Seq<usize>, k: nat) -> Seq<usize>
    decreases k,
{
    if k == 0 {
        Seq::empty()
    } else if s[k - 1] == 0 {
        zero_positions(s, (k - 1) as nat).push((k - 1) as usize)
    } else {
        zero_positions(s, (k - 1) as nat)
    }
}

proof fn lemma_zero_positions(s: Seq<usize>, k: nat, p: int)
    requires
        0 <= p < k <= s.len(),
        s[p] == 0,
    ensures
        zero_positions(s, k).len() > 0,
    decreases k,
{
    if p < k - 1 {
        lemma_zero_positions(s, (k - 1) as nat, p);
    }
}

/// The winners of the ranking `ranking`, where rank `0` is the best: the
/// single candidate of rank `0`, or all of them when there are several.
/// Some candidate must have rank `0`.
pub fn single_winner(ranking: &Vec<usize>) -> (res: Winner)
    requires
        ranking@.contains(0),
    ensures
        zero_positions(ranking@, ranking@.len()).len() == 1 ==> res == Winner::Solo(
            zero_positions(ranking@, ranking@.len())[0],
        ),
        zero_positions(ranking@, ranking@.len()).len() > 1 ==> (res matches Winner::Ties(w) && w@ == zero_positions(
            ranking@,
            ranking@.len(),
        )),
{
    let n = ranking.len();
    let mut winners: Vec<usize> = Vec::new();
    let mut i: usize = 0;
    while i < n
        invariant
            n == ranking@.len(),
            i <= n,
            winners@ == zero_positions(ranking@, i as nat),
        decreases n - i,
    {
        if ranking[i] == 0 {
            winners.push(i);
        }
        i += 1;
    }
    proof {
        let p = choose|p: int| 0 <= p < n && ranking@[p] == 0;
        lemma_zero_positions(ranking@, n as nat, p);
    }
    if winners.len() == 1 {
        Winner::Solo(winners[0])
    } else {
        Winner::Ties(winners)
    }
}

/// The number of the first `m` orders of `data` that approve of `j`.
pub open spec fn approvals(data: BinaryDense, j: int, m: nat) -> nat
    decreases m,
{
    if m == 0 {
        0
    } else {
        approvals(data, j, (m - 1) as nat) + if data.order(m - 1)[j] {
            1nat
        } else {
            0nat
        }
    }
}

/// Approval voting: each candidate scores the number of votes that approve
/// of it.
pub struct Approval {
    pub score: Vec<usize>,
}

impl Approval {
    /// Counts the approvals of every candidate.
    pub fn count(data: &BinaryDense) -> (res: Result<Approval, &'static str>)
        requires
            data.wf(),
        ensures
            res matches Ok(a) && a.score@.len() == data.elements && forall|j: int|
                0 <= j < data.elements ==> #[trigger] a.score@[j] == approvals(*data, j, data.num_orders()),
    {
        let e = data.elements;
        let n = data.len();
        let mut score: Vec<usize> = Vec::new();
        let mut x: usize = 0;
        while x < e
            invariant
                x <= e,
                score@.len() == x,
                forall|y: int| 0 <= y < x ==> #[trigger] score@[y] == 0,
            decreases e - x,
        {
            score.push(0);
            x += 1;
        }
        let _ = data.orders.len();
        let mut i: usize = 0;
        while i < n
            invariant
                data.wf(),
                e == data.elements,
                n == data.num_orders(),
                data.orders@.len() <= usize::MAX,
                i <= n,
                score@.len() == e,
                forall|y: int| 0 <= y < e ==> #[trigger] score@[y] == approvals(*data, y, i as nat),
                forall|y: int| 0 <= y < e ==> #[trigger] score@[y] <= i,
            decreases n - i,
        {
            proof {
                crate::util::lemma_div_exact(data.orders@.len() as int, e as int);
                crate::util::lemma_mul_block(i as int, n as int, e as int);
            }
            let ghost s0 = score@;
            let mut j: usize = 0;
            while j < e
                invariant
                    data.wf(),
                    e == data.elements,
                    n == data.num_orders(),
                    i < n,
                    0 <= i * e,
                    i * e + e <= data.orders@.len(),
                    data.orders@.len() <= usize::MAX,
                    j <= e,
                    forall|y: int| 0 <= y < j ==> #[trigger] score@[y] <= i + 1,
                    score@.len() == e,
                    forall|y: int| 0 <= y < j ==> #[trigger] score@[y] == approvals(*data, y, (i + 1) as nat),
                    forall|y: int| j <= y < e ==> #[trigger] score@[y] == s0[y],
                    forall|y: int| 0 <= y < e ==> #[trigger] s0[y] == approvals(*data, y, i as nat),
                    forall|y: int| 0 <= y < e ==> #[trigger] s0[y] <= i,
                decreases e - j,
            {
                proof {
                    assert(data.order(i as int)[j as int] == data.orders@[i * e + j]);
                }
                if data.orders[i * e + j] {
                    score.set(j, score[j] + 1);
                }
                j += 1;
            }
            i += 1;
        }
        Ok(Approval { score })
    }

    /// The number of approvals of each candidate.
    pub fn get_score(&self) -> (res: &Vec<usize>)
        ensures
            res@ == self.score@,
    {
        &self.score
    }

    /// The rank of each candidate, `0` for the most approved; equal scores
    /// share a rank.
    pub fn get_order(&self) -> (res: Vec<usize>)
        ensures
            res@ == order_ranks(self.score@, true),
    {
        get_order(self.score.as_slice(), true)
    }
}

/// First past the post: each candidate scores the number of votes for it.
pub struct Fptp {
    pub score: Vec<usize>,
}

impl Fptp {
    /// Counts the votes of every candidate.
    pub fn count(data: &SpecificDense) -> (res: Result<Fptp, &'static str>)
        requires
            data.wf(),
        ensures
            res matches Ok(f) && f.score@.len() == data.elements && forall|c: int|
                0 <= c < data.elements ==> #[trigger] f.score@[c] == count_eq(data.orders@, c as usize),
    {
        let e = data.elements;
        let mut score: Vec<usize> = Vec::new();
        let mut x: usize = 0;
        while x < e
            invariant
                x <= e,
                score@.len() == x,
                forall|y: int| 0 <= y < x ==> #[trigger] score@[y] == 0,
            decreases e - x,
        {
            score.push(0);
            x += 1;
        }
        let votes = data.iter();
        let n = votes.len();
        let mut i: usize = 0;
        while i < n
            invariant
                data.wf(),
                votes@ == data.orders@,
                n == votes@.len(),
                e == data.elements,
                i <= n,
                score@.len() == e,
                forall|y: int| 0 <= y < e ==> #[trigger] score@[y] == count_eq(votes@.take(i as int), y as usize),
            decreases n - i,
        {
            let v = votes[i];
            proof {
                assert(votes@.take(i + 1).drop_last() =~= votes@.take(i as int));
                lemma_count_eq_bound(votes@.take(i as int), v);
                assert(v < e);
            }
            score.set(v, score[v] + 1);
            i += 1;
        }
        proof {
            assert(votes@.take(n as int) =~= votes@);
        }
        Ok(Fptp { score })
    }

    /// The number of votes of each candidate.
    pub fn get_score(&self) -> (res: &Vec<usize>)
        ensures
            res@ == self.score@,
    {
        &self.score
    }

    /// The rank of each candidate, `0` for the most votes.
    pub fn get_order(&self) -> (res: Vec<usize>)
        ensures
            res@ == order_ranks(self.score@, true),
    {
        get_order(self.score.as_slice(), true)
    }

    /// The ranking of the candidates, with equal ranks tied.
    pub fn as_vote(&self) -> (res: TiedRank)
        ensures
            res.elements == self.score@.len(),
            vote_of_ranks(order_ranks(self.score@, true), res.order@, res.tied@),
    {
        let _ = self.score.len();
        proof {
            lemma_order_ranks_dense(self.score@, true);
        }
        let order = self.get_order();
        order_to_vote(order.as_slice())
    }
}

/// Every rank below a rank that occurs occurs too.
pub open spec fn dense_ranks(v: Seq<usize>) -> bool {
    forall|j: int, y: usize| #![trigger v[j], v.contains(y)] 0 <= j < v.len() && y < v[j] ==> v.contains(y)
}

/// The ranks that `get_order` computes leave no gap.
pub proof fn lemma_order_ranks_dense(s: Seq<usize>, rev: bool)
    requires
        s.len() <= usize::MAX,
    ensures
        dense_ranks(order_ranks(s, rev)),
{
    let v = order_ranks(s, rev);
    crate::ranks::lemma_ranks_dense(s, rev);
    assert forall|j: int, y: usize| #![trigger v[j], v.contains(y)] 0 <= j < v.len() && y < v[j] implies v.contains(y) by {
        assert(v.to_set().contains(v[j]));
        assert(v.to_set().contains(y));
    }
}

/// `order` lists the positions of `v` by rank and then by position, and
/// neighbours are tied when they share a rank.
pub open spec fn vote_of_ranks(v: Seq<usize>, order: Seq<usize>, tied: Seq<bool>) -> bool {
    &&& is_total(order)
    &&& order.len() == v.len()
    &&& tie_shape(order.len(), tied.len())
    &&& forall|a: int, b: int|
        0 <= a < b < order.len() ==> v[order[a] as int] < v[order[b] as int] || (v[order[a] as int]
            == v[order[b] as int] && order[a] < order[b])
    &&& forall|k: int| 0 <= k < tied.len() ==> #[trigger] tied[k] == (v[order[k] as int] == v[order[k + 1] as int])
}


/// With every rank below an occurring rank occurring too, every rank is
/// below the number of positions.
proof fn lemma_dense_ranks_below(v: Seq<usize>, j: int)
    requires
        dense_ranks(v),
        0 <= j < v.len(),
    ensures
        v[j] < v.len(),
{
    let x = v[j];
    let vals = Set::new(|y: int| 0 <= y <= x);
    let pos = vstd::set_lib::set_int_range(0, v.len() as int);
    let f = |p: int| v[p] as int;
    vstd::set_lib::lemma_int_range(0, v.len() as int);
    vstd::set_lib::lemma_int_range(0, x + 1);
    assert(vals =~= vstd::set_lib::set_int_range(0, x + 1));
    assert forall|y: int| vals.contains(y) implies pos.map(f).contains(y) by {
        if y < x {
            assert(v.contains(y as usize));
            let p = choose|p: int| 0 <= p < v.len() && v[p] == y as usize;
            assert(pos.contains(p) && f(p) == y);
        } else {
            assert(pos.contains(j) && f(j) == y);
        }
    }
    vstd::set_lib::lemma_map_size_bound(pos, pos.map(f), f);
    vstd::set_lib::lemma_len_subset(vals, pos.map(f));
}

/// The ranking that `v` describes, where `v[j]` is the rank of candidate
/// `j` and `0` is the best: candidates by rank and then by number, equal
/// ranks tied. Every rank below one that occurs must occur.
pub fn order_to_vote(v: &[usize]) -> (res: TiedRank)
    requires
        dense_ranks(v@),
    ensures
        res.elements == v@.len(),
        vote_of_ranks(v@, res.order@, res.tied@),
{
    let n = v.len();
    let mut order: Vec<usize> = Vec::new();
    let mut tied: Vec<bool> = Vec::new();
    let mut i: usize = 0;
    let mut done = false;
    while i < n && !done
        invariant
            n == v@.len(),
            dense_ranks(v@),
            i <= n,
            tied@.len() == order@.len(),
            all_below(order@, n as nat),
            crate::util::all_distinct(order@),
            forall|k: int| 0 <= k < order@.len() ==> #[trigger] v@[order@[k] as int] < i,
            forall|j: int| 0 <= j < n && v@[j] < i ==> #[trigger] order@.contains(j as usize),
            forall|a: int, b: int|
                0 <= a < b < order@.len() ==> v@[order@[a] as int] < v@[order@[b] as int] || (v@[order@[a] as int]
                    == v@[order@[b] as int] && order@[a] < order@[b]),
            forall|k: int| 0 <= k < tied@.len() ==> #[trigger] tied@[k] == (k + 1 < order@.len() && v@[order@[k] as int]
                == v@[order@[k + 1] as int]),
            done ==> forall|j: int| 0 <= j < n ==> #[trigger] v@[j] < i,
        decreases n - i,
    {
        let ghost o0 = order@;
        let ghost t0 = tied@;
        let mut found = false;
        let mut j: usize = 0;
        while j < n
            invariant
                n == v@.len(),
                i < n,
                j <= n,
                o0.len() == t0.len(),
                all_below(o0, n as nat),
                order@.len() >= o0.len(),
                order@.take(o0.len() as int) == o0,
                tied@.len() == order@.len(),
                forall|k: int| 0 <= k < o0.len() ==> #[trigger] v@[o0[k] as int] < i,
                forall|k: int| o0.len() <= k < order@.len() ==> v@[#[trigger] order@[k] as int] == i && order@[k] < j,
                forall|a: int, b: int| o0.len() <= a < b < order@.len() ==> order@[a] < order@[b],
                forall|q: int| 0 <= q < j && v@[q] == i ==> #[trigger] order@.contains(q as usize),
                found == (order@.len() > o0.len()),
                forall|k: int| 0 <= k < o0.len() ==> #[trigger] tied@[k] == if k + 1 < o0.len() {
                    t0[k]
                } else {
                    k + 1 < order@.len() && v@[o0[k] as int] == v@[order@[k + 1] as int]
                },
                forall|k: int| o0.len() <= k < tied@.len() ==> #[trigger] tied@[k],
                forall|k: int| 0 <= k < t0.len() ==> #[trigger] t0[k] == (k + 1 < o0.len() && v@[o0[k] as int]
                    == v@[o0[k + 1] as int]),
            decreases n - j,
        {
            if v[j] == i {
                let ghost before = order@;
                order.push(j);
                tied.push(true);
                found = true;
                proof {
                    assert forall|q: int| 0 <= q < j + 1 && v@[q] == i implies #[trigger] order@.contains(q as usize) by {
                        if q < j {
                            assert(before.contains(q as usize));
                            let w = choose|w: int| 0 <= w < before.len() && before[w] == q as usize;
                            assert(order@[w] == q as usize);
                        } else {
                            assert(order@[order@.len() - 1] == j);
                        }
                    }
                    assert(order@.take(o0.len() as int) =~= before.take(o0.len() as int));
                }
            }
            j += 1;
        }
        if !found {
            done = true;
            proof {
                assert forall|q: int| 0 <= q < n implies #[trigger] v@[q] < i by {
                    if v@[q] > i {
                        assert(v@.contains(i));
                        let w = choose|w: int| 0 <= w < n && v@[w] == i;
                        assert(order@.contains(w as usize));
                        let k = choose|k: int| 0 <= k < order@.len() && order@[k] == w as usize;
                        assert(v@[o0[k] as int] < i);
                    } else if v@[q] == i {
                        assert(order@.contains(q as usize));
                        let k = choose|k: int| 0 <= k < order@.len() && order@[k] == q as usize;
                        assert(v@[o0[k] as int] < i);
                    }
                }
                assert(order@ =~= o0);
                assert(tied@ =~= t0);
            }
        } else {
            let l = tied.len();
            tied.set(l - 1, false);
            proof {
                assert forall|a: int, b: int|
                    0 <= a < b < order@.len() implies v@[order@[a] as int] < v@[order@[b] as int] || (v@[order@[a] as int]
                    == v@[order@[b] as int] && order@[a] < order@[b]) by {
                    if b < o0.len() {
                        assert(order@[a] == o0[a] && order@[b] == o0[b]);
                    } else if a < o0.len() {
                        assert(order@[a] == o0[a]);
                    }
                }
                assert forall|a: int, b: int|
                    0 <= a < order@.len() && 0 <= b < order@.len() && a != b implies order@[a] != order@[b] by {
                    if a < o0.len() && b < o0.len() {
                        assert(order@[a] == o0[a] && order@[b] == o0[b]);
                    } else if a < o0.len() {
                        assert(order@[a] == o0[a]);
                    } else if b < o0.len() {
                        assert(order@[b] == o0[b]);
                    }
                }
                assert forall|j2: int| 0 <= j2 < n && v@[j2] < i + 1 implies #[trigger] order@.contains(j2 as usize) by {
                    if v@[j2] < i {
                        assert(o0.contains(j2 as usize));
                        let w = choose|w: int| 0 <= w < o0.len() && o0[w] == j2 as usize;
                        assert(order@[w] == j2 as usize);
                    }
                }
                assert forall|k: int| 0 <= k < tied@.len() implies #[trigger] tied@[k] == (k + 1 < order@.len()
                    && v@[order@[k] as int] == v@[order@[k + 1] as int]) by {
                    if k + 1 < o0.len() {
                        assert(order@[k] == o0[k] && order@[k + 1] == o0[k + 1]);
                    } else if k < o0.len() {
                        assert(order@[k] == o0[k]);
                    }
                }
                assert forall|k: int| 0 <= k < order@.len() implies #[trigger] v@[order@[k] as int] < i + 1 by {
                    if k < o0.len() {
                        assert(order@[k] == o0[k]);
                    }
                }
                assert forall|k: int| 0 <= k < order@.len() implies order@[k] < n by {
                    if k < o0.len() {
                        assert(order@[k] == o0[k]);
                    }
                }
            }
        }
        i += 1;
    }
    proof {
        if !done {
            assert forall|q: int| 0 <= q < n implies #[trigger] v@[q] < i by {
                lemma_dense_ranks_below(v@, q);
            }
        }
        assert forall|q: int| 0 <= q < n implies #[trigger] order@.contains(q as usize) by {
            assert(v@[q] < i);
        }
        crate::tied::lemma_distinct_below_len(order@, n as nat);
        assert(order@.len() == n) by {
            let f = |k: int| order@[k] as int;
            let dom = vstd::set_lib::set_int_range(0, order@.len() as int);
            let tgt = vstd::set_lib::set_int_range(0, n as int);
            vstd::set_lib::lemma_int_range(0, order@.len() as int);
            vstd::set_lib::lemma_int_range(0, n as int);
            assert forall|x: int| tgt.contains(x) implies dom.map(f).contains(x) by {
                assert(order@.contains(x as usize));
                let k = choose|k: int| 0 <= k < order@.len() && order@[k] == x as usize;
                assert(dom.contains(k) && f(k) == x);
            }
            vstd::set_lib::lemma_map_size_bound(dom, dom.map(f), f);
            vstd::set_lib::lemma_len_subset(tgt, dom.map(f));
        }
    }
    let ghost t1 = tied@;
    tied.pop();
    TiedRank::new(n, order, tied)
}


/// The Borda points of `c` from the groups `gs` of one vote over `n`
/// candidates, where `seen` candidates are ranked above the first group:
/// twice the number of candidates ranked below its group, plus the size of
/// its group.
pub open spec fn borda_points(gs: Seq<Seq<usize>>, n: nat, seen: nat, c: usize) -> int
    decreases gs.len(),
{
    if gs.len() == 0 {
        0
    } else if gs[0].contains(c) {
        2 * (n - (seen + gs[0].len())) + gs[0].len()
    } else {
        borda_points(gs.skip(1), n, seen + gs[0].len(), c)
    }
}

/// The Borda score of `c` from the first `m` votes of `data`.
pub open spec fn borda_score(data: TiedOrdersIncomplete, c: usize, m: nat) -> int
    decreases m,
{
    if m == 0 {
        0
    } else {
        borda_score(data, c, (m - 1) as nat) + borda_points(
            groups(data.order(m - 1), data.tie(m - 1)),
            data.elements as nat,
            0,
            c,
        )
    }
}

/// Borda count: in each vote, a candidate scores twice the number of
/// candidates ranked below it, plus the size of its group of ties.
pub struct Borda {
    pub score: Vec<usize>,
}

impl Borda {
    /// Counts the points of every candidate.
    #[verifier::rlimit(60)]
    pub fn count(data: &TiedOrdersIncomplete) -> (res: Result<Borda, &'static str>)
        requires
            data.wf(),
            data.count() * (2 * data.elements - 1) <= usize::MAX,
        ensures
            res matches Ok(b) && b.score@.len() == data.elements && forall|c: int|
                0 <= c < data.elements ==> #[trigger] b.score@[c] == borda_score(*data, c as usize, data.count()),
    {
        let n = data.elements;
        if n == 0 {
            return Ok(Borda { score: Vec::new() });
        }
        let mut score: Vec<usize> = Vec::new();
        let mut x: usize = 0;
        while x < n
            invariant
                x <= n,
                score@.len() == x,
                forall|y: int| 0 <= y < x ==> #[trigger] score@[y] == 0,
            decreases n - x,
        {
            score.push(0);
            x += 1;
        }
        let count = data.orders();
        let mut it = data.iter();
        let mut k: usize = 0;
        while k < count
            invariant
                data.wf(),
                n == data.elements,
                n >= 1,
                count == data.count(),
                count * (2 * n - 1) <= usize::MAX,
                it.orig == data,
                it.i == k,
                k <= count,
                it.start == start_of(data.order_len@, k as int),
                score@.len() == n,
                forall|y: int| 0 <= y < n ==> #[trigger] score@[y] == borda_score(*data, y as usize, k as nat),
                forall|y: int| 0 <= y < n ==> #[trigger] score@[y] <= k * (2 * n - 1),
            decreases count - k,
        {
            let r = it.next().unwrap();
            let ghost gs = groups(r.order@, r.tied@);
            let ghost s0 = score@;
            let mut g_it = r.iter_groups();
            let mut seen: usize = 0;
            proof {
                crate::tied::lemma_distinct_below_len(r.order@, n as nat);
                assert(r.order@.skip(0) =~= r.order@);
                assert((k + 1) * (2 * n - 1) == k * (2 * n - 1) + (2 * n - 1)) by (nonlinear_arith);
                assert((k + 1) * (2 * n - 1) <= count * (2 * n - 1)) by (nonlinear_arith)
                    requires
                        k < count,
                        n >= 1,
                ;
            }
            while !g_it.order.empty()
                invariant
                    g_it.order.wf(),
                    g_it.order.elements == n,
                    r.wf(),
                    r.elements == n,
                    gs == groups(r.order@, r.tied@),
                    r.order@.len() <= n,
                    seen <= r.order@.len(),
                    g_it.order.order@ == r.order@.skip(seen as int),
                    score@.len() == n,
                    (k + 1) * (2 * n - 1) <= usize::MAX,
                    k * (2 * n - 1) + (2 * n - 1) <= usize::MAX,
                    s0.len() == n,
                    forall|y: int| 0 <= y < n ==> #[trigger] s0[y] <= k * (2 * n - 1),
                    forall|c: usize| c < n && !r.order@.take(seen as int).contains(c) ==> #[trigger] borda_points(
                        gs,
                        n as nat,
                        0,
                        c,
                    ) == borda_points(g_it.order.groups(), n as nat, seen as nat, c),
                    forall|y: int| 0 <= y < n ==> #[trigger] score@[y] == s0[y] + if r.order@.take(seen as int).contains(
                        y as usize,
                    ) {
                        borda_points(gs, n as nat, 0, y as usize)
                    } else {
                        0
                    },
                    forall|y: int| 0 <= y < n ==> #[trigger] score@[y] <= k * (2 * n - 1) + (if r.order@.take(
                        seen as int,
                    ).contains(y as usize) {
                        (2 * n - 1)
                    } else {
                        0
                    }),
                decreases g_it.order.order@.len(),
            {
                let ghost before = g_it.order;
                proof {
                    lemma_groups_split(before);
                }
                let group = g_it.next().unwrap();
                let ties = group.len();
                proof {
                    assert((2 * n - 1) <= (k + 1) * (2 * n - 1)) by (nonlinear_arith)
                        requires
                            n >= 1,
                    ;
                }
                let ranked_below = n - (seen + ties);
                let points = 2 * ranked_below + ties;
                let ghost rg = before.groups();
                let ghost mid = score@;
                let mut j: usize = 0;
                while j < ties
                    invariant
                        ties == group@.len(),
                        j <= ties,
                        group@ == rg[0],
                        group@ == before.order@.take(ties as int),
                        before.order@ == r.order@.skip(seen as int),
                        r.wf(),
                        r.elements == n,
                        seen + ties <= r.order@.len(),
                        score@.len() == n,
                        mid.len() == n,
                        points == 2 * (n - (seen + ties)) + ties,
                        (k + 1) * (2 * n - 1) <= usize::MAX,
                        k * (2 * n - 1) + (2 * n - 1) <= usize::MAX,
                        forall|y: int| 0 <= y < n ==> #[trigger] mid[y] <= k * (2 * n - 1) + (if r.order@.take(
                            seen as int,
                        ).contains(y as usize) {
                            (2 * n - 1)
                        } else {
                            0
                        }),
                        forall|y: int| 0 <= y < n ==> #[trigger] score@[y] == mid[y] + if group@.take(j as int).contains(
                            y as usize,
                        ) {
                            points
                        } else {
                            0
                        },
                    decreases ties - j,
                {
                    let cc = group[j];
                    proof {
                        assert(r.order@[seen + j] == cc);
                        assert(cc < n);
                        assert(!r.order@.take(seen as int).contains(cc)) by {
                            if r.order@.take(seen as int).contains(cc) {
                                let q = choose|q: int| 0 <= q < seen && r.order@.take(seen as int)[q] == cc;
                                assert(r.order@[q] != r.order@[seen + j]);
                            }
                        }
                        assert(!group@.take(j as int).contains(cc)) by {
                            if group@.take(j as int).contains(cc) {
                                let q = choose|q: int| 0 <= q < j && group@.take(j as int)[q] == cc;
                                assert(r.order@[seen + q] != r.order@[seen + j]);
                            }
                        }
                        assert(points <= (2 * n - 1));
                        assert(score@[cc as int] == mid[cc as int]);
                        assert(mid[cc as int] <= k * (2 * n - 1));
                    }
                    score.set(cc, score[cc] + points);
                    proof {
                        assert forall|y: int| 0 <= y < n implies #[trigger] score@[y] == mid[y] + if group@.take(j + 1).contains(
                            y as usize,
                        ) {
                            points
                        } else {
                            0
                        } by {
                            let a = group@.take(j as int);
                            let b = group@.take(j + 1);
                            assert(b =~= a.push(cc));
                            if y != cc {
                                if b.contains(y as usize) {
                                    let q = choose|q: int| 0 <= q < b.len() && b[q] == y as usize;
                                    assert(a[q] == y as usize);
                                }
                            }
                        }
                    }
                    j += 1;
                }
                proof {
                    assert(group@.take(ties as int) =~= group@);
                    let t_old = r.order@.take(seen as int);
                    let t_new = r.order@.take(seen + ties);
                    assert(t_new =~= t_old + group@);
                    assert forall|c: usize| c < n && !t_new.contains(c) implies #[trigger] borda_points(gs, n as nat, 0, c)
                        == borda_points(g_it.order.groups(), n as nat, (seen + ties) as nat, c) by {
                        assert(!t_old.contains(c)) by {
                            if t_old.contains(c) {
                                let q = choose|q: int| 0 <= q < t_old.len() && t_old[q] == c;
                                assert(t_new[q] == c);
                            }
                        }
                        assert(!rg[0].contains(c)) by {
                            if rg[0].contains(c) {
                                let q = choose|q: int| 0 <= q < group@.len() && group@[q] == c;
                                assert(t_new[seen + q] == c);
                            }
                        }
                        assert(rg.skip(1) == g_it.order.groups());
                    }
                    assert forall|y: int| 0 <= y < n implies #[trigger] score@[y] == s0[y] + if t_new.contains(y as usize) {
                        borda_points(gs, n as nat, 0, y as usize)
                    } else {
                        0
                    } by {
                        if group@.contains(y as usize) {
                            assert(t_new.contains(y as usize)) by {
                                let q = choose|q: int| 0 <= q < group@.len() && group@[q] == y as usize;
                                assert(t_new[seen + q] == y as usize);
                            }
                            assert(!t_old.contains(y as usize)) by {
                                let q = choose|q: int| 0 <= q < group@.len() && group@[q] == y as usize;
                                if t_old.contains(y as usize) {
                                    let w = choose|w: int| 0 <= w < t_old.len() && t_old[w] == y as usize;
                                    assert(r.order@[w] != r.order@[seen + q]);
                                }
                            }
                            assert(borda_points(rg, n as nat, seen as nat, y as usize) == points);
                        } else {
                            if t_new.contains(y as usize) {
                                let q = choose|q: int| 0 <= q < t_new.len() && t_new[q] == y as usize;
                                if q >= seen {
                                    assert(group@[q - seen] == y as usize);
                                } else {
                                    assert(t_old[q] == y as usize);
                                }
                            }
                        }
                    }
                    assert forall|y: int| 0 <= y < n implies #[trigger] score@[y] <= k * (2 * n - 1) + (if t_new.contains(y as usize) {
                        (2 * n - 1)
                    } else {
                        0
                    }) by {
                        if t_old.contains(y as usize) {
                            let q = choose|q: int| 0 <= q < t_old.len() && t_old[q] == y as usize;
                            assert(t_new[q] == y as usize);
                        }
                        if group@.contains(y as usize) {
                            let q = choose|q: int| 0 <= q < group@.len() && group@[q] == y as usize;
                            assert(t_new[seen + q] == y as usize);
                        }
                    }
                }
                seen = seen + ties;
            }
            proof {
                lemma_groups_split(g_it.order);
                assert(seen == r.order@.len());
                assert(r.order@.take(seen as int) =~= r.order@);
                assert forall|y: int| 0 <= y < n implies #[trigger] score@[y] == borda_score(*data, y as usize, (k + 1) as nat) by {
                    if !r.order@.contains(y as usize) {
                        assert(borda_points(gs, n as nat, 0, y as usize) == borda_points(g_it.order.groups(), n as nat, seen as nat, y as usize));
                    }
                }
            }
            k += 1;
        }
        Ok(Borda { score })
    }

    /// The points of each candidate.
    pub fn get_score(&self) -> (res: &Vec<usize>)
        ensures
            res@ == self.score@,
    {
        &self.score
    }

    /// The rank of each candidate, `0` for the most points.
    pub fn get_order(&self) -> (res: Vec<usize>)
        ensures
            res@ == order_ranks(self.score@, true),
    {
        get_order(self.score.as_slice(), true)
    }

    /// The ranking of the candidates, with equal ranks tied.
    pub fn as_vote(&self) -> (res: TiedRank)
        ensures
            res.elements == self.score@.len(),
            vote_of_ranks(order_ranks(self.score@, true), res.order@, res.tied@),
    {
        let _ = self.score.len();
        proof {
            lemma_order_ranks_dense(self.score@, true);
        }
        let order = self.get_order();
        order_to_vote(order.as_slice())
    }
}

/// Candidate `j`'s approval score over the first `m` orders is the number
/// of those orders whose entry for `j` is `true`.
pub proof fn approval_counts(data: BinaryDense, j: int, m: nat)
    ensures
        approvals(data, j, m) == Seq::new(m, |i: int| i).filter(|i: int| data.order(i)[j]).len(),
    decreases m,
{
    reveal(Seq::filter);
    if m > 0 {
        approval_counts(data, j, (m - 1) as nat);
        let s = Seq::new(m, |i: int| i);
        assert(s.drop_last() =~= Seq::new((m - 1) as nat, |i: int| i));
        assert(s.last() == m - 1);
    }
}

/// The number of elements in the groups `gs`.
pub open spec fn groups_len(gs: Seq<Seq<usize>>) -> nat
    decreases gs.len(),
{
    if gs.len() == 0 {
        0
    } else {
        gs[0].len() + groups_len(gs.skip(1))
    }
}

/// The Borda points of `c` from groups `gs`, after `seen` elements ranked
/// above them: when `k` is the first group holding `c`, twice the number of
/// elements not in the groups up to `k`, plus the size of group `k`; with
/// no group holding `c`, nothing.
proof fn lemma_borda_points(gs: Seq<Seq<usize>>, n: nat, seen: nat, c: usize, k: int)
    requires
        0 <= k <= gs.len(),
        forall|i: int| 0 <= i < k ==> !(#[trigger] gs[i]).contains(c),
        k < gs.len() ==> gs[k].contains(c),
    ensures
        k < gs.len() ==> borda_points(gs, n, seen, c) == 2 * (n - (seen + groups_len(gs.take(k + 1))))
            + gs[k].len(),
        k == gs.len() ==> borda_points(gs, n, seen, c) == 0,
    decreases gs.len(),
{
    if gs.len() > 0 {
        if k == 0 {
            assert(gs.take(1).skip(1) =~= Seq::<Seq<usize>>::empty());
            assert(gs.take(1)[0] == gs[0]);
            assert(groups_len(gs.take(1).skip(1)) == 0);
            assert(groups_len(gs.take(1)) == gs[0].len());
        } else {
            let r = gs.skip(1);
            assert forall|i: int| 0 <= i < k - 1 implies !(#[trigger] r[i]).contains(c) by {
                assert(r[i] == gs[i + 1]);
            }
            if k < gs.len() {
                assert(r[k - 1] == gs[k]);
            }
            lemma_borda_points(r, n, seen + gs[0].len(), c, k - 1);
            if k < gs.len() {
                let t = gs.take(k + 1);
                assert(t[0] == gs[0]);
                assert(t.skip(1) =~= r.take(k));
                assert(groups_len(t) == gs[0].len() + groups_len(r.take(k)));
            }
        }
    }
}

/// One vote's Borda points: a candidate in a group of `g` candidates, with
/// `b` candidates ranked below that group or not ranked at all, gains
/// `2 * b + g` points (a point for each candidate it beats and a half point
/// for each one tied with it, itself included, all doubled); a candidate
/// the vote leaves out gains nothing.
pub proof fn borda_vote_points(data: TiedOrdersIncomplete, c: usize, m: nat, k: int)
    requires
        0 <= k <= groups(data.order(m as int), data.tie(m as int)).len(),
        forall|i: int| 0 <= i < k ==> !(#[trigger] groups(data.order(m as int), data.tie(m as int))[i]).contains(c),
        k < groups(data.order(m as int), data.tie(m as int)).len() ==> groups(data.order(m as int), data.tie(
            m as int,
        ))[k].contains(c),
    ensures
        k < groups(data.order(m as int), data.tie(m as int)).len() ==> borda_score(data, c, m + 1) == borda_score(
            data,
            c,
            m,
        ) + 2 * (data.elements - groups_len(groups(data.order(m as int), data.tie(m as int)).take(k + 1)))
            + groups(data.order(m as int), data.tie(m as int))[k].len(),
        k == groups(data.order(m as int), data.tie(m as int)).len() ==> borda_score(data, c, m + 1) == borda_score(
            data,
            c,
            m,
        ),
{
    lemma_borda_points(groups(data.order(m as int), data.tie(m as int)), data.elements as nat, 0, c, k);
}

} // verus!
