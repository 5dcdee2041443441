//! # Orders with ties, complete lists
//!
//! A packed collection of votes with ties, each ranking every candidate.
use rand::rngs::StdRng;
use vstd::prelude::*;
use vstd::string::StringSliceAdditionalSpecFns;

use crate::cardinal::CardinalDense;
use crate::parse::{split_on, COMMA};
use crate::random::{random_below, random_bool, shuffle};
use crate::soc::StrictOrdersComplete;
use crate::specific::SpecificDense;
use crate::strict::{is_chain, lemma_multiset_chain};
use crate::tied::{count_leading_true, group_index, groups, lead_true, winner_len};
use crate::toi::{lemma_uniform_starts, sum_lens, start_of, TiedOrdersIncomplete};
use crate::util::{all_distinct, block, lemma_div_add_block, lemma_div_exact, lemma_mul_block, lemma_mul_div, unique};
use crate::votes::{parse_tied_vote_spec, scan_tied_vote, scan_vote, TiedVoteRef};

verus! {

broadcast use vstd::seq_lib::group_seq_properties;

/// TOC: votes with ties, complete lists.
#[derive(Clone, Debug)]
pub struct TiedOrdersComplete {
    /// The votes, back to back, `candidates` values each.
    pub votes: Vec<usize>,
    /// Whether each value is tied with the next, `candidates - 1` flags per
    /// vote.
    pub ties: Vec<bool>,
    pub candidates: usize,
}

impl TiedOrdersComplete {
    /// The number of votes.
    pub open spec fn num_voters(&self) -> nat {
        if self.candidates == 0 {
            0
        } else {
            self.votes@.len() / (self.candidates as nat)
        }
    }

    /// Vote `k`.
    pub open spec fn vote(&self, k: int) -> Seq<usize> {
        block(self.votes@, self.candidates as nat, k)
    }

    /// The tie flags of vote `k`.
    pub open spec fn tie(&self, k: int) -> Seq<bool> {
        block(self.ties@, (self.candidates - 1) as nat, k)
    }

    /// The votes and flags fill whole blocks, and every vote ranks each
    /// candidate once.
    pub open spec fn wf(&self) -> bool {
        &&& self.candidates > 0
        &&& self.votes@.len() == self.num_voters() * self.candidates
        &&& self.ties@.len() == self.num_voters() * (self.candidates - 1)
        &&& forall|k: int| 0 <= k < self.num_voters() ==> #[trigger] is_chain(self.candidates as nat, self.vote(k))
    }

    /// Vote `k` lies within the vectors.
    pub proof fn lemma_bounds(&self, k: int)
        requires
            self.wf(),
            0 <= k < self.num_voters(),
        ensures
            0 <= k * self.candidates,
            k * self.candidates + self.candidates <= self.votes@.len(),
            0 <= k * (self.candidates - 1),
            k * (self.candidates - 1) + (self.candidates - 1) <= self.ties@.len(),
            self.vote(k).len() == self.candidates,
            self.tie(k).len() + 1 == self.candidates,
    {
        lemma_mul_block(k, self.num_voters() as int, self.candidates as int);
        lemma_mul_block(k, self.num_voters() as int, self.candidates - 1);
    }

    /// An empty collection over `candidates` candidates.
    pub fn new(candidates: usize) -> (res: Self)
        ensures
            res.candidates == candidates,
            res.votes@.len() == 0,
            res.ties@.len() == 0,
            candidates > 0 ==> res.wf(),
    {
        proof {
            if candidates > 0 {
                lemma_mul_div(0, candidates as int);
            }
        }
        TiedOrdersComplete { votes: Vec::new(), ties: Vec::new(), candidates }
    }

    /// The number of votes.
    pub fn voters(&self) -> (res: usize)
        requires
            self.candidates > 0,
        ensures
            res == self.num_voters(),
    {
        self.votes.len() / self.candidates
    }

    /// Adds the vote `v`, which must rank every candidate once.
    pub fn add(&mut self, v: TiedVoteRef)
        requires
            old(self).wf(),
            is_chain(old(self).candidates as nat, v.order@),
            v.order@.len() == old(self).candidates,
            v.tied@.len() + 1 == v.order@.len(),
        ensures
            final(self).wf(),
            final(self).candidates == old(self).candidates,
            final(self).num_voters() == old(self).num_voters() + 1,
            final(self).votes@ == old(self).votes@ + v.order@,
            final(self).ties@ == old(self).ties@ + v.tied@,
            forall|k: int| 0 <= k < old(self).num_voters() ==> #[trigger] final(self).vote(k) == old(self).vote(k),
            forall|k: int| 0 <= k < old(self).num_voters() ==> #[trigger] final(self).tie(k) == old(self).tie(k),
            final(self).vote(old(self).num_voters() as int) == v.order@,
            final(self).tie(old(self).num_voters() as int) == v.tied@,
    {
        let c = self.candidates;
        let ghost nv = self.num_voters();
        proof {
            lemma_mul_div(nv as int, c as int);
        }
        let n = v.order.len();
        let mut i: usize = 0;
        while i < n
            invariant
                n == v.order@.len(),
                i <= n,
                self.votes@ == old(self).votes@ + v.order@.take(i as int),
                self.ties@ == old(self).ties@,
                self.candidates == c,
            decreases n - i,
        {
            self.votes.push(v.order[i]);
            i += 1;
            proof {
                assert(self.votes@ =~= old(self).votes@ + v.order@.take(i as int));
            }
        }
        let m = v.tied.len();
        let mut j: usize = 0;
        while j < m
            invariant
                m == v.tied@.len(),
                j <= m,
                self.votes@ == old(self).votes@ + v.order@,
                self.ties@ == old(self).ties@ + v.tied@.take(j as int),
                self.candidates == c,
            decreases m - j,
        {
            self.ties.push(v.tied[j]);
            j += 1;
            proof {
                assert(self.ties@ =~= old(self).ties@ + v.tied@.take(j as int));
            }
        }
        proof {
            assert(v.order@.take(n as int) =~= v.order@);
            assert(v.tied@.take(m as int) =~= v.tied@);
            assert(self.votes@.len() == (nv + 1) * c) by (nonlinear_arith)
                requires
                    self.votes@.len() == nv * c + c,
            ;
            assert(self.ties@.len() == (nv + 1) * (c - 1)) by (nonlinear_arith)
                requires
                    self.ties@.len() == nv * (c - 1) + (c - 1),
            ;
            lemma_mul_div((nv + 1) as int, c as int);
            assert forall|k: int| 0 <= k < nv implies #[trigger] self.vote(k) == old(self).vote(k) by {
                old(self).lemma_bounds(k);
                assert(self.vote(k) =~= old(self).vote(k));
            }
            assert forall|k: int| 0 <= k < nv implies #[trigger] self.tie(k) == old(self).tie(k) by {
                old(self).lemma_bounds(k);
                assert(self.tie(k) =~= old(self).tie(k));
            }
            assert(self.vote(nv as int) =~= v.order@);
            assert(self.tie(nv as int) =~= v.tied@);
            assert forall|k: int| 0 <= k < self.num_voters() implies #[trigger] is_chain(self.candidates as nat, self.vote(k)) by {
                if k < nv {
                    assert(is_chain(c as nat, old(self).vote(k)));
                }
            }
        }
    }

    /// Adds a vote read from `s` (see `TiedVote::parse_vote`). Returns
    /// whether `s` was a vote that ranks every candidate exactly once.
    pub fn add_from_str(&mut self, s: &str) -> (res: bool)
        requires
            old(self).wf(),
        ensures
            final(self).wf(),
            final(self).candidates == old(self).candidates,
            res == (parse_tied_vote_spec(s.spec_bytes(), old(self).candidates as nat) matches Some((o, t)) && o.len()
                == old(self).candidates && all_distinct(o)),
            !res ==> final(self).votes@ == old(self).votes@ && final(self).ties@ == old(self).ties@,
            res ==> parse_tied_vote_spec(s.spec_bytes(), old(self).candidates as nat) == Some(
                (final(self).vote(old(self).num_voters() as int), final(self).tie(old(self).num_voters() as int)),
            ),
            res ==> final(self).num_voters() == old(self).num_voters() + 1,
    {
        let (order, tied, grouped) = match scan_tied_vote(s.as_bytes(), self.candidates) {
            Some(r) => r,
            None => return false,
        };
        let mut tied = tied;
        tied.pop();
        if grouped || order.len() != self.candidates {
            return false;
        }
        if !unique(order.as_slice()) {
            return false;
        }
        self.add(TiedVoteRef::new(order.as_slice(), tied.as_slice()));
        true
    }
}


impl TiedOrdersComplete {
    /// Returns true iff there are candidates, the votes and flags fill whole
    /// blocks, and every vote ranks each candidate once.
    pub fn valid(&self) -> (res: bool)
        ensures
            res == self.wf(),
    {
        let c = self.candidates;
        if c == 0 {
            return false;
        }
        let nv = self.votes.len() / c;
        proof {
            let l = self.votes@.len() as int;
            vstd::arithmetic::div_mod::lemma_fundamental_div_mod(l, c as int);
            assert(nv * c <= l) by (nonlinear_arith)
                requires
                    c * nv + l % (c as int) == l,
                    l % (c as int) >= 0,
            ;
            assert(nv * (c - 1) <= nv * c) by (nonlinear_arith);
        }
        if self.votes.len() != nv * c {
            return false;
        }
        if self.ties.len() != nv * (c - 1) {
            return false;
        }
        let _ = self.votes.len();
        let mut k: usize = 0;
        while k < nv
            invariant
                c == self.candidates,
                c > 0,
                self.votes@.len() <= usize::MAX,
                nv == self.num_voters(),
                self.votes@.len() == nv * c,
                self.ties@.len() == nv * (c - 1),
                k <= nv,
                forall|j: int| 0 <= j < k ==> #[trigger] is_chain(c as nat, self.vote(j)),
            decreases nv - k,
        {
            proof {
                lemma_mul_block(k as int, nv as int, c as int);
            }
            let v = &self.votes.as_slice()[k * c..k * c + c];
            proof {
                assert(v@ =~= self.vote(k as int));
            }
            if !crate::util::unique_and_bounded(c, v) {
                proof {
                    assert(!is_chain(c as nat, self.vote(k as int)));
                }
                return false;
            }
            k += 1;
        }
        true
    }

    /// Adds `new_voters` random votes: each a random order of all candidates
    /// with random ties.
    pub fn generate_uniform(&mut self, rng: &mut StdRng, new_voters: usize)
        requires
            old(self).wf(),
            old(self).votes@.len() + new_voters * old(self).candidates <= usize::MAX,
        ensures
            final(self).wf(),
            final(self).candidates == old(self).candidates,
            final(self).num_voters() == old(self).num_voters() + new_voters,
            forall|k: int| 0 <= k < old(self).num_voters() ==> #[trigger] final(self).vote(k) == old(self).vote(k),
            forall|k: int| 0 <= k < old(self).num_voters() ==> #[trigger] final(self).tie(k) == old(self).tie(k),
    {
        let c = self.candidates;
        let mut v = crate::strict::Total::new_default(c).into_inner();
        let mut m: usize = 0;
        while m < new_voters
            invariant
                self.wf(),
                c == self.candidates,
                c == old(self).candidates,
                m <= new_voters,
                crate::strict::is_total(v@),
                v@.len() == c,
                self.num_voters() == old(self).num_voters() + m,
                self.votes@.len() == old(self).votes@.len() + m * c,
                old(self).votes@.len() + new_voters * c <= usize::MAX,
                forall|k: int| 0 <= k < old(self).num_voters() ==> #[trigger] self.vote(k) == old(self).vote(k),
                forall|k: int| 0 <= k < old(self).num_voters() ==> #[trigger] self.tie(k) == old(self).tie(k),
            decreases new_voters - m,
        {
            let ghost v0 = v@;
            shuffle(rng, &mut v);
            proof {
                lemma_multiset_chain(v0, v@, c as nat);
                assert((m + 1) * c == m * c + c) by (nonlinear_arith);
                assert((m + 1) * c <= new_voters * c) by (nonlinear_arith)
                    requires
                        m < new_voters,
                ;
            }
            let mut tied: Vec<bool> = Vec::new();
            let mut j: usize = 0;
            while j + 1 < c
                invariant
                    j + 1 <= c,
                    tied@.len() == j,
                decreases c - j,
            {
                tied.push(random_bool(rng));
                j += 1;
            }
            let ghost before = *self;
            self.add(TiedVoteRef::new(v.as_slice(), tied.as_slice()));
            proof {
                assert forall|k: int| 0 <= k < old(self).num_voters() implies #[trigger] self.vote(k) == old(self).vote(k) by {
                    assert(self.vote(k) == before.vote(k));
                }
                assert forall|k: int| 0 <= k < old(self).num_voters() implies #[trigger] self.tie(k) == old(self).tie(k) by {
                    assert(self.tie(k) == before.tie(k));
                }
            }
            m += 1;
        }
    }

    /// Vote `i`.
    pub fn vote_i(&self, i: usize) -> (res: TiedVoteRef<'_>)
        requires
            self.wf(),
            i < self.num_voters(),
        ensures
            res.order@ == self.vote(i as int),
            res.tied@ == self.tie(i as int),
    {
        let _ = self.votes.len();
        let _ = self.ties.len();
        proof {
            self.lemma_bounds(i as int);
        }
        let c = self.candidates;
        let v = &self.votes.as_slice()[i * c..i * c + c];
        let t = &self.ties.as_slice()[i * (c - 1)..i * (c - 1) + (c - 1)];
        TiedVoteRef::new(v, t)
    }

    /// The votes, one at a time.
    pub fn iter(&self) -> (res: TiedOrdersCompleteIterator<'_>)
        ensures
            res.orig == self,
            res.i == 0,
    {
        TiedOrdersCompleteIterator { orig: self, i: 0 }
    }

    /// One candidate of each vote, chosen at random among its most
    /// preferred ones, over the same candidates.
    pub fn to_specific_using(self, rng: &mut StdRng) -> (res: SpecificDense)
        requires
            self.wf(),
        ensures
            res.wf(),
            res.elements == self.candidates,
            res.orders@.len() == self.num_voters(),
            forall|k: int| 0 <= k < self.num_voters() ==> groups(self.vote(k), self.tie(k))[0].contains(
                #[trigger] res.orders@[k],
            ),
    {
        let nv = self.voters();
        let mut out: Vec<usize> = Vec::new();
        let mut k: usize = 0;
        while k < nv
            invariant
                self.wf(),
                nv == self.num_voters(),
                k <= nv,
                out@.len() == k,
                forall|j: int| 0 <= j < k ==> groups(self.vote(j), self.tie(j))[0].contains(#[trigger] out@[j]),
                forall|j: int| 0 <= j < k ==> #[trigger] out@[j] < self.candidates,
            decreases nv - k,
        {
            let v = self.vote_i(k);
            proof {
                self.lemma_bounds(k as int);
            }
            let w = v.winners();
            let pick = random_below(rng, w.len());
            proof {
                assert(w@[pick as int] == self.vote(k as int)[pick as int]);
                assert(is_chain(self.candidates as nat, self.vote(k as int)));
            }
            out.push(w[pick]);
            k += 1;
        }
        SpecificDense::from_vec(self.candidates, out)
    }

    /// Scores every vote: the candidates of the highest ranked group get
    /// `candidates`, those of group `i` get `candidates - i`, on a scale from
    /// 0 to `candidates`. Fails only if memory for the scores could not be
    /// reserved.
    pub fn to_cardinal(&self) -> (res: Result<CardinalDense, &'static str>)
        requires
            self.wf(),
        ensures
            res is Err ==> res == Err::<CardinalDense, &'static str>("Could not allocate"),
            res matches Ok(cd) ==> cd.wf() && cd.elements == self.candidates && cd.min == 0 && cd.max
                == self.candidates && cd.num_orders() == self.num_voters(),
            res matches Ok(cd) ==> forall|k: int, p: int|
                0 <= k < self.num_voters() && 0 <= p < self.candidates ==> #[trigger] cd.order(k)[self.vote(k)[p] as int]
                    == self.candidates - group_index(self.tie(k), p),
    {
        let c = self.candidates;
        let nv = self.voters();
        let mut votes: Vec<usize> = Vec::new();
        if votes.try_reserve(self.votes.len()).is_err() {
            return Err("Could not allocate");
        }
        let max = c;
        let mut new_vote: Vec<usize> = Vec::new();
        let mut x: usize = 0;
        while x < c
            invariant
                x <= c,
                new_vote@.len() == x,
            decreases c - x,
        {
            new_vote.push(0);
            x += 1;
        }
        let mut k: usize = 0;
        while k < nv
            invariant
                self.wf(),
                c == self.candidates,
                max == c,
                nv == self.num_voters(),
                k <= nv,
                new_vote@.len() == c,
                votes@.len() == k * c,
                forall|j: int, p: int|
                    0 <= j < k && 0 <= p < c ==> #[trigger] block(votes@, c as nat, j)[self.vote(j)[p] as int] == c
                        - group_index(self.tie(j), p),
            decreases nv - k,
        {
            let v = self.vote_i(k);
            proof {
                self.lemma_bounds(k as int);
                assert(is_chain(c as nat, self.vote(k as int)));
            }
            let mut gi: usize = 0;
            let mut p: usize = 0;
            while p < c
                invariant
                    c == v.order@.len(),
                    v.tied@.len() + 1 == c,
                    is_chain(c as nat, v.order@),
                    new_vote@.len() == c,
                    p <= c,
                    p < c ==> gi == group_index(v.tied@, p as int),
                    gi <= p,
                    max == c,
                    forall|q: int| 0 <= q < p ==> #[trigger] new_vote@[v.order@[q] as int] == c - group_index(v.tied@, q),
                decreases c - p,
            {
                let e = v.order[p];
                new_vote.set(e, max - gi);
                proof {
                    assert forall|q: int| 0 <= q < p + 1 implies #[trigger] new_vote@[v.order@[q] as int] == c
                        - group_index(v.tied@, q) by {
                        if q < p {
                            assert(v.order@[q] != v.order@[p as int]);
                        }
                    }
                }
                if p + 1 < c && !v.tied[p] {
                    gi += 1;
                }
                p += 1;
            }
            let ghost before = votes@;
            let mut y: usize = 0;
            while y < c
                invariant
                    y <= c,
                    new_vote@.len() == c,
                    votes@ == before + new_vote@.take(y as int),
                decreases c - y,
            {
                votes.push(new_vote[y]);
                y += 1;
                proof {
                    assert(votes@ =~= before + new_vote@.take(y as int));
                }
            }
            proof {
                assert(new_vote@.take(c as int) =~= new_vote@);
                assert((k + 1) * c == k * c + c) by (nonlinear_arith);
                assert forall|j: int, p: int|
                    0 <= j < k + 1 && 0 <= p < c implies #[trigger] block(votes@, c as nat, j)[self.vote(j)[p] as int]
                    == c - group_index(self.tie(j), p) by {
                    lemma_mul_block(j, (k + 1) as int, c as int);
                    if j < k {
                        lemma_mul_block(j, k as int, c as int);
                        assert(block(votes@, c as nat, j) =~= block(before, c as nat, j));
                    } else {
                        assert(block(votes@, c as nat, j) =~= new_vote@);
                    }
                }
            }
            k += 1;
        }
        proof {
            lemma_mul_div(nv as int, c as int);
        }
        Ok(CardinalDense { orders: votes, elements: c, min: 0, max })
    }

    /// The same votes as orders with ties over the candidates. Fails only if
    /// memory for the lengths could not be reserved.
    pub fn to_toi(self) -> (res: Result<TiedOrdersIncomplete, &'static str>)
        requires
            self.wf(),
        ensures
            res is Err ==> res == Err::<TiedOrdersIncomplete, &'static str>("Could not allocate"),
            res matches Ok(t) ==> t.wf() && t.elements == self.candidates && t.count() == self.num_voters(),
            res matches Ok(t) ==> forall|k: int| 0 <= k < self.num_voters() ==> #[trigger] t.order(k) == self.vote(k),
            res matches Ok(t) ==> forall|k: int| 0 <= k < self.num_voters() ==> #[trigger] t.tie(k) == self.tie(k),
    {
        let c = self.candidates;
        let nv = self.voters();
        let mut order_len: Vec<usize> = Vec::new();
        if order_len.try_reserve(nv).is_err() {
            return Err("Could not allocate");
        }
        let mut k: usize = 0;
        while k < nv
            invariant
                k <= nv,
                order_len@.len() == k,
                forall|j: int| 0 <= j < k ==> #[trigger] order_len@[j] == c,
            decreases nv - k,
        {
            order_len.push(c);
            k += 1;
        }
        proof {
            lemma_uniform_starts(order_len@, c);
            lemma_mul_div(nv as int, c as int);
        }
        let t = TiedOrdersIncomplete { orders: self.votes, ties: self.ties, order_len, elements: c };
        proof {
            assert forall|j: int| 0 <= j < self.num_voters() implies #[trigger] t.tie(j) == self.tie(j) by {
                self.lemma_bounds(j);
                assert(start_of(t.order_len@, j) - j == j * (c - 1)) by (nonlinear_arith)
                    requires
                        start_of(t.order_len@, j) == j * c,
                ;
                assert(t.tie(j) =~= self.tie(j));
            }
            assert forall|j: int| 0 <= j < self.num_voters() implies #[trigger] t.order(j) == self.vote(j) && t.tie(j) == self.tie(j) by {
                self.lemma_bounds(j);
                assert(t.order(j) =~= self.vote(j));
                assert(start_of(t.order_len@, j) - j == j * (c - 1)) by (nonlinear_arith)
                    requires
                        start_of(t.order_len@, j) == j * c,
                ;
                assert(t.tie(j) =~= self.tie(j));
            }
            assert forall|j: int| 0 <= j < t.count() implies #[trigger] is_chain(t.elements as nat, t.order(j)) by {
                assert(is_chain(c as nat, self.vote(j)));
                assert(t.order(j) == self.vote(j));
            }
            assert forall|j: int| 0 <= j < t.count() implies #[trigger] t.order_len@[j] >= 1 by {}
            assert(nv * (c - 1) + nv == nv * c) by (nonlinear_arith);
        }
        Ok(t)
    }

    /// The orders of `value` as votes without ties.
    pub fn from_strict(value: StrictOrdersComplete) -> (res: TiedOrdersComplete)
        requires
            value.wf(),
            value.elements > 0,
        ensures
            res.wf(),
            res.candidates == value.elements,
            res.num_voters() == value.count(),
            forall|k: int| 0 <= k < value.count() ==> #[trigger] res.vote(k) == value.order(k),
            forall|k: int|
                0 <= k < value.count() ==> #[trigger] res.tie(k) == Seq::new((value.elements - 1) as nat, |i: int| false),
    {
        let e = value.elements;
        let n = value.orders();
        let _ = value.orders.len();
        proof {
            lemma_div_exact(value.orders@.len() as int, e as int);
            assert(n * e == value.orders@.len());
            assert((e - 1) * n <= n * e) by (nonlinear_arith)
                requires
                    e > 0,
            ;
        }
        let ties = crate::util::falses((e - 1) * n);
        let res = TiedOrdersComplete { votes: value.orders, ties, candidates: e };
        proof {
            lemma_mul_div(n as int, e as int);
            assert(res.num_voters() == n);
            assert((e - 1) * n == n * (e - 1)) by (nonlinear_arith);
            assert forall|k: int| 0 <= k < value.count() implies #[trigger] res.vote(k) == value.order(k) by {}
            assert forall|k: int| 0 <= k < res.num_voters() implies #[trigger] is_chain(e as nat, res.vote(k)) by {
                assert(res.vote(k) == value.order(k));
            }
            assert forall|k: int|
                0 <= k < value.count() implies #[trigger] res.tie(k) == Seq::new((e - 1) as nat, |i: int| false) by {
                assert((k + 1) * (e - 1) <= n * (e - 1)) by (nonlinear_arith)
                    requires
                        k < n,
                        e > 0,
                ;
                assert(k * (e - 1) + (e - 1) == (k + 1) * (e - 1)) by (nonlinear_arith);
                assert(0 <= k * (e - 1)) by (nonlinear_arith)
                    requires
                        k >= 0,
                        e > 0,
                ;
                assert(res.tie(k) =~= Seq::new((e - 1) as nat, |i: int| false));
            }
        }
        res
    }
}

/// The votes of a collection, one at a time.
pub struct TiedOrdersCompleteIterator<'a> {
    pub orig: &'a TiedOrdersComplete,
    pub i: usize,
}

impl<'a> TiedOrdersCompleteIterator<'a> {
    /// The next vote, or `None` after the last.
    pub fn next(&mut self) -> (res: Option<TiedVoteRef<'a>>)
        requires
            old(self).orig.wf(),
            old(self).i <= old(self).orig.num_voters(),
        ensures
            final(self).orig == old(self).orig,
            final(self).i <= final(self).orig.num_voters(),
            old(self).i == old(self).orig.num_voters() ==> res is None && final(self).i == old(self).i,
            old(self).i < old(self).orig.num_voters() ==> final(self).i == old(self).i + 1 && (res matches Some(r)
                && r.order@ == old(self).orig.vote(old(self).i as int) && r.tied@ == old(self).orig.tie(
                old(self).i as int,
            )),
    {
        if self.i == self.orig.voters() {
            return None;
        }
        let r = self.orig.vote_i(self.i);
        self.i = self.i + 1;
        Some(r)
    }

    /// The number of votes left, exactly.
    pub fn size_hint(&self) -> (res: (usize, Option<usize>))
        requires
            self.orig.wf(),
            self.i <= self.orig.num_voters(),
        ensures
            res == ((self.orig.num_voters() - self.i) as usize, Some((self.orig.num_voters() - self.i) as usize)),
    {
        let remaining = self.orig.voters() - self.i;
        (remaining, Some(remaining))
    }
}

} // verus!
