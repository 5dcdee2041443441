//! Random ballot methods: the outcome is read off votes drawn at random.
use rand::rngs::StdRng;
use vstd::prelude::*;

use crate::random::{random_below, shuffle};
use crate::rank::Rank;
use crate::soi::StrictOrdersIncomplete;
use crate::strict::{is_chain, lemma_multiset_chain, Total};
use crate::tied::TiedRank;
use crate::toi::{slice_contains, TiedOrdersIncomplete};
use crate::util::{all_below, all_distinct, copy_bools, copy_usizes};

verus! {

/// `acc` followed by the elements of `o` that it does not hold yet, in the
/// order of `o`.
pub open spec fn add_new(acc: Seq<usize>, o: Seq<usize>) -> Seq<usize>
    decreases o.len(),
{
    if o.len() == 0 {
        acc
    } else {
        let a = add_new(acc, o.drop_last());
        if a.contains(o.last()) {
            a
        } else {
            a.push(o.last())
        }
    }
}

/// The elements that the orders of `data` picked by `voters` list, vote
/// after vote, each taken where it first appears.
pub open spec fn first_listed(data: StrictOrdersIncomplete, voters: Seq<usize>) -> Seq<usize>
    decreases voters.len(),
{
    if voters.len() == 0 {
        Seq::empty()
    } else {
        add_new(first_listed(data, voters.drop_last()), data.order(voters.last() as int))
    }
}

/// The first `positions` elements of `s`, or all of them when there are
/// fewer.
pub open spec fn at_most(s: Seq<usize>, positions: nat) -> Seq<usize> {
    if positions < s.len() {
        s.take(positions as int)
    } else {
        s
    }
}

proof fn lemma_prefix_trans(a: Seq<usize>, b: Seq<usize>, c: Seq<usize>)
    requires
        a.is_prefix_of(b),
        b.is_prefix_of(c),
    ensures
        a.is_prefix_of(c),
{
    assert forall|i: int| 0 <= i < a.len() implies a[i] == c[i] by {
        assert(a[i] == b.subrange(0, a.len() as int)[i]);
        assert(b[i] == c.subrange(0, b.len() as int)[i]);
    }
    assert(a =~= c.subrange(0, a.len() as int));
}

proof fn lemma_add_new_prefix(acc: Seq<usize>, o: Seq<usize>)
    ensures
        acc.is_prefix_of(add_new(acc, o)),
    decreases o.len(),
{
    if o.len() > 0 {
        let a = add_new(acc, o.drop_last());
        lemma_add_new_prefix(acc, o.drop_last());
        assert(a.is_prefix_of(add_new(acc, o))) by {
            assert(a =~= add_new(acc, o).subrange(0, a.len() as int));
        }
        lemma_prefix_trans(acc, a, add_new(acc, o));
    } else {
        assert(acc =~= acc.subrange(0, acc.len() as int));
    }
}

proof fn lemma_add_new_take(acc: Seq<usize>, o: Seq<usize>, j: int)
    requires
        0 <= j <= o.len(),
    ensures
        add_new(acc, o.take(j)).is_prefix_of(add_new(acc, o)),
    decreases o.len(),
{
    if j == o.len() {
        assert(o.take(j) =~= o);
        let x = add_new(acc, o);
        assert(x =~= x.subrange(0, x.len() as int));
    } else {
        assert(o.drop_last().take(j) =~= o.take(j));
        lemma_add_new_take(acc, o.drop_last(), j);
        let a = add_new(acc, o.drop_last());
        assert(a =~= add_new(acc, o).subrange(0, a.len() as int));
        lemma_prefix_trans(add_new(acc, o.take(j)), a, add_new(acc, o));
    }
}

proof fn lemma_first_listed_take(data: StrictOrdersIncomplete, voters: Seq<usize>, i: int)
    requires
        0 <= i <= voters.len(),
    ensures
        first_listed(data, voters.take(i)).is_prefix_of(first_listed(data, voters)),
    decreases voters.len(),
{
    if i == voters.len() {
        assert(voters.take(i) =~= voters);
        let x = first_listed(data, voters);
        assert(x =~= x.subrange(0, x.len() as int));
    } else {
        assert(voters.drop_last().take(i) =~= voters.take(i));
        lemma_first_listed_take(data, voters.drop_last(), i);
        lemma_add_new_prefix(first_listed(data, voters.drop_last()), data.order(voters.last() as int));
        lemma_prefix_trans(
            first_listed(data, voters.take(i)),
            first_listed(data, voters.drop_last()),
            first_listed(data, voters),
        );
    }
}

proof fn lemma_first_listed_empty(data: StrictOrdersIncomplete, voters: Seq<usize>)
    requires
        forall|i: int| 0 <= i < voters.len() ==> data.order(#[trigger] voters[i] as int).len() == 0,
    ensures
        first_listed(data, voters).len() == 0,
    decreases voters.len(),
{
    if voters.len() > 0 {
        lemma_first_listed_empty(data, voters.drop_last());
        assert(data.order(voters[voters.len() - 1] as int).len() == 0);
    }
}

/// Random ballot: votes are drawn at random, and each adds the elements it
/// lists that are not ranked yet, until the top `positions` are ranked.
pub struct RandomBallot {
    pub ranking: Rank,
}

impl RandomBallot {
    /// The ranking read off the votes picked by `voters`, in turn: the first
    /// `positions` distinct elements that they list.
    pub fn count_from(data: &StrictOrdersIncomplete, voters: &[usize], positions: usize) -> (res: RandomBallot)
        requires
            data.wf(),
            forall|i: int| 0 <= i < voters@.len() ==> #[trigger] voters@[i] < data.count(),
            positions > 0 || first_listed(*data, voters@).len() == 0,
        ensures
            res.ranking.elements == data.elements,
            res.ranking.order@ == at_most(first_listed(*data, voters@), positions as nat),
            is_chain(data.elements as nat, res.ranking.order@),
    {
        let e = data.elements;
        let ghost fl = first_listed(*data, voters@);
        let n = voters.len();
        let mut order: Vec<usize> = Vec::new();
        proof {
            assert(voters@.take(0) =~= Seq::<usize>::empty());
            lemma_first_listed_take(*data, voters@, 0);
        }
        let mut i: usize = 0;
        while i < n
            invariant
                data.wf(),
                e == data.elements,
                n == voters@.len(),
                forall|k: int| 0 <= k < voters@.len() ==> #[trigger] voters@[k] < data.count(),
                fl == first_listed(*data, voters@),
                positions > 0 || fl.len() == 0,
                i <= n,
                order@ == first_listed(*data, voters@.take(i as int)),
                order@.is_prefix_of(fl),
                is_chain(e as nat, order@),
                order@.len() < positions || positions == 0,
            decreases n - i,
        {
            let vote = data.vote_i(voters[i]);
            let o = vote.order;
            let ghost ci = order@;
            proof {
                assert(voters@.take(i + 1).drop_last() =~= voters@.take(i as int));
                assert(voters@.take(i + 1).last() == voters@[i as int]);
                assert(o@.take(0) =~= Seq::<usize>::empty());
                lemma_first_listed_take(*data, voters@, i + 1);
            }
            let m = o.len();
            let mut j: usize = 0;
            while j < m
                invariant
                    data.wf(),
                    e == data.elements,
                    fl == first_listed(*data, voters@),
                    positions > 0 || fl.len() == 0,
                    m == o@.len(),
                    is_chain(e as nat, o@),
                    j <= m,
                    ci == first_listed(*data, voters@.take(i as int)),
                    add_new(ci, o@).is_prefix_of(fl),
                    order@ == add_new(ci, o@.take(j as int)),
                    order@.is_prefix_of(fl),
                    is_chain(e as nat, order@),
                    order@.len() < positions || positions == 0,
                decreases m - j,
            {
                let v = o[j];
                proof {
                    assert(o@.take(j + 1).drop_last() =~= o@.take(j as int));
                    assert(o@.take(j + 1).last() == v);
                    lemma_add_new_take(ci, o@, j + 1);
                    lemma_prefix_trans(add_new(ci, o@.take(j + 1)), add_new(ci, o@), fl);
                }
                if !slice_contains(order.as_slice(), v) {
                    let ghost prev = order@;
                    order.push(v);
                    proof {
                        assert forall|a: int, b: int| 0 <= a < order@.len() && 0 <= b < order@.len() && a != b implies order@[a]
                            != order@[b] by {
                            if a == prev.len() {
                                assert(order@[b] == prev[b]);
                                assert(prev.contains(prev[b]));
                            } else if b == prev.len() {
                                assert(order@[a] == prev[a]);
                                assert(prev.contains(prev[a]));
                            }
                        }
                    }
                    if order.len() == positions {
                        proof {
                            assert(order@ =~= fl.take(positions as int));
                        }
                        return RandomBallot { ranking: Rank::new(e, order) };
                    }
                }
                j += 1;
            }
            proof {
                assert(o@.take(m as int) =~= o@);
            }
            i += 1;
        }
        proof {
            assert(voters@.take(n as int) =~= voters@);
        }
        RandomBallot { ranking: Rank::new(e, order) }
    }

    /// Counts with the votes drawn in a random order (each once): the first
    /// `positions` distinct elements that they list, in turn.
    pub fn count(data: &StrictOrdersIncomplete, rng: &mut StdRng, positions: usize) -> (res: Result<
        RandomBallot,
        &'static str,
    >)
        requires
            data.wf(),
            data.count() > 0,
            positions <= data.elements,
            positions > 0 || forall|k: int| 0 <= k < data.count() ==> #[trigger] data.order(k).len() == 0,
        ensures
            res matches Ok(b) && b.ranking.elements == data.elements && exists|p: Seq<usize>|
                #![trigger first_listed(*data, p)]
                p.len() == data.count() && all_distinct(p) && all_below(p, data.count()) && b.ranking.order@
                    == at_most(first_listed(*data, p), positions as nat),
    {
        let c = data.voters();
        let mut values = Total::new_default(c).into_inner();
        let ghost v0 = values@;
        shuffle(rng, &mut values);
        proof {
            lemma_multiset_chain(v0, values@, c as nat);
            if positions == 0 {
                assert forall|i: int| 0 <= i < values@.len() implies data.order(#[trigger] values@[i] as int).len()
                    == 0 by {
                    assert(values@[i] < c);
                }
                lemma_first_listed_empty(*data, values@);
            }
        }
        let b = RandomBallot::count_from(data, values.as_slice(), positions);
        proof {
            assert(first_listed(*data, values@) == first_listed(*data, values@));
        }
        Ok(b)
    }
}

/// Random ballot with a single vote: one vote drawn at random decides.
pub struct RandomBallotSingle {
    pub ranking: TiedRank,
}

impl RandomBallotSingle {
    /// The outcome when vote `i` is drawn: that vote.
    pub fn count_from(data: &TiedOrdersIncomplete, i: usize) -> (res: RandomBallotSingle)
        requires
            data.wf(),
            i < data.count(),
        ensures
            res.ranking.elements == data.elements,
            res.ranking.order@ == data.order(i as int),
            res.ranking.tied@ == data.tie(i as int),
    {
        let vote = data.vote_i(i);
        RandomBallotSingle { ranking: vote.owned() }
    }

    /// Draws one vote uniformly at random; its ranking is the outcome.
    /// `positions` plays no part.
    pub fn count(data: &TiedOrdersIncomplete, rng: &mut StdRng, positions: usize) -> (res: Result<
        RandomBallotSingle,
        &'static str,
    >)
        requires
            data.wf(),
            data.count() > 0,
        ensures
            res matches Ok(b) && b.ranking.elements == data.elements && exists|i: int|
                0 <= i < data.count() && b.ranking.order@ == #[trigger] data.order(i) && b.ranking.tied@ == data.tie(
                    i,
                ),
    {
        let i = random_below(rng, data.voters());
        Ok(RandomBallotSingle::count_from(data, i))
    }

    /// The drawn vote.
    pub fn as_vote(&self) -> (res: TiedRank)
        ensures
            res.elements == self.ranking.elements,
            res.order@ == self.ranking.order@,
            res.tied@ == self.ranking.tied@,
    {
        TiedRank {
            elements: self.ranking.elements,
            order: copy_usizes(self.ranking.order.as_slice()),
            tied: copy_bools(self.ranking.tied.as_slice()),
        }
    }
}

} // verus!
