//! # Votes
//!
//! A vote ranks candidates from the most preferred to the least. A tied vote
//! also says of each neighbouring pair of candidates whether the voter ranks
//! them equally.
use vstd::prelude::*;
use vstd::string::StringSliceAdditionalSpecFns;

use crate::parse::{parse_usize, parse_usize_spec, split_bytes, split_on, lemma_split_on_len, COMMA, OPEN, CLOSE};
use crate::rank::{parse_numbers, parse_rank_spec};
use crate::tied::{
    count_leading_true, group_index, groups, lead_true, lemma_lead_true, rest_tied, winner_len, TiedRank,
};
use crate::util::{all_distinct, copy_bools, copy_usizes, unique};

verus! {

broadcast use vstd::seq_lib::group_seq_properties;

/// A vote without ties.
#[derive(Clone, Debug, PartialEq, Eq)]
pub struct Vote {
    pub order: Vec<usize>,
}

impl Vote {
    /// The vote `order`, which must not list a candidate twice.
    pub fn new(order: Vec<usize>) -> (res: Self)
        requires
            all_distinct(order@),
        ensures
            res.order == order,
    {
        Vote { order }
    }

    pub fn len(&self) -> (res: usize)
        ensures
            res == self.order@.len(),
    {
        self.order.len()
    }

    /// Reads a vote over `candidates` candidates from comma separated
    /// numbers, such as `2,0,1`. Returns `None` when a piece is not a number
    /// below `candidates`, or when a number occurs twice.
    pub fn parse_vote(s: &str, candidates: usize) -> (res: Option<Self>)
        ensures
            parse_rank_spec(candidates, s.spec_bytes()) matches Some(o) ==> (res matches Some(v) && v.order@ == o),
            parse_rank_spec(candidates, s.spec_bytes()) is None ==> res is None,
    {
        match parse_numbers(candidates, s.as_bytes()) {
            Some(order) => {
                if unique(order.as_slice()) {
                    Some(Vote::new(order))
                } else {
                    None
                }
            },
            None => None,
        }
    }
}

/// A vote with possible ties.
#[derive(Clone, Debug, PartialEq, Eq)]
pub struct TiedVote {
    pub order: Vec<usize>,
    pub tied: Vec<bool>,
}

/// A borrowed vote with possible ties.
#[derive(Copy, Clone, Debug, PartialEq, Eq)]
pub struct TiedVoteRef<'a> {
    pub order: &'a [usize],
    pub tied: &'a [bool],
}

/// A piece of a tied vote: inside a group, a trailing `}` closes it;
/// outside one, a leading `{` opens one.
pub open spec fn strip_vote(p: Seq<u8>, grouped: bool) -> (Seq<u8>, bool) {
    if grouped {
        if p.len() > 0 && p.last() == CLOSE {
            (p.drop_last(), false)
        } else {
            (p, true)
        }
    } else {
        if p.len() > 0 && p[0] == OPEN {
            (p.skip(1), true)
        } else {
            (p, false)
        }
    }
}

/// Reads the comma separated pieces of a tied vote from the first on: the
/// candidates, whether each is tied with the next, and whether a group is
/// still open; `None` when a piece is not a number below `candidates` once
/// its brace is removed.
pub open spec fn scan_vote(parts: Seq<Seq<u8>>, candidates: nat) -> Option<(Seq<usize>, Seq<bool>, bool)>
    decreases parts.len(),
{
    if parts.len() == 0 {
        Some((Seq::empty(), Seq::empty(), false))
    } else {
        match scan_vote(parts.drop_last(), candidates) {
            None => None,
            Some((o, t, g)) => {
                let (p, g1) = strip_vote(parts.last(), g);
                match parse_usize_spec(p) {
                    Some(n) => if n < candidates {
                        Some((o.push(n), t.push(g1), g1))
                    } else {
                        None
                    },
                    None => None,
                }
            },
        }
    }
}

/// The vote that the text `s` writes, such as `2,{0,1},4`: every group must
/// be closed, and the flag of the last candidate is dropped.
pub open spec fn parse_tied_vote_spec(s: Seq<u8>, candidates: nat) -> Option<(Seq<usize>, Seq<bool>)> {
    match scan_vote(split_on(s, COMMA), candidates) {
        Some((o, t, g)) => if !g {
            Some((o, t.drop_last()))
        } else {
            None
        },
        None => None,
    }
}

proof fn lemma_scan_vote_len(parts: Seq<Seq<u8>>, candidates: nat)
    ensures
        scan_vote(parts, candidates) matches Some((o, t, g)) ==> o.len() == parts.len() && t.len() == parts.len()
            && crate::util::all_below(o, candidates),
    decreases parts.len(),
{
    if parts.len() > 0 {
        lemma_scan_vote_len(parts.drop_last(), candidates);
    }
}

proof fn lemma_scan_vote_none(parts: Seq<Seq<u8>>, candidates: nat, k: int)
    requires
        0 <= k <= parts.len(),
        scan_vote(parts.take(k), candidates) is None,
    ensures
        scan_vote(parts, candidates) is None,
    decreases parts.len(),
{
    if k == parts.len() {
        assert(parts.take(k) =~= parts);
    } else {
        assert(parts.drop_last().take(k) =~= parts.take(k));
        lemma_scan_vote_none(parts.drop_last(), candidates, k);
    }
}

/// Reads a tied vote from `b`: the candidates and the tie flag of every
/// candidate, the last one included, and whether a group is still open.
pub(crate) fn scan_tied_vote(b: &[u8], candidates: usize) -> (res: Option<(Vec<usize>, Vec<bool>, bool)>)
    ensures
        scan_vote(split_on(b@, COMMA), candidates as nat) is None ==> res is None,
        scan_vote(split_on(b@, COMMA), candidates as nat) matches Some((o, t, g)) ==> (res matches Some(
            r,
        ) && r.0@ == o && r.1@ == t && r.2 == g),
        res matches Some(r) ==> r.0@.len() == r.1@.len() && r.0@.len() >= 1 && crate::util::all_below(
            r.0@,
            candidates as nat,
        ),
{
    let parts = split_bytes(b, COMMA);
    let ghost sp = split_on(b@, COMMA);
    let np = parts.len();
    let mut order: Vec<usize> = Vec::new();
    let mut tied: Vec<bool> = Vec::new();
    let mut grouped = false;
    let mut k: usize = 0;
    while k < np
        invariant
            np == parts@.len(),
            sp == split_on(b@, COMMA),
            np == sp.len(),
            forall|j: int| 0 <= j < np ==> (#[trigger] parts@[j])@ == sp[j],
            k <= np,
            scan_vote(sp.take(k as int), candidates as nat) == Some((order@, tied@, grouped)),
        decreases np - k,
    {
        let part = &parts[k];
        let ghost g0 = grouped;
        proof {
            assert(sp.take(k + 1).drop_last() =~= sp.take(k as int));
            assert(sp.take(k + 1).last() == part@);
        }
        let mut lo: usize = 0;
        let mut hi: usize = part.len();
        if grouped {
            if hi > 0 && part[hi - 1] == CLOSE {
                hi = hi - 1;
                grouped = false;
            }
        } else {
            if hi > 0 && part[0] == OPEN {
                lo = 1;
                grouped = true;
            }
        }
        let piece = &part.as_slice()[lo..hi];
        proof {
            assert(strip_vote(part@, g0) == (piece@, grouped)) by {
                if lo == 1 {
                    assert(piece@ =~= part@.skip(1));
                } else if hi < part@.len() {
                    assert(piece@ =~= part@.drop_last());
                } else {
                    assert(piece@ =~= part@);
                }
            }
        }
        let n = match parse_usize(piece) {
            Some(n) => n,
            None => {
                proof {
                    assert(scan_vote(sp.take(k + 1), candidates as nat) is None);
                    lemma_scan_vote_none(sp, candidates as nat, k + 1);
                }
                return None;
            },
        };
        if n >= candidates {
            proof {
                assert(scan_vote(sp.take(k + 1), candidates as nat) is None);
                lemma_scan_vote_none(sp, candidates as nat, k + 1);
            }
            return None;
        }
        order.push(n);
        tied.push(grouped);
        k += 1;
    }
    proof {
        assert(sp.take(np as int) =~= sp);
        lemma_split_on_len(b@, COMMA);
        lemma_scan_vote_len(sp, candidates as nat);
    }
    Some((order, tied, grouped))
}

impl TiedVote {
    /// The vote `order` with tie flags `tied`, one fewer than candidates.
    pub fn new(order: Vec<usize>, tied: Vec<bool>) -> (res: Self)
        requires
            tied@.len() + 1 == order@.len(),
        ensures
            res.order == order,
            res.tied == tied,
    {
        TiedVote { order, tied }
    }

    pub fn slice(&self) -> (res: TiedVoteRef<'_>)
        requires
            self.tied@.len() + 1 == self.order@.len(),
        ensures
            res.order@ == self.order@,
            res.tied@ == self.tied@,
    {
        TiedVoteRef::new(self.order.as_slice(), self.tied.as_slice())
    }

    pub fn len(&self) -> (res: usize)
        ensures
            res == self.order@.len(),
    {
        self.order.len()
    }

    /// Reads a vote over `candidates` candidates, such as `2,{0,1},4`:
    /// numbers separated by commas, where braces enclose a group of tied
    /// candidates. Returns `None` when the text is not such a vote.
    pub fn parse_vote(s: &str, candidates: usize) -> (res: Option<Self>)
        ensures
            parse_tied_vote_spec(s.spec_bytes(), candidates as nat) is None ==> res is None,
            parse_tied_vote_spec(s.spec_bytes(), candidates as nat) matches Some((o, t)) ==> (res matches Some(v)
                && v.order@ == o && v.tied@ == t),
    {
        match scan_tied_vote(s.as_bytes(), candidates) {
            None => None,
            Some((order, tied, grouped)) => {
                let mut tied = tied;
                tied.pop();
                if grouped {
                    return None;
                }
                Some(TiedVote::new(order, tied))
            },
        }
    }
}

/// The groups of `vote` from position `start` on.
pub open spec fn groups_from(vote: TiedVoteRef, start: int) -> Seq<Seq<usize>> {
    groups(
        vote.order@.skip(start),
        if start >= vote.order@.len() {
            Seq::empty()
        } else {
            vote.tied@.skip(start)
        },
    )
}

impl<'a> TiedVoteRef<'a> {
    /// The vote `order` with tie flags `tied`, one fewer than candidates.
    pub fn new(order: &'a [usize], tied: &'a [bool]) -> (res: Self)
        requires
            tied@.len() + 1 == order@.len(),
        ensures
            res.order@ == order@,
            res.tied@ == tied@,
    {
        TiedVoteRef { order, tied }
    }

    pub fn len(&self) -> (res: usize)
        ensures
            res == self.order@.len(),
    {
        self.order.len()
    }

    pub fn owned(self) -> (res: TiedVote)
        requires
            self.tied@.len() + 1 == self.order@.len(),
        ensures
            res.order@ == self.order@,
            res.tied@ == self.tied@,
    {
        TiedVote::new(copy_usizes(self.order), copy_bools(self.tied))
    }

    /// The groups of the vote, one at a time.
    pub fn iter_groups(&self) -> (res: GroupIterator<'a>)
        ensures
            res.vote == *self,
            res.start == 0,
    {
        GroupIterator { vote: *self, start: 0 }
    }

    /// The group that candidate `c` first appears in, counted from the most
    /// preferred, or `None` when `c` is not listed.
    pub fn group_of(&self, c: usize) -> (res: Option<usize>)
        requires
            self.tied@.len() + 1 == self.order@.len(),
        ensures
            !self.order@.contains(c) ==> res is None,
            forall|p: int|
                0 <= p < self.order@.len() && self.order@[p] == c && (forall|q: int| 0 <= q < p ==> self.order@[q] != c)
                    ==> res == Some(group_index(self.tied@, p) as usize),
    {
        let n = self.order.len();
        let mut group: usize = 0;
        let mut i: usize = 0;
        while i < n
            invariant
                n == self.order@.len(),
                self.tied@.len() + 1 == n,
                i <= n,
                i < n ==> group == group_index(self.tied@, i as int),
                group <= i,
                forall|p: int| 0 <= p < i ==> self.order@[p] != c,
            decreases n - i,
        {
            if self.order[i] == c {
                return Some(group);
            }
            if i + 1 < n && !self.tied[i] {
                group += 1;
            }
            i += 1;
        }
        None
    }

    /// The most preferred candidates.
    pub fn winners(&self) -> (res: &'a [usize])
        requires
            self.tied@.len() + 1 == self.order@.len(),
        ensures
            res@ == self.order@.take(winner_len(self.order@, self.tied@) as int),
            res@ == groups(self.order@, self.tied@)[0],
    {
        let _ = self.order.len();
        let i = count_leading_true(self.tied, 0);
        proof {
            assert(self.tied@.skip(0) =~= self.tied@);
        }
        &self.order[0..i + 1]
    }
}

/// The groups of a vote, from the most preferred to the least.
pub struct GroupIterator<'a> {
    pub vote: TiedVoteRef<'a>,
    pub start: usize,
}

impl<'a> GroupIterator<'a> {
    /// The groups not yet handed out.
    pub open spec fn remaining(&self) -> Seq<Seq<usize>> {
        groups_from(self.vote, self.start as int)
    }

    /// The next group, from the most preferred to the least.
    pub fn next(&mut self) -> (res: Option<&'a [usize]>)
        requires
            old(self).vote.tied@.len() + 1 == old(self).vote.order@.len(),
            old(self).start <= old(self).vote.order@.len(),
        ensures
            final(self).vote == old(self).vote,
            final(self).start <= final(self).vote.order@.len(),
            old(self).remaining().len() == 0 ==> res is None && final(self).remaining().len() == 0,
            old(self).remaining().len() > 0 ==> (res matches Some(g) && g@ == old(self).remaining()[0]
                && final(self).remaining() == old(self).remaining().skip(1)),
    {
        let n = self.vote.order.len();
        let s = self.start;
        if s == n {
            proof {
                assert(self.vote.order@.skip(s as int).len() == 0);
            }
            return None;
        }
        let k = count_leading_true(self.vote.tied, s);
        let end = s + k;
        let group = &self.vote.order[s..end + 1];
        self.start = end + 1;
        proof {
            let o = old(self).vote.order@.skip(s as int);
            let t = old(self).vote.tied@.skip(s as int);
            lemma_lead_true(t);
            assert(winner_len(o, t) == k + 1);
            assert(group@ =~= o.take(k + 1));
            assert(o.skip(k + 1) =~= old(self).vote.order@.skip(end + 1));
            if end + 1 < n {
                assert(rest_tied(o, t) =~= old(self).vote.tied@.skip(end + 1));
            }
            let rest = groups(o.skip(k + 1), rest_tied(o, t));
            assert((seq![o.take(k + 1)] + rest).skip(1) =~= rest);
        }
        Some(group)
    }

    /// At least one group while anything is left, and at most one per
    /// candidate left.
    pub fn size_hint(&self) -> (res: (usize, Option<usize>))
        requires
            self.start <= self.vote.order@.len(),
        ensures
            self.start == self.vote.order@.len() ==> res == (0usize, Some(0usize)),
            self.start < self.vote.order@.len() ==> res == (1usize, Some((self.vote.order@.len() - self.start) as usize)),
    {
        if self.start == self.vote.order.len() {
            (0, Some(0))
        } else {
            (1, Some(self.vote.order.len() - self.start))
        }
    }
}

} // verus!
