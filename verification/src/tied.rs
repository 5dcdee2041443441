//! # Orders with ties
//!
//! A tied rank lists some of the elements from the highest ranked to the
//! lowest, and says of each neighbouring pair whether the two are tied. A run
//! of tied neighbours forms a group; the groups are ranked in the order in
//! which they are listed.
use rand::rngs::StdRng;
use vstd::prelude::*;
use vstd::string::StringSliceAdditionalSpecFns;

use crate::parse::{
    decimal, push_decimal, split_bytes, split_on, parse_usize, parse_usize_spec, lemma_split_on_len,
    is_ascii_bytes, ascii_chars, string_from_ascii, COMMA, OPEN, CLOSE,
};
use crate::random::{choose_multiple_below, random_below, random_bool, shuffle};
use crate::partial_order::{count_set, lemma_count_set_bound, lemma_count_set_update};
use crate::strict::is_total;
use crate::util::{all_below, all_distinct, copy_bools, copy_usizes};

verus! {

broadcast use vstd::seq_lib::group_seq_properties;

/// The number of `true` values that `t` starts with.
pub open spec fn lead_true(t: Seq<bool>) -> nat
    decreases t.len(),
{
    if t.len() == 0 || !t[0] {
        0
    } else {
        1 + lead_true(t.skip(1))
    }
}

/// `lead_true` is the length of the run of `true` at the start.
pub proof fn lemma_lead_true(t: Seq<bool>)
    ensures
        lead_true(t) <= t.len(),
        forall|i: int| 0 <= i < lead_true(t) ==> #[trigger] t[i],
        lead_true(t) < t.len() ==> !t[lead_true(t) as int],
    decreases t.len(),
{
    if t.len() > 0 && t[0] {
        lemma_lead_true(t.skip(1));
        assert forall|i: int| 0 <= i < lead_true(t) implies #[trigger] t[i] by {
            if i > 0 {
                assert(t.skip(1)[i - 1] == t[i]);
            }
        }
    }
}

/// A run of `k` values `true` followed by a `false` (or the end) has
/// `lead_true` equal to `k`.
pub proof fn lemma_lead_true_is(t: Seq<bool>, k: int)
    requires
        0 <= k <= t.len(),
        forall|i: int| 0 <= i < k ==> #[trigger] t[i],
        k == t.len() || !t[k],
    ensures
        lead_true(t) == k,
    decreases k,
{
    if k > 0 {
        assert(t[0]);
        assert forall|i: int| 0 <= i < k - 1 implies #[trigger] t.skip(1)[i] by {
            assert(t[i + 1]);
        }
        lemma_lead_true_is(t.skip(1), k - 1);
    }
}

/// Counts the values `true` in `t` from position `from` on, up to the first
/// `false`.
pub(crate) fn count_leading_true(t: &[bool], from: usize) -> (k: usize)
    requires
        from <= t@.len(),
    ensures
        k == lead_true(t@.skip(from as int)),
        from + k <= t@.len(),
{
    let n = t.len();
    let mut j: usize = from;
    while j < n && t[j]
        invariant
            n == t@.len(),
            from <= j <= n,
            forall|i: int| from <= i < j ==> #[trigger] t@[i],
        decreases n - j,
    {
        j += 1;
    }
    proof {
        let s = t@.skip(from as int);
        assert forall|i: int| 0 <= i < j - from implies #[trigger] s[i] by {
            assert(t@[from + i]);
        }
        lemma_lead_true_is(s, j - from);
    }
    j - from
}

/// An order of `order_len` elements has one tie flag less than it has
/// elements, or none at all when it is empty.
pub open spec fn tie_shape(order_len: nat, tied_len: nat) -> bool {
    tied_len + 1 == order_len || (order_len == 0 && tied_len == 0)
}

/// The number of elements in the highest ranked group.
pub open spec fn winner_len(order: Seq<usize>, tied: Seq<bool>) -> nat {
    if order.len() == 0 {
        0
    } else if 1 + lead_true(tied) <= order.len() {
        1 + lead_true(tied)
    } else {
        order.len()
    }
}

/// The tie flags of what follows the highest ranked group.
pub open spec fn rest_tied(order: Seq<usize>, tied: Seq<bool>) -> Seq<bool> {
    if winner_len(order, tied) >= order.len() {
        Seq::empty()
    } else {
        tied.skip(winner_len(order, tied) as int)
    }
}

/// The groups of the order, from the highest ranked to the lowest.
pub open spec fn groups(order: Seq<usize>, tied: Seq<bool>) -> Seq<Seq<usize>>
    decreases order.len(),
{
    if order.len() == 0 {
        Seq::empty()
    } else {
        let w = winner_len(order, tied);
        seq![order.take(w as int)] + groups(order.skip(w as int), rest_tied(order, tied))
    }
}

/// The end (exclusive) of the group that holds position `n - 1`: the first
/// `n` elements, extended past every tie.
pub open spec fn tie_end(tied: Seq<bool>, n: int) -> int {
    n + lead_true(tied.skip(n - 1))
}

/// The top `n` of a ranking: its first `n` elements and every element tied
/// with the last of them, with their tie flags; nothing when `n` is zero.
pub open spec fn top_part(order: Seq<usize>, tied: Seq<bool>, n: int) -> (Seq<usize>, Seq<bool>) {
    if n <= 0 {
        (Seq::empty(), Seq::empty())
    } else {
        (order.take(tie_end(tied, n)), tied.take(tie_end(tied, n) - 1))
    }
}

/// The group on the threshold of the top `n`: positions `n - 1` up to the
/// end of its tied group, with their tie flags; nothing when `n` is zero or
/// the top `n` is already decided (no tie joins positions `n - 1` and `n`).
pub open spec fn threshold_part(order: Seq<usize>, tied: Seq<bool>, n: int) -> (Seq<usize>, Seq<bool>) {
    if n <= 0 || tie_end(tied, n) == n {
        (Seq::empty(), Seq::empty())
    } else {
        (order.subrange(n - 1, tie_end(tied, n)), tied.subrange(n - 1, tie_end(tied, n) - 1))
    }
}

/// The position in the list of groups of the group that position `p` lies
/// in: the number of neighbouring pairs before it that are not tied.
pub open spec fn group_index(tied: Seq<bool>, p: int) -> nat
    decreases p,
{
    if p <= 0 {
        0
    } else {
        group_index(tied, p - 1) + if tied[p - 1] {
            0nat
        } else {
            1nat
        }
    }
}

/// `decimal` of each number of `g`, joined by commas.
pub open spec fn join_decimal(g: Seq<usize>) -> Seq<u8>
    decreases g.len(),
{
    if g.len() == 0 {
        Seq::empty()
    } else if g.len() == 1 {
        decimal(g[0] as nat)
    } else {
        join_decimal(g.drop_last()) + seq![COMMA] + decimal(g.last() as nat)
    }
}

/// Lists of numbers as text: the numbers of each joined by commas, one list
/// per line.
pub open spec fn format_lines(lists: Seq<Seq<usize>>) -> Seq<u8>
    decreases lists.len(),
{
    if lists.len() == 0 {
        Seq::empty()
    } else {
        format_lines(lists.drop_last()) + join_decimal(lists.last()) + seq![crate::parse::NEWLINE]
    }
}

/// A group as text: its numbers joined by commas, in braces when there is
/// more than one.
pub open spec fn format_group(g: Seq<usize>) -> Seq<u8> {
    if g.len() > 1 {
        seq![OPEN] + join_decimal(g) + seq![CLOSE]
    } else {
        join_decimal(g)
    }
}

/// The groups as text, joined by commas.
pub open spec fn format_groups(gs: Seq<Seq<usize>>) -> Seq<u8>
    decreases gs.len(),
{
    if gs.len() == 0 {
        Seq::empty()
    } else if gs.len() == 1 {
        format_group(gs[0])
    } else {
        format_group(gs[0]) + seq![COMMA] + format_groups(gs.skip(1))
    }
}

/// A ranking with ties that does not own its data.
#[derive(Copy, Clone, Debug, PartialEq, Eq)]
pub struct TiedRankRef<'a> {
    /// The total number of elements this ranking concerns; some of them may
    /// not be part of the ranking.
    pub elements: usize,
    pub order: &'a [usize],
    pub tied: &'a [bool],
}

/// The groups of a ranking, from the highest ranked to the lowest.
pub struct GroupIterator<'a> {
    pub order: TiedRankRef<'a>,
}

impl<'a> TiedRankRef<'a> {
    /// The shape of the tie flags fits the order, and the order lists
    /// distinct elements below `elements`.
    pub open spec fn wf(&self) -> bool {
        &&& tie_shape(self.order@.len(), self.tied@.len())
        &&& all_below(self.order@, self.elements as nat)
        &&& all_distinct(self.order@)
    }

    /// The groups of this ranking.
    pub open spec fn groups(&self) -> Seq<Seq<usize>> {
        groups(self.order@, self.tied@)
    }

    pub fn new(elements: usize, order: &'a [usize], tied: &'a [bool]) -> (res: Self)
        requires
            tie_shape(order@.len(), tied@.len()),
            all_below(order@, elements as nat),
            all_distinct(order@),
        ensures
            res.wf(),
            res.elements == elements,
            res.order@ == order@,
            res.tied@ == tied@,
    {
        TiedRankRef { elements, order, tied }
    }

    pub fn elements(&self) -> (res: usize)
        ensures
            res == self.elements,
    {
        self.elements
    }

    pub fn order(&self) -> (res: &'a [usize])
        ensures
            res@ == self.order@,
    {
        self.order
    }

    pub fn tied(&self) -> (res: &'a [bool])
        ensures
            res@ == self.tied@,
    {
        self.tied
    }

    /// Raises the number of elements this ranking concerns.
    pub fn increase_elements(&mut self, elements: usize)
        requires
            old(self).elements <= elements,
        ensures
            final(self).elements == elements,
            final(self).order@ == old(self).order@,
            final(self).tied@ == old(self).tied@,
    {
        self.elements = elements;
    }

    /// An empty ranking of zero elements.
    pub fn new_zero() -> (res: Self)
        ensures
            res.wf(),
            res.elements == 0,
            res.order@.len() == 0,
            res.tied@.len() == 0,
    {
        TiedRankRef { elements: 0, order: &[], tied: &[] }
    }

    /// An empty ranking of `elements`.
    pub fn new_zero_c(elements: usize) -> (res: Self)
        ensures
            res.wf(),
            res.elements == elements,
            res.order@.len() == 0,
            res.tied@.len() == 0,
    {
        let mut rank = TiedRankRef::new_zero();
        rank.increase_elements(elements);
        rank
    }

    /// An empty ranking of the same elements as `self`.
    pub fn zeroed(&self) -> (res: TiedRankRef<'a>)
        ensures
            res.wf(),
            res.elements == self.elements,
            res.order@.len() == 0,
            res.tied@.len() == 0,
    {
        TiedRankRef { elements: self.elements, order: &[], tied: &[] }
    }

    /// The number of ranked elements.
    pub fn len(&self) -> (res: usize)
        ensures
            res == self.order@.len(),
    {
        self.order.len()
    }

    /// Whether no element is ranked.
    pub fn empty(&self) -> (res: bool)
        ensures
            res == (self.order@.len() == 0),
    {
        self.order.len() == 0
    }

    /// Whether no element is ranked.
    pub fn is_empty(&self) -> (res: bool)
        ensures
            res == (self.order@.len() == 0),
    {
        self.order.len() == 0
    }

    /// The ranking of the top `n` elements. It holds more than `n` elements
    /// when a tie crosses position `n`: the whole tied group is kept.
    pub fn top(&self, n: usize) -> (res: TiedRankRef<'a>)
        requires
            self.wf(),
            n <= self.order@.len(),
        ensures
            res.wf(),
            res.elements == self.elements,
            n == 0 ==> res.order@.len() == 0,
            n > 0 ==> res.order@ == self.order@.take(tie_end(self.tied@, n as int)),
            n > 0 ==> res.tied@ == self.tied@.take(tie_end(self.tied@, n as int) - 1),
            (res.order@, res.tied@) == top_part(self.order@, self.tied@, n as int),
            n <= res.order@.len() <= self.order@.len(),
    {
        if n == 0 {
            return self.zeroed();
        }
        let _ = self.order.len();
        let k = count_leading_true(self.tied, n - 1);
        let i = n + k;
        proof {
            lemma_lead_true(self.tied@.skip(n - 1));
            assert(self.order@.take(i as int).len() == i);
            assert forall|a: int, b: int|
                0 <= a < i && 0 <= b < i && a != b implies self.order@.take(i as int)[a] != self.order@.take(i as int)[b] by {
                assert(self.order@[a] != self.order@[b]);
            }
            assert forall|a: int| 0 <= a < i implies self.order@.take(i as int)[a] < self.elements by {
                assert(self.order@[a] < self.elements);
            }
        }
        TiedRankRef { elements: self.elements, order: &self.order[0..i], tied: &self.tied[0..i - 1] }
    }

    /// An owned copy.
    pub fn owned(&self) -> (res: TiedRank)
        ensures
            res.elements == self.elements,
            res.order@ == self.order@,
            res.tied@ == self.tied@,
    {
        TiedRank { elements: self.elements, order: copy_usizes(self.order), tied: copy_bools(self.tied) }
    }

    /// The groups of this ranking, one at a time.
    pub fn iter_groups(&self) -> (res: GroupIterator<'a>)
        ensures
            res.order == *self,
    {
        GroupIterator { order: *self }
    }

    /// The highest ranked group, and the ranking of the rest.
    pub fn split_winner_group(&self) -> (res: (&'a [usize], TiedRankRef<'a>))
        requires
            self.wf(),
        ensures
            res.0@ == self.order@.take(winner_len(self.order@, self.tied@) as int),
            res.1.wf(),
            res.1.elements == self.elements,
            res.1.order@ == self.order@.skip(winner_len(self.order@, self.tied@) as int),
            res.1.tied@ == rest_tied(self.order@, self.tied@),
    {
        if self.empty() {
            proof {
                assert(self.order@.take(0) =~= self.order@);
                assert(self.order@.skip(0) =~= self.order@);
            }
            return (&[], *self);
        }
        let _ = self.order.len();
        let values = 1 + count_leading_true(self.tied, 0);
        proof {
            assert(self.tied@.skip(0) =~= self.tied@);
            lemma_lead_true(self.tied@);
        }
        let l = self.order.len();
        if values == l {
            proof {
                assert(self.order@.take(l as int) =~= self.order@);
                assert(self.order@.skip(l as int) =~= Seq::<usize>::empty());
            }
            let rest = TiedRankRef { elements: self.elements, order: &[], tied: &[] };
            (self.order, rest)
        } else {
            let out = &self.order[0..values];
            let rest_order = &self.order[values..l];
            let rest_t = &self.tied[values..l - 1];
            proof {
                assert(rest_order@ =~= self.order@.skip(values as int));
                assert(rest_t@ =~= self.tied@.skip(values as int));
                assert forall|a: int, b: int|
                    0 <= a < rest_order@.len() && 0 <= b < rest_order@.len() && a != b implies rest_order@[a]
                    != rest_order@[b] by {
                    assert(self.order@[a + values] != self.order@[b + values]);
                }
                assert forall|a: int| 0 <= a < rest_order@.len() implies rest_order@[a] < self.elements by {
                    assert(self.order@[a + values] < self.elements);
                }
            }
            (out, TiedRankRef { elements: self.elements, order: rest_order, tied: rest_t })
        }
    }

    /// The elements of the highest ranked group.
    pub fn winners(&self) -> (res: &'a [usize])
        requires
            self.wf(),
            self.order@.len() > 0,
        ensures
            res@ == self.order@.take(winner_len(self.order@, self.tied@) as int),
            res@ == self.groups()[0],
    {
        let _ = self.order.len();
        let i = count_leading_true(self.tied, 0);
        proof {
            assert(self.tied@.skip(0) =~= self.tied@);
        }
        &self.order[0..i + 1]
    }

    /// Group `n`, counted from the highest ranked, or `None` when there are
    /// fewer groups.
    pub fn group(&self, n: usize) -> (res: Option<&'a [usize]>)
        requires
            self.wf(),
        ensures
            n < self.groups().len() ==> (res matches Some(g) && g@ == self.groups()[n as int]),
            n >= self.groups().len() ==> res is None,
    {
        let mut it = self.iter_groups();
        let mut k: usize = 0;
        while k < n
            invariant
                self.wf(),
                it.order.wf(),
                k <= n,
                self.groups().len() >= k ==> it.order.groups() == self.groups().skip(k as int),
                self.groups().len() < k ==> it.order.groups().len() == 0,
            decreases n - k,
        {
            let ghost before = it.order;
            let g = it.next();
            proof {
                lemma_groups_split(before);
                if self.groups().len() >= k && self.groups().len() > k {
                    assert(self.groups().skip(k + 1) =~= self.groups().skip(k as int).skip(1));
                }
                if self.groups().len() == k {
                    assert(self.groups().skip(k as int).len() == 0);
                }
            }
            k += 1;
        }
        let ghost before = it.order;
        let r = it.next();
        proof {
            lemma_groups_split(before);
        }
        r
    }

    /// The group that element `c` lies in, counted from the highest ranked,
    /// or `None` when `c` is not ranked.
    pub fn group_of(&self, c: usize) -> (res: Option<usize>)
        requires
            self.wf(),
        ensures
            !self.order@.contains(c) ==> res is None,
            forall|p: int| 0 <= p < self.order@.len() && self.order@[p] == c ==> res == Some(
                group_index(self.tied@, p) as usize,
            ),
    {
        let n = self.len();
        let mut group: usize = 0;
        let mut i: usize = 0;
        while i < n
            invariant
                self.wf(),
                n == self.order@.len(),
                i <= n,
                i < n ==> group == group_index(self.tied@, i as int),
                group <= i,
                forall|p: int| 0 <= p < i ==> self.order@[p] != c,
            decreases n - i,
        {
            if self.order[i] == c {
                proof {
                    assert forall|p: int| 0 <= p < self.order@.len() && self.order@[p] == c implies p == i by {
                        if p != i {
                            assert(self.order@[p] != self.order@[i as int]);
                        }
                    }
                }
                return Some(group);
            }
            if i + 1 < n && !self.tied[i] {
                group += 1;
            }
            i += 1;
        }
        None
    }
}

/// The groups of a nonempty ranking are its highest ranked group followed by
/// the groups of the rest.
pub proof fn lemma_groups_split(r: TiedRankRef)
    requires
        r.wf(),
    ensures
        r.order@.len() > 0 ==> r.groups().len() > 0 && r.groups()[0] == r.order@.take(winner_len(r.order@, r.tied@) as int)
            && r.groups().skip(1) == groups(
            r.order@.skip(winner_len(r.order@, r.tied@) as int),
            rest_tied(r.order@, r.tied@),
        ),
        r.order@.len() == 0 ==> r.groups().len() == 0,
{
    if r.order@.len() > 0 {
        let w = winner_len(r.order@, r.tied@);
        let rest = groups(r.order@.skip(w as int), rest_tied(r.order@, r.tied@));
        assert((seq![r.order@.take(w as int)] + rest).skip(1) =~= rest);
    }
}

impl<'a> GroupIterator<'a> {
    /// The next group, from the highest ranked to the lowest.
    pub fn next(&mut self) -> (res: Option<&'a [usize]>)
        requires
            old(self).order.wf(),
        ensures
            final(self).order.wf(),
            old(self).order.groups().len() == 0 ==> res is None && final(self).order.groups().len() == 0,
            old(self).order.groups().len() > 0 ==> (res matches Some(g) && g@ == old(self).order.groups()[0]
                && final(self).order.groups() == old(self).order.groups().skip(1)),
            final(self).order.elements == old(self).order.elements,
            old(self).order.order@.len() > 0 ==> final(self).order.order@.len() < old(self).order.order@.len(),
            res matches Some(g) ==> final(self).order.order@ == old(self).order.order@.skip(g@.len() as int) && g@
                == old(self).order.order@.take(g@.len() as int) && g@.len() >= 1,
    {
        proof {
            lemma_groups_split(self.order);
        }
        if self.order.empty() {
            return None;
        }
        let (group, order) = self.order.split_winner_group();
        self.order = order;
        Some(group)
    }

    /// At least one group while anything is left, and at most one per
    /// element.
    pub fn size_hint(&self) -> (res: (usize, Option<usize>))
        ensures
            self.order.order@.len() == 0 ==> res == (0usize, Some(0usize)),
            self.order.order@.len() > 0 ==> res == (1usize, Some(self.order.order@.len() as usize)),
    {
        if self.order.empty() {
            (0, Some(0))
        } else {
            (1, Some(self.order.len()))
        }
    }
}

/// An order with possible ties, owning its data.
#[derive(Clone, Debug, PartialEq, Eq, Default, PartialOrd)]
pub struct TiedRank {
    pub order: Vec<usize>,
    pub tied: Vec<bool>,
    /// The total number of elements this ranking concerns.
    pub elements: usize,
}


/// `n` copies of `true`.
fn all_true(n: usize) -> (res: Vec<bool>)
    ensures
        res@.len() == n,
        forall|i: int| 0 <= i < n ==> #[trigger] res@[i],
{
    let mut res: Vec<bool> = Vec::new();
    let mut i: usize = 0;
    while i < n
        invariant
            i <= n,
            res@.len() == i,
            forall|k: int| 0 <= k < i ==> #[trigger] res@[k],
        decreases n - i,
    {
        res.push(true);
        i += 1;
    }
    res
}

/// `s` with its values in the opposite order.
pub(crate) fn reversed<T: Copy>(s: &Vec<T>) -> (res: Vec<T>)
    ensures
        res@ == s@.reverse(),
{
    let n = s.len();
    let mut res: Vec<T> = Vec::new();
    let mut i: usize = 0;
    while i < n
        invariant
            n == s@.len(),
            i <= n,
            res@.len() == i,
            forall|k: int| 0 <= k < i ==> #[trigger] res@[k] == s@[n - 1 - k],
        decreases n - i,
    {
        res.push(s[n - 1 - i]);
        i += 1;
    }
    proof {
        assert(res@ =~= s@.reverse());
    }
    res
}

impl TiedRank {
    /// The shape of the tie flags fits the order, and the order lists
    /// distinct elements below `elements`.
    pub open spec fn valid(&self) -> bool {
        &&& tie_shape(self.order@.len(), self.tied@.len())
        &&& all_below(self.order@, self.elements as nat)
        &&& all_distinct(self.order@)
    }

    /// The groups of this ranking.
    pub open spec fn groups(&self) -> Seq<Seq<usize>> {
        groups(self.order@, self.tied@)
    }

    pub fn new(elements: usize, order: Vec<usize>, tied: Vec<bool>) -> (res: Self)
        requires
            tie_shape(order@.len(), tied@.len()),
        ensures
            res.elements == elements,
            res.order@ == order@,
            res.tied@ == tied@,
    {
        TiedRank { elements, order, tied }
    }

    /// The elements of `order`, all tied.
    pub fn new_tied_from_slice(elements: usize, order: &[usize]) -> (res: Self)
        ensures
            res.elements == elements,
            res.order@ == order@,
            order@.len() == 0 ==> res.tied@.len() == 0,
            order@.len() > 0 ==> res.tied@.len() == order@.len() - 1,
            forall|i: int| 0 <= i < res.tied@.len() ==> #[trigger] res.tied@[i],
    {
        let tie_len = order.len().saturating_sub(1);
        let tied = all_true(tie_len);
        TiedRank::new(elements, copy_usizes(order), tied)
    }

    /// A view of this ranking.
    pub fn as_ref(&self) -> (res: TiedRankRef<'_>)
        requires
            self.valid(),
        ensures
            res.wf(),
            res.elements == self.elements,
            res.order@ == self.order@,
            res.tied@ == self.tied@,
    {
        TiedRankRef::new(self.elements, self.order.as_slice(), self.tied.as_slice())
    }

    /// The number of ranked elements.
    pub fn len(&self) -> (res: usize)
        ensures
            res == self.order@.len(),
    {
        self.order.len()
    }

    /// Becomes a copy of `rank`.
    pub fn copy_from(&mut self, rank: TiedRankRef)
        ensures
            final(self).elements == rank.elements,
            final(self).order@ == rank.order@,
            final(self).tied@ == rank.tied@,
    {
        self.order = copy_usizes(rank.order());
        self.tied = copy_bools(rank.tied());
        self.elements = rank.elements;
    }

    /// A ranking of `elements` where every element is tied.
    pub fn new_tied(elements: usize) -> (res: Self)
        ensures
            res.valid(),
            res.elements == elements,
            res.order@.len() == elements,
            forall|i: int| 0 <= i < elements ==> #[trigger] res.order@[i] == i,
            forall|i: int| 0 <= i < res.tied@.len() ==> #[trigger] res.tied@[i],
    {
        if elements == 0 {
            return TiedRank::new(0, Vec::new(), Vec::new());
        }
        let mut order: Vec<usize> = Vec::new();
        let mut i: usize = 0;
        while i < elements
            invariant
                i <= elements,
                order@.len() == i,
                forall|k: int| 0 <= k < i ==> #[trigger] order@[k] == k,
            decreases elements - i,
        {
            order.push(i);
            i += 1;
        }
        let tied = all_true(elements - 1);
        TiedRank::new(elements, order, tied)
    }

    /// Raises the number of elements this ranking concerns.
    pub fn increase_elements(&mut self, elements: usize)
        requires
            old(self).elements <= elements,
        ensures
            final(self).elements == elements,
            final(self).order@ == old(self).order@,
            final(self).tied@ == old(self).tied@,
    {
        self.elements = elements;
    }

    /// A ranking of `elements` that ranks only `n`.
    pub fn single(elements: usize, n: usize) -> (res: TiedRank)
        requires
            n < elements,
        ensures
            res.valid(),
            res.elements == elements,
            res.order@ == seq![n],
            res.tied@.len() == 0,
    {
        let order = vec![n];
        let tied: Vec<bool> = Vec::new();
        proof {
            assert(order@ =~= seq![n]);
        }
        TiedRank::new(elements, order, tied)
    }

    /// Reverses the ranking in place.
    pub fn reverse(&mut self)
        ensures
            final(self).elements == old(self).elements,
            final(self).order@ == old(self).order@.reverse(),
            final(self).tied@ == old(self).tied@.reverse(),
    {
        self.order = reversed(&self.order);
        self.tied = reversed(&self.tied);
    }

    /// Removes the highest ranked group.
    pub fn remove_winners(&mut self)
        requires
            tie_shape(old(self).order@.len(), old(self).tied@.len()),
        ensures
            final(self).elements == old(self).elements,
            final(self).order@ == old(self).order@.skip(winner_len(old(self).order@, old(self).tied@) as int),
            final(self).tied@ == rest_tied(old(self).order@, old(self).tied@),
    {
        let l = self.order.len();
        if l == 0 {
            proof {
                assert(self.order@.skip(0) =~= self.order@);
            }
            return;
        }
        let winners = 1 + count_leading_true(self.tied.as_slice(), 0);
        proof {
            assert(self.tied@.skip(0) =~= self.tied@);
        }
        let order = copy_usizes(&self.order.as_slice()[winners..l]);
        if l == winners {
            self.tied = Vec::new();
        } else {
            let tied = copy_bools(&self.tied.as_slice()[winners..l - 1]);
            self.tied = tied;
        }
        self.order = order;
        proof {
            assert(self.order@ =~= old(self).order@.skip(winners as int));
            assert(self.tied@ =~= rest_tied(old(self).order@, old(self).tied@));
        }
    }

    /// Removes the lowest ranked group.
    pub fn remove_last(&mut self)
        requires
            tie_shape(old(self).order@.len(), old(self).tied@.len()),
        ensures
            final(self).elements == old(self).elements,
            old(self).order@.len() == 0 ==> final(self).order@ == old(self).order@ && final(self).tied@ == old(self).tied@,
            old(self).order@.len() > 0 ==> final(self).order@ == old(self).order@.take(
                old(self).order@.len() - last_len(old(self).tied@),
            ),
            old(self).order@.len() > 0 ==> final(self).tied@ == if old(self).order@.len() == last_len(old(self).tied@) {
                Seq::empty()
            } else {
                old(self).tied@.take(old(self).order@.len() - 1 - last_len(old(self).tied@))
            },
            (final(self).order@, final(self).tied@) == without_last(old(self).order@, old(self).tied@),
    {
        let l = self.order.len();
        if l == 0 {
            return;
        }
        let n = self.tied.len();
        let mut j: usize = n;
        while j > 0 && self.tied[j - 1]
            invariant
                n == self.tied@.len(),
                j <= n,
                forall|i: int| j <= i < n ==> #[trigger] self.tied@[i],
            decreases j,
        {
            j -= 1;
        }
        let losers = 1 + (n - j);
        proof {
            let r = self.tied@.reverse();
            assert forall|i: int| 0 <= i < n - j implies #[trigger] r[i] by {
                assert(self.tied@[n - 1 - i]);
            }
            if j > 0 {
                assert(!r[n - j]);
            }
            lemma_lead_true_is(r, n - j);
        }
        self.order.truncate(l - losers);
        if l == losers {
            self.tied.clear();
        } else {
            self.tied.truncate(l - 1 - losers);
        }
    }

    /// A ranking of zero elements.
    pub fn new_zero() -> (res: Self)
        ensures
            res.valid(),
            res.elements == 0,
            res.order@.len() == 0,
            res.tied@.len() == 0,
    {
        TiedRank::new(0, Vec::new(), Vec::new())
    }

    /// Keeps the top `n` elements, and every element tied with the last of
    /// them.
    pub fn keep_top(&mut self, n: usize)
        requires
            old(self).valid(),
            n <= old(self).order@.len(),
        ensures
            final(self).valid(),
            final(self).elements == old(self).elements,
            n == 0 ==> final(self).order@.len() == 0 && final(self).tied@.len() == 0,
            n > 0 ==> final(self).order@ == old(self).order@.take(tie_end(old(self).tied@, n as int)),
            n > 0 ==> final(self).tied@ == old(self).tied@.take(tie_end(old(self).tied@, n as int) - 1),
            (final(self).order@, final(self).tied@) == top_part(old(self).order@, old(self).tied@, n as int),
            n <= final(self).order@.len() <= old(self).order@.len(),
    {
        if n == 0 {
            self.order.clear();
            self.tied.clear();
            return;
        }
        let _ = self.order.len();
        let k = count_leading_true(self.tied.as_slice(), n - 1);
        let i = n + k;
        proof {
            lemma_lead_true(self.tied@.skip(n - 1));
        }
        self.order.truncate(i);
        self.tied.truncate(i - 1);
        proof {
            assert(self.order@ =~= old(self).order@.take(i as int));
            assert forall|a: int, b: int|
                0 <= a < i && 0 <= b < i && a != b implies self.order@[a] != self.order@[b] by {
                assert(old(self).order@[a] != old(self).order@[b]);
            }
            assert forall|a: int| 0 <= a < i implies self.order@[a] < self.elements by {
                assert(old(self).order@[a] < self.elements);
            }
        }
    }

    /// The group on the threshold of the top `n`: the positions from `n - 1`
    /// up to the end of its tied group, with their tie flags; breaking their
    /// ties would decide the top `n`. Both are empty when `n` is zero or the
    /// top `n` is already decided.
    pub fn top_n_threshold(&self, n: usize) -> (res: (Vec<usize>, Vec<bool>))
        requires
            tie_shape(self.order@.len(), self.tied@.len()),
            n <= self.order@.len(),
        ensures
            n == 0 || tie_end(self.tied@, n as int) == n ==> res.0@.len() == 0 && res.1@.len() == 0,
            n > 0 && tie_end(self.tied@, n as int) != n ==> res.0@ == self.order@.subrange(
                n - 1,
                tie_end(self.tied@, n as int),
            ),
            n > 0 && tie_end(self.tied@, n as int) != n ==> res.1@ == self.tied@.subrange(
                n - 1,
                tie_end(self.tied@, n as int) - 1,
            ),
            (res.0@, res.1@) == threshold_part(self.order@, self.tied@, n as int),
    {
        if n == 0 {
            return (Vec::new(), Vec::new());
        }
        let _ = self.order.len();
        let k = count_leading_true(self.tied.as_slice(), n - 1);
        if k == 0 {
            return (Vec::new(), Vec::new());
        }
        let i = n + k;
        (copy_usizes(&self.order.as_slice()[n - 1..i]), copy_bools(&self.tied.as_slice()[n - 1..i - 1]))
    }
}

/// The number of elements in the lowest ranked group of a nonempty ranking
/// with tie flags `tied`.
pub open spec fn last_len(tied: Seq<bool>) -> nat {
    1 + lead_true(tied.reverse())
}


/// A piece of text with a leading `{` removed when no group is open, and
/// whether a group is open after that.
pub open spec fn strip_open(p: Seq<u8>, grouped: bool) -> (Seq<u8>, bool) {
    if !grouped && p.len() > 0 && p[0] == OPEN {
        (p.skip(1), true)
    } else {
        (p, grouped)
    }
}

/// A piece of text with a trailing `}` removed when a group is open, and
/// whether a group is still open after that.
pub open spec fn strip_close(p: Seq<u8>, grouped: bool) -> (Seq<u8>, bool) {
    if grouped && p.len() > 0 && p.last() == CLOSE {
        (p.drop_last(), false)
    } else {
        (p, grouped)
    }
}

/// Reads the comma separated pieces of a tied ranking from the first on:
/// the elements, whether each is tied with the next, and whether a group is
/// still open at the end; `None` when a piece is not a number below
/// `elements`, with an optional `{` that opens a group before it and an
/// optional `}` that closes one after it.
pub open spec fn scan_tied(parts: Seq<Seq<u8>>, elements: nat) -> Option<(Seq<usize>, Seq<bool>, bool)>
    decreases parts.len(),
{
    if parts.len() == 0 {
        Some((Seq::empty(), Seq::empty(), false))
    } else {
        match scan_tied(parts.drop_last(), elements) {
            None => None,
            Some((o, t, g)) => {
                let (p1, g1) = strip_open(parts.last(), g);
                let (p2, g2) = strip_close(p1, g1);
                match parse_usize_spec(p2) {
                    Some(n) => if n < elements {
                        Some((o.push(n), t.push(g2), g2))
                    } else {
                        None
                    },
                    None => None,
                }
            },
        }
    }
}

/// The order and tie flags that the text `s` writes: the empty text is the
/// empty ranking; otherwise every group must be closed, and the flag of
/// the last element is dropped.
pub open spec fn parse_tied_spec(elements: usize, s: Seq<u8>) -> Option<(Seq<usize>, Seq<bool>)> {
    if s.len() == 0 {
        Some((Seq::empty(), Seq::empty()))
    } else {
        match scan_tied(split_on(s, COMMA), elements as nat) {
            Some((o, t, g)) => if !g {
                Some((o, t.drop_last()))
            } else {
                None
            },
            None => None,
        }
    }
}

proof fn lemma_scan_tied_len(parts: Seq<Seq<u8>>, elements: nat)
    ensures
        scan_tied(parts, elements) matches Some((o, t, g)) ==> o.len() == parts.len() && t.len() == parts.len()
            && all_below(o, elements),
    decreases parts.len(),
{
    if parts.len() > 0 {
        lemma_scan_tied_len(parts.drop_last(), elements);
    }
}

proof fn lemma_scan_tied_none(parts: Seq<Seq<u8>>, elements: nat, k: int)
    requires
        0 <= k <= parts.len(),
        scan_tied(parts.take(k), elements) is None,
    ensures
        scan_tied(parts, elements) is None,
    decreases parts.len(),
{
    if k == parts.len() {
        assert(parts.take(k) =~= parts);
    } else {
        assert(parts.drop_last().take(k) =~= parts.take(k));
        lemma_scan_tied_none(parts.drop_last(), elements, k);
    }
}

impl TiedRank {
    /// Reads a ranking of `elements` from text such as `2,{0,1},4`: numbers
    /// separated by commas, where braces enclose a group of tied elements.
    /// Returns `None` when the text is not such a ranking.
    pub fn parse_order(elements: usize, s: &str) -> (res: Option<Self>)
        ensures
            parse_tied_spec(elements, s.spec_bytes()) is None ==> res is None,
            parse_tied_spec(elements, s.spec_bytes()) matches Some((o, t)) ==> (res matches Some(r) && r.elements
                == elements && r.order@ == o && r.tied@ == t),
            res matches Some(r) ==> tie_shape(r.order@.len(), r.tied@.len()) && all_below(r.order@, elements as nat),
    {
        let b = s.as_bytes();
        if b.len() == 0 {
            let mut rank = TiedRank::new_zero();
            rank.increase_elements(elements);
            return Some(rank);
        }
        let parts = split_bytes(b, COMMA);
        let ghost sp = split_on(b@, COMMA);
        let np = parts.len();
        let mut order: Vec<usize> = Vec::new();
        let mut tied: Vec<bool> = Vec::new();
        let mut grouped = false;
        let mut k: usize = 0;
        while k < np
            invariant
                np == parts@.len(),
                b@ == s.spec_bytes(),
                b@.len() > 0,
                sp == split_on(b@, COMMA),
                np == sp.len(),
                forall|j: int| 0 <= j < np ==> (#[trigger] parts@[j])@ == sp[j],
                k <= np,
                scan_tied(sp.take(k as int), elements as nat) == Some((order@, tied@, grouped)),
            decreases np - k,
        {
            let part = &parts[k];
            let ghost g0 = grouped;
            proof {
                assert(sp.take(k + 1).drop_last() =~= sp.take(k as int));
                assert(sp.take(k + 1).last() == part@);
            }
            let mut lo: usize = 0;
            let mut hi: usize = part.len();
            if !grouped && hi > 0 && part[0] == OPEN {
                lo = 1;
                grouped = true;
            }
            let ghost p1 = part@.subrange(lo as int, hi as int);
            proof {
                assert(strip_open(part@, g0) == (p1, grouped)) by {
                    if lo == 1 {
                        assert(p1 =~= part@.skip(1));
                    } else {
                        assert(p1 =~= part@);
                    }
                }
            }
            let ghost g1 = grouped;
            if grouped && hi > lo && part[hi - 1] == CLOSE {
                hi = hi - 1;
                grouped = false;
            }
            let piece = &part.as_slice()[lo..hi];
            proof {
                assert(strip_close(p1, g1) == (piece@, grouped)) by {
                    if hi < part@.len() {
                        assert(piece@ =~= p1.drop_last());
                    } else {
                        assert(piece@ =~= p1);
                    }
                }
            }
            let n = match parse_usize(piece) {
                Some(n) => n,
                None => {
                    proof {
                        assert(scan_tied(sp.take(k + 1), elements as nat) is None);
                        lemma_scan_tied_none(sp, elements as nat, k + 1);
                    }
                    return None;
                },
            };
            if n >= elements {
                proof {
                    assert(scan_tied(sp.take(k + 1), elements as nat) is None);
                    lemma_scan_tied_none(sp, elements as nat, k + 1);
                }
                return None;
            }
            order.push(n);
            tied.push(grouped);
            k += 1;
        }
        proof {
            assert(sp.take(np as int) =~= sp);
            lemma_split_on_len(b@, COMMA);
            lemma_scan_tied_len(sp, elements as nat);
        }
        tied.pop();
        if grouped {
            return None;
        }
        Some(TiedRank::new(elements, order, tied))
    }
}


pub(crate) proof fn lemma_decimal_ascii(n: nat)
    ensures
        is_ascii_bytes(decimal(n)),
        decimal(n).len() > 0,
    decreases n,
{
    if n >= 10 {
        lemma_decimal_ascii(n / 10);
    }
}

/// Appends the numbers of `g`, joined by commas.
pub(crate) fn push_joined(out: &mut Vec<u8>, g: &[usize])
    requires
        is_ascii_bytes(old(out)@),
    ensures
        final(out)@ == old(out)@ + join_decimal(g@),
        is_ascii_bytes(final(out)@),
{
    let n = g.len();
    if n == 0 {
        proof {
            assert(final(out)@ =~= old(out)@ + join_decimal(g@));
        }
        return;
    }
    let ghost start = out@;
    push_decimal(out, g[0]);
    proof {
        lemma_decimal_ascii(g@[0] as nat);
        assert(g@.take(1) =~= seq![g@[0]]);
    }
    let mut k: usize = 1;
    while k < n
        invariant
            n == g@.len(),
            1 <= k <= n,
            out@ == start + join_decimal(g@.take(k as int)),
            is_ascii_bytes(out@),
        decreases n - k,
    {
        out.push(COMMA);
        push_decimal(out, g[k]);
        proof {
            lemma_decimal_ascii(g@[k as int] as nat);
            assert(g@.take(k + 1).drop_last() =~= g@.take(k as int));
            assert(out@ =~= start + join_decimal(g@.take(k + 1)));
        }
        k += 1;
    }
    proof {
        assert(g@.take(n as int) =~= g@);
    }
}

/// Appends the text of the group `g`.
fn push_group(out: &mut Vec<u8>, g: &[usize])
    requires
        g@.len() > 0,
        is_ascii_bytes(old(out)@),
    ensures
        final(out)@ == old(out)@ + format_group(g@),
        is_ascii_bytes(final(out)@),
{
    let n = g.len();
    if n > 1 {
        out.push(OPEN);
    }
    push_joined(out, g);
    if n > 1 {
        out.push(CLOSE);
    }
    proof {
        assert(final(out)@ =~= old(out)@ + format_group(g@));
    }
}

/// The number of groups of a ranking of `len` elements with tie flags
/// `tied`.
pub open spec fn group_count(tied: Seq<bool>, len: nat) -> nat {
    if len == 0 {
        0
    } else {
        group_index(tied, len - 1) + 1
    }
}

/// Counts the groups.
fn count_groups(order: &[usize], tied: &[bool]) -> (res: usize)
    requires
        tie_shape(order@.len(), tied@.len()),
    ensures
        res == group_count(tied@, order@.len()),
{
    let n = order.len();
    if n == 0 {
        return 0;
    }
    let mut count: usize = 1;
    let mut i: usize = 0;
    while i + 1 < n
        invariant
            n == order@.len(),
            tied@.len() + 1 == n,
            i + 1 <= n,
            count == group_index(tied@, i as int) + 1,
            count <= i + 1,
        decreases n - i,
    {
        if !tied[i] {
            count += 1;
        }
        i += 1;
    }
    count
}

impl<'a> TiedRankRef<'a> {
    /// The ranking as text, such as `2,{0,1},4`: groups separated by commas,
    /// each group of more than one element in braces.
    pub fn to_string(&self) -> (res: String)
        requires
            self.wf(),
        ensures
            res@ == ascii_chars(format_groups(self.groups())),
    {
        let mut out: Vec<u8> = Vec::new();
        let mut it = self.iter_groups();
        while !it.order.empty()
            invariant
                it.order.wf(),
                out@ + format_groups(it.order.groups()) == format_groups(self.groups()),
                is_ascii_bytes(out@),
            decreases it.order.order@.len(),
        {
            let ghost before = it.order;
            proof {
                lemma_groups_split(before);
            }
            let g = it.next().unwrap();
            proof {
                lemma_groups_split(it.order);
            }
            let ghost mid = out@;
            push_group(&mut out, g);
            if !it.order.empty() {
                out.push(COMMA);
            }
            proof {
                let gs = before.groups();
                if gs.len() > 1 {
                    assert(out@ + format_groups(it.order.groups()) =~= mid + format_groups(gs));
                } else {
                    assert(it.order.groups().len() == 0);
                    assert(out@ + format_groups(it.order.groups()) =~= mid + format_groups(gs));
                }
            }
        }
        proof {
            lemma_groups_split(it.order);
            assert(out@ =~= format_groups(self.groups()));
        }
        string_from_ascii(out)
    }

    /// Scores each ranked element by its group: with `g` groups, the
    /// elements of group `i` get `(g - 1 - i) * (max - min) / elements +
    /// min`. Unranked elements keep their score.
    pub fn cardinal_uniform(&self, c: &mut [usize], min: usize, max: usize)
        requires
            self.wf(),
            old(c)@.len() == self.elements,
            min <= max,
            group_count(self.tied@, self.order@.len()) * (max - min) <= usize::MAX,
        ensures
            final(c)@.len() == old(c)@.len(),
            forall|p: int| 0 <= p < self.order@.len() ==> #[trigger] final(c)@[self.order@[p] as int] == (
            (group_count(self.tied@, self.order@.len()) - 1 - group_index(self.tied@, p)) * (max - min))
                / (self.elements as int) + min,
            forall|x: int| 0 <= x < old(c)@.len() && !self.order@.contains(x as usize) ==> #[trigger] final(c)@[x]
                == old(c)@[x],
    {
        let groups = count_groups(self.order, self.tied);
        let n = self.order.len();
        let mut gi: usize = 0;
        let mut p: usize = 0;
        while p < n
            invariant
                self.wf(),
                n == self.order@.len(),
                groups == group_count(self.tied@, n as nat),
                groups * (max - min) <= usize::MAX,
                min <= max,
                c@.len() == self.elements,
                p <= n,
                p < n ==> gi == group_index(self.tied@, p as int),
                forall|q: int| 0 <= q < p ==> #[trigger] c@[self.order@[q] as int] == ((groups - 1 - group_index(
                    self.tied@,
                    q,
                )) * (max - min)) / (self.elements as int) + min,
                forall|x: int| 0 <= x < c@.len() && !self.order@.take(p as int).contains(x as usize) ==> #[trigger] c@[x]
                    == old(c)@[x],
            decreases n - p,
        {
            proof {
                lemma_group_index_mono(self.tied@, p as int, n as int - 1);
                lemma_group_index_mono(self.tied@, 0, n as int - 1);
                lemma_distinct_below_len(self.order@, self.elements as nat);
            }
            let e = self.order[p];
            let w: usize = groups - 1 - gi;
            proof {
                assert(w * (max - min) <= groups * (max - min)) by (nonlinear_arith)
                    requires
                        w <= groups,
                        min <= max,
                ;
            }
            let prod: usize = w * (max - min);
            proof {
                let e2 = self.elements as int;
                assert(prod as int / e2 <= max - min) by (nonlinear_arith)
                    requires
                        e2 > 0,
                        w < e2,
                        min <= max,
                        prod == w * (max - min),
                ;
            }
            let mapped: usize = prod / self.elements + min;
            c[e] = mapped;
            proof {
                assert forall|q: int| 0 <= q < p + 1 implies #[trigger] c@[self.order@[q] as int] == ((groups - 1
                    - group_index(self.tied@, q)) * (max - min)) / (self.elements as int) + min by {
                    if q < p {
                        assert(self.order@[q] != self.order@[p as int]);
                    }
                }
                assert forall|x: int| 0 <= x < c@.len() && !self.order@.take(p + 1).contains(x as usize) implies #[trigger] c@[x]
                    == old(c)@[x] by {
                    assert(self.order@.take(p + 1)[p as int] == e);
                    if self.order@.take(p as int).contains(x as usize) {
                        let j = choose|j: int| 0 <= j < p && self.order@.take(p as int)[j] == x as usize;
                        assert(self.order@.take(p + 1)[j] == x as usize);
                    }
                }
            }
            if p + 1 < n && !self.tied[p] {
                gi += 1;
            }
            p += 1;
        }
        proof {
            assert(self.order@.take(n as int) =~= self.order@);
        }
    }

    /// Scores each ranked element by its group: the elements of group `i`
    /// get `(elements - 1 - i) * (max - min) / elements + min`. Unranked
    /// elements keep their score.
    pub fn cardinal_high(&self, c: &mut [usize], min: usize, max: usize)
        requires
            self.wf(),
            old(c)@.len() == self.elements,
            min <= max,
            self.elements * (max - min) <= usize::MAX,
        ensures
            final(c)@.len() == old(c)@.len(),
            forall|p: int| 0 <= p < self.order@.len() ==> #[trigger] final(c)@[self.order@[p] as int] == (
            (self.elements - 1 - group_index(self.tied@, p)) * (max - min)) / (self.elements as int) + min,
            forall|x: int| 0 <= x < old(c)@.len() && !self.order@.contains(x as usize) ==> #[trigger] final(c)@[x]
                == old(c)@[x],
    {
        let n = self.order.len();
        let mut gi: usize = 0;
        let mut p: usize = 0;
        while p < n
            invariant
                self.wf(),
                n == self.order@.len(),
                self.elements * (max - min) <= usize::MAX,
                min <= max,
                c@.len() == self.elements,
                p <= n,
                p < n ==> gi == group_index(self.tied@, p as int),
                gi <= p,
                forall|q: int| 0 <= q < p ==> #[trigger] c@[self.order@[q] as int] == ((self.elements - 1
                    - group_index(self.tied@, q)) * (max - min)) / (self.elements as int) + min,
                forall|x: int| 0 <= x < c@.len() && !self.order@.take(p as int).contains(x as usize) ==> #[trigger] c@[x]
                    == old(c)@[x],
            decreases n - p,
        {
            let e = self.order[p];
            proof {
                lemma_distinct_below_len(self.order@, self.elements as nat);
            }
            let w: usize = self.elements - 1 - gi;
            proof {
                assert(w * (max - min) <= self.elements * (max - min)) by (nonlinear_arith)
                    requires
                        w <= self.elements,
                        min <= max,
                ;
            }
            let prod: usize = w * (max - min);
            proof {
                let e2 = self.elements as int;
                assert(prod as int / e2 <= max - min) by (nonlinear_arith)
                    requires
                        e2 > 0,
                        w < e2,
                        min <= max,
                        prod == w * (max - min),
                ;
            }
            let mapped: usize = prod / self.elements + min;
            c[e] = mapped;
            proof {
                assert forall|q: int| 0 <= q < p + 1 implies #[trigger] c@[self.order@[q] as int] == ((self.elements
                    - 1 - group_index(self.tied@, q)) * (max - min)) / (self.elements as int) + min by {
                    if q < p {
                        assert(self.order@[q] != self.order@[p as int]);
                    }
                }
                assert forall|x: int| 0 <= x < c@.len() && !self.order@.take(p + 1).contains(x as usize) implies #[trigger] c@[x]
                    == old(c)@[x] by {
                    assert(self.order@.take(p + 1)[p as int] == e);
                    if self.order@.take(p as int).contains(x as usize) {
                        let j = choose|j: int| 0 <= j < p && self.order@.take(p as int)[j] == x as usize;
                        assert(self.order@.take(p + 1)[j] == x as usize);
                    }
                }
            }
            if p + 1 < n && !self.tied[p] {
                gi += 1;
            }
            p += 1;
        }
        proof {
            assert(self.order@.take(n as int) =~= self.order@);
        }
    }
}

/// `group_index` never decreases along the order.
pub proof fn lemma_group_index_mono(tied: Seq<bool>, p: int, q: int)
    requires
        0 <= p <= q,
    ensures
        group_index(tied, p) <= group_index(tied, q),
        group_index(tied, q) <= group_index(tied, p) + (q - p),
    decreases q - p,
{
    if p < q {
        lemma_group_index_mono(tied, p, q - 1);
    }
}

/// A list of distinct values below `n` is no longer than `n`.
pub proof fn lemma_distinct_below_len(s: Seq<usize>, n: nat)
    requires
        all_distinct(s),
        all_below(s, n),
    ensures
        s.len() <= n,
{
    let f = |i: int| s[i] as int;
    let dom = Set::new(|i: int| 0 <= i < s.len());
    let rng = Set::new(|v: int| 0 <= v < n);
    vstd::set_lib::lemma_int_range(0, s.len() as int);
    vstd::set_lib::lemma_int_range(0, n as int);
    assert(dom =~= vstd::set_lib::set_int_range(0, s.len() as int));
    assert(rng =~= vstd::set_lib::set_int_range(0, n as int));
    assert forall|a: int, b: int| dom.contains(a) && dom.contains(b) && f(a) == f(b) implies a == b by {
        if a != b {
            assert(s[a] != s[b]);
        }
    }
    assert(dom.map(f).subset_of(rng));
    vstd::set_lib::lemma_map_size(dom, dom.map(f), f);
    vstd::set_lib::lemma_len_subset(dom.map(f), rng);
}


/// The elements of `0..k` that `order` does not list, in increasing order.
pub open spec fn missing(order: Seq<usize>, k: nat) -> Seq<usize> {
    Seq::new(k, |i: int| i as usize).filter(|x: usize| !order.contains(x))
}

proof fn lemma_missing_step(order: Seq<usize>, k: nat)
    requires
        k <= usize::MAX,
    ensures
        missing(order, k + 1) == if order.contains(k as usize) {
            missing(order, k)
        } else {
            missing(order, k).push(k as usize)
        },
{
    let p = |x: usize| !order.contains(x);
    let a = Seq::new(k + 1, |i: int| i as usize);
    let b = Seq::new(k, |i: int| i as usize);
    assert(a.drop_last() =~= b);
    assert(a.last() == k as usize);
    assert(missing(order, k + 1) == a.filter(p));
    assert(missing(order, k) == b.filter(p));
    reveal(Seq::filter);
    assert(a.filter(p) == if p(a.last()) {
        a.drop_last().filter(p).push(a.last())
    } else {
        a.drop_last().filter(p)
    });
}

proof fn lemma_count_set_none(s: Seq<bool>)
    requires
        forall|i: int| 0 <= i < s.len() ==> !#[trigger] s[i],
    ensures
        count_set(s) == 0,
    decreases s.len(),
{
    if s.len() > 0 {
        lemma_count_set_none(s.drop_last());
    }
}

proof fn lemma_missing_props(order: Seq<usize>, k: nat)
    requires
        k <= usize::MAX + 1,
    ensures
        forall|i: int| 0 <= i < missing(order, k).len() ==> (#[trigger] missing(order, k)[i]) < k && !order.contains(
            missing(order, k)[i],
        ),
        forall|i: int, j: int| 0 <= i < j < missing(order, k).len() ==> missing(order, k)[i] < missing(order, k)[j],
    decreases k,
{
    if k > 0 {
        let k1 = (k - 1) as nat;
        lemma_missing_props(order, k1);
        assert(k1 <= usize::MAX);
        lemma_missing_step(order, k1);
    }
}

/// `n` copies of `false`.
fn all_false(n: usize) -> (res: Vec<bool>)
    ensures
        res@.len() == n,
        forall|i: int| 0 <= i < n ==> !#[trigger] res@[i],
{
    let mut res: Vec<bool> = Vec::new();
    let mut i: usize = 0;
    while i < n
        invariant
            i <= n,
            res@.len() == i,
            forall|k: int| 0 <= k < i ==> !#[trigger] res@[k],
        decreases n - i,
    {
        res.push(false);
        i += 1;
    }
    res
}

/// `a` comes before `b` when ordering by score `v` from the highest, and by
/// index among equal scores.
pub open spec fn score_before(v: Seq<usize>, a: usize, b: usize) -> bool {
    v[a as int] > v[b as int] || (v[a as int] == v[b as int] && a < b)
}

/// `n` copies of `true`.
pub open spec fn all_tied(n: nat) -> Seq<bool> {
    Seq::new(n, |i: int| true)
}

/// The ranking that `make_complete` makes: the elements of `0..elements`
/// that are missing come last, in increasing order and tied with each other,
/// and tied with the element before them as `tied_last` says.
pub open spec fn completed(order: Seq<usize>, tied: Seq<bool>, elements: nat, tied_last: bool) -> (
    Seq<usize>,
    Seq<bool>,
) {
    if order.len() == elements {
        (order, tied)
    } else {
        let m = missing(order, elements);
        (
            order + m,
            if order.len() == 0 {
                all_tied((m.len() - 1) as nat)
            } else {
                tied + seq![tied_last] + all_tied((m.len() - 1) as nat)
            },
        )
    }
}

/// The ranking that `remove_last` leaves: the lowest ranked group removed.
pub open spec fn without_last(order: Seq<usize>, tied: Seq<bool>) -> (Seq<usize>, Seq<bool>) {
    if order.len() == 0 {
        (order, tied)
    } else {
        (
            order.take(order.len() - last_len(tied)),
            if order.len() == last_len(tied) {
                Seq::empty()
            } else {
                tied.take(order.len() - 1 - last_len(tied))
            },
        )
    }
}

impl TiedRank {
    /// Makes the order rank all `elements`: the elements that are not
    /// ranked are added at the end, in increasing order and tied with each
    /// other. `tied_last` says whether they are tied with the lowest ranked
    /// element before them.
    pub fn make_complete(&mut self, tied_last: bool)
        requires
            old(self).valid(),
        ensures
            final(self).valid(),
            final(self).elements == old(self).elements,
            final(self).order@.len() == final(self).elements,
            old(self).order@.len() == old(self).elements ==> final(self).order@ == old(self).order@
                && final(self).tied@ == old(self).tied@,
            old(self).order@.len() != old(self).elements ==> final(self).order@ == old(self).order@ + missing(
                old(self).order@,
                old(self).elements as nat,
            ),
            forall|i: int| 0 <= i < old(self).tied@.len() ==> #[trigger] final(self).tied@[i] == old(self).tied@[i],
            old(self).order@.len() != old(self).elements && old(self).order@.len() > 0 ==> final(self).tied@[old(
                self,
            ).tied@.len() as int] == tied_last,
            old(self).order@.len() != old(self).elements ==> forall|i: int|
                (if old(self).order@.len() > 0 {
                    old(self).tied@.len() + 1
                } else {
                    0
                }) <= i < final(self).tied@.len() ==> #[trigger] final(self).tied@[i],
            (final(self).order@, final(self).tied@) == completed(
                old(self).order@,
                old(self).tied@,
                old(self).elements as nat,
                tied_last,
            ),
    {
        let empty_first = self.order.len() == 0;
        if self.order.len() == self.elements {
            return;
        }
        proof {
            lemma_distinct_below_len(self.order@, self.elements as nat);
        }
        let e = self.elements;
        let ghost o0 = self.order@;
        let mut seen = all_false(e);
        proof {
            lemma_count_set_none(seen@);
        }
        let n = self.order.len();
        let mut i: usize = 0;
        while i < n
            invariant
                n == self.order@.len(),
                o0 == self.order@,
                self.valid(),
                e == self.elements,
                seen@.len() == e,
                i <= n,
                count_set(seen@) == i,
                forall|x: int| 0 <= x < e ==> #[trigger] seen@[x] == o0.take(i as int).contains(x as usize),
            decreases n - i,
        {
            let x = self.order[i];
            proof {
                if seen@[x as int] {
                    let ta = o0.take(i as int);
                    let j = choose|j: int| 0 <= j < ta.len() && ta[j] == x;
                    assert(o0[j] != o0[i as int]);
                }
                lemma_count_set_update(seen@, x as int);
                let ta = o0.take(i as int);
                let tb = o0.take(i + 1);
                assert forall|y: int| 0 <= y < e implies #[trigger] seen@.update(x as int, true)[y] == tb.contains(
                    y as usize,
                ) by {
                    if y == x {
                        assert(tb[i as int] == x);
                    } else if tb.contains(y as usize) {
                        let j = choose|j: int| 0 <= j < tb.len() && tb[j] == y as usize;
                        assert(ta[j] == y as usize);
                    } else {
                        if ta.contains(y as usize) {
                            let j = choose|j: int| 0 <= j < ta.len() && ta[j] == y as usize;
                            assert(tb[j] == y as usize);
                        }
                    }
                }
            }
            seen.set(x, true);
            i += 1;
        }
        proof {
            assert(o0.take(n as int) =~= o0);
        }
        let mut k: usize = 0;
        while k < e
            invariant
                e == self.elements,
                o0.len() == n,
                n < e,
                self.tied@ == old(self).tied@,
                tie_shape(n as nat, self.tied@.len()),
                seen@.len() == e,
                count_set(seen@) == n,
                forall|x: int| 0 <= x < e ==> #[trigger] seen@[x] == o0.contains(x as usize),
                k <= e,
                self.order@ == o0 + missing(o0, k as nat),
                self.order@.len() == n + k - count_set(seen@.take(k as int)),
                count_set(seen@.take(k as int)) <= k,
            decreases e - k,
        {
            proof {
                lemma_missing_step(o0, k as nat);
                assert(seen@.take(k + 1).drop_last() =~= seen@.take(k as int));
            }
            if !seen[k] {
                self.order.push(k);
            }
            k += 1;
        }
        proof {
            assert(seen@.take(e as int) =~= seen@);
        }
        if !empty_first {
            self.tied.push(tied_last);
        }
        let ghost t1 = self.tied@;
        while self.tied.len() < e - 1
            invariant
                e == self.elements,
                self.order@ == o0 + missing(o0, e as nat),
                self.order@.len() == e,
                o0 == old(self).order@,
                e > 0,
                t1.len() <= e - 1,
                t1.len() <= self.tied@.len() <= e - 1,
                forall|i: int| 0 <= i < t1.len() ==> #[trigger] self.tied@[i] == t1[i],
                forall|i: int| t1.len() <= i < self.tied@.len() ==> #[trigger] self.tied@[i],
            decreases e - 1 - self.tied@.len(),
        {
            self.tied.push(true);
        }
        proof {
            lemma_missing_props(o0, e as nat);
            let m = missing(o0, e as nat);
            assert forall|a: int, b: int|
                0 <= a < self.order@.len() && 0 <= b < self.order@.len() && a != b implies self.order@[a] != self.order@[b] by {
                if a >= n && b >= n {
                    if a < b {
                        assert(m[a - n] < m[b - n]);
                    } else {
                        assert(m[b - n] < m[a - n]);
                    }
                } else if a >= n {
                    assert(!o0.contains(m[a - n]));
                    assert(o0[b] == self.order@[b]);
                } else if b >= n {
                    assert(!o0.contains(m[b - n]));
                    assert(o0[a] == self.order@[a]);
                }
            }
            assert forall|a: int| 0 <= a < self.order@.len() implies self.order@[a] < self.elements by {
                if a >= n {
                    assert(m[a - n] < e);
                }
            }
            assert(m.len() == e - n);
            let rest = all_tied((m.len() - 1) as nat);
            if n == 0 {
                assert(self.tied@ =~= rest);
            } else {
                assert(t1 =~= old(self).tied@ + seq![tied_last]);
                assert(self.tied@ =~= old(self).tied@ + seq![tied_last] + rest);
            }
        }
    }

    /// Ranks the elements by score, the highest first; equal scores are
    /// tied, and listed by index.
    pub fn from_scores(elements: usize, v: &[usize]) -> (res: TiedRank)
        requires
            v@.len() == elements,
        ensures
            res.valid(),
            res.elements == elements,
            is_total(res.order@),
            res.order@.len() == elements,
            forall|i: int, j: int| 0 <= i < j < elements ==> score_before(v@, res.order@[i], res.order@[j]),
            forall|i: int| 0 <= i < res.tied@.len() ==> #[trigger] res.tied@[i] == (v@[res.order@[i] as int]
                == v@[res.order@[i + 1] as int]),
    {
        let n = v.len();
        let mut order: Vec<usize> = Vec::new();
        let mut x: usize = 0;
        while x < n
            invariant
                n == v@.len(),
                x <= n,
                order@.len() == x,
                all_below(order@, x as nat),
                all_distinct(order@),
                forall|i: int, j: int| 0 <= i < j < x ==> score_before(v@, order@[i], order@[j]),
            decreases n - x,
        {
            let mut q: usize = 0;
            while q < x && v[order[q]] >= v[x]
                invariant
                    n == v@.len(),
                    x < n,
                    order@.len() == x,
                    all_below(order@, x as nat),
                    q <= x,
                    forall|i: int| 0 <= i < q ==> v@[#[trigger] order@[i] as int] >= v@[x as int],
                decreases x - q,
            {
                q += 1;
            }
            let ghost before = order@;
            order.insert(q, x);
            proof {
                assert forall|i: int| 0 <= i < x + 1 implies #[trigger] order@[i] < x + 1 by {
                    if i < q {
                        assert(order@[i] == before[i]);
                    } else if i > q {
                        assert(order@[i] == before[i - 1]);
                    }
                }
                assert forall|a: int, b: int| 0 <= a < x + 1 && 0 <= b < x + 1 && a != b implies order@[a] != order@[b] by {
                    if a != q && b != q {
                        let a0 = if a < q { a } else { a - 1 };
                        let b0 = if b < q { b } else { b - 1 };
                        assert(order@[a] == before[a0]);
                        assert(order@[b] == before[b0]);
                    } else if a == q {
                        let b0 = if b < q { b } else { b - 1 };
                        assert(order@[b] == before[b0]);
                    } else {
                        let a0 = if a < q { a } else { a - 1 };
                        assert(order@[a] == before[a0]);
                    }
                }
                assert forall|i: int, j: int| 0 <= i < j < x + 1 implies score_before(v@, order@[i], order@[j]) by {
                    if j < q {
                        assert(order@[i] == before[i] && order@[j] == before[j]);
                    } else if i > q {
                        assert(order@[i] == before[i - 1] && order@[j] == before[j - 1]);
                    } else if i < q && j > q {
                        assert(order@[i] == before[i] && order@[j] == before[j - 1]);
                    } else if i == q {
                        assert(order@[j] == before[j - 1]);
                        assert(v@[before[q as int] as int] < v@[x as int]);
                        if j - 1 > q {
                            assert(score_before(v@, before[q as int], before[j - 1]));
                        }
                    } else {
                        assert(order@[i] == before[i]);
                        assert(v@[before[i] as int] >= v@[x as int]);
                    }
                }
            }
            x += 1;
        }
        let tie_len = n.saturating_sub(1);
        let mut tied: Vec<bool> = Vec::new();
        let mut i: usize = 0;
        while i < tie_len
            invariant
                n == v@.len(),
                order@.len() == n,
                all_below(order@, n as nat),
                tie_len == if n == 0 { 0 } else { n - 1 },
                i <= tie_len,
                tied@.len() == i,
                forall|k: int| 0 <= k < i ==> #[trigger] tied@[k] == (v@[order@[k] as int] == v@[order@[k + 1] as int]),
            decreases tie_len - i,
        {
            tied.push(v[order[i]] == v[order[i + 1]]);
            i += 1;
        }
        TiedRank::new(elements, order, tied)
    }

    /// A random ranking of `elements`: fewer than `elements` distinct
    /// elements, in random order, with random ties.
    pub fn random(rng: &mut StdRng, elements: usize) -> (res: Self)
        ensures
            res.valid(),
            res.elements == elements,
            elements > 0 ==> res.order@.len() < elements,
            elements == 0 ==> res.order@.len() == 0,
    {
        if elements == 0 {
            return TiedRank::new_zero();
        }
        let order_len = random_below(rng, elements);
        let mut order = choose_multiple_below(rng, elements, order_len);
        let ghost o0 = order@;
        shuffle(rng, &mut order);
        proof {
            crate::strict::lemma_multiset_chain(o0, order@, elements as nat);
        }
        let tied_len = order_len.saturating_sub(1);
        let mut tied: Vec<bool> = Vec::new();
        let mut i: usize = 0;
        while i < tied_len
            invariant
                i <= tied_len,
                tied@.len() == i,
            decreases tied_len - i,
        {
            tied.push(random_bool(rng));
            i += 1;
        }
        TiedRank::new(elements, order, tied)
    }

    /// The elements of `order` in random order, with no ties.
    pub fn random_total(rng: &mut StdRng, elements: usize, order: &[usize]) -> (res: TiedRank)
        ensures
            res.elements == elements,
            res.order@.to_multiset() == order@.to_multiset(),
            res.order@.len() == order@.len(),
            tie_shape(res.order@.len(), res.tied@.len()),
            forall|i: int| 0 <= i < res.tied@.len() ==> !#[trigger] res.tied@[i],
    {
        let mut v = copy_usizes(order);
        shuffle(rng, &mut v);
        let tied_len = v.len().saturating_sub(1);
        let tied = all_false(tied_len);
        TiedRank::new(elements, v, tied)
    }
}


/// `perm` lists each position of `0..n` once.
pub open spec fn is_permutation(perm: Seq<int>, n: nat) -> bool {
    &&& perm.len() == n
    &&& forall|i: int| 0 <= i < n ==> 0 <= #[trigger] perm[i] < n
    &&& forall|i: int, j: int| 0 <= i < n && 0 <= j < n && i != j ==> perm[i] != perm[j]
}

/// `(a1, b1)` is `(a0, b0)` with its positions permuted by `perm`, sorted
/// by `b` from the lowest value, where equal values keep their first order.
pub open spec fn stable_sorted(perm: Seq<int>, a0: Seq<usize>, b0: Seq<usize>, a1: Seq<usize>, b1: Seq<usize>) -> bool {
    &&& is_permutation(perm, a0.len())
    &&& a1.len() == a0.len()
    &&& b1.len() == a0.len()
    &&& forall|i: int| 0 <= i < a0.len() ==> #[trigger] a1[i] == a0[perm[i]] && b1[i] == b0[perm[i]]
    &&& forall|i: int, j: int|
        0 <= i < j < a0.len() ==> b1[i] < b1[j] || (b1[i] == b1[j] && perm[i] < perm[j])
}

/// Sorts `a` and `b` together by the values of `b`, from the lowest, moving
/// each pair left past every pair with a larger value; pairs with equal
/// values keep their order.
pub(crate) fn sort_using(a: &mut [usize], b: &mut [usize])
    requires
        old(a)@.len() == old(b)@.len(),
    ensures
        exists|perm: Seq<int>| stable_sorted(perm, old(a)@, old(b)@, final(a)@, final(b)@),
{
    let n = b.len();
    let ghost a0 = a@;
    let ghost b0 = b@;
    let ghost mut perm: Seq<int> = Seq::new(n as nat, |k: int| k);
    let mut i: usize = 1;
    if n == 0 {
        proof {
            assert(stable_sorted(perm, a0, b0, a@, b@));
        }
        return;
    }
    while i < n
        invariant
            n == b@.len(),
            n == a@.len(),
            a0.len() == n,
            b0.len() == n,
            1 <= i <= n,
            is_permutation(perm, n as nat),
            forall|k: int| 0 <= k < n ==> #[trigger] a@[k] == a0[perm[k]],
            forall|k: int| 0 <= k < n ==> #[trigger] b@[k] == b0[perm[k]],
            forall|k: int| i <= k < n ==> #[trigger] perm[k] == k,
            forall|k: int| 0 <= k < i ==> #[trigger] perm[k] < i,
            forall|p: int, q: int| 0 <= p < q < i ==> b@[p] < b@[q] || (b@[p] == b@[q] && perm[p] < perm[q]),
        decreases n - i,
    {
        let mut j: usize = i;
        while j > 0 && b[j - 1] > b[j]
            invariant
                n == b@.len(),
                n == a@.len(),
                a0.len() == n,
                b0.len() == n,
                1 <= i < n,
                j <= i,
                is_permutation(perm, n as nat),
                forall|k: int| 0 <= k < n ==> #[trigger] a@[k] == a0[perm[k]],
                forall|k: int| 0 <= k < n ==> #[trigger] b@[k] == b0[perm[k]],
                forall|k: int| i < k < n ==> #[trigger] perm[k] == k,
                perm[j as int] == i,
                forall|k: int| 0 <= k <= i && k != j ==> #[trigger] perm[k] < i,
                forall|k: int| j < k <= i ==> b@[j as int] < #[trigger] b@[k],
                forall|p: int, q: int|
                    0 <= p < q <= i && p != j && q != j ==> b@[p] < b@[q] || (b@[p] == b@[q] && perm[p] < perm[q]),
            decreases j,
        {
            let ta = a[j];
            let tb = b[j];
            a[j] = a[j - 1];
            b[j] = b[j - 1];
            a[j - 1] = ta;
            b[j - 1] = tb;
            proof {
                let pj = perm[j as int];
                let pj1 = perm[j - 1];
                let old_perm = perm;
                perm = perm.update(j as int, pj1).update(j - 1, pj);
                assert forall|k: int| 0 <= k < n implies #[trigger] a@[k] == a0[perm[k]] by {
                    if k != j && k != j - 1 {
                        assert(perm[k] == old_perm[k]);
                    }
                }
                assert forall|k: int| 0 <= k < n implies #[trigger] b@[k] == b0[perm[k]] by {
                    if k != j && k != j - 1 {
                        assert(perm[k] == old_perm[k]);
                    }
                }
            }
            j -= 1;
        }
        proof {
            assert forall|p: int, q: int| 0 <= p < q < i + 1 implies b@[p] < b@[q] || (b@[p] == b@[q] && perm[p]
                < perm[q]) by {
                if p == j as int {
                } else if q == j as int {
                    if p < j - 1 {
                        assert(b@[p] < b@[j - 1] || (b@[p] == b@[j - 1] && perm[p] < perm[j - 1]));
                    }
                } else if p < j && q > j {
                    if j > 0 {
                        if p < j - 1 {
                            assert(b@[p] < b@[j - 1] || (b@[p] == b@[j - 1] && perm[p] < perm[j - 1]));
                        }
                    }
                }
            }
        }
        i += 1;
    }
    proof {
        assert(stable_sorted(perm, a0, b0, a@, b@));
    }
}

/// Whether each neighbouring pair of `order` holds the same element.
pub open spec fn same_neighbours(order: Seq<usize>, tied: Seq<bool>) -> bool {
    forall|i: int| 0 <= i < tied.len() ==> #[trigger] tied[i] == (order[i] == order[i + 1])
}

impl TiedRank {
    /// Sorts `order` by `score`, from the lowest, and ties each neighbouring
    /// pair of `order` that holds the same element. `score` ends up sorted
    /// along with it.
    pub fn from_score(elements: usize, order: Vec<usize>, score: &mut [usize]) -> (res: TiedRank)
        requires
            order@.len() > 0,
            old(score)@.len() == order@.len(),
        ensures
            res.elements == elements,
            exists|perm: Seq<int>| stable_sorted(perm, order@, old(score)@, res.order@, final(score)@),
            res.tied@.len() + 1 == res.order@.len(),
            same_neighbours(res.order@, res.tied@),
    {
        let mut order = order;
        let l = order.len();
        sort_using(order.as_mut_slice(), score);
        let mut tied: Vec<bool> = Vec::new();
        let mut i: usize = 0;
        while i < l - 1
            invariant
                l == order@.len(),
                l > 0,
                i <= l - 1,
                tied@.len() == i,
                forall|k: int| 0 <= k < i ==> #[trigger] tied@[k] == (order@[k] == order@[k + 1]),
            decreases l - 1 - i,
        {
            tied.push(order[i] == order[i + 1]);
            i += 1;
        }
        TiedRank::new(elements, order, tied)
    }
}


/// Positions `p` and `q` lie in one group.
pub open spec fn same_group(tied: Seq<bool>, p: int, q: int) -> bool {
    group_index(tied, p) == group_index(tied, q)
}

/// Positions from `lo` up to `hi` (inclusive) lie in one group when every
/// pair of neighbours between them is tied.
proof fn lemma_same_group_run(tied: Seq<bool>, lo: int, hi: int)
    requires
        0 <= lo <= hi,
        forall|k: int| lo <= k < hi ==> #[trigger] tied[k],
    ensures
        forall|p: int| lo <= p <= hi ==> #[trigger] group_index(tied, p) == group_index(tied, lo),
    decreases hi - lo,
{
    if lo < hi {
        lemma_same_group_run(tied, lo, hi - 1);
        assert(tied[hi - 1]);
        assert(group_index(tied, hi) == group_index(tied, hi - 1));
    }
}

/// `v` is held by some position of `order` in the group of position `p`.
pub open spec fn in_group_of(order: Seq<usize>, tied: Seq<bool>, p: int, v: usize) -> bool {
    exists|q: int| 0 <= q < order.len() && same_group(tied, p, q) && order[q] == v
}

impl TiedRank {
    /// Sorts the elements of each group in increasing order; the groups and
    /// tie flags stay as they are.
    #[verifier::rlimit(50)]
    #[verifier::spinoff_prover]
    pub fn normalize(&mut self)
        requires
            tie_shape(old(self).order@.len(), old(self).tied@.len()),
        ensures
            final(self).elements == old(self).elements,
            final(self).tied@ == old(self).tied@,
            final(self).order@.len() == old(self).order@.len(),
            forall|i: int| 0 <= i < old(self).tied@.len() && #[trigger] old(self).tied@[i] ==> final(self).order@[i]
                <= final(self).order@[i + 1],
            forall|p: int| 0 <= p < old(self).order@.len() ==> #[trigger] in_group_of(
                old(self).order@,
                old(self).tied@,
                p,
                final(self).order@[p],
            ),
            forall|q: int| 0 <= q < old(self).order@.len() ==> #[trigger] in_group_of(
                final(self).order@,
                old(self).tied@,
                q,
                old(self).order@[q],
            ),
            normalized(old(self).order@, old(self).tied@, final(self).order@),
            all_distinct(old(self).order@) ==> all_distinct(final(self).order@),
    {
        let max = self.order.len();
        if max < 2 {
            proof {
                assert forall|p: int| 0 <= p < max implies #[trigger] in_group_of(self.order@, self.tied@, p, self.order@[p]) by {
                    assert(same_group(self.tied@, p, p) && self.order@[p] == self.order@[p]);
                }
            }
            return;
        }
        let ghost o0 = self.order@;
        let ghost t0 = self.tied@;
        let mut start: usize = 0;
        while start < max
            invariant
                max == self.order@.len(),
                max == o0.len(),
                t0 == self.tied@,
                t0 == old(self).tied@,
                o0 == old(self).order@,
                self.elements == old(self).elements,
                t0.len() + 1 == max,
                start <= max,
                start == 0 || start == max || !t0[start - 1],
                forall|k: int| start <= k < max ==> #[trigger] self.order@[k] == o0[k],
                forall|i: int| 0 <= i && i + 1 < start && #[trigger] t0[i] ==> self.order@[i] <= self.order@[i + 1],
                forall|p: int| 0 <= p < start ==> #[trigger] in_group_of(o0, t0, p, self.order@[p]),
                forall|q: int| 0 <= q < start ==> #[trigger] in_group_of(self.order@, t0, q, o0[q]),
                all_distinct(o0) ==> all_distinct(self.order@),
            decreases max - start,
        {
            let k = count_leading_true(self.tied.as_slice(), start);
            let end = start + 1 + k;
            proof {
                lemma_lead_true(t0.skip(start as int));
                assert forall|x: int| start <= x < end - 1 implies #[trigger] t0[x] by {
                    assert(t0.skip(start as int)[x - start]);
                }
                if end < max {
                    assert(!t0.skip(start as int)[k as int]);
                }
                lemma_same_group_run(t0, start as int, end - 1);
            }
            let mut g = copy_usizes(&self.order.as_slice()[start..end]);
            let mut keys = copy_usizes(&self.order.as_slice()[start..end]);
            let ghost g0 = g@;
            sort_using(g.as_mut_slice(), keys.as_mut_slice());
            let ghost perm = choose|perm: Seq<int>| stable_sorted(perm, g0, g0, g@, keys@);
            let ghost before = self.order@;
            let mut x: usize = 0;
            while x < end - start
                invariant
                    max == self.order@.len(),
                    before.len() == max,
                    start < end <= max,
                    g@.len() == end - start,
                    x <= end - start,
                    forall|y: int| start <= y < start + x ==> #[trigger] self.order@[y] == g@[y - start],
                    forall|y: int| 0 <= y < max && (y < start || y >= start + x) ==> #[trigger] self.order@[y] == before[y],
                    t0 == self.tied@,
                    self.elements == old(self).elements,
                decreases end - start - x,
            {
                self.order.set(start + x, g[x]);
                x += 1;
            }
            proof {
                assert forall|y: int| 0 <= y < g@.len() implies #[trigger] g@[y] == keys@[y] by {
                    assert(g@[y] == g0[perm[y]] && keys@[y] == g0[perm[y]]);
                }
                assert forall|i: int| 0 <= i && i + 1 < end && #[trigger] t0[i] implies self.order@[i] <= self.order@[i + 1] by {
                    if i + 1 < start {
                        assert(self.order@[i] == before[i]);
                        assert(self.order@[i + 1] == before[i + 1]);
                    } else if i + 1 == start {
                    } else {
                        assert(self.order@[i] == g@[i - start]);
                        assert(self.order@[i + 1] == g@[i + 1 - start]);
                    }
                }
                assert forall|p: int| 0 <= p < end implies #[trigger] in_group_of(o0, t0, p, self.order@[p]) by {
                    if p < start {
                        assert(self.order@[p] == before[p]);
                        assert(in_group_of(o0, t0, p, before[p]));
                    } else {
                        let q = start + perm[p - start];
                        assert(self.order@[p] == g@[p - start]);
                        assert(g@[p - start] == g0[perm[p - start]]);
                        assert(g0[perm[p - start]] == o0[q]);
                        assert(same_group(t0, p, q) && o0[q] == self.order@[p]);
                    }
                }
                assert forall|q: int| 0 <= q < end implies #[trigger] in_group_of(self.order@, t0, q, o0[q]) by {
                    if q < start {
                        assert(in_group_of(before, t0, q, o0[q]));
                        let p = choose|p: int| 0 <= p < before.len() && same_group(t0, q, p) && before[p] == o0[q];
                        if p >= start {
                            lemma_group_index_mono(t0, start as int, p);
                            lemma_group_index_mono(t0, q, start as int - 1);
                            assert(!t0[start - 1]);
                            assert(group_index(t0, start as int) == group_index(t0, start - 1) + 1);
                        }
                        assert(self.order@[p] == before[p]);
                        assert(same_group(t0, q, p) && self.order@[p] == o0[q]);
                    } else {
                        lemma_permutation_onto(perm, g@.len());
                        assert(reaches(perm, g@.len(), q - start));
                        let y = choose|y: int| 0 <= y < g@.len() && perm[y] == q - start;
                        let p = start + y;
                        assert(self.order@[p] == g@[y]);
                        assert(g@[y] == g0[perm[y]]);
                        assert(same_group(t0, q, p) && self.order@[p] == o0[q]);
                    }
                }
                if all_distinct(o0) {
                    assert(g0 =~= o0.subrange(start as int, end as int));
                    assert forall|a: int, b: int|
                        0 <= a < max && 0 <= b < max && a != b implies self.order@[a] != self.order@[b] by {
                        let in_a = start <= a < end;
                        let in_b = start <= b < end;
                        if in_a && in_b {
                            assert(self.order@[a] == g@[a - start]);
                            assert(self.order@[b] == g@[b - start]);
                            assert(g@[a - start] == g0[perm[a - start]]);
                            assert(g@[b - start] == g0[perm[b - start]]);
                            assert(perm[a - start] != perm[b - start]);
                        } else if in_a || in_b {
                            let (i, o) = if in_a {
                                (a, b)
                            } else {
                                (b, a)
                            };
                            let src = start + perm[i - start];
                            assert(self.order@[i] == g@[i - start]);
                            assert(g@[i - start] == g0[perm[i - start]]);
                            assert(self.order@[i] == o0[src]);
                            assert(self.order@[o] == before[o]);
                            if o >= end {
                                assert(before[o] == o0[o]);
                            } else {
                                assert(in_group_of(o0, t0, o, before[o]));
                                let r = choose|r: int| 0 <= r < o0.len() && same_group(t0, o, r) && o0[r] == before[o];
                                if r >= start {
                                    lemma_group_index_mono(t0, start as int, r);
                                    lemma_group_index_mono(t0, o, start as int - 1);
                                    assert(!t0[start - 1]);
                                    assert(group_index(t0, start as int) == group_index(t0, start - 1) + 1);
                                }
                            }
                        } else {
                            assert(self.order@[a] == before[a]);
                            assert(self.order@[b] == before[b]);
                        }
                    }
                }
            }
            start = end;
        }
    }
}

/// Some position of `0..n` that `perm` sends to `v`.
pub open spec fn reaches(perm: Seq<int>, n: nat, v: int) -> bool {
    exists|y: int| 0 <= y < n && perm[y] == v
}

/// A permutation of `0..n` reaches every position.
pub proof fn lemma_permutation_onto(perm: Seq<int>, n: nat)
    requires
        is_permutation(perm, n),
    ensures
        forall|v: int| 0 <= v < n ==> #[trigger] reaches(perm, n, v),
{
    let f = |i: int| perm[i];
    let dom = vstd::set_lib::set_int_range(0, n as int);
    let img = dom.map(f);
    vstd::set_lib::lemma_int_range(0, n as int);
    assert forall|a: int, b: int| dom.contains(a) && dom.contains(b) && f(a) == f(b) implies a == b by {
        if a != b {
            assert(perm[a] != perm[b]);
        }
    }
    assert(vstd::relations::injective_on(f, dom));
    vstd::set_lib::lemma_map_size(dom, img, f);
    assert forall|x: int| img.contains(x) implies dom.contains(x) by {
        let i = choose|i: int| dom.contains(i) && f(i) == x;
        assert(0 <= perm[i] < n);
    }
    vstd::set_lib::lemma_subset_equality(img, dom);
    assert forall|v: int| 0 <= v < n implies #[trigger] reaches(perm, n, v) by {
        assert(dom.contains(v));
        assert(img.contains(v));
        let i = choose|i: int| dom.contains(i) && f(i) == v;
        assert(0 <= i < n && perm[i] == v);
    }
}


/// Two sequences without repeats that hold the same values, each sorted by
/// the same strict order `before`, are equal (their first `i` positions
/// being known to agree).
pub proof fn lemma_sorted_unique<A>(o1: Seq<A>, o2: Seq<A>, before: spec_fn(A, A) -> bool, i: int)
    requires
        o1.len() == o2.len(),
        0 <= i <= o1.len(),
        o1.no_duplicates(),
        o2.no_duplicates(),
        forall|k: int| 0 <= k < o1.len() ==> o2.contains(#[trigger] o1[k]),
        forall|k: int| 0 <= k < o2.len() ==> o1.contains(#[trigger] o2[k]),
        forall|a: int, b: int| 0 <= a < b < o1.len() ==> before(o1[a], o1[b]),
        forall|a: int, b: int| 0 <= a < b < o2.len() ==> before(o2[a], o2[b]),
        forall|x: A, y: A| #[trigger] before(x, y) ==> !before(y, x),
        forall|j: int| 0 <= j < i ==> o1[j] == o2[j],
    ensures
        o1 == o2,
    decreases o1.len() - i,
{
    if i == o1.len() {
        assert(o1 =~= o2);
    } else {
        let x = o1[i];
        let y = o2[i];
        if x != y {
            assert(o1.contains(y));
            let p = choose|p: int| 0 <= p < o1.len() && o1[p] == y;
            assert(o2.contains(x));
            let q = choose|q: int| 0 <= q < o2.len() && o2[q] == x;
            if p < i {
                assert(o2[p] == y);
            }
            if q < i {
                assert(o1[q] == x);
            }
            assert(before(o1[i], o1[p]));
            assert(before(o2[i], o2[q]));
        }
        lemma_sorted_unique(o1, o2, before, i + 1);
    }
}

/// A stable sort has one outcome.
pub proof fn lemma_stable_sorted_unique(
    p1: Seq<int>,
    p2: Seq<int>,
    a0: Seq<usize>,
    b0: Seq<usize>,
    a1: Seq<usize>,
    b1: Seq<usize>,
    a2: Seq<usize>,
    b2: Seq<usize>,
)
    requires
        stable_sorted(p1, a0, b0, a1, b1),
        stable_sorted(p2, a0, b0, a2, b2),
    ensures
        a1 == a2,
        b1 == b2,
{
    let n = a0.len();
    let before = |x: int, y: int| b0[x] < b0[y] || (b0[x] == b0[y] && x < y);
    lemma_permutation_onto(p1, n);
    lemma_permutation_onto(p2, n);
    assert forall|k: int| 0 <= k < n implies p2.contains(#[trigger] p1[k]) by {
        assert(reaches(p2, n, p1[k]));
    }
    assert forall|k: int| 0 <= k < n implies p1.contains(#[trigger] p2[k]) by {
        assert(reaches(p1, n, p2[k]));
    }
    assert forall|a: int, b: int| 0 <= a < b < n implies before(p1[a], p1[b]) by {
        assert(a1[a] == a0[p1[a]] && a1[b] == a0[p1[b]]);
        assert(b1[a] == b0[p1[a]] && b1[b] == b0[p1[b]]);
    }
    assert forall|a: int, b: int| 0 <= a < b < n implies before(p2[a], p2[b]) by {
        assert(a2[a] == a0[p2[a]] && a2[b] == a0[p2[b]]);
        assert(b2[a] == b0[p2[a]] && b2[b] == b0[p2[b]]);
    }
    lemma_sorted_unique(p1, p2, before, 0);
    assert forall|i: int| 0 <= i < n implies a1[i] == a2[i] && b1[i] == b2[i] by {
        assert(a1[i] == a0[p1[i]] && a2[i] == a0[p2[i]]);
    }
    assert(a1 =~= a2);
    assert(b1 =~= b2);
}

impl TiedRank {
    /// Replaces the group on the threshold of the top `n` (see
    /// `top_n_threshold`) with `order` and `tied`.
    pub(crate) fn set_threshold(&mut self, n: usize, order: &[usize], tied: &[bool])
        requires
            tie_shape(old(self).order@.len(), old(self).tied@.len()),
            1 <= n <= old(self).order@.len(),
            order@.len() == tie_end(old(self).tied@, n as int) - (n - 1),
            tied@.len() + 1 == order@.len(),
        ensures
            final(self).elements == old(self).elements,
            final(self).order@ == old(self).order@.take(n - 1) + order@ + old(self).order@.skip(
                tie_end(old(self).tied@, n as int),
            ),
            final(self).tied@ == old(self).tied@.take(n - 1) + tied@ + old(self).tied@.skip(
                tie_end(old(self).tied@, n as int) - 1,
            ),
            final(self).order@.len() == old(self).order@.len(),
            final(self).tied@.len() == old(self).tied@.len(),
    {
        proof {
            lemma_lead_true(old(self).tied@.skip(n - 1));
        }
        let m = order.len();
        let _ = self.order.len();
        let _ = self.tied.len();
        let mut k: usize = 0;
        while k < m
            invariant
                m == order@.len(),
                k <= m,
                1 <= n,
                n - 1 + m <= self.order@.len(),
                self.order@.len() <= usize::MAX,
                self.order@.len() == old(self).order@.len(),
                forall|i: int| 0 <= i < self.order@.len() ==> #[trigger] self.order@[i] == if n - 1 <= i < n - 1 + k {
                    order@[i - (n - 1)]
                } else {
                    old(self).order@[i]
                },
                self.tied@ == old(self).tied@,
                self.elements == old(self).elements,
            decreases m - k,
        {
            self.order.set(n - 1 + k, order[k]);
            k += 1;
        }
        let mt = tied.len();
        let ghost o1 = self.order@;
        let mut k: usize = 0;
        while k < mt
            invariant
                mt == tied@.len(),
                k <= mt,
                1 <= n,
                n - 1 + mt <= self.tied@.len(),
                self.tied@.len() <= usize::MAX,
                self.order@ == o1,
                self.tied@.len() == old(self).tied@.len(),
                forall|i: int| 0 <= i < self.tied@.len() ==> #[trigger] self.tied@[i] == if n - 1 <= i < n - 1 + k {
                    tied@[i - (n - 1)]
                } else {
                    old(self).tied@[i]
                },
                self.elements == old(self).elements,
            decreases mt - k,
        {
            self.tied.set(n - 1 + k, tied[k]);
            k += 1;
        }
        proof {
            assert(o1 =~= old(self).order@.take(n - 1) + order@ + old(self).order@.skip(
                tie_end(old(self).tied@, n as int),
            ));
            assert(self.tied@ =~= old(self).tied@.take(n - 1) + tied@ + old(self).tied@.skip(
                tie_end(old(self).tied@, n as int) - 1,
            ));
        }
    }
}

} // verus!

verus! {

/// Reversing a ranking twice gives it back.
pub proof fn reverse_involution(order: Seq<usize>, tied: Seq<bool>)
    ensures
        order.reverse().reverse() == order,
        tied.reverse().reverse() == tied,
{
    assert(order.reverse().reverse() =~= order);
    assert(tied.reverse().reverse() =~= tied);
}

/// The groups of a ranking, one after the other, are the ranking.
pub proof fn groups_cover(order: Seq<usize>, tied: Seq<bool>)
    requires
        tie_shape(order.len(), tied.len()),
    ensures
        groups(order, tied).flatten() == order,
    decreases order.len(),
{
    if order.len() > 0 {
        lemma_lead_true(tied);
        let w = winner_len(order, tied);
        let rest_o = order.skip(w as int);
        let rest_t = rest_tied(order, tied);
        if w < order.len() {
            assert(rest_t.len() + 1 == rest_o.len());
        }
        groups_cover(rest_o, rest_t);
        let gs = groups(order, tied);
        assert(gs[0] == order.take(w as int));
        assert(gs.drop_first() =~= groups(rest_o, rest_t));
        assert(order.take(w as int) + rest_o =~= order);
    }
}

/// Where the top `n` ends is the same within the top `n`.
proof fn lemma_tie_end_take(tied: Seq<bool>, n: int)
    requires
        1 <= n <= tied.len() + 1,
    ensures
        n <= tie_end(tied, n) <= tied.len() + 1,
        tie_end(tied.take(tie_end(tied, n) - 1), n) == tie_end(tied, n),
{
    let s = tied.skip(n - 1);
    lemma_lead_true(s);
    let l = lead_true(s);
    let e = tie_end(tied, n);
    let t2 = tied.take(e - 1);
    let s2 = t2.skip(n - 1);
    assert(s2 =~= s.take(l as int));
    assert forall|i: int| 0 <= i < l implies #[trigger] s2[i] by {
        assert(s[i]);
    }
    lemma_lead_true_is(s2, l as int);
}

/// Taking the top `n` of the top `n` changes nothing.
pub proof fn top_idempotent(order: Seq<usize>, tied: Seq<bool>, n: int)
    requires
        tie_shape(order.len(), tied.len()),
        0 <= n <= order.len(),
    ensures
        top_part(top_part(order, tied, n).0, top_part(order, tied, n).1, n) == top_part(order, tied, n),
{
    if n > 0 {
        lemma_tie_end_take(tied, n);
        let e = tie_end(tied, n);
        assert(order.take(e).take(e) =~= order.take(e));
        assert(tied.take(e - 1).take(e - 1) =~= tied.take(e - 1));
    }
}

/// Keeping the top `n` leaves the group on the threshold of the top `n`
/// as it was.
pub proof fn keep_top_threshold(order: Seq<usize>, tied: Seq<bool>, n: int)
    requires
        tie_shape(order.len(), tied.len()),
        0 <= n <= order.len(),
    ensures
        threshold_part(top_part(order, tied, n).0, top_part(order, tied, n).1, n) == threshold_part(order, tied, n),
{
    if n > 0 {
        lemma_tie_end_take(tied, n);
        let e = tie_end(tied, n);
        assert(order.take(e).subrange(n - 1, e) =~= order.subrange(n - 1, e));
        assert(tied.take(e - 1).subrange(n - 1, e - 1) =~= tied.subrange(n - 1, e - 1));
    }
}

} // verus!

verus! {

/// Two rankings with the same tie flags whose groups hold the same
/// elements: they differ at most in the order within their groups.
pub open spec fn same_groups(o1: Seq<usize>, t1: Seq<bool>, o2: Seq<usize>, t2: Seq<bool>) -> bool {
    &&& t1 == t2
    &&& o1.len() == o2.len()
    &&& forall|p: int| 0 <= p < o1.len() ==> #[trigger] in_group_of(o1, t1, p, o2[p])
    &&& forall|p: int| 0 <= p < o2.len() ==> #[trigger] in_group_of(o2, t2, p, o1[p])
}

/// Every number below `k` that `order` does not list is missing.
proof fn lemma_missing_has(order: Seq<usize>, k: nat)
    requires
        k <= usize::MAX + 1,
    ensures
        forall|x: usize| x < k && !order.contains(x) ==> #[trigger] missing(order, k).contains(x),
    decreases k,
{
    if k > 0 {
        let k1 = (k - 1) as nat;
        lemma_missing_has(order, k1);
        lemma_missing_step(order, k1);
        let m1 = missing(order, k1);
        assert forall|x: usize| x < k && !order.contains(x) implies #[trigger] missing(order, k).contains(x) by {
            if x == k1 {
                assert(missing(order, k) == m1.push(x));
                assert(m1.push(x)[m1.len() as int] == x);
            } else {
                assert(m1.contains(x));
                let j = choose|j: int| 0 <= j < m1.len() && m1[j] == x;
                assert(missing(order, k)[j] == x);
            }
        }
    }
}

/// Of `0..elements`, all but the listed ones are missing.
proof fn lemma_missing_len(order: Seq<usize>, elements: nat)
    requires
        all_below(order, elements),
        all_distinct(order),
        elements <= usize::MAX,
    ensures
        missing(order, elements).len() + order.len() == elements,
{
    let m = missing(order, elements);
    lemma_missing_props(order, elements);
    lemma_missing_has(order, elements);
    let below = crate::ranks::below(elements);
    crate::ranks::lemma_below_len(elements);
    vstd::seq_lib::seq_to_set_is_finite(order);
    vstd::seq_lib::seq_to_set_is_finite(m);
    order.unique_seq_to_set();
    assert(m.no_duplicates()) by {
        assert forall|i: int, j: int| 0 <= i < m.len() && 0 <= j < m.len() && i != j implies m[i] != m[j] by {
            if i < j {
                assert(m[i] < m[j]);
            } else {
                assert(m[j] < m[i]);
            }
        }
    }
    m.unique_seq_to_set();
    assert(m.to_set() =~= below.difference(order.to_set())) by {
        assert forall|x: usize| m.to_set().contains(x) implies below.difference(order.to_set()).contains(x) by {
            let j = choose|j: int| 0 <= j < m.len() && m[j] == x;
            assert(!order.contains(m[j]));
        }
        assert forall|x: usize| below.difference(order.to_set()).contains(x) implies m.to_set().contains(x) by {
            assert(m.contains(x));
        }
    }
    assert(below.intersect(order.to_set()) =~= order.to_set());
    vstd::set_lib::lemma_set_difference_len(below, order.to_set());
}

/// Completing a ranking lists every element once.
proof fn lemma_completed(order: Seq<usize>, tied: Seq<bool>, elements: nat, tied_last: bool)
    requires
        tie_shape(order.len(), tied.len()),
        all_below(order, elements),
        all_distinct(order),
        elements <= usize::MAX,
    ensures
        completed(order, tied, elements, tied_last).0.len() == elements,
        all_below(completed(order, tied, elements, tied_last).0, elements),
        all_distinct(completed(order, tied, elements, tied_last).0),
        tie_shape(elements, completed(order, tied, elements, tied_last).1.len()),
{
    lemma_distinct_below_len(order, elements);
    if order.len() != elements {
        let n = order.len();
        let m = missing(order, elements);
        lemma_missing_len(order, elements);
        lemma_missing_props(order, elements);
        let c = order + m;
        assert forall|a: int, b: int| 0 <= a < c.len() && 0 <= b < c.len() && a != b implies c[a] != c[b] by {
            if a >= n && b >= n {
                if a < b {
                    assert(m[a - n] < m[b - n]);
                } else {
                    assert(m[b - n] < m[a - n]);
                }
            } else if a >= n {
                assert(!order.contains(m[a - n]));
                assert(order[b] == c[b]);
            } else if b >= n {
                assert(!order.contains(m[b - n]));
                assert(order[a] == c[a]);
            }
        }
        assert forall|a: int| 0 <= a < c.len() implies c[a] < elements by {
            if a >= n {
                assert(m[a - n] < elements);
            }
        }
    }
}

/// Completing a ranking with the missing elements tied to its last group,
/// removing that last group, and completing again with the elements put in
/// a group of their own gives the same ranking up to the order within its
/// groups: the same ties, and the same elements in every group.
pub proof fn remove_last_complete(elements: usize, order: Seq<usize>, tied: Seq<bool>)
    requires
        tie_shape(order.len(), tied.len()),
        all_below(order, elements as nat),
        all_distinct(order),
    ensures
        ({
            let b = completed(order, tied, elements as nat, true);
            let w = without_last(b.0, b.1);
            let a = completed(w.0, w.1, elements as nat, false);
            same_groups(b.0, b.1, a.0, a.1)
        }),
{
    let e = elements as nat;
    let b = completed(order, tied, e, true);
    let ob = b.0;
    let tb = b.1;
    lemma_completed(order, tied, e, true);
    let w = without_last(ob, tb);
    let a = completed(w.0, w.1, e, false);
    if e == 0 {
        assert(ob.len() == 0);
        assert(a.0 =~= ob);
        assert(a.1 =~= tb);
    } else {
        let r = tb.reverse();
        lemma_lead_true(r);
        let l = last_len(tb);
        let s = e - l;
        assert(0 <= s < e);
        assert(w.0 == ob.take(s));
        let o2 = ob.take(s);
        assert(all_below(o2, e));
        assert(all_distinct(o2));
        lemma_missing_len(o2, e);
        lemma_missing_props(o2, e);
        lemma_missing_has(o2, e);
        let m2 = missing(o2, e);
        assert(m2.len() == l);
        assert(a.0 == o2 + m2);
        assert forall|j: int| s <= j < e - 1 implies #[trigger] tb[j] by {
            assert(r[e - 2 - j]);
        }
        if s > 0 {
            assert(!r[l - 1]);
            assert(!tb[s - 1]);
            assert(a.1 =~= tb);
        } else {
            assert(a.1 =~= tb);
        }
        lemma_same_group_run(tb, s, e - 1);
        crate::ranks::lemma_total_holds_all(ob, e);
        assert forall|p: int| 0 <= p < ob.len() implies #[trigger] in_group_of(ob, tb, p, a.0[p]) by {
            if p < s {
                assert(a.0[p] == ob[p]);
                assert(same_group(tb, p, p));
            } else {
                let x = m2[p - s];
                assert(a.0[p] == x);
                assert(!o2.contains(x));
                assert(ob.contains(x));
                let q = choose|q: int| 0 <= q < ob.len() && ob[q] == x;
                if q < s {
                    assert(o2[q] == x);
                }
                assert(group_index(tb, p) == group_index(tb, s));
                assert(group_index(tb, q) == group_index(tb, s));
                assert(same_group(tb, p, q));
            }
        }
        assert forall|p: int| 0 <= p < a.0.len() implies #[trigger] in_group_of(a.0, a.1, p, ob[p]) by {
            if p < s {
                assert(a.0[p] == ob[p]);
                assert(same_group(tb, p, p));
            } else {
                let x = ob[p];
                assert(!o2.contains(x)) by {
                    if o2.contains(x) {
                        let q = choose|q: int| 0 <= q < o2.len() && o2[q] == x;
                        assert(ob[q] == x);
                    }
                }
                assert(m2.contains(x));
                let j = choose|j: int| 0 <= j < m2.len() && m2[j] == x;
                let q = s + j;
                assert(a.0[q] == x);
                assert(group_index(tb, p) == group_index(tb, s));
                assert(group_index(tb, q) == group_index(tb, s));
                assert(same_group(a.1, p, q));
            }
        }
    }
}

} // verus!

verus! {

/// `n` is what `normalize` makes of `order` with tie flags `tied`: within
/// each group the elements are sorted, and each group holds the elements it
/// held before.
pub open spec fn normalized(order: Seq<usize>, tied: Seq<bool>, n: Seq<usize>) -> bool {
    &&& n.len() == order.len()
    &&& forall|i: int| 0 <= i < tied.len() && #[trigger] tied[i] ==> n[i] <= n[i + 1]
    &&& forall|p: int| 0 <= p < order.len() ==> #[trigger] in_group_of(order, tied, p, n[p])
    &&& forall|q: int| 0 <= q < order.len() ==> #[trigger] in_group_of(n, tied, q, order[q])
}

/// Between two positions of one group every neighbour is tied.
proof fn lemma_group_tied(tied: Seq<bool>, p: int, q: int)
    requires
        0 <= p <= q <= tied.len(),
        same_group(tied, p, q),
    ensures
        forall|i: int| p <= i < q ==> #[trigger] tied[i],
{
    assert forall|i: int| p <= i < q implies #[trigger] tied[i] by {
        if !tied[i] {
            lemma_group_index_mono(tied, p, i);
            lemma_group_index_mono(tied, i + 1, q);
            assert(group_index(tied, i + 1) == group_index(tied, i) + 1);
        }
    }
}

/// Along a run of tied neighbours, sorted neighbours make a sorted run.
proof fn lemma_sorted_run(n: Seq<usize>, tied: Seq<bool>, p: int, q: int)
    requires
        0 <= p <= q < n.len(),
        tied.len() + 1 == n.len(),
        forall|i: int| 0 <= i < tied.len() && #[trigger] tied[i] ==> n[i] <= n[i + 1],
        forall|i: int| p <= i < q ==> #[trigger] tied[i],
    ensures
        n[p] <= n[q],
    decreases q - p,
{
    if p < q {
        lemma_sorted_run(n, tied, p, q - 1);
        assert(tied[q - 1]);
    }
}

/// Sorting the groups of two rankings that differ only in the order within
/// their groups gives the same ranking.
pub proof fn lemma_normalized_unique(x: Seq<usize>, y: Seq<usize>, tied: Seq<bool>, nx: Seq<usize>, ny: Seq<usize>)
    requires
        x.len() > 0,
        tie_shape(x.len(), tied.len()),
        same_groups(x, tied, y, tied),
        normalized(x, tied, nx),
        normalized(y, tied, ny),
        all_distinct(nx),
        all_distinct(ny),
    ensures
        nx == ny,
{
    lemma_normalized_prefix(x, y, tied, nx, ny, x.len() as int);
    assert(nx =~= ny);
}

proof fn lemma_normalized_prefix(x: Seq<usize>, y: Seq<usize>, tied: Seq<bool>, nx: Seq<usize>, ny: Seq<usize>, k: int)
    requires
        x.len() > 0,
        tie_shape(x.len(), tied.len()),
        same_groups(x, tied, y, tied),
        normalized(x, tied, nx),
        normalized(y, tied, ny),
        all_distinct(nx),
        all_distinct(ny),
        0 <= k <= x.len(),
    ensures
        forall|j: int| 0 <= j < k ==> #[trigger] nx[j] == ny[j],
    decreases k,
{
    if k > 0 {
        let p = k - 1;
        lemma_normalized_prefix(x, y, tied, nx, ny, p);
        let len = x.len() as int;
        // where `nx[p]` sits in `ny`
        assert(in_group_of(x, tied, p, nx[p]));
        let r = choose|r: int| 0 <= r < len && same_group(tied, p, r) && x[r] == nx[p];
        assert(in_group_of(y, tied, r, x[r]));
        let r2 = choose|r2: int| 0 <= r2 < len && same_group(tied, r, r2) && y[r2] == x[r];
        assert(in_group_of(ny, tied, r2, y[r2]));
        let q = choose|q: int| 0 <= q < len && same_group(tied, r2, q) && ny[q] == y[r2];
        assert(same_group(tied, p, q));
        // where `ny[p]` sits in `nx`
        assert(in_group_of(y, tied, p, ny[p]));
        let s = choose|s: int| 0 <= s < len && same_group(tied, p, s) && y[s] == ny[p];
        assert(in_group_of(x, tied, s, y[s]));
        let s2 = choose|s2: int| 0 <= s2 < len && same_group(tied, s, s2) && x[s2] == y[s];
        assert(in_group_of(nx, tied, s2, x[s2]));
        let q2 = choose|q2: int| 0 <= q2 < len && same_group(tied, s2, q2) && nx[q2] == x[s2];
        assert(same_group(tied, p, q2));
        if nx[p] != ny[p] {
            if q < p {
                assert(nx[q] == ny[q]);
                assert(false);
            }
            if q2 < p {
                assert(nx[q2] == ny[q2]);
                assert(false);
            }
            assert(q > p);
            assert(q2 > p);
            lemma_group_tied(tied, p, q);
            lemma_sorted_run(ny, tied, p, q);
            lemma_group_tied(tied, p, q2);
            lemma_sorted_run(nx, tied, p, q2);
            assert(false);
        }
    }
}

} // verus!

verus! {

/// Completing a ranking with the missing elements tied to its last group,
/// removing that last group, completing again with the elements in a group
/// of their own, and sorting within groups gives what completing and
/// sorting within groups gives.
pub proof fn remove_last_complete_normalized(
    elements: usize,
    order: Seq<usize>,
    tied: Seq<bool>,
    before: Seq<usize>,
    after: Seq<usize>,
)
    requires
        tie_shape(order.len(), tied.len()),
        all_below(order, elements as nat),
        all_distinct(order),
        normalized(completed(order, tied, elements as nat, true).0, completed(order, tied, elements as nat, true).1, before),
        all_distinct(before),
        ({
            let b = completed(order, tied, elements as nat, true);
            let w = without_last(b.0, b.1);
            let a = completed(w.0, w.1, elements as nat, false);
            normalized(a.0, a.1, after)
        }),
        all_distinct(after),
    ensures
        after == before,
{
    let e = elements as nat;
    let b = completed(order, tied, e, true);
    let w = without_last(b.0, b.1);
    let a = completed(w.0, w.1, e, false);
    remove_last_complete(elements, order, tied);
    lemma_completed(order, tied, e, true);
    if e == 0 {
        assert(before =~= after);
    } else {
        lemma_normalized_unique(b.0, a.0, b.1, before, after);
    }
}

} // verus!
