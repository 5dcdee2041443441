//! # Orders with ties, incomplete lists
//!
//! A packed collection of orders with ties, each ranking some of the
//! elements. It can be seen as a list of `TiedRank`, stored back to back.
use rand::rngs::StdRng;
use vstd::prelude::*;
use vstd::string::StringSliceAdditionalSpecFns;

use crate::random::{random_below, random_bool, shuffle};
use crate::strict::{
    is_chain, lemma_multiset_chain, lemma_remove_renumber_chain, lemma_remove_renumber_insert, remove_renumber,
};
use crate::cardinal::{CardinalDense, CardinalRef};
use crate::tied::{group_index, missing, groups, lemma_groups_split, GroupIterator, parse_tied_spec, tie_shape, winner_len, TiedRank, TiedRankRef};
use crate::util::{all_below, all_distinct, unique, unique_and_bounded};

verus! {

broadcast use vstd::seq_lib::group_seq_properties;

/// The sum of `lens`.
pub open spec fn sum_lens(lens: Seq<usize>) -> nat
    decreases lens.len(),
{
    if lens.len() == 0 {
        0
    } else {
        sum_lens(lens.drop_last()) + lens.last() as nat
    }
}

/// Where entry `k` starts when entries of lengths `lens` are stored back to
/// back.
pub open spec fn start_of(lens: Seq<usize>, k: int) -> nat {
    sum_lens(lens.take(k))
}

pub proof fn lemma_start_step(lens: Seq<usize>, k: int)
    requires
        0 <= k < lens.len(),
    ensures
        start_of(lens, k + 1) == start_of(lens, k) + lens[k],
{
    assert(lens.take(k + 1).drop_last() =~= lens.take(k));
}

pub proof fn lemma_start_mono(lens: Seq<usize>, k: int, m: int)
    requires
        0 <= k <= m <= lens.len(),
    ensures
        start_of(lens, k) <= start_of(lens, m),
    decreases m - k,
{
    if k < m {
        lemma_start_mono(lens, k, m - 1);
        lemma_start_step(lens, m - 1);
    }
}

pub proof fn lemma_start_full(lens: Seq<usize>)
    ensures
        start_of(lens, lens.len() as int) == sum_lens(lens),
{
    assert(lens.take(lens.len() as int) =~= lens);
}

/// Entries of equal length `c` start at multiples of `c`.
pub proof fn lemma_uniform_starts(lens: Seq<usize>, c: usize)
    requires
        forall|j: int| 0 <= j < lens.len() ==> #[trigger] lens[j] == c,
    ensures
        forall|j: int| 0 <= j <= lens.len() ==> #[trigger] start_of(lens, j) == j * c,
        sum_lens(lens) == lens.len() * c,
    decreases lens.len(),
{
    if lens.len() > 0 {
        let d = lens.drop_last();
        lemma_uniform_starts(d, c);
        assert forall|j: int| 0 <= j <= lens.len() implies #[trigger] start_of(lens, j) == j * c by {
            if j < lens.len() {
                assert(lens.take(j) =~= d.take(j));
                assert(start_of(d, j) == j * c);
            } else {
                assert(lens.take(j) =~= lens);
                assert(lens.take(j).drop_last() =~= d);
                lemma_start_full(d);
                assert(start_of(d, d.len() as int) == (j - 1) * c);
                assert(j * c == (j - 1) * c + c) by (nonlinear_arith);
            }
        }
        lemma_start_full(lens);
    }
}

/// With entries of at least one value each, entry `k` starts at `k` or
/// later.
pub proof fn lemma_start_at_least(lens: Seq<usize>, k: int)
    requires
        0 <= k <= lens.len(),
        forall|j: int| 0 <= j < lens.len() ==> #[trigger] lens[j] >= 1,
    ensures
        start_of(lens, k) >= k,
    decreases k,
{
    if k > 0 {
        lemma_start_at_least(lens, k - 1);
        lemma_start_step(lens, k - 1);
    }
}

/// Pushing an entry keeps the starts of the earlier ones.
pub proof fn lemma_start_push(lens: Seq<usize>, l: usize, k: int)
    requires
        0 <= k <= lens.len(),
    ensures
        start_of(lens.push(l), k) == start_of(lens, k),
{
    assert(lens.push(l).take(k) =~= lens.take(k));
}

/// TOI: orders with ties, incomplete lists.
#[derive(Clone, Debug, PartialEq, Eq)]
pub struct TiedOrdersIncomplete {
    /// The orders, back to back.
    pub orders: Vec<usize>,
    /// Whether each value is tied with the next, for each order but its
    /// last value.
    pub ties: Vec<bool>,
    /// The length of each order.
    pub order_len: Vec<usize>,
    pub elements: usize,
}

impl TiedOrdersIncomplete {
    /// The number of orders.
    pub open spec fn count(&self) -> nat {
        self.order_len@.len()
    }

    /// Order `k`.
    pub open spec fn order(&self, k: int) -> Seq<usize> {
        self.orders@.subrange(
            start_of(self.order_len@, k) as int,
            start_of(self.order_len@, k) + self.order_len@[k],
        )
    }

    /// The tie flags of order `k`.
    pub open spec fn tie(&self, k: int) -> Seq<bool> {
        self.ties@.subrange(
            start_of(self.order_len@, k) - k,
            start_of(self.order_len@, k) - k + self.order_len@[k] - 1,
        )
    }

    /// Every order is nonempty, and the values and flags fill the vectors.
    pub open spec fn shape(&self) -> bool {
        &&& forall|k: int| 0 <= k < self.count() ==> #[trigger] self.order_len@[k] >= 1
        &&& self.orders@.len() == sum_lens(self.order_len@)
        &&& self.ties@.len() + self.count() == sum_lens(self.order_len@)
    }

    /// The shape holds, and every order lists distinct elements below
    /// `elements`.
    pub open spec fn wf(&self) -> bool {
        &&& self.shape()
        &&& forall|k: int| 0 <= k < self.count() ==> #[trigger] is_chain(self.elements as nat, self.order(k))
    }

    /// Order `k` lies within the vectors.
    pub proof fn lemma_bounds(&self, k: int)
        requires
            self.shape(),
            0 <= k < self.count(),
        ensures
            start_of(self.order_len@, k) + self.order_len@[k] <= self.orders@.len(),
            start_of(self.order_len@, k) >= k,
            start_of(self.order_len@, k) - k + self.order_len@[k] - 1 <= self.ties@.len(),
            self.order(k).len() == self.order_len@[k],
            self.tie(k).len() + 1 == self.order_len@[k],
    {
        let lens = self.order_len@;
        lemma_start_step(lens, k);
        lemma_start_mono(lens, k + 1, lens.len() as int);
        lemma_start_full(lens);
        lemma_start_at_least(lens, k);
        lemma_start_at_least(lens, k + 1);
        lemma_start_at_least(lens, lens.len() as int);
        assert(start_of(lens, k + 1) - (k + 1) <= start_of(lens, lens.len() as int) - lens.len()) by {
            lemma_start_gap_mono(lens, k + 1, lens.len() as int);
        }
    }

    /// An empty collection over `elements` elements.
    pub fn new(elements: usize) -> (res: Self)
        ensures
            res.wf(),
            res.elements == elements,
            res.count() == 0,
    {
        TiedOrdersIncomplete { orders: Vec::new(), ties: Vec::new(), order_len: Vec::new(), elements }
    }

    /// The orders of `value` as orders without ties. Every order of `value`
    /// lists all the elements.
    pub fn from_strict(value: crate::soi::StrictOrdersIncomplete) -> (res: TiedOrdersIncomplete)
        requires
            value.wf(),
            value.elements > 0,
            forall|k: int| 0 <= k < value.count() ==> #[trigger] value.order_len@[k] == value.elements,
        ensures
            res.wf(),
            res.elements == value.elements,
            res.count() == value.count(),
            forall|k: int| 0 <= k < value.count() ==> #[trigger] res.order(k) == value.order(k),
            forall|k: int|
                0 <= k < value.count() ==> #[trigger] res.tie(k) == Seq::new((value.elements - 1) as nat, |i: int| false),
    {
        let e = value.elements;
        let n = value.orders_count();
        let _ = value.orders.len();
        proof {
            lemma_uniform_starts(value.order_len@, e);
            assert(n * e == value.orders@.len());
            assert(n * (e - 1) <= n * e) by (nonlinear_arith)
                requires
                    e > 0,
            ;
        }
        let ties = crate::util::falses(n * (e - 1));
        let res = TiedOrdersIncomplete { orders: value.orders, ties, order_len: value.order_len, elements: e };
        proof {
            assert(n * (e - 1) + n == n * e) by (nonlinear_arith);
            assert forall|k: int| 0 <= k < value.count() implies #[trigger] res.order(k) == value.order(k) by {}
            assert forall|k: int| 0 <= k < res.count() implies #[trigger] is_chain(e as nat, res.order(k)) by {
                assert(res.order(k) == value.order(k));
            }
            assert forall|k: int|
                0 <= k < value.count() implies #[trigger] res.tie(k) == Seq::new((e - 1) as nat, |i: int| false) by {
                assert(start_of(res.order_len@, k) == k * e);
                assert(k * e - k == k * (e - 1)) by (nonlinear_arith);
                assert((k + 1) * (e - 1) <= n * (e - 1)) by (nonlinear_arith)
                    requires
                        k < n,
                        e > 0,
                ;
                assert(k * (e - 1) + (e - 1) == (k + 1) * (e - 1)) by (nonlinear_arith);
                assert(res.tie(k) =~= Seq::new((e - 1) as nat, |i: int| false));
            }
        }
        res
    }


    pub fn elements(&self) -> (res: usize)
        ensures
            res == self.elements,
    {
        self.elements
    }

    /// The number of orders.
    pub fn orders(&self) -> (res: usize)
        ensures
            res == self.count(),
    {
        self.order_len.len()
    }

    /// Raises the number of elements to `n`.
    pub fn set_elements(&mut self, n: usize)
        requires
            n >= old(self).elements,
        ensures
            final(self).elements == n,
            final(self).orders@ == old(self).orders@,
            final(self).ties@ == old(self).ties@,
            final(self).order_len@ == old(self).order_len@,
            old(self).wf() ==> final(self).wf(),
    {
        self.elements = n;
        proof {
            if old(self).wf() {
                assert forall|k: int| 0 <= k < self.count() implies #[trigger] is_chain(self.elements as nat, self.order(k)) by {
                    assert(is_chain(old(self).elements as nat, old(self).order(k)));
                }
            }
        }
    }

    /// Appends the order `order` with tie flags `tied`.
    fn push_order(&mut self, order: &[usize], tied: &[bool])
        requires
            old(self).shape(),
            order@.len() >= 1,
            tied@.len() + 1 == order@.len(),
            old(self).orders@.len() + order@.len() <= usize::MAX,
        ensures
            final(self).shape(),
            final(self).elements == old(self).elements,
            final(self).count() == old(self).count() + 1,
            forall|k: int| 0 <= k < old(self).count() ==> #[trigger] final(self).order(k) == old(self).order(k),
            forall|k: int| 0 <= k < old(self).count() ==> #[trigger] final(self).tie(k) == old(self).tie(k),
            final(self).order(old(self).count() as int) == order@,
            final(self).tie(old(self).count() as int) == tied@,
            final(self).orders@ == old(self).orders@ + order@,
    {
        let ghost lens0 = self.order_len@;
        let n = order.len();
        let mut i: usize = 0;
        while i < n
            invariant
                n == order@.len(),
                i <= n,
                self.orders@ == old(self).orders@ + order@.take(i as int),
                self.ties@ == old(self).ties@,
                self.order_len@ == lens0,
                self.elements == old(self).elements,
            decreases n - i,
        {
            self.orders.push(order[i]);
            i += 1;
            proof {
                assert(self.orders@ =~= old(self).orders@ + order@.take(i as int));
            }
        }
        let m = tied.len();
        let mut j: usize = 0;
        while j < m
            invariant
                m == tied@.len(),
                j <= m,
                self.orders@ == old(self).orders@ + order@,
                self.ties@ == old(self).ties@ + tied@.take(j as int),
                self.order_len@ == lens0,
                self.elements == old(self).elements,
            decreases m - j,
        {
            self.ties.push(tied[j]);
            j += 1;
            proof {
                assert(self.ties@ =~= old(self).ties@ + tied@.take(j as int));
            }
        }
        self.order_len.push(n);
        proof {
            assert(order@.take(n as int) =~= order@);
            assert(tied@.take(m as int) =~= tied@);
            let lens = self.order_len@;
            let c = lens0.len() as int;
            assert(lens.drop_last() =~= lens0);
            lemma_start_full(lens0);
            lemma_start_full(lens);
            assert forall|k: int| 0 <= k < self.count() implies #[trigger] self.order_len@[k] >= 1 by {
                if k < c {
                    assert(lens[k] == lens0[k]);
                }
            }
            assert forall|k: int| 0 <= k < c implies #[trigger] self.order(k) == old(self).order(k) by {
                lemma_start_push(lens0, n, k);
                lemma_start_push(lens0, n, k + 1);
                old(self).lemma_bounds(k);
                assert(self.order(k) =~= old(self).order(k));
            }
            assert forall|k: int| 0 <= k < c implies #[trigger] self.tie(k) == old(self).tie(k) by {
                lemma_start_push(lens0, n, k);
                old(self).lemma_bounds(k);
                assert(self.tie(k) =~= old(self).tie(k));
            }
            lemma_start_push(lens0, n, c);
            assert(start_of(lens, c) == sum_lens(lens0));
            assert(self.order(c) =~= order@);
            assert(self.tie(c) =~= tied@);
        }
    }

    /// Adds the order `order`, which must rank at least one element.
    pub fn add(&mut self, order: TiedRankRef) -> (res: Result<(), &'static str>)
        requires
            old(self).wf(),
            order.wf(),
            order.order@.len() >= 1,
            order.elements == old(self).elements,
            old(self).orders@.len() + order.order@.len() <= usize::MAX,
        ensures
            res is Ok,
            final(self).wf(),
            final(self).elements == old(self).elements,
            final(self).count() == old(self).count() + 1,
            final(self).orders@.len() == old(self).orders@.len() + order.order@.len(),
            forall|k: int| 0 <= k < old(self).count() ==> #[trigger] final(self).order(k) == old(self).order(k),
            forall|k: int| 0 <= k < old(self).count() ==> #[trigger] final(self).tie(k) == old(self).tie(k),
            final(self).order(old(self).count() as int) == order.order@,
            final(self).tie(old(self).count() as int) == order.tied@,
    {
        self.push_order(order.order, order.tied);
        proof {
            assert forall|k: int| 0 <= k < self.count() implies #[trigger] is_chain(self.elements as nat, self.order(k)) by {
                if k < old(self).count() {
                    assert(is_chain(old(self).elements as nat, old(self).order(k)));
                }
            }
        }
        Ok(())
    }

    /// The number of orders.
    pub fn voters(&self) -> (res: usize)
        ensures
            res == self.count(),
    {
        self.order_len.len()
    }

    /// Order `i`.
    pub fn vote_i(&self, i: usize) -> (res: TiedRankRef<'_>)
        requires
            self.wf(),
            i < self.count(),
        ensures
            res.wf(),
            res.elements == self.elements,
            res.order@ == self.order(i as int),
            res.tied@ == self.tie(i as int),
    {
        self.order_i(i)
    }

    /// Order `i`.
    pub fn order_i(&self, i: usize) -> (res: TiedRankRef<'_>)
        requires
            self.wf(),
            i < self.count(),
        ensures
            res.wf(),
            res.elements == self.elements,
            res.order@ == self.order(i as int),
            res.tied@ == self.tie(i as int),
    {
        let _ = self.orders.len();
        let mut start: usize = 0;
        let mut k: usize = 0;
        while k < i
            invariant
                self.shape(),
                self.orders@.len() <= usize::MAX,
                i < self.count(),
                k <= i,
                start == start_of(self.order_len@, k as int),
            decreases i - k,
        {
            proof {
                self.lemma_bounds(k as int);
                lemma_start_step(self.order_len@, k as int);
            }
            start += self.order_len[k];
            k += 1;
        }
        proof {
            self.lemma_bounds(i as int);
            assert(is_chain(self.elements as nat, self.order(i as int)));
        }
        let len = self.order_len[i];
        let o = &self.orders.as_slice()[start..start + len];
        let t = &self.ties.as_slice()[start - i..start - i + len - 1];
        TiedRankRef::new(self.elements, o, t)
    }

    /// The orders, one at a time.
    pub fn iter(&self) -> (res: TiedOrdersIncompleteIterator<'_>)
        ensures
            res.orig == self,
            res.i == 0,
            res.start == 0,
    {
        TiedOrdersIncompleteIterator { orig: self, i: 0, start: 0 }
    }
}

/// The sum of `lens`, when every length is at least one and the sum is at
/// most `limit`; `None` otherwise.
fn lens_total(lens: &[usize], limit: usize) -> (res: Option<usize>)
    ensures
        res is Some <==> (forall|k: int| 0 <= k < lens@.len() ==> #[trigger] lens@[k] >= 1) && sum_lens(lens@) <= limit,
        res matches Some(t) ==> t == sum_lens(lens@),
{
    let c = lens.len();
    let mut total: usize = 0;
    let mut k: usize = 0;
    while k < c
        invariant
            c == lens@.len(),
            k <= c,
            total == start_of(lens@, k as int),
            forall|j: int| 0 <= j < k ==> #[trigger] lens@[j] >= 1,
            total <= limit,
        decreases c - k,
    {
        proof {
            lemma_start_step(lens@, k as int);
        }
        if lens[k] == 0 {
            return None;
        }
        if lens[k] > limit - total {
            proof {
                lemma_start_mono(lens@, k + 1, c as int);
                lemma_start_full(lens@);
            }
            return None;
        }
        total += lens[k];
        k += 1;
    }
    proof {
        lemma_start_full(lens@);
    }
    Some(total)
}

/// The gap between where an entry starts and its position only grows.
pub proof fn lemma_start_gap_mono(lens: Seq<usize>, k: int, m: int)
    requires
        0 <= k <= m <= lens.len(),
        forall|j: int| 0 <= j < lens.len() ==> #[trigger] lens[j] >= 1,
    ensures
        start_of(lens, k) - k <= start_of(lens, m) - m,
    decreases m - k,
{
    if k < m {
        lemma_start_gap_mono(lens, k, m - 1);
        lemma_start_step(lens, m - 1);
    }
}

/// The orders of a collection, one at a time.
pub struct TiedOrdersIncompleteIterator<'a> {
    pub orig: &'a TiedOrdersIncomplete,
    pub i: usize,
    pub start: usize,
}

impl<'a> TiedOrdersIncompleteIterator<'a> {
    /// The next order, or `None` after the last.
    pub fn next(&mut self) -> (res: Option<TiedRankRef<'a>>)
        requires
            old(self).orig.wf(),
            old(self).i <= old(self).orig.count(),
            old(self).start == start_of(old(self).orig.order_len@, old(self).i as int),
        ensures
            final(self).orig == old(self).orig,
            final(self).i <= final(self).orig.count(),
            final(self).start == start_of(final(self).orig.order_len@, final(self).i as int),
            old(self).i == old(self).orig.count() ==> res is None && final(self).i == old(self).i,
            old(self).i < old(self).orig.count() ==> final(self).i == old(self).i + 1 && (res matches Some(r) && r.wf()
                && r.elements == old(self).orig.elements && r.order@ == old(self).orig.order(old(self).i as int)
                && r.tied@ == old(self).orig.tie(old(self).i as int)),
    {
        if self.i == self.orig.order_len.len() {
            return None;
        }
        let i = self.i;
        let start = self.start;
        let _ = self.orig.orders.len();
        proof {
            self.orig.lemma_bounds(i as int);
            lemma_start_step(self.orig.order_len@, i as int);
            assert(is_chain(self.orig.elements as nat, self.orig.order(i as int)));
        }
        let len = self.orig.order_len[i];
        let o = &self.orig.orders.as_slice()[start..start + len];
        let t = &self.orig.ties.as_slice()[start - i..start - i + len - 1];
        self.i = i + 1;
        self.start = start + len;
        Some(TiedRankRef::new(self.orig.elements, o, t))
    }

    /// The number of orders left, exactly.
    pub fn size_hint(&self) -> (res: (usize, Option<usize>))
        requires
            self.i <= self.orig.count(),
        ensures
            res == ((self.orig.count() - self.i) as usize, Some((self.orig.count() - self.i) as usize)),
    {
        let remaining = self.orig.order_len.len() - self.i;
        (remaining, Some(remaining))
    }
}


/// The order that the text `s` writes (empty when it writes none).
pub open spec fn parsed_order(elements: usize, s: Seq<u8>) -> Seq<usize> {
    match parse_tied_spec(elements, s) {
        Some((o, t)) => o,
        None => Seq::empty(),
    }
}

/// The tie flags that the text `s` writes (empty when it writes none).
pub open spec fn parsed_tie(elements: usize, s: Seq<u8>) -> Seq<bool> {
    match parse_tied_spec(elements, s) {
        Some((o, t)) => t,
        None => Seq::empty(),
    }
}

/// Whether the text `s` writes an order with ties of `elements` that can
/// be added: it parses, ranks at least one element, and ranks none twice.
pub open spec fn addable(elements: usize, s: Seq<u8>) -> bool {
    parse_tied_spec(elements, s) matches Some((o, t)) && o.len() >= 1 && all_distinct(o)
}

impl TiedOrdersIncomplete {
    /// Adds one order read from `s` (see `TiedRank::parse_order`). Returns
    /// whether `s` was an order that could be added: one that ranks at
    /// least one element and none twice.
    pub fn add_from_str(&mut self, s: &str) -> (res: bool)
        requires
            old(self).wf(),
            old(self).orders@.len() + old(self).elements <= usize::MAX,
        ensures
            final(self).wf(),
            final(self).elements == old(self).elements,
            res == addable(old(self).elements, s.spec_bytes()),
            !res ==> *final(self) == *old(self),
            res ==> final(self).count() == old(self).count() + 1,
            res ==> forall|k: int| 0 <= k < old(self).count() ==> #[trigger] final(self).order(k) == old(self).order(k),
            res ==> final(self).order(old(self).count() as int) == parsed_order(old(self).elements, s.spec_bytes()),
            res ==> final(self).tie(old(self).count() as int) == parsed_tie(old(self).elements, s.spec_bytes()),
    {
        self.add_from_str_i(s, 1)
    }

    /// Adds the order read from `s` (see `TiedRank::parse_order`) `i`
    /// times. Returns whether `s` was an order that could be added: one that
    /// ranks at least one element and none twice.
    pub fn add_from_str_i(&mut self, s: &str, i: usize) -> (res: bool)
        requires
            old(self).wf(),
            i != 0,
            old(self).orders@.len() + i * old(self).elements <= usize::MAX,
        ensures
            final(self).wf(),
            final(self).elements == old(self).elements,
            res == addable(old(self).elements, s.spec_bytes()),
            !res ==> *final(self) == *old(self),
            res ==> final(self).count() == old(self).count() + i,
            res ==> forall|k: int| 0 <= k < old(self).count() ==> #[trigger] final(self).order(k) == old(self).order(k),
            res ==> forall|k: int|
                old(self).count() <= k < final(self).count() ==> #[trigger] final(self).order(k) == parsed_order(
                    old(self).elements,
                    s.spec_bytes(),
                ) && final(self).tie(k) == parsed_tie(old(self).elements, s.spec_bytes()),
    {
        let order = match TiedRank::parse_order(self.elements, s) {
            Some(order) => order,
            None => return false,
        };
        if order.order.len() == 0 || !unique(order.order.as_slice()) {
            return false;
        }
        proof {
            crate::tied::lemma_distinct_below_len(order.order@, self.elements as nat);
        }
        let r = order.as_ref();
        let mut j: usize = 0;
        while j < i
            invariant
                self.wf(),
                r.wf(),
                r.order@ == order.order@,
                r.tied@ == order.tied@,
                r.elements == self.elements,
                r.order@.len() >= 1,
                r.order@.len() <= self.elements,
                self.elements == old(self).elements,
                j <= i,
                self.count() == old(self).count() + j,
                self.orders@.len() == old(self).orders@.len() + j * r.order@.len(),
                old(self).orders@.len() + i * old(self).elements <= usize::MAX,
                parsed_order(old(self).elements, s.spec_bytes()) == r.order@,
                parsed_tie(old(self).elements, s.spec_bytes()) == r.tied@,
                forall|k: int| 0 <= k < old(self).count() ==> #[trigger] self.order(k) == old(self).order(k),
                forall|k: int| old(self).count() <= k < self.count() ==> #[trigger] self.order(k) == r.order@ && self.tie(k)
                    == r.tied@,
            decreases i - j,
        {
            proof {
                let l = r.order@.len();
                let e = self.elements;
                assert((j + 1) * l == j * l + l) by (nonlinear_arith);
                assert((j + 1) * l <= i * e) by (nonlinear_arith)
                    requires
                        j < i,
                        l <= e,
                ;
            }
            let ghost before = *self;
            let _ = self.add(r);
            proof {
                assert forall|k: int| old(self).count() <= k < self.count() implies #[trigger] self.order(k) == r.order@
                    && self.tie(k) == r.tied@ by {
                    if k < before.count() {
                        assert(self.order(k) == before.order(k));
                        assert(self.tie(k) == before.tie(k));
                    }
                }
            }
            j += 1;
        }
        true
    }

    /// Returns true iff every order is nonempty, the values and flags fill
    /// the vectors, and every order lists distinct elements below
    /// `elements`.
    pub fn valid(&self) -> (res: bool)
        ensures
            res == self.wf(),
    {
        let _ = self.orders.len();
        let c = self.order_len.len();
        let total = match lens_total(self.order_len.as_slice(), self.orders.len()) {
            Some(t) => t,
            None => return false,
        };
        proof {
            lemma_start_full(self.order_len@);
            lemma_start_at_least(self.order_len@, c as int);
        }
        if total != self.orders.len() {
            return false;
        }
        if self.ties.len() != total - c {
            return false;
        }
        let mut it = self.iter();
        let mut k: usize = 0;
        while k < c
            invariant
                self.shape(),
                c == self.count(),
                it.orig == self,
                it.i == k,
                k <= c,
                it.start == start_of(self.order_len@, k as int),
                self.orders@.len() <= usize::MAX,
                forall|j: int| 0 <= j < k ==> #[trigger] is_chain(self.elements as nat, self.order(j)),
            decreases c - k,
        {
            proof {
                self.lemma_bounds(k as int);
                lemma_start_step(self.order_len@, k as int);
            }
            let len = self.order_len[k];
            let start = it.start;
            let o = &self.orders.as_slice()[start..start + len];
            if !unique_and_bounded(self.elements, o) {
                proof {
                    assert(o@ =~= self.order(k as int));
                    assert(!is_chain(self.elements as nat, self.order(k as int)));
                }
                return false;
            }
            proof {
                assert(o@ =~= self.order(k as int));
            }
            it.i = k + 1;
            it.start = start + len;
            k += 1;
        }
        true
    }
}


/// Order `o` with tie flags `t` after element `c` is added as a clone of
/// `n`: just before `n` and tied with it, when `o` ranks `n`.
pub open spec fn clone_order(o: Seq<usize>, t: Seq<bool>, n: usize, c: usize) -> (Seq<usize>, Seq<bool>) {
    if o.contains(n) {
        let p = choose|p: int| 0 <= p < o.len() && o[p] == n;
        (o.insert(p, c), t.insert(p, true))
    } else {
        (o, t)
    }
}

/// The elements of the highest ranked group of order `o` with flags `t`.
pub open spec fn top_group(o: Seq<usize>, t: Seq<bool>) -> Seq<usize> {
    o.take(winner_len(o, t) as int)
}

/// The first group of `gs` with an element outside `ignore`, or nothing.
pub open spec fn first_live(gs: Seq<Seq<usize>>, ignore: Seq<usize>) -> Seq<usize>
    decreases gs.len(),
{
    if gs.len() == 0 {
        Seq::empty()
    } else if exists|i: int| 0 <= i < gs[0].len() && !ignore.contains(#[trigger] gs[0][i]) {
        gs[0]
    } else {
        first_live(gs.skip(1), ignore)
    }
}

/// Some element of `g` lies in `clones`.
pub open spec fn has_member(g: Seq<usize>, clones: Seq<usize>) -> bool {
    exists|i: int| 0 <= i < g.len() && clones.contains(#[trigger] g[i])
}

/// Some element of `g` lies outside `clones`.
pub open spec fn has_non_member(g: Seq<usize>, clones: Seq<usize>) -> bool {
    exists|i: int| 0 <= i < g.len() && !clones.contains(#[trigger] g[i])
}

/// Whether the groups `gs` keep `clones` together, reading from the first:
/// once a group with a clone has been seen (`seen_n`) and then an element
/// outside the set (`seen_i`), no later group may hold a clone; a group that
/// holds both a clone and an outsider after a clone was seen breaks it too.
pub open spec fn clone_scan(gs: Seq<Seq<usize>>, clones: Seq<usize>, seen_n: bool, seen_i: bool) -> bool
    decreases gs.len(),
{
    if gs.len() == 0 {
        true
    } else {
        let hc = has_member(gs[0], clones);
        let hn = has_non_member(gs[0], clones);
        if (seen_i && hc) || (seen_n && hc && hn) {
            false
        } else {
            clone_scan(gs.skip(1), clones, seen_n || hc, seen_i || ((seen_n || hc) && hn))
        }
    }
}

/// Some group of `gs` holds an element of `clones`.
pub open spec fn some_member(gs: Seq<Seq<usize>>, clones: Seq<usize>) -> bool {
    exists|c: int| 0 <= c < gs.len() && #[trigger] has_member(gs[c], clones)
}

/// Some group of `gs` holds an element outside `clones`, and it or a later
/// group holds an element of `clones`.
pub open spec fn outsider_then_member(gs: Seq<Seq<usize>>, clones: Seq<usize>) -> bool {
    exists|b: int, c: int|
        0 <= b <= c < gs.len() && #[trigger] has_non_member(gs[b], clones) && #[trigger] has_member(gs[c], clones)
}

/// The groups `gs` split `clones`: an element of the set is ranked at or
/// above an element outside it, which is ranked at or above another
/// element of the set, the two elements of the set in different groups.
pub open spec fn splits(gs: Seq<Seq<usize>>, clones: Seq<usize>) -> bool {
    exists|a: int, b: int, c: int|
        #![trigger has_member(gs[a], clones), has_non_member(gs[b], clones), has_member(gs[c], clones)]
        0 <= a <= b <= c < gs.len() && a < c && has_member(gs[a], clones) && has_non_member(gs[b], clones)
            && has_member(gs[c], clones)
}

proof fn lemma_some_member_split(gs: Seq<Seq<usize>>, cl: Seq<usize>)
    requires
        gs.len() > 0,
    ensures
        some_member(gs, cl) == (has_member(gs[0], cl) || some_member(gs.skip(1), cl)),
{
    let r = gs.skip(1);
    if some_member(gs, cl) && !has_member(gs[0], cl) {
        let c = choose|c: int| 0 <= c < gs.len() && #[trigger] has_member(gs[c], cl);
        assert(r[c - 1] == gs[c]);
    }
    if some_member(r, cl) {
        let c = choose|c: int| 0 <= c < r.len() && #[trigger] has_member(r[c], cl);
        assert(r[c] == gs[c + 1]);
    }
}

proof fn lemma_outsider_split(gs: Seq<Seq<usize>>, cl: Seq<usize>)
    requires
        gs.len() > 0,
    ensures
        outsider_then_member(gs, cl) == ((has_non_member(gs[0], cl) && some_member(gs, cl)) || outsider_then_member(
            gs.skip(1),
            cl,
        )),
{
    let r = gs.skip(1);
    if outsider_then_member(gs, cl) {
        let (b, c) = choose|b: int, c: int|
            0 <= b <= c < gs.len() && #[trigger] has_non_member(gs[b], cl) && #[trigger] has_member(gs[c], cl);
        if b == 0 {
            assert(has_member(gs[c], cl));
        } else {
            assert(r[b - 1] == gs[b] && r[c - 1] == gs[c]);
        }
    }
    if has_non_member(gs[0], cl) && some_member(gs, cl) {
        let c = choose|c: int| 0 <= c < gs.len() && #[trigger] has_member(gs[c], cl);
        assert(has_non_member(gs[0], cl) && has_member(gs[c], cl));
    }
    if outsider_then_member(r, cl) {
        let (b, c) = choose|b: int, c: int|
            0 <= b <= c < r.len() && #[trigger] has_non_member(r[b], cl) && #[trigger] has_member(r[c], cl);
        assert(r[b] == gs[b + 1] && r[c] == gs[c + 1]);
        assert(has_non_member(gs[b + 1], cl) && has_member(gs[c + 1], cl));
    }
}

proof fn lemma_splits_split(gs: Seq<Seq<usize>>, cl: Seq<usize>)
    requires
        gs.len() > 0,
    ensures
        splits(gs, cl) == (splits(gs.skip(1), cl) || (has_member(gs[0], cl) && ((has_non_member(gs[0], cl)
            && some_member(gs.skip(1), cl)) || outsider_then_member(gs.skip(1), cl)))),
{
    let r = gs.skip(1);
    if splits(gs, cl) {
        let (a, b, c) = choose|a: int, b: int, c: int|
            #![trigger has_member(gs[a], cl), has_non_member(gs[b], cl), has_member(gs[c], cl)]
            0 <= a <= b <= c < gs.len() && a < c && has_member(gs[a], cl) && has_non_member(gs[b], cl) && has_member(
                gs[c],
                cl,
            );
        if a == 0 {
            assert(r[c - 1] == gs[c]);
            if b == 0 {
                assert(has_member(r[c - 1], cl));
            } else {
                assert(r[b - 1] == gs[b]);
                assert(has_non_member(r[b - 1], cl) && has_member(r[c - 1], cl));
            }
        } else {
            assert(r[a - 1] == gs[a] && r[b - 1] == gs[b] && r[c - 1] == gs[c]);
            assert(has_member(r[a - 1], cl) && has_non_member(r[b - 1], cl) && has_member(r[c - 1], cl));
        }
    }
    if splits(r, cl) {
        let (a, b, c) = choose|a: int, b: int, c: int|
            #![trigger has_member(r[a], cl), has_non_member(r[b], cl), has_member(r[c], cl)]
            0 <= a <= b <= c < r.len() && a < c && has_member(r[a], cl) && has_non_member(r[b], cl) && has_member(
                r[c],
                cl,
            );
        assert(r[a] == gs[a + 1] && r[b] == gs[b + 1] && r[c] == gs[c + 1]);
        assert(has_member(gs[a + 1], cl) && has_non_member(gs[b + 1], cl) && has_member(gs[c + 1], cl));
    }
    if has_member(gs[0], cl) && has_non_member(gs[0], cl) && some_member(r, cl) {
        let c = choose|c: int| 0 <= c < r.len() && #[trigger] has_member(r[c], cl);
        assert(r[c] == gs[c + 1]);
        assert(has_member(gs[0], cl) && has_non_member(gs[0], cl) && has_member(gs[c + 1], cl));
    }
    if has_member(gs[0], cl) && outsider_then_member(r, cl) {
        let (b, c) = choose|b: int, c: int|
            0 <= b <= c < r.len() && #[trigger] has_non_member(r[b], cl) && #[trigger] has_member(r[c], cl);
        assert(r[b] == gs[b + 1] && r[c] == gs[c + 1]);
        assert(has_member(gs[0], cl) && has_non_member(gs[b + 1], cl) && has_member(gs[c + 1], cl));
    }
}

/// What `clone_scan` decides, stated without the scan: with `seen_n` a
/// member seen before `gs` and `seen_i` an outsider seen after it, the scan
/// fails exactly when a member follows such an outsider, when an outsider
/// and then a member follow a member seen before, or when `gs` splits the
/// set itself.
proof fn lemma_clone_scan(gs: Seq<Seq<usize>>, cl: Seq<usize>, seen_n: bool, seen_i: bool)
    requires
        seen_i ==> seen_n,
    ensures
        clone_scan(gs, cl, seen_n, seen_i) == !((seen_i && some_member(gs, cl)) || (seen_n && outsider_then_member(
            gs,
            cl,
        )) || splits(gs, cl)),
    decreases gs.len(),
{
    if gs.len() == 0 {
    } else {
        let r = gs.skip(1);
        let hc = has_member(gs[0], cl);
        let hn = has_non_member(gs[0], cl);
        lemma_some_member_split(gs, cl);
        lemma_outsider_split(gs, cl);
        lemma_splits_split(gs, cl);
        if (seen_i && hc) || (seen_n && hc && hn) {
            if seen_n && hc && hn {
                assert(has_non_member(gs[0], cl) && has_member(gs[0], cl));
            }
        } else {
            lemma_clone_scan(r, cl, seen_n || hc, seen_i || ((seen_n || hc) && hn));
        }
    }
}

impl TiedOrdersIncomplete {
    /// The number of the first `m` orders whose highest ranked group holds
    /// `c`.
    pub open spec fn firsts(&self, c: usize, m: nat) -> nat
        decreases m,
    {
        if m == 0 {
            0
        } else {
            self.firsts(c, (m - 1) as nat) + if top_group(self.order(m - 1), self.tie(m - 1)).contains(c) {
                1nat
            } else {
                0nat
            }
        }
    }

    /// The number of the first `m` orders whose first group with an element
    /// outside `ignore` holds `c`, itself outside `ignore`.
    pub open spec fn live_firsts(&self, c: usize, ignore: Seq<usize>, m: nat) -> nat
        decreases m,
    {
        if m == 0 {
            0
        } else {
            self.live_firsts(c, ignore, (m - 1) as nat) + if !ignore.contains(c) && first_live(
                groups(self.order(m - 1), self.tie(m - 1)),
                ignore,
            ).contains(c) {
                1nat
            } else {
                0nat
            }
        }
    }

    /// Adds a new element, numbered `elements`, as a clone of `n`: every
    /// order that ranks `n` gets the new element just before `n`, tied with
    /// it.
    #[verifier::rlimit(30)]
    pub fn add_clone(&mut self, n: usize)
        requires
            old(self).wf(),
            old(self).elements < usize::MAX,
            old(self).orders@.len() + old(self).count() <= usize::MAX,
        ensures
            final(self).wf(),
            final(self).elements == old(self).elements + 1,
            final(self).count() == old(self).count(),
            forall|k: int| 0 <= k < old(self).count() ==> (final(self).order(k), final(self).tie(k)) == clone_order(
                #[trigger] old(self).order(k),
                old(self).tie(k),
                n,
                old(self).elements,
            ),
    {
        let c = self.elements;
        let count = self.order_len.len();
        let mut res = TiedOrdersIncomplete::new(c);
        let mut it = self.iter();
        let mut k: usize = 0;
        while k < count
            invariant
                self.wf(),
                count == self.count(),
                c == self.elements,
                c < usize::MAX,
                self.orders@.len() + count <= usize::MAX,
                it.orig == &*self,
                it.i == k,
                k <= count,
                it.start == start_of(self.order_len@, k as int),
                res.shape(),
                res.elements == c,
                res.count() == k,
                res.orders@.len() <= it.start + k,
                forall|j: int| 0 <= j < k ==> (res.order(j), res.tie(j)) == clone_order(
                    #[trigger] self.order(j),
                    self.tie(j),
                    n,
                    c,
                ),
                forall|j: int| 0 <= j < k ==> #[trigger] is_chain((c + 1) as nat, res.order(j)),
            decreases count - k,
        {
            proof {
                self.lemma_bounds(k as int);
                lemma_start_step(self.order_len@, k as int);
                lemma_start_mono(self.order_len@, k + 1, count as int);
                lemma_start_full(self.order_len@);
            }
            let r = it.next().unwrap();
            let mut new_order = crate::util::copy_usizes(r.order);
            let mut tied = crate::util::copy_bools(r.tied);
            let len = new_order.len();
            let mut p: usize = 0;
            while p < len && new_order[p] != n
                invariant
                    len == new_order@.len(),
                    p <= len,
                    forall|q: int| 0 <= q < p ==> new_order@[q] != n,
                decreases len - p,
            {
                p += 1;
            }
            let ghost o = r.order@;
            let ghost t = r.tied@;
            if p < len {
                new_order.insert(p, c);
                tied.insert(p, true);
                proof {
                    let q = choose|q: int| 0 <= q < o.len() && o[q] == n;
                    assert(q == p) by {
                        if q != p {
                            assert(o[q] != o[p as int]);
                        }
                    }
                    assert(new_order@ =~= o.insert(p as int, c));
                    assert(tied@ =~= t.insert(p as int, true));
                }
            } else {
                proof {
                    assert(!o.contains(n));
                }
            }
            proof {
                assert forall|a: int, b: int|
                    0 <= a < new_order@.len() && 0 <= b < new_order@.len() && a != b implies new_order@[a]
                    != new_order@[b] by {
                    if p < len {
                        if a != p && b != p {
                            let a0 = if a < p { a } else { a - 1 };
                            let b0 = if b < p { b } else { b - 1 };
                            assert(new_order@[a] == o[a0] && new_order@[b] == o[b0]);
                        } else if a == p {
                            let b0 = if b < p { b } else { b - 1 };
                            assert(new_order@[b] == o[b0]);
                        } else {
                            let a0 = if a < p { a } else { a - 1 };
                            assert(new_order@[a] == o[a0]);
                        }
                    }
                }
                assert forall|a: int| 0 <= a < new_order@.len() implies new_order@[a] < c + 1 by {
                    if p < len && a != p {
                        let a0 = if a < p { a } else { a - 1 };
                        assert(new_order@[a] == o[a0]);
                    }
                }
            }
            let ghost before = res;
            res.push_order(new_order.as_slice(), tied.as_slice());
            proof {
                assert forall|j: int| 0 <= j < k + 1 implies #[trigger] is_chain((c + 1) as nat, res.order(j)) by {
                    if j < k {
                        assert(res.order(j) == before.order(j));
                    }
                }
                assert forall|j: int| 0 <= j < k + 1 implies (res.order(j), res.tie(j)) == clone_order(
                    #[trigger] self.order(j),
                    self.tie(j),
                    n,
                    c,
                ) by {
                    if j < k {
                        assert(res.order(j) == before.order(j));
                        assert(res.tie(j) == before.tie(j));
                    }
                }
            }
            k += 1;
        }
        let ghost r0 = res;
        res.elements = c + 1;
        proof {
            assert forall|j: int| 0 <= j < res.count() implies #[trigger] is_chain(res.elements as nat, res.order(j)) by {
                assert(res.order(j) == r0.order(j));
                assert(is_chain((c + 1) as nat, r0.order(j)));
            }
            assert forall|j: int| 0 <= j < count implies (res.order(j), res.tie(j)) == clone_order(
                #[trigger] self.order(j),
                self.tie(j),
                n,
                c,
            ) by {
                assert(res.order(j) == r0.order(j));
                assert(res.tie(j) == r0.tie(j));
            }
        }
        *self = res;
    }

    /// The elements that more than half of the orders rank in their highest
    /// group, in increasing order. With a single element, that element.
    pub fn majority(&self) -> (res: Vec<usize>)
        requires
            self.wf(),
        ensures
            self.elements == 1 ==> res@ == seq![0usize],
            self.elements != 1 ==> forall|i: int, j: int| 0 <= i < j < res@.len() ==> res@[i] < res@[j],
            self.elements != 1 ==> forall|i: int| 0 <= i < res@.len() ==> #[trigger] res@[i] < self.elements
                && self.firsts(res@[i], self.count()) > self.count() / 2,
            self.elements != 1 ==> forall|c: usize| c < self.elements && self.firsts(c, self.count()) > self.count() / 2
                ==> #[trigger] res@.contains(c),
    {
        if self.elements == 1 {
            let v = vec![0];
            proof {
                assert(v@ =~= seq![0usize]);
            }
            return v;
        }
        let e = self.elements;
        let mut firsts: Vec<usize> = Vec::new();
        let mut x: usize = 0;
        while x < e
            invariant
                x <= e,
                firsts@.len() == x,
                forall|y: int| 0 <= y < x ==> #[trigger] firsts@[y] == 0,
            decreases e - x,
        {
            firsts.push(0);
            x += 1;
        }
        let count = self.order_len.len();
        let mut it = self.iter();
        let mut k: usize = 0;
        while k < count
            invariant
                self.wf(),
                e == self.elements,
                count == self.count(),
                it.orig == self,
                it.i == k,
                k <= count,
                it.start == start_of(self.order_len@, k as int),
                firsts@.len() == e,
                forall|y: int| 0 <= y < e ==> #[trigger] firsts@[y] == self.firsts(y as usize, k as nat),
                forall|y: int| 0 <= y < e ==> #[trigger] firsts@[y] <= k,
            decreases count - k,
        {
            proof {
                self.lemma_bounds(k as int);
            }
            let r = it.next().unwrap();
            let w = r.winners();
            let wl = w.len();
            let ghost f0 = firsts@;
            let mut j: usize = 0;
            while j < wl
                invariant
                    wl == w@.len(),
                    j <= wl,
                    firsts@.len() == e,
                    r.wf(),
                    r.elements == e,
                    w@ == r.order@.take(winner_len(r.order@, r.tied@) as int),
                    k < count,
                    forall|y: int| 0 <= y < e ==> #[trigger] firsts@[y] == f0[y] + if w@.take(j as int).contains(y as usize) {
                        1int
                    } else {
                        0int
                    },
                    forall|y: int| 0 <= y < e ==> #[trigger] f0[y] <= k,
                decreases wl - j,
            {
                let cc = w[j];
                proof {
                    assert(cc < e) by {
                        assert(r.order@[j as int] == cc);
                    }
                    assert(!w@.take(j as int).contains(cc)) by {
                        if w@.take(j as int).contains(cc) {
                            let q = choose|q: int| 0 <= q < j && w@.take(j as int)[q] == cc;
                            assert(r.order@[q] != r.order@[j as int]);
                        }
                    }
                }
                firsts.set(cc, firsts[cc] + 1);
                proof {
                    assert forall|y: int| 0 <= y < e implies #[trigger] firsts@[y] == f0[y] + if w@.take(j + 1).contains(
                        y as usize,
                    ) {
                        1int
                    } else {
                        0int
                    } by {
                        let a = w@.take(j as int);
                        let b = w@.take(j + 1);
                        assert(b =~= a.push(cc));
                        if y != cc {
                            if b.contains(y as usize) {
                                let q = choose|q: int| 0 <= q < b.len() && b[q] == y as usize;
                                assert(a[q] == y as usize);
                            }
                        }
                    }
                }
                j += 1;
            }
            proof {
                assert(w@.take(wl as int) =~= w@);
            }
            k += 1;
        }
        let half = count / 2;
        let mut res: Vec<usize> = Vec::new();
        let mut y: usize = 0;
        while y < e
            invariant
                y <= e,
                firsts@.len() == e,
                count == self.count(),
                half == count / 2,
                forall|z: int| 0 <= z < e ==> #[trigger] firsts@[z] == self.firsts(z as usize, count as nat),
                forall|i: int, j: int| 0 <= i < j < res@.len() ==> res@[i] < res@[j],
                forall|i: int| 0 <= i < res@.len() ==> #[trigger] res@[i] < y && self.firsts(res@[i], count as nat)
                    > count / 2,
                forall|c: usize| c < y && self.firsts(c, count as nat) > count / 2 ==> #[trigger] res@.contains(c),
            decreases e - y,
        {
            if firsts[y] > half {
                let ghost before = res@;
                res.push(y);
                proof {
                    assert forall|c: usize| c < y + 1 && self.firsts(c, count as nat) > count / 2 implies #[trigger] res@.contains(
                        c,
                    ) by {
                        if c < y {
                            assert(before.contains(c));
                            let q = choose|q: int| 0 <= q < before.len() && before[q] == c;
                            assert(res@[q] == c);
                        } else {
                            assert(res@[before.len() as int] == c);
                        }
                    }
                }
            }
            y += 1;
        }
        res
    }
}


/// Whether `s` holds `x`.
pub(crate) fn slice_contains(s: &[usize], x: usize) -> (res: bool)
    ensures
        res == s@.contains(x),
{
    let n = s.len();
    let mut i: usize = 0;
    while i < n
        invariant
            n == s@.len(),
            i <= n,
            forall|j: int| 0 <= j < i ==> s@[j] != x,
        decreases n - i,
    {
        if s[i] == x {
            proof {
                assert(s@[i as int] == x);
            }
            return true;
        }
        i += 1;
    }
    false
}

/// `n` zeros.
fn zeros(n: usize) -> (res: Vec<usize>)
    ensures
        res@.len() == n,
        forall|i: int| 0 <= i < n ==> #[trigger] res@[i] == 0,
{
    let mut res: Vec<usize> = Vec::new();
    let mut i: usize = 0;
    while i < n
        invariant
            i <= n,
            res@.len() == i,
            forall|k: int| 0 <= k < i ==> #[trigger] res@[k] == 0,
        decreases n - i,
    {
        res.push(0);
        i += 1;
    }
    res
}

impl TiedOrdersIncomplete {
    /// For each element, the number of orders whose first group with an
    /// element outside `ignore` holds it (and it lies outside `ignore`).
    /// `ignore` must be sorted. With a single element, a single zero.
    pub fn majority_ignore(&self, ignore: &[usize]) -> (res: Vec<usize>)
        requires
            self.wf(),
            crate::util::sorted_le(ignore@),
        ensures
            self.elements == 1 ==> res@ == seq![0usize],
            self.elements != 1 ==> res@.len() == self.elements,
            self.elements != 1 ==> forall|c: int| 0 <= c < self.elements ==> #[trigger] res@[c] == self.live_firsts(
                c as usize,
                ignore@,
                self.count(),
            ),
    {
        if self.elements == 1 {
            let v = vec![0];
            proof {
                assert(v@ =~= seq![0usize]);
            }
            return v;
        }
        let e = self.elements;
        let mut firsts = zeros(e);
        let count = self.order_len.len();
        let mut it = self.iter();
        let mut k: usize = 0;
        while k < count
            invariant
                self.wf(),
                e == self.elements,
                count == self.count(),
                it.orig == self,
                it.i == k,
                k <= count,
                it.start == start_of(self.order_len@, k as int),
                firsts@.len() == e,
                forall|y: int| 0 <= y < e ==> #[trigger] firsts@[y] == self.live_firsts(y as usize, ignore@, k as nat),
                forall|y: int| 0 <= y < e ==> #[trigger] firsts@[y] <= k,
            decreases count - k,
        {
            let r = it.next().unwrap();
            let ghost gs = groups(r.order@, r.tied@);
            let mut g_it = r.iter_groups();
            let ghost f0 = firsts@;
            let mut found = false;
            while !found && !g_it.order.empty()
                invariant
                    g_it.order.wf(),
                    g_it.order.elements == e,
                    !found ==> first_live(g_it.order.groups(), ignore@) == first_live(gs, ignore@),
                    found ==> forall|y: int| 0 <= y < e ==> #[trigger] firsts@[y] == f0[y] + if !ignore@.contains(y as usize)
                        && first_live(gs, ignore@).contains(y as usize) {
                        1int
                    } else {
                        0int
                    },
                    !found ==> firsts@ == f0,
                    firsts@.len() == e,
                    k < count,
                    forall|y: int| 0 <= y < e ==> #[trigger] f0[y] <= k,
                decreases g_it.order.order@.len(),
            {
                let ghost before = g_it.order;
                proof {
                    lemma_groups_split(before);
                }
                let group = g_it.next().unwrap();
                let gl = group.len();
                let mut j: usize = 0;
                let mut any = false;
                while j < gl
                    invariant
                        gl == group@.len(),
                        j <= gl,
                        group@ == before.groups()[0],
                        before.wf(),
                        before.elements == e,
                        before.order@.len() > 0,
                        firsts@.len() == e,
                        k < count,
                        any == exists|i: int| 0 <= i < j && !ignore@.contains(#[trigger] group@[i]),
                        forall|y: int| 0 <= y < e ==> #[trigger] f0[y] <= k,
                        forall|y: int| 0 <= y < e ==> #[trigger] firsts@[y] == f0[y] + if !ignore@.contains(y as usize)
                            && group@.take(j as int).contains(y as usize) {
                            1int
                        } else {
                            0int
                        },
                    decreases gl - j,
                {
                    let cc = group[j];
                    proof {
                        lemma_group_in_order(before);
                        assert(cc < e);
                        assert(!group@.take(j as int).contains(cc)) by {
                            if group@.take(j as int).contains(cc) {
                                let q = choose|q: int| 0 <= q < j && group@.take(j as int)[q] == cc;
                                assert(before.order@[q] != before.order@[j as int]);
                            }
                        }
                    }
                    if !slice_contains(ignore, cc) {
                        firsts.set(cc, firsts[cc] + 1);
                        any = true;
                    }
                    proof {
                        assert forall|y: int| 0 <= y < e implies #[trigger] firsts@[y] == f0[y] + if !ignore@.contains(
                            y as usize,
                        ) && group@.take(j + 1).contains(y as usize) {
                            1int
                        } else {
                            0int
                        } by {
                            let a = group@.take(j as int);
                            let b = group@.take(j + 1);
                            assert(b =~= a.push(cc));
                            if y != cc {
                                if b.contains(y as usize) {
                                    let q = choose|q: int| 0 <= q < b.len() && b[q] == y as usize;
                                    assert(a[q] == y as usize);
                                }
                            }
                        }
                    }
                    j += 1;
                }
                proof {
                    assert(group@.take(gl as int) =~= group@);
                    if any {
                        assert(first_live(before.groups(), ignore@) == group@);
                    } else {
                        assert(!exists|i: int| 0 <= i < group@.len() && !ignore@.contains(#[trigger] group@[i]));
                        assert(first_live(before.groups(), ignore@) == first_live(g_it.order.groups(), ignore@));
                        assert(firsts@ =~= f0);
                    }
                }
                found = any;
            }
            proof {
                if !found {
                    lemma_groups_split(g_it.order);
                    assert(first_live(gs, ignore@).len() == 0);
                    assert forall|y: int| 0 <= y < e implies #[trigger] firsts@[y] == self.live_firsts(
                        y as usize,
                        ignore@,
                        (k + 1) as nat,
                    ) by {
                        assert(!first_live(gs, ignore@).contains(y as usize));
                    }
                }
            }
            k += 1;
        }
        firsts
    }
}

/// The elements of the highest ranked group are ranked.
pub proof fn lemma_group_in_order(r: TiedRankRef)
    requires
        r.wf(),
        r.order@.len() > 0,
    ensures
        r.groups()[0] == r.order@.take(winner_len(r.order@, r.tied@) as int),
        winner_len(r.order@, r.tied@) <= r.order@.len(),
{
    lemma_groups_split(r);
}


impl TiedOrdersIncomplete {
    /// Whether `clones` is a set of clones: no order ranks an element
    /// outside the set between two elements of it, that is, has elements
    /// of the set ranked `n` and `m` and an element outside it ranked `i`
    /// with `n <= i <= m`. Sets of fewer than two elements are.
    pub fn is_clone_set(&self, clones: &[usize]) -> (res: bool)
        requires
            self.wf(),
            forall|i: int| 0 <= i < clones@.len() ==> #[trigger] clones@[i] < self.elements,
        ensures
            res == (clones@.len() < 2 || forall|k: int| 0 <= k < self.count() ==> #[trigger] clone_scan(
                groups(self.order(k), self.tie(k)),
                clones@,
                false,
                false,
            )),
            res == (clones@.len() < 2 || forall|k: int|
                0 <= k < self.count() ==> !#[trigger] splits(groups(self.order(k), self.tie(k)), clones@)),
    {
        if clones.len() < 2 {
            return true;
        }
        let e = self.elements;
        let mut is_clone: Vec<bool> = Vec::new();
        let mut x: usize = 0;
        while x < e
            invariant
                x <= e,
                is_clone@.len() == x,
                forall|y: int| 0 <= y < x ==> !#[trigger] is_clone@[y],
            decreases e - x,
        {
            is_clone.push(false);
            x += 1;
        }
        let nc = clones.len();
        let mut i: usize = 0;
        while i < nc
            invariant
                nc == clones@.len(),
                i <= nc,
                is_clone@.len() == e,
                forall|j: int| 0 <= j < clones@.len() ==> #[trigger] clones@[j] < e,
                forall|y: int| 0 <= y < e ==> #[trigger] is_clone@[y] == clones@.take(i as int).contains(y as usize),
            decreases nc - i,
        {
            let cc = clones[i];
            is_clone.set(cc, true);
            proof {
                assert forall|y: int| 0 <= y < e implies #[trigger] is_clone@[y] == clones@.take(i + 1).contains(y as usize) by {
                    let a = clones@.take(i as int);
                    let b = clones@.take(i + 1);
                    assert(b =~= a.push(cc));
                    if y != cc {
                        if b.contains(y as usize) {
                            let q = choose|q: int| 0 <= q < b.len() && b[q] == y as usize;
                            assert(a[q] == y as usize);
                        }
                    }
                }
            }
            i += 1;
        }
        proof {
            assert(clones@.take(nc as int) =~= clones@);
        }
        let count = self.order_len.len();
        let mut it = self.iter();
        let mut k: usize = 0;
        while k < count
            invariant
                self.wf(),
                e == self.elements,
                count == self.count(),
                it.orig == self,
                it.i == k,
                k <= count,
                it.start == start_of(self.order_len@, k as int),
                is_clone@.len() == e,
                forall|y: int| 0 <= y < e ==> #[trigger] is_clone@[y] == clones@.contains(y as usize),
                forall|j: int| 0 <= j < k ==> #[trigger] clone_scan(groups(self.order(j), self.tie(j)), clones@, false, false),
                clones@.len() >= 2,
            decreases count - k,
        {
            let r = it.next().unwrap();
            let ghost gs = groups(r.order@, r.tied@);
            let mut g_it = r.iter_groups();
            let mut seen_n = false;
            let mut seen_i = false;
            while !g_it.order.empty()
                invariant
                    g_it.order.wf(),
                    g_it.order.elements == e,
                    is_clone@.len() == e,
                    forall|y: int| 0 <= y < e ==> #[trigger] is_clone@[y] == clones@.contains(y as usize),
                    clone_scan(gs, clones@, false, false) == clone_scan(g_it.order.groups(), clones@, seen_n, seen_i),
                    gs == groups(self.order(k as int), self.tie(k as int)),
                    k < count,
                    count == self.count(),
                    clones@.len() >= 2,
                decreases g_it.order.order@.len(),
            {
                let ghost before = g_it.order;
                proof {
                    lemma_groups_split(before);
                    lemma_group_in_order(before);
                }
                let group = g_it.next().unwrap();
                let gl = group.len();
                let mut has_clone = false;
                let mut has_normal = false;
                let mut j: usize = 0;
                while j < gl
                    invariant
                        gl == group@.len(),
                        j <= gl,
                        group@ == before.order@.take(winner_len(before.order@, before.tied@) as int),
                        winner_len(before.order@, before.tied@) <= before.order@.len(),
                        before.wf(),
                        before.elements == e,
                        is_clone@.len() == e,
                        forall|y: int| 0 <= y < e ==> #[trigger] is_clone@[y] == clones@.contains(y as usize),
                        has_clone == exists|q: int| 0 <= q < j && clones@.contains(#[trigger] group@[q]),
                        has_normal == exists|q: int| 0 <= q < j && !clones@.contains(#[trigger] group@[q]),
                    decreases gl - j,
                {
                    let cc = group[j];
                    proof {
                        assert(before.order@[j as int] == cc);
                        assert(cc < e);
                    }
                    if is_clone[cc] {
                        has_clone = true;
                    } else {
                        has_normal = true;
                    }
                    j += 1;
                }
                proof {
                    assert(has_clone == has_member(group@, clones@));
                    assert(has_normal == has_non_member(group@, clones@));
                }
                if (seen_i && has_clone) || (seen_n && has_clone && has_normal) {
                    proof {
                        assert(!clone_scan(gs, clones@, false, false));
                        assert(!clone_scan(groups(self.order(k as int), self.tie(k as int)), clones@, false, false));
                        lemma_clone_scan(groups(self.order(k as int), self.tie(k as int)), clones@, false, false);
                    }
                    return false;
                }
                if has_clone {
                    seen_n = true;
                }
                if seen_n && has_normal {
                    seen_i = true;
                }
            }
            proof {
                lemma_groups_split(g_it.order);
            }
            k += 1;
        }
        proof {
            assert forall|k: int| 0 <= k < self.count() implies !#[trigger] splits(
                groups(self.order(k), self.tie(k)),
                clones@,
            ) by {
                lemma_clone_scan(groups(self.order(k), self.tie(k)), clones@, false, false);
            }
        }
        true
    }
}


/// Order `o` with tie flags `t` after element `n` is removed and the
/// elements above it move down by one. When `n` was ranked, its neighbours
/// become tied if both were tied with it.
pub open spec fn remove_one(o: Seq<usize>, t: Seq<bool>, n: usize) -> (Seq<usize>, Seq<bool>) {
    let o2 = remove_renumber(o, n);
    if o.contains(n) {
        let p = choose|p: int| 0 <= p < o.len() && o[p] == n;
        let t2 = if o.len() == 1 {
            Seq::empty()
        } else if p == 0 {
            t.skip(1)
        } else if p == o.len() - 1 {
            t.take(p - 1)
        } else {
            t.take(p - 1).push(t[p - 1] && t[p]) + t.skip(p + 1)
        };
        (o2, t2)
    } else {
        (o2, t)
    }
}

impl TiedOrdersIncomplete {
    /// The first `m` orders after element `n` is removed, without those
    /// that become empty.
    pub open spec fn removed(&self, n: usize, m: nat) -> Seq<(Seq<usize>, Seq<bool>)>
        decreases m,
    {
        if m == 0 {
            Seq::empty()
        } else {
            let prev = self.removed(n, (m - 1) as nat);
            let r = remove_one(self.order(m - 1), self.tie(m - 1), n);
            if r.0.len() > 0 {
                prev.push(r)
            } else {
                prev
            }
        }
    }

    /// A clone added to an order and then removed leaves the order as it
    /// was.
    proof fn lemma_clone_remove_one(o: Seq<usize>, t: Seq<bool>, n: usize, c: usize)
        requires
            is_chain(c as nat, o),
            o.len() >= 1,
            t.len() + 1 == o.len(),
        ensures
            remove_one(clone_order(o, t, n, c).0, clone_order(o, t, n, c).1, c) == (o, t),
    {
        if o.contains(n) {
            let p = choose|p: int| 0 <= p < o.len() && o[p] == n;
            let o2 = o.insert(p, c);
            let t2 = t.insert(p, true);
            assert(clone_order(o, t, n, c) == (o2, t2));
            assert(o2[p] == c);
            assert(o2.contains(c));
            let q = choose|q: int| 0 <= q < o2.len() && o2[q] == c;
            assert(q == p) by {
                if q < p {
                    assert(o2[q] == o[q]);
                } else if q > p {
                    assert(o2[q] == o[q - 1]);
                }
            }
            lemma_remove_renumber_insert(o, p, c);
            if p == 0 {
                assert(t2.skip(1) =~= t);
            } else {
                assert(p < o2.len() - 1);
                assert(t2.take(p - 1).push(t2[p - 1] && t2[p]) + t2.skip(p + 1) =~= t);
            }
        } else {
            assert(!o.contains(c));
            crate::strict::lemma_remove_renumber_above(o, c);
        }
    }

    /// The first `m` orders after a clone is added and removed again.
    proof fn lemma_clone_removed(t0: TiedOrdersIncomplete, t1: TiedOrdersIncomplete, n: usize, m: nat)
        requires
            t0.wf(),
            m <= t0.count(),
            t1.count() == t0.count(),
            forall|k: int| 0 <= k < t0.count() ==> (t1.order(k), t1.tie(k)) == clone_order(
                #[trigger] t0.order(k),
                t0.tie(k),
                n,
                t0.elements,
            ),
        ensures
            t1.removed(t0.elements, m) == Seq::new(m, |k: int| (t0.order(k), t0.tie(k))),
        decreases m,
    {
        if m > 0 {
            let k = m - 1;
            Self::lemma_clone_removed(t0, t1, n, (m - 1) as nat);
            t0.lemma_bounds(k);
            assert(is_chain(t0.elements as nat, t0.order(k)));
            assert((t1.order(k), t1.tie(k)) == clone_order(t0.order(k), t0.tie(k), n, t0.elements));
            Self::lemma_clone_remove_one(t0.order(k), t0.tie(k), n, t0.elements);
            assert(t1.removed(t0.elements, m) =~= Seq::new(m, |k: int| (t0.order(k), t0.tie(k))));
        }
    }

    /// Removes element `n`; the elements above it move down by one, and
    /// orders that ranked only `n` are dropped.
    pub fn remove_element(&mut self, n: usize) -> (res: Result<(), &'static str>)
        requires
            old(self).wf(),
            n < old(self).elements,
        ensures
            res is Ok,
            final(self).wf(),
            final(self).elements == old(self).elements - 1,
            final(self).count() == old(self).removed(n, old(self).count()).len(),
            forall|j: int| 0 <= j < final(self).count() ==> (#[trigger] final(self).order(j), final(self).tie(j))
                == old(self).removed(n, old(self).count())[j],
    {
        let new_elements = self.elements - 1;
        let count = self.order_len.len();
        let mut res = TiedOrdersIncomplete::new(new_elements);
        let mut it = self.iter();
        let mut k: usize = 0;
        let _ = self.orders.len();
        while k < count
            invariant
                self.wf(),
                count == self.count(),
                n < self.elements,
                new_elements == self.elements - 1,
                self.orders@.len() <= usize::MAX,
                it.orig == &*self,
                it.i == k,
                k <= count,
                it.start == start_of(self.order_len@, k as int),
                res.wf(),
                res.elements == new_elements,
                res.count() == self.removed(n, k as nat).len(),
                res.orders@.len() <= it.start,
                forall|j: int| 0 <= j < res.count() ==> (#[trigger] res.order(j), res.tie(j)) == self.removed(
                    n,
                    k as nat,
                )[j],
            decreases count - k,
        {
            proof {
                self.lemma_bounds(k as int);
                lemma_start_step(self.order_len@, k as int);
                lemma_start_mono(self.order_len@, k + 1, count as int);
                lemma_start_full(self.order_len@);
            }
            let r = it.next().unwrap();
            let ghost o = r.order@;
            let ghost t = r.tied@;
            let len = r.order.len();
            let mut new_order: Vec<usize> = Vec::new();
            let mut pos: usize = len;
            let mut i: usize = 0;
            while i < len
                invariant
                    len == o.len(),
                    o == r.order@,
                    i <= len,
                    new_order@ == remove_renumber(o.take(i as int), n),
                    pos <= len,
                    pos < i ==> o[pos as int] == n,
                    pos >= i ==> pos == len && !o.take(i as int).contains(n),
                decreases len - i,
            {
                proof {
                    assert(o.take(i + 1).drop_last() =~= o.take(i as int));
                }
                let v = r.order[i];
                if n < v {
                    new_order.push(v - 1);
                } else if n > v {
                    new_order.push(v);
                } else {
                    pos = i;
                }
                proof {
                    if pos >= i + 1 {
                        let tb = o.take(i + 1);
                        assert(!tb.contains(n)) by {
                            if tb.contains(n) {
                                let q = choose|q: int| 0 <= q < tb.len() && tb[q] == n;
                                if q < i {
                                    assert(o.take(i as int)[q] == n);
                                }
                            }
                        }
                    }
                }
                i += 1;
            }
            proof {
                assert(o.take(len as int) =~= o);
                lemma_remove_renumber_chain(o, n, self.elements as nat);
            }
            let mut new_tied: Vec<bool> = Vec::new();
            if pos < len {
                proof {
                    let p = choose|p: int| 0 <= p < o.len() && o[p] == n;
                    assert(p == pos) by {
                        if p != pos {
                            assert(o[p] != o[pos as int]);
                        }
                    }
                }
                let tl = r.tied.len();
                if len == 1 {
                } else if pos == 0 {
                    new_tied = crate::util::copy_bools(&r.tied[1..tl]);
                    proof {
                        assert(new_tied@ =~= t.skip(1));
                    }
                } else if pos == len - 1 {
                    new_tied = crate::util::copy_bools(&r.tied[0..pos - 1]);
                    proof {
                        assert(new_tied@ =~= t.take(pos - 1));
                    }
                } else {
                    let mut j: usize = 0;
                    while j < tl
                        invariant
                            tl == t.len(),
                            t == r.tied@,
                            t.len() + 1 == len,
                            0 < pos < len - 1,
                            j <= tl,
                            j < pos ==> new_tied@ == t.take(j as int),
                            j == pos ==> new_tied@ == t.take(pos - 1),
                            j > pos ==> new_tied@ == t.take(pos - 1).push(t[pos - 1] && t[pos as int]) + t.subrange(
                                pos + 1,
                                j as int,
                            ),
                        decreases tl - j,
                    {
                        if j + 1 < pos {
                            new_tied.push(r.tied[j]);
                            proof {
                                assert(new_tied@ =~= t.take(j + 1));
                            }
                        } else if j + 1 == pos {
                            proof {
                                assert(new_tied@ =~= t.take(pos - 1));
                            }
                        } else if j == pos {
                            new_tied.push(r.tied[pos - 1] && r.tied[pos]);
                            proof {
                                assert(new_tied@ =~= t.take(pos - 1).push(t[pos - 1] && t[pos as int]) + t.subrange(
                                    pos + 1,
                                    j + 1,
                                ));
                            }
                        } else {
                            new_tied.push(r.tied[j]);
                            proof {
                                assert(new_tied@ =~= t.take(pos - 1).push(t[pos - 1] && t[pos as int]) + t.subrange(
                                    pos + 1,
                                    j + 1,
                                ));
                            }
                        }
                        j += 1;
                    }
                    proof {
                        assert(t.subrange(pos + 1, tl as int) =~= t.skip(pos + 1));
                    }
                }
            } else {
                new_tied = crate::util::copy_bools(r.tied);
            }
            proof {
                assert((new_order@, new_tied@) == remove_one(o, t, n));
            }
            let ghost before = res;
            if new_order.len() > 0 {
                proof {
                    assert(new_tied@.len() + 1 == new_order@.len());
                }
                res.push_order(new_order.as_slice(), new_tied.as_slice());
                proof {
                    assert forall|j: int| 0 <= j < res.count() implies #[trigger] is_chain(res.elements as nat, res.order(j)) by {
                        if j < before.count() {
                            assert(res.order(j) == before.order(j));
                        }
                    }
                    assert forall|j: int| 0 <= j < res.count() implies (#[trigger] res.order(j), res.tie(j))
                        == self.removed(n, (k + 1) as nat)[j] by {
                        if j < before.count() {
                            assert(res.order(j) == before.order(j));
                            assert(res.tie(j) == before.tie(j));
                        }
                    }
                }
            }
            k += 1;
        }
        *self = res;
        Ok(())
    }
}


/// The orders of `v` that rank at least one element.
pub open spec fn nonempty_ranks(v: Seq<TiedRank>, m: nat) -> Seq<(Seq<usize>, Seq<bool>)>
    decreases m,
{
    if m == 0 {
        Seq::empty()
    } else {
        let prev = nonempty_ranks(v, (m - 1) as nat);
        if v[m - 1].order@.len() > 0 {
            prev.push((v[m - 1].order@, v[m - 1].tied@))
        } else {
            prev
        }
    }
}

/// The largest number of elements of the orders of `v` that rank at least
/// one element, or zero.
pub open spec fn max_elements(v: Seq<TiedRank>, m: nat) -> nat
    decreases m,
{
    if m == 0 {
        0
    } else {
        let prev = max_elements(v, (m - 1) as nat);
        if v[m - 1].order@.len() > 0 && v[m - 1].elements > prev {
            v[m - 1].elements as nat
        } else {
            prev
        }
    }
}

/// The total length of the orders of `v`.
pub open spec fn total_len(v: Seq<TiedRank>, m: nat) -> nat
    decreases m,
{
    if m == 0 {
        0
    } else {
        total_len(v, (m - 1) as nat) + v[m - 1].order@.len()
    }
}

proof fn lemma_max_elements_bound(v: Seq<TiedRank>, m: nat, k: int)
    requires
        0 <= k < m <= v.len(),
        v[k].order@.len() > 0,
    ensures
        v[k].elements <= max_elements(v, m),
    decreases m,
{
    if k < m - 1 {
        lemma_max_elements_bound(v, (m - 1) as nat, k);
    }
}

proof fn lemma_total_len_mono(v: Seq<TiedRank>, m: nat, k: nat)
    requires
        k <= m <= v.len(),
    ensures
        total_len(v, k) <= total_len(v, m),
    decreases m - k,
{
    if k < m {
        lemma_total_len_mono(v, (m - 1) as nat, k);
    }
}

impl TiedOrdersIncomplete {
    /// Adds `new_orders` random orders: each ranks a random number (at least
    /// one) of distinct elements in random order, with random ties. Nothing
    /// is added when there are no elements.
    pub fn generate_uniform(&mut self, rng: &mut StdRng, new_orders: usize)
        requires
            old(self).wf(),
            old(self).orders@.len() + new_orders * old(self).elements <= usize::MAX,
        ensures
            final(self).wf(),
            final(self).elements == old(self).elements,
            old(self).elements == 0 ==> *final(self) == *old(self),
            old(self).elements > 0 ==> final(self).count() == old(self).count() + new_orders,
            forall|k: int| 0 <= k < old(self).count() ==> #[trigger] final(self).order(k) == old(self).order(k),
            forall|k: int| 0 <= k < old(self).count() ==> #[trigger] final(self).tie(k) == old(self).tie(k),
            forall|k: int| old(self).count() <= k < final(self).count() ==> 1 <= #[trigger] final(self).order(k).len()
                <= old(self).elements,
    {
        if self.elements == 0 {
            return;
        }
        let e = self.elements;
        let mut v = crate::strict::Total::new_default(e).into_inner();
        let mut m: usize = 0;
        while m < new_orders
            invariant
                self.wf(),
                e == self.elements,
                e == old(self).elements,
                e > 0,
                m <= new_orders,
                crate::strict::is_total(v@),
                v@.len() == e,
                self.count() == old(self).count() + m,
                self.orders@.len() <= old(self).orders@.len() + m * e,
                old(self).orders@.len() + new_orders * e <= usize::MAX,
                forall|k: int| 0 <= k < old(self).count() ==> #[trigger] self.order(k) == old(self).order(k),
                forall|k: int| 0 <= k < old(self).count() ==> #[trigger] self.tie(k) == old(self).tie(k),
                forall|k: int| old(self).count() <= k < self.count() ==> 1 <= #[trigger] self.order(k).len() <= e,
            decreases new_orders - m,
        {
            let len = random_below(rng, e) + 1;
            let ghost v0 = v@;
            shuffle(rng, &mut v);
            proof {
                lemma_multiset_chain(v0, v@, e as nat);
            }
            let part = &v.as_slice()[0..len];
            let mut tied: Vec<bool> = Vec::new();
            let mut j: usize = 0;
            while j + 1 < len
                invariant
                    j + 1 <= len,
                    tied@.len() == j,
                decreases len - j,
            {
                tied.push(random_bool(rng));
                j += 1;
            }
            proof {
                assert((m + 1) * e == m * e + e) by (nonlinear_arith);
                assert((m + 1) * e <= new_orders * e) by (nonlinear_arith)
                    requires
                        m < new_orders,
                ;
                assert(is_chain(e as nat, part@)) by {
                    assert forall|a: int, b: int| 0 <= a < part@.len() && 0 <= b < part@.len() && a != b implies part@[a]
                        != part@[b] by {
                        assert(v@[a] != v@[b]);
                    }
                    assert forall|a: int| 0 <= a < part@.len() implies part@[a] < e by {
                        assert(v@[a] < e);
                    }
                }
            }
            let ghost before = *self;
            self.push_order(part, tied.as_slice());
            proof {
                assert forall|k: int| 0 <= k < self.count() implies #[trigger] is_chain(self.elements as nat, self.order(k)) by {
                    if k < before.count() {
                        assert(self.order(k) == before.order(k));
                    }
                }
                assert forall|k: int| old(self).count() <= k < self.count() implies 1 <= #[trigger] self.order(k).len() <= e by {
                    if k < before.count() {
                        assert(self.order(k) == before.order(k));
                    }
                }
            }
            m += 1;
        }
    }

    /// A collection of the orders of `v` that rank at least one element,
    /// over the largest number of elements among them.
    pub fn from_iter(v: Vec<TiedRank>) -> (res: Self)
        requires
            forall|i: int| 0 <= i < v@.len() ==> #[trigger] v@[i].valid(),
            total_len(v@, v@.len()) <= usize::MAX,
        ensures
            res.wf(),
            res.elements == max_elements(v@, v@.len()),
            res.count() == nonempty_ranks(v@, v@.len()).len(),
            forall|j: int| 0 <= j < res.count() ==> (#[trigger] res.order(j), res.tie(j)) == nonempty_ranks(
                v@,
                v@.len(),
            )[j],
    {
        let n = v.len();
        let mut max: usize = 0;
        let mut i: usize = 0;
        while i < n
            invariant
                n == v@.len(),
                i <= n,
                max == max_elements(v@, i as nat),
            decreases n - i,
        {
            if v[i].order.len() > 0 && v[i].elements > max {
                max = v[i].elements;
            }
            i += 1;
        }
        let mut res = TiedOrdersIncomplete::new(max);
        let mut i: usize = 0;
        while i < n
            invariant
                n == v@.len(),
                i <= n,
                forall|k: int| 0 <= k < v@.len() ==> #[trigger] v@[k].valid(),
                total_len(v@, n as nat) <= usize::MAX,
                max == max_elements(v@, n as nat),
                res.wf(),
                res.elements == max,
                res.orders@.len() <= total_len(v@, i as nat),
                res.count() == nonempty_ranks(v@, i as nat).len(),
                forall|j: int| 0 <= j < res.count() ==> (#[trigger] res.order(j), res.tie(j)) == nonempty_ranks(
                    v@,
                    i as nat,
                )[j],
            decreases n - i,
        {
            let r = &v[i];
            proof {
                lemma_total_len_mono(v@, n as nat, (i + 1) as nat);
                assert(v@[i as int].valid());
            }
            if r.order.len() > 0 {
                proof {
                    lemma_max_elements_bound(v@, n as nat, i as int);
                    assert(is_chain(max as nat, r.order@)) by {
                        assert forall|a: int| 0 <= a < r.order@.len() implies r.order@[a] < max by {
                            assert(r.order@[a] < r.elements);
                        }
                    }
                }
                let ghost before = res;
                res.push_order(r.order.as_slice(), r.tied.as_slice());
                proof {
                    assert forall|k: int| 0 <= k < res.count() implies #[trigger] is_chain(res.elements as nat, res.order(k)) by {
                        if k < before.count() {
                            assert(res.order(k) == before.order(k));
                        }
                    }
                    assert forall|j: int| 0 <= j < res.count() implies (#[trigger] res.order(j), res.tie(j))
                        == nonempty_ranks(v@, (i + 1) as nat)[j] by {
                        if j < before.count() {
                            assert(res.order(j) == before.order(j));
                            assert(res.tie(j) == before.tie(j));
                        }
                    }
                }
            }
            i += 1;
        }
        res
    }
}


/// Order `o` over `e` elements made complete: the unranked elements follow,
/// in increasing order.
pub open spec fn completed_order(o: Seq<usize>, e: nat) -> Seq<usize> {
    if o.len() == e {
        o
    } else {
        o + missing(o, e)
    }
}

/// The tie flags of order `o` with flags `t` made complete: the added
/// elements are tied with each other but not with the last ranked one.
pub open spec fn completed_tie(o: Seq<usize>, t: Seq<bool>, e: nat) -> Seq<bool> {
    if o.len() == e {
        t
    } else {
        let base = if o.len() > 0 {
            t.push(false)
        } else {
            t
        };
        Seq::new((e - 1) as nat, |i: int| if i < base.len() { base[i] } else { true })
    }
}

/// The score of the element at position `p` of a complete order over `e`
/// elements with tie flags `t`, out of `e - 1`: its group counted from the
/// lowest possible, scaled.
pub open spec fn high_score(t: Seq<bool>, p: int, e: nat) -> int {
    ((e - 1 - group_index(t, p)) * (e - 1)) / (e as int)
}

impl TiedOrdersIncomplete {
    /// Scores every order: it is made complete (the unranked elements
    /// follow, tied with each other), and the elements of each group get
    /// `(elements - 1 - group) * (elements - 1) / elements`. Fails only if
    /// memory for an order could not be reserved.
    pub fn to_cardinal(self) -> (res: Result<CardinalDense, &'static str>)
        requires
            self.wf(),
            self.elements > 0,
            self.elements * (self.elements - 1) <= usize::MAX,
        ensures
            res is Err ==> res == Err::<CardinalDense, &'static str>("Could not add order"),
            res matches Ok(c) ==> c.wf() && c.elements == self.elements && c.min == 0 && c.max == self.elements - 1
                && c.num_orders() == self.count(),
            res matches Ok(c) ==> forall|k: int, p: int|
                0 <= k < self.count() && 0 <= p < self.elements ==> #[trigger] c.order(k)[completed_order(
                    self.order(k),
                    self.elements as nat,
                )[p] as int] == high_score(
                    completed_tie(self.order(k), self.tie(k), self.elements as nat),
                    p,
                    self.elements as nat,
                ),
    {
        let e = self.elements;
        let max = e - 1;
        let mut v = TiedRank::new_tied(e);
        let mut rank = zeros(e);
        let mut out = CardinalDense::new(e, 0, max);
        let count = self.order_len.len();
        let mut it = self.iter();
        let mut k: usize = 0;
        while k < count
            invariant
                self.wf(),
                e == self.elements,
                e > 0,
                max == e - 1,
                e * (e - 1) <= usize::MAX,
                count == self.count(),
                it.orig == &self,
                it.i == k,
                k <= count,
                it.start == start_of(self.order_len@, k as int),
                rank@.len() == e,
                out.wf(),
                out.elements == e,
                out.min == 0,
                out.max == max,
                out.num_orders() == k,
                forall|j: int, p: int|
                    0 <= j < k && 0 <= p < e ==> #[trigger] out.order(j)[completed_order(self.order(j), e as nat)[p] as int]
                        == high_score(completed_tie(self.order(j), self.tie(j), e as nat), p, e as nat),
            decreases count - k,
        {
            let r = it.next().unwrap();
            v.copy_from(r);
            v.make_complete(false);
            let ghost o = r.order@;
            let ghost t = r.tied@;
            proof {
                assert(v.order@ == completed_order(o, e as nat));
                assert(v.tied@ =~= completed_tie(o, t, e as nat)) by {
                    if o.len() != e {
                        assert(v.tied@.len() == e - 1);
                    }
                }
            }
            let vr = v.as_ref();
            proof {
                crate::tied::lemma_group_index_mono(v.tied@, 0, e - 1);
                lemma_group_count_bound(v.tied@, e as nat);
            }
            vr.cardinal_high(rank.as_mut_slice(), 0, max);
            let ghost before = out;
            match out.add(CardinalRef::new(rank.as_slice())) {
                Ok(()) => {},
                Err(msg) => {
                    return Err(msg);
                },
            }
            proof {
                crate::util::lemma_div_exact(before.orders@.len() as int, e as int);
                crate::util::lemma_div_add_block(before.orders@.len() as int, e as int);
                assert forall|j: int, p: int|
                    0 <= j < k + 1 && 0 <= p < e implies #[trigger] out.order(j)[completed_order(self.order(j), e as nat)[p] as int]
                    == high_score(completed_tie(self.order(j), self.tie(j), e as nat), p, e as nat) by {
                    if j < k {
                        before.lemma_order_len(j);
                        assert(out.order(j) =~= before.order(j));
                    } else {
                        assert(out.order(j) =~= rank@);
                        assert(v.order@[p] < e);
                    }
                }
            }
            let mut x: usize = 0;
            while x < e
                invariant
                    x <= e,
                    rank@.len() == e,
                decreases e - x,
            {
                rank.set(x, 0);
                x += 1;
            }
            k += 1;
        }
        Ok(out)
    }
}

proof fn lemma_group_count_bound(t: Seq<bool>, e: nat)
    requires
        e > 0,
    ensures
        crate::tied::group_count(t, e) <= e,
{
    crate::tied::lemma_group_index_mono(t, 0, e - 1);
}

/// Adding a clone of an element and then removing the clone gives the
/// collection back: `t1` is what `add_clone(n)` makes of `t0`, and
/// `remove_element(t0.elements)` on `t1` keeps exactly the orders and ties
/// of `t0`, over `t0.elements` elements.
pub proof fn clone_remove(t0: TiedOrdersIncomplete, t1: TiedOrdersIncomplete, n: usize)
    requires
        t0.wf(),
        t1.elements == t0.elements + 1,
        t1.count() == t0.count(),
        forall|k: int| 0 <= k < t0.count() ==> (t1.order(k), t1.tie(k)) == clone_order(
            #[trigger] t0.order(k),
            t0.tie(k),
            n,
            t0.elements,
        ),
    ensures
        t0.elements < t1.elements,
        t1.elements - 1 == t0.elements,
        t1.removed(t0.elements, t1.count()).len() == t0.count(),
        forall|k: int| 0 <= k < t0.count() ==> #[trigger] t1.removed(t0.elements, t1.count())[k] == (
            t0.order(k),
            t0.tie(k),
        ),
{
    TiedOrdersIncomplete::lemma_clone_removed(t0, t1, n, t0.count());
}

/// `c` is listed in order `o` with every tie flag before it set: it lies in
/// the highest ranked group.
pub open spec fn tied_at_top(o: Seq<usize>, t: Seq<bool>, c: usize) -> bool {
    exists|p: int| 0 <= p < o.len() && o[p] == c && forall|q: int| 0 <= q < p ==> #[trigger] t[q]
}

/// The highest ranked group of an order holds exactly the elements that
/// are tied with its first element.
proof fn lemma_top_group(o: Seq<usize>, t: Seq<bool>, c: usize)
    requires
        t.len() + 1 == o.len(),
    ensures
        top_group(o, t).contains(c) == tied_at_top(o, t, c),
{
    crate::tied::lemma_lead_true(t);
    let l = crate::tied::lead_true(t);
    let g = top_group(o, t);
    assert(winner_len(o, t) == l + 1);
    if g.contains(c) {
        let p = choose|p: int| 0 <= p < g.len() && g[p] == c;
        assert(o[p] == c);
        assert(forall|q: int| 0 <= q < p ==> #[trigger] t[q]);
    }
    if tied_at_top(o, t, c) {
        let p = choose|p: int| 0 <= p < o.len() && o[p] == c && forall|q: int| 0 <= q < p ==> #[trigger] t[q];
        if p > l {
            assert(t[l as int]);
        }
        assert(g[p] == c);
    }
}

/// The number of the first `m` orders that count `c` as first is the
/// number of those orders in which `c` is tied with the first element
/// (it lies in their highest ranked group).
pub proof fn firsts_counts(data: TiedOrdersIncomplete, c: usize, m: nat)
    requires
        data.wf(),
        m <= data.count(),
    ensures
        data.firsts(c, m) == Seq::new(m, |i: int| i).filter(|i: int| tied_at_top(data.order(i), data.tie(i), c)).len(),
    decreases m,
{
    reveal(Seq::filter);
    if m > 0 {
        firsts_counts(data, c, (m - 1) as nat);
        data.lemma_bounds(m - 1);
        lemma_top_group(data.order(m - 1), data.tie(m - 1), c);
        let s = Seq::new(m, |i: int| i);
        assert(s.drop_last() =~= Seq::new((m - 1) as nat, |i: int| i));
        assert(s.last() == m - 1);
    }
}

} // verus!
