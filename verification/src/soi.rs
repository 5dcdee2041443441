//! # Strict orders, incomplete lists
//!
//! A packed collection of orders without ties, each ranking some of the
//! elements, stored back to back.
use rand::rngs::StdRng;
use vstd::prelude::*;
use vstd::string::StringSliceAdditionalSpecFns;

use crate::random::{random_below, shuffle};
use crate::rank::{parse_numbers, parse_rank_spec, RankRef};
use crate::strict::{is_chain, lemma_multiset_chain, lemma_remove_renumber_chain, remove_renumber};
use crate::soc::StrictOrdersComplete;
use crate::toi::{lemma_start_full, lemma_start_mono, lemma_start_push, lemma_start_step, lemma_uniform_starts, start_of, sum_lens};
use crate::util::{copy_usizes, unique, unique_and_bounded};

verus! {

broadcast use vstd::seq_lib::group_seq_properties;

/// SOI: strict orders, incomplete lists.
#[derive(Clone, Debug)]
pub struct StrictOrdersIncomplete {
    /// The orders, back to back.
    pub orders: Vec<usize>,
    /// The length of each order.
    pub order_len: Vec<usize>,
    pub elements: usize,
}

impl StrictOrdersIncomplete {
    /// The number of orders.
    pub open spec fn count(&self) -> nat {
        self.order_len@.len()
    }

    /// Order `k`.
    pub open spec fn order(&self, k: int) -> Seq<usize> {
        self.orders@.subrange(
            start_of(self.order_len@, k) as int,
            start_of(self.order_len@, k) + self.order_len@[k],
        )
    }

    /// The orders fill the vector, and each lists distinct elements below
    /// `elements`.
    pub open spec fn wf(&self) -> bool {
        &&& self.orders@.len() == sum_lens(self.order_len@)
        &&& forall|k: int| 0 <= k < self.count() ==> #[trigger] is_chain(self.elements as nat, self.order(k))
    }

    /// Order `k` lies within the vector.
    pub proof fn lemma_bounds(&self, k: int)
        requires
            self.orders@.len() == sum_lens(self.order_len@),
            0 <= k < self.count(),
        ensures
            start_of(self.order_len@, k) + self.order_len@[k] <= self.orders@.len(),
            self.order(k).len() == self.order_len@[k],
    {
        let lens = self.order_len@;
        lemma_start_step(lens, k);
        lemma_start_mono(lens, k + 1, lens.len() as int);
        lemma_start_full(lens);
    }

    /// An empty collection over `elements` elements.
    pub fn new(elements: usize) -> (res: Self)
        ensures
            res.wf(),
            res.elements == elements,
            res.count() == 0,
    {
        StrictOrdersIncomplete { orders: Vec::new(), order_len: Vec::new(), elements }
    }

    pub fn elements(&self) -> (res: usize)
        ensures
            res == self.elements,
    {
        self.elements
    }

    /// The number of elements.
    pub fn candidates(&self) -> (res: usize)
        ensures
            res == self.elements,
    {
        self.elements
    }

    /// The number of orders.
    pub fn orders_count(&self) -> (res: usize)
        ensures
            res == self.count(),
    {
        self.order_len.len()
    }

    /// The orders of `value`, each listing every element.
    pub fn from_complete(value: StrictOrdersComplete) -> (res: StrictOrdersIncomplete)
        requires
            value.wf(),
            value.elements > 0,
        ensures
            res.wf(),
            res.elements == value.elements,
            res.count() == value.count(),
            forall|k: int| 0 <= k < value.count() ==> #[trigger] res.order(k) == value.order(k),
    {
        let e = value.elements;
        let n = value.orders();
        let order_len = crate::util::repeated(e, n);
        proof {
            lemma_uniform_starts(order_len@, e);
            crate::util::lemma_div_exact(value.orders@.len() as int, e as int);
        }
        let res = StrictOrdersIncomplete { orders: value.orders, order_len, elements: e };
        proof {
            assert forall|k: int| 0 <= k < value.count() implies #[trigger] res.order(k) == value.order(k) by {
                assert(start_of(res.order_len@, k) == k * e);
            }
            assert forall|k: int| 0 <= k < res.count() implies #[trigger] is_chain(e as nat, res.order(k)) by {
                assert(res.order(k) == value.order(k));
            }
        }
        res
    }

    /// The number of orders.
    pub fn voters(&self) -> (res: usize)
        ensures
            res == self.count(),
    {
        self.order_len.len()
    }

    /// Appends `order`.
    fn push_order(&mut self, order: &[usize])
        requires
            old(self).orders@.len() == sum_lens(old(self).order_len@),
            old(self).orders@.len() + order@.len() <= usize::MAX,
        ensures
            final(self).orders@.len() == sum_lens(final(self).order_len@),
            final(self).elements == old(self).elements,
            final(self).count() == old(self).count() + 1,
            forall|k: int| 0 <= k < old(self).count() ==> #[trigger] final(self).order(k) == old(self).order(k),
            final(self).order(old(self).count() as int) == order@,
            final(self).orders@ == old(self).orders@ + order@,
    {
        let ghost lens0 = self.order_len@;
        let n = order.len();
        let mut i: usize = 0;
        while i < n
            invariant
                n == order@.len(),
                i <= n,
                self.orders@ == old(self).orders@ + order@.take(i as int),
                self.order_len@ == lens0,
                self.elements == old(self).elements,
            decreases n - i,
        {
            self.orders.push(order[i]);
            i += 1;
            proof {
                assert(self.orders@ =~= old(self).orders@ + order@.take(i as int));
            }
        }
        self.order_len.push(n);
        proof {
            assert(order@.take(n as int) =~= order@);
            let lens = self.order_len@;
            let c = lens0.len() as int;
            assert(lens.drop_last() =~= lens0);
            lemma_start_full(lens0);
            lemma_start_full(lens);
            assert forall|k: int| 0 <= k < c implies #[trigger] self.order(k) == old(self).order(k) by {
                lemma_start_push(lens0, n, k);
                lemma_start_push(lens0, n, k + 1);
                old(self).lemma_bounds(k);
                assert(self.order(k) =~= old(self).order(k));
            }
            lemma_start_push(lens0, n, c);
            assert(self.order(c) =~= order@);
        }
    }

    /// Adds the order `v`, which must list distinct elements below
    /// `elements`.
    pub fn add(&mut self, v: RankRef) -> (res: Result<(), &'static str>)
        requires
            old(self).wf(),
            is_chain(old(self).elements as nat, v.order@),
            old(self).orders@.len() + v.order@.len() <= usize::MAX,
        ensures
            res is Ok,
            final(self).wf(),
            final(self).elements == old(self).elements,
            final(self).count() == old(self).count() + 1,
            forall|k: int| 0 <= k < old(self).count() ==> #[trigger] final(self).order(k) == old(self).order(k),
            final(self).order(old(self).count() as int) == v.order@,
            final(self).orders@.len() == old(self).orders@.len() + v.order@.len(),
    {
        self.push_order(v.order);
        proof {
            assert forall|k: int| 0 <= k < self.count() implies #[trigger] is_chain(self.elements as nat, self.order(k)) by {
                if k < old(self).count() {
                    assert(is_chain(old(self).elements as nat, old(self).order(k)));
                }
            }
        }
        Ok(())
    }

    /// Adds an order read from comma separated numbers, such as `2,0,1`.
    /// Returns whether `s` was such an order: every number below
    /// `elements`, none twice.
    pub fn add_from_str(&mut self, s: &str) -> (res: bool)
        requires
            old(self).wf(),
            old(self).orders@.len() + old(self).elements <= usize::MAX,
        ensures
            final(self).wf(),
            final(self).elements == old(self).elements,
            res == parse_rank_spec(old(self).elements, s.spec_bytes()) is Some,
            !res ==> *final(self) == *old(self),
            res ==> final(self).count() == old(self).count() + 1,
            res ==> forall|k: int| 0 <= k < old(self).count() ==> #[trigger] final(self).order(k) == old(self).order(k),
            res ==> parse_rank_spec(old(self).elements, s.spec_bytes()) == Some(final(self).order(old(self).count() as int)),
    {
        let order = match parse_numbers(self.elements, s.as_bytes()) {
            Some(order) => order,
            None => return false,
        };
        if !unique_and_bounded(self.elements, order.as_slice()) {
            return false;
        }
        proof {
            crate::tied::lemma_distinct_below_len(order@, self.elements as nat);
        }
        let _ = self.add(RankRef::new(self.elements, order.as_slice()));
        true
    }

    /// Returns true iff the orders fill the vector and each lists distinct
    /// elements below `elements`.
    pub fn valid(&self) -> (res: bool)
        ensures
            res == self.wf(),
    {
        let _ = self.orders.len();
        let c = self.order_len.len();
        let mut total: usize = 0;
        let mut k: usize = 0;
        while k < c
            invariant
                c == self.order_len@.len(),
                k <= c,
                total == start_of(self.order_len@, k as int),
                total <= self.orders@.len(),
                self.orders@.len() <= usize::MAX,
            decreases c - k,
        {
            proof {
                lemma_start_step(self.order_len@, k as int);
            }
            if self.order_len[k] > self.orders.len() - total {
                proof {
                    lemma_start_mono(self.order_len@, k + 1, c as int);
                    lemma_start_full(self.order_len@);
                }
                return false;
            }
            total += self.order_len[k];
            k += 1;
        }
        proof {
            lemma_start_full(self.order_len@);
        }
        if total != self.orders.len() {
            return false;
        }
        let mut start: usize = 0;
        let mut k: usize = 0;
        while k < c
            invariant
                c == self.count(),
                self.orders@.len() == sum_lens(self.order_len@),
                self.orders@.len() <= usize::MAX,
                k <= c,
                start == start_of(self.order_len@, k as int),
                forall|j: int| 0 <= j < k ==> #[trigger] is_chain(self.elements as nat, self.order(j)),
            decreases c - k,
        {
            proof {
                self.lemma_bounds(k as int);
                lemma_start_step(self.order_len@, k as int);
            }
            let len = self.order_len[k];
            let o = &self.orders.as_slice()[start..start + len];
            proof {
                assert(o@ =~= self.order(k as int));
            }
            if !unique_and_bounded(self.elements, o) {
                proof {
                    assert(!is_chain(self.elements as nat, self.order(k as int)));
                }
                return false;
            }
            start = start + len;
            k += 1;
        }
        true
    }

    /// Order `i`.
    pub fn order_i(&self, i: usize) -> (res: RankRef<'_>)
        requires
            self.wf(),
            i < self.count(),
        ensures
            res.elements == self.elements,
            res.order@ == self.order(i as int),
            is_chain(res.elements as nat, res.order@),
    {
        let _ = self.orders.len();
        let mut start: usize = 0;
        let mut k: usize = 0;
        while k < i
            invariant
                self.wf(),
                self.orders@.len() <= usize::MAX,
                i < self.count(),
                k <= i,
                start == start_of(self.order_len@, k as int),
            decreases i - k,
        {
            proof {
                self.lemma_bounds(k as int);
                lemma_start_step(self.order_len@, k as int);
            }
            start += self.order_len[k];
            k += 1;
        }
        proof {
            self.lemma_bounds(i as int);
            assert(is_chain(self.elements as nat, self.order(i as int)));
        }
        let len = self.order_len[i];
        RankRef::new(self.elements, &self.orders.as_slice()[start..start + len])
    }

    /// Order `i`.
    pub fn vote_i(&self, i: usize) -> (res: RankRef<'_>)
        requires
            self.wf(),
            i < self.count(),
        ensures
            res.elements == self.elements,
            res.order@ == self.order(i as int),
            is_chain(res.elements as nat, res.order@),
    {
        self.order_i(i)
    }

    /// The orders, one at a time.
    pub fn iter(&self) -> (res: StrictOrdersIncompleteIterator<'_>)
        ensures
            res.orig == self,
            res.i == 0,
            res.start == 0,
    {
        StrictOrdersIncompleteIterator { orig: self, i: 0, start: 0 }
    }
}

/// The orders of a collection, one at a time.
pub struct StrictOrdersIncompleteIterator<'a> {
    pub orig: &'a StrictOrdersIncomplete,
    pub i: usize,
    pub start: usize,
}

impl<'a> StrictOrdersIncompleteIterator<'a> {
    /// The next order, or `None` after the last.
    pub fn next(&mut self) -> (res: Option<&'a [usize]>)
        requires
            old(self).orig.wf(),
            old(self).i <= old(self).orig.count(),
            old(self).start == start_of(old(self).orig.order_len@, old(self).i as int),
        ensures
            final(self).orig == old(self).orig,
            final(self).i <= final(self).orig.count(),
            final(self).start == start_of(final(self).orig.order_len@, final(self).i as int),
            old(self).i == old(self).orig.count() ==> res is None && final(self).i == old(self).i,
            old(self).i < old(self).orig.count() ==> final(self).i == old(self).i + 1 && (res matches Some(r) && r@
                == old(self).orig.order(old(self).i as int)),
    {
        if self.i == self.orig.order_len.len() {
            return None;
        }
        let i = self.i;
        let start = self.start;
        let _ = self.orig.orders.len();
        proof {
            self.orig.lemma_bounds(i as int);
            lemma_start_step(self.orig.order_len@, i as int);
        }
        let len = self.orig.order_len[i];
        let o = &self.orig.orders.as_slice()[start..start + len];
        self.i = i + 1;
        self.start = start + len;
        Some(o)
    }

    /// The number of orders left, exactly.
    pub fn size_hint(&self) -> (res: (usize, Option<usize>))
        requires
            self.i <= self.orig.count(),
        ensures
            res == ((self.orig.count() - self.i) as usize, Some((self.orig.count() - self.i) as usize)),
    {
        let remaining = self.orig.order_len.len() - self.i;
        (remaining, Some(remaining))
    }
}


impl StrictOrdersIncomplete {
    /// The first `m` orders after element `n` is removed (the elements above
    /// it move down by one), without those that are empty.
    pub open spec fn removed(&self, n: usize, m: nat) -> Seq<Seq<usize>>
        decreases m,
    {
        if m == 0 {
            Seq::empty()
        } else {
            let prev = self.removed(n, (m - 1) as nat);
            let r = remove_renumber(self.order(m - 1), n);
            if r.len() > 0 {
                prev.push(r)
            } else {
                prev
            }
        }
    }

    /// Removes element `target`: it leaves every order, the elements above
    /// it move down by one, orders left empty are dropped, and the
    /// collection has one element fewer. A `target` that is not an element
    /// changes nothing.
    pub fn remove_element(&mut self, target: usize) -> (res: Result<(), &'static str>)
        requires
            old(self).wf(),
        ensures
            res is Ok,
            final(self).wf(),
            target >= old(self).elements ==> final(self).orders@ == old(self).orders@ && final(self).order_len@
                == old(self).order_len@ && final(self).elements == old(self).elements,
            target < old(self).elements ==> final(self).elements == old(self).elements - 1,
            target < old(self).elements ==> final(self).count() == old(self).removed(target, old(self).count()).len(),
            target < old(self).elements ==> forall|j: int|
                0 <= j < final(self).count() ==> #[trigger] final(self).order(j) == old(self).removed(
                    target,
                    old(self).count(),
                )[j],
    {
        if target >= self.elements {
            return Ok(());
        }
        let count = self.order_len.len();
        let mut res = StrictOrdersIncomplete::new(self.elements - 1);
        let mut it = self.iter();
        let _ = self.orders.len();
        let mut k: usize = 0;
        while k < count
            invariant
                self.wf(),
                count == self.count(),
                self.orders@.len() <= usize::MAX,
                it.orig == &*self,
                it.i == k,
                k <= count,
                it.start == start_of(self.order_len@, k as int),
                res.wf(),
                target < self.elements,
                res.elements == self.elements - 1,
                res.count() == self.removed(target, k as nat).len(),
                res.orders@.len() <= it.start,
                forall|j: int| 0 <= j < res.count() ==> #[trigger] res.order(j) == self.removed(target, k as nat)[j],
            decreases count - k,
        {
            proof {
                self.lemma_bounds(k as int);
                lemma_start_step(self.order_len@, k as int);
                lemma_start_mono(self.order_len@, k + 1, count as int);
                lemma_start_full(self.order_len@);
                assert(is_chain(self.elements as nat, self.order(k as int)));
            }
            let o = it.next().unwrap();
            let len = o.len();
            let mut new_order: Vec<usize> = Vec::new();
            let mut i: usize = 0;
            while i < len
                invariant
                    len == o@.len(),
                    i <= len,
                    new_order@ == remove_renumber(o@.take(i as int), target),
                decreases len - i,
            {
                proof {
                    assert(o@.take(i + 1).drop_last() =~= o@.take(i as int));
                }
                let v = o[i];
                if target < v {
                    new_order.push(v - 1);
                } else if target > v {
                    new_order.push(v);
                }
                i += 1;
            }
            proof {
                assert(o@.take(len as int) =~= o@);
                lemma_remove_renumber_chain(o@, target, self.elements as nat);
                crate::tied::lemma_distinct_below_len(o@, self.elements as nat);
            }
            if new_order.len() > 0 {
                let ghost before = res;
                proof {
                    assert(new_order@.len() <= o@.len());
                }
                res.push_order(new_order.as_slice());
                proof {
                    assert forall|j: int| 0 <= j < res.count() implies #[trigger] is_chain(res.elements as nat, res.order(j)) by {
                        if j < before.count() {
                            assert(res.order(j) == before.order(j));
                        } else {
                            assert(res.order(j) == new_order@);
                            assert forall|a: int| 0 <= a < new_order@.len() implies new_order@[a] < res.elements by {
                                assert(new_order@[a] < self.elements - 1);
                            }
                        }
                    }
                    assert forall|j: int| 0 <= j < res.count() implies #[trigger] res.order(j) == self.removed(
                        target,
                        (k + 1) as nat,
                    )[j] by {
                        if j < before.count() {
                            assert(res.order(j) == before.order(j));
                        }
                    }
                }
            }
            k += 1;
        }
        *self = res;
        Ok(())
    }

    /// Adds `new_orders` random orders: each ranks a random number (at least
    /// one) of distinct elements in random order. Nothing is added when there
    /// are no elements.
    pub fn generate_uniform(&mut self, rng: &mut StdRng, new_orders: usize)
        requires
            old(self).wf(),
            old(self).orders@.len() + new_orders * old(self).elements <= usize::MAX,
        ensures
            final(self).wf(),
            final(self).elements == old(self).elements,
            old(self).elements == 0 ==> *final(self) == *old(self),
            old(self).elements > 0 ==> final(self).count() == old(self).count() + new_orders,
            forall|k: int| 0 <= k < old(self).count() ==> #[trigger] final(self).order(k) == old(self).order(k),
            forall|k: int| old(self).count() <= k < final(self).count() ==> 1 <= #[trigger] final(self).order(k).len()
                <= old(self).elements,
    {
        if self.elements == 0 {
            return;
        }
        let e = self.elements;
        let mut v = crate::strict::Total::new_default(e).into_inner();
        let mut m: usize = 0;
        while m < new_orders
            invariant
                self.wf(),
                e == self.elements,
                e == old(self).elements,
                e > 0,
                m <= new_orders,
                crate::strict::is_total(v@),
                v@.len() == e,
                self.count() == old(self).count() + m,
                self.orders@.len() <= old(self).orders@.len() + m * e,
                old(self).orders@.len() + new_orders * e <= usize::MAX,
                forall|k: int| 0 <= k < old(self).count() ==> #[trigger] self.order(k) == old(self).order(k),
                forall|k: int| old(self).count() <= k < self.count() ==> 1 <= #[trigger] self.order(k).len() <= e,
            decreases new_orders - m,
        {
            let len = random_below(rng, e) + 1;
            let ghost v0 = v@;
            shuffle(rng, &mut v);
            proof {
                lemma_multiset_chain(v0, v@, e as nat);
            }
            let part = &v.as_slice()[0..len];
            proof {
                assert((m + 1) * e == m * e + e) by (nonlinear_arith);
                assert((m + 1) * e <= new_orders * e) by (nonlinear_arith)
                    requires
                        m < new_orders,
                ;
                assert(is_chain(e as nat, part@)) by {
                    assert forall|a: int, b: int| 0 <= a < part@.len() && 0 <= b < part@.len() && a != b implies part@[a]
                        != part@[b] by {
                        assert(v@[a] != v@[b]);
                    }
                    assert forall|a: int| 0 <= a < part@.len() implies part@[a] < e by {
                        assert(v@[a] < e);
                    }
                }
            }
            let ghost before = *self;
            self.push_order(part);
            proof {
                assert forall|k: int| 0 <= k < self.count() implies #[trigger] is_chain(self.elements as nat, self.order(k)) by {
                    if k < before.count() {
                        assert(self.order(k) == before.order(k));
                    }
                }
                assert forall|k: int| old(self).count() <= k < self.count() implies 1 <= #[trigger] self.order(k).len() <= e by {
                    if k < before.count() {
                        assert(self.order(k) == before.order(k));
                    }
                }
            }
            m += 1;
        }
    }
}

} // verus!
