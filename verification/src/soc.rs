//! # Strict orders, complete lists
//!
//! A packed collection of orders without ties, each a permutation of all
//! the elements, stored back to back.
use rand::rngs::StdRng;
use vstd::prelude::*;
use vstd::string::StringSliceAdditionalSpecFns;

use crate::random::shuffle;
use crate::rank::{parse_numbers, parse_rank_spec};
use crate::strict::{is_chain, lemma_multiset_chain};
use crate::util::{block, lemma_block_append, lemma_block_appended, lemma_div_exact, lemma_mul_block, unique_and_bounded};

verus! {

/// SOC: strict orders, complete lists.
#[derive(Clone, Debug)]
pub struct StrictOrdersComplete {
    /// The orders, back to back, `elements` values each.
    pub orders: Vec<usize>,
    pub elements: usize,
}

impl StrictOrdersComplete {
    /// The number of orders.
    pub open spec fn count(&self) -> nat {
        if self.elements == 0 {
            0
        } else {
            self.orders@.len() / (self.elements as nat)
        }
    }

    /// Order `k`.
    pub open spec fn order(&self, k: int) -> Seq<usize> {
        block(self.orders@, self.elements as nat, k)
    }

    /// The orders fill whole blocks, and each is a permutation of the
    /// elements.
    pub open spec fn wf(&self) -> bool {
        &&& if self.elements == 0 {
            self.orders@.len() == 0
        } else {
            (self.orders@.len() as int) % (self.elements as int) == 0
        }
        &&& forall|k: int| 0 <= k < self.count() ==> #[trigger] is_chain(self.elements as nat, self.order(k))
    }

    /// Order `k` lies within the vector.
    pub proof fn lemma_bounds(&self, k: int)
        requires
            self.wf(),
            0 <= k < self.count(),
        ensures
            0 <= k * self.elements,
            k * self.elements + self.elements <= self.orders@.len(),
            self.order(k).len() == self.elements,
    {
        let e = self.elements as int;
        lemma_div_exact(self.orders@.len() as int, e);
        lemma_mul_block(k, self.count() as int, e);
    }

    /// An empty collection over `elements` elements.
    pub fn new(elements: usize) -> (res: Self)
        ensures
            res.wf(),
            res.elements == elements,
            res.orders@.len() == 0,
            res.count() == 0,
    {
        proof {
            if elements > 0 {
                vstd::arithmetic::div_mod::lemma_small_mod(0, elements as nat);
            }
        }
        StrictOrdersComplete { orders: Vec::new(), elements }
    }

    pub fn elements(&self) -> (res: usize)
        ensures
            res == self.elements,
    {
        self.elements
    }

    /// Adds `order`, a permutation of the elements.
    pub fn add(&mut self, order: &[usize])
        requires
            old(self).wf(),
            order@.len() == old(self).elements,
            is_chain(old(self).elements as nat, order@),
            old(self).orders@.len() + order@.len() <= usize::MAX,
        ensures
            final(self).wf(),
            final(self).elements == old(self).elements,
            final(self).orders@ == old(self).orders@ + order@,
            old(self).elements > 0 ==> final(self).count() == old(self).count() + 1,
            forall|k: int| 0 <= k < old(self).count() ==> #[trigger] final(self).order(k) == old(self).order(k),
            old(self).elements > 0 ==> final(self).order(old(self).count() as int) == order@,
    {
        let n = order.len();
        let mut i: usize = 0;
        while i < n
            invariant
                n == order@.len(),
                i <= n,
                self.orders@ == old(self).orders@ + order@.take(i as int),
                self.elements == old(self).elements,
            decreases n - i,
        {
            self.orders.push(order[i]);
            i += 1;
            proof {
                assert(self.orders@ =~= old(self).orders@ + order@.take(i as int));
            }
        }
        proof {
            assert(order@.take(n as int) =~= order@);
            let e = self.elements as nat;
            let s0 = old(self).orders@;
            if e > 0 {
                lemma_block_appended(s0, order@, e);
                assert forall|k: int| 0 <= k < old(self).count() implies #[trigger] self.order(k) == old(self).order(k) by {
                    old(self).lemma_bounds(k);
                    lemma_block_append(s0, order@, e, k);
                }
                assert forall|k: int| 0 <= k < self.count() implies #[trigger] is_chain(e, self.order(k)) by {
                    if k < old(self).count() {
                        assert(self.order(k) == old(self).order(k));
                    }
                }
            } else {
                assert(self.orders@ =~= s0);
            }
        }
    }

    /// The number of orders. There must be at least one element.
    pub fn orders(&self) -> (res: usize)
        requires
            self.elements > 0,
        ensures
            res == self.count(),
    {
        self.orders.len() / self.elements
    }

    /// Adds an order read from comma separated numbers, such as `2,0,1`.
    /// Returns whether `s` was such an order: every element listed once.
    pub fn add_from_str(&mut self, s: &str) -> (res: bool)
        requires
            old(self).wf(),
            old(self).orders@.len() + old(self).elements <= usize::MAX,
        ensures
            final(self).wf(),
            final(self).elements == old(self).elements,
            res == (parse_rank_spec(old(self).elements, s.spec_bytes()) matches Some(o) && o.len()
                == old(self).elements),
            !res ==> *final(self) == *old(self),
            res ==> (parse_rank_spec(old(self).elements, s.spec_bytes()) matches Some(o) && final(self).orders@
                == old(self).orders@ + o),
    {
        let order = match parse_numbers(self.elements, s.as_bytes()) {
            Some(order) => order,
            None => return false,
        };
        if !unique_and_bounded(self.elements, order.as_slice()) {
            return false;
        }
        if order.len() != self.elements {
            return false;
        }
        self.add(order.as_slice());
        true
    }

    /// Returns true iff the orders fill whole blocks and each is a
    /// permutation of the elements.
    pub fn valid(&self) -> (res: bool)
        ensures
            res == self.wf(),
    {
        let e = self.elements;
        if e == 0 {
            return self.orders.len() == 0;
        }
        if self.orders.len() % e != 0 {
            return false;
        }
        let c = self.orders.len() / e;
        proof {
            assert(forall|j: int| 0 <= j < 0 ==> #[trigger] is_chain(e as nat, self.order(j)));
        }
        let mut k: usize = 0;
        while k < c
            invariant
                e == self.elements,
                e > 0,
                c == self.count(),
                (self.orders@.len() as int) % (e as int) == 0,
                self.orders@.len() <= usize::MAX,
                k <= c,
                forall|j: int| 0 <= j < k ==> #[trigger] is_chain(e as nat, self.order(j)),
            decreases c - k,
        {
            proof {
                lemma_div_exact(self.orders@.len() as int, e as int);
                lemma_mul_block(k as int, c as int, e as int);
            }
            let start = k * e;
            let o = &self.orders.as_slice()[start..start + e];
            proof {
                assert(o@ =~= self.order(k as int));
            }
            if !unique_and_bounded(e, o) {
                proof {
                    assert(!is_chain(e as nat, self.order(k as int)));
                }
                return false;
            }
            k += 1;
        }
        true
    }

    /// Adds `new_orders` orders, each a random permutation of the elements.
    /// Nothing is added when there are no elements.
    pub fn generate_uniform(&mut self, rng: &mut StdRng, new_orders: usize)
        requires
            old(self).wf(),
            old(self).orders@.len() + new_orders * old(self).elements <= usize::MAX,
        ensures
            final(self).wf(),
            final(self).elements == old(self).elements,
            old(self).elements == 0 ==> *final(self) == *old(self),
            old(self).elements > 0 ==> final(self).count() == old(self).count() + new_orders,
            forall|k: int| 0 <= k < old(self).count() ==> #[trigger] final(self).order(k) == old(self).order(k),
    {
        if self.elements == 0 {
            return;
        }
        let e = self.elements;
        let mut v = crate::strict::Total::new_default(e).into_inner();
        let mut m: usize = 0;
        while m < new_orders
            invariant
                self.wf(),
                e == self.elements,
                e == old(self).elements,
                e > 0,
                m <= new_orders,
                crate::strict::is_total(v@),
                v@.len() == e,
                self.count() == old(self).count() + m,
                self.orders@.len() == old(self).orders@.len() + m * e,
                old(self).orders@.len() + new_orders * e <= usize::MAX,
                forall|k: int| 0 <= k < old(self).count() ==> #[trigger] self.order(k) == old(self).order(k),
            decreases new_orders - m,
        {
            let ghost v0 = v@;
            shuffle(rng, &mut v);
            proof {
                lemma_multiset_chain(v0, v@, e as nat);
                assert((m + 1) * e == m * e + e) by (nonlinear_arith);
                assert((m + 1) * e <= new_orders * e) by (nonlinear_arith)
                    requires
                        m < new_orders,
                ;
            }
            let ghost before = *self;
            self.add(v.as_slice());
            proof {
                assert forall|k: int| 0 <= k < old(self).count() implies #[trigger] self.order(k) == old(self).order(k) by {
                    assert(self.order(k) == before.order(k));
                }
            }
            m += 1;
        }
    }

    /// The orders, one at a time.
    pub fn iter(&self) -> (res: StrictOrdersCompleteIterator<'_>)
        ensures
            res.orig == self,
            res.i == 0,
    {
        StrictOrdersCompleteIterator { orig: self, i: 0 }
    }
}

/// The orders of a collection, one at a time.
pub struct StrictOrdersCompleteIterator<'a> {
    pub orig: &'a StrictOrdersComplete,
    pub i: usize,
}

impl<'a> StrictOrdersCompleteIterator<'a> {
    /// The next order, or `None` after the last.
    pub fn next(&mut self) -> (res: Option<&'a [usize]>)
        requires
            old(self).orig.wf(),
            old(self).i <= old(self).orig.count(),
        ensures
            final(self).orig == old(self).orig,
            final(self).i <= final(self).orig.count(),
            old(self).i == old(self).orig.count() ==> res is None && final(self).i == old(self).i,
            old(self).i < old(self).orig.count() ==> final(self).i == old(self).i + 1 && (res matches Some(r) && r@
                == old(self).orig.order(old(self).i as int)),
    {
        let e = self.orig.elements;
        if e == 0 {
            return None;
        }
        if self.i == self.orig.orders.len() / e {
            return None;
        }
        let i = self.i;
        proof {
            self.orig.lemma_bounds(i as int);
        }
        let start = i * e;
        let o = &self.orig.orders.as_slice()[start..start + e];
        self.i = i + 1;
        Some(o)
    }

    /// The number of orders left, exactly.
    pub fn size_hint(&self) -> (res: (usize, Option<usize>))
        requires
            self.i <= self.orig.count(),
        ensures
            res == ((self.orig.count() - self.i) as usize, Some((self.orig.count() - self.i) as usize)),
    {
        let c = if self.orig.elements == 0 {
            0
        } else {
            self.orig.orders.len() / self.orig.elements
        };
        let remaining = c - self.i;
        (remaining, Some(remaining))
    }
}

} // verus!
