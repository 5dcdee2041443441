//! # Chains, packed
//!
//! A collection of chains (orders without ties that may leave elements
//! out), stored back to back with the end position of each.
use rand::rngs::StdRng;
use vstd::prelude::*;

use crate::random::{random_below, shuffle};
use crate::strict::{is_chain, is_total, lemma_multiset_chain, StrictIRef, TotalDense};
use crate::util::unique_and_bounded;

verus! {

/// Chains over the same elements, stored back to back; `order_end` holds
/// where each one ends.
#[derive(Clone, Debug)]
pub struct ChainDense {
    pub orders: Vec<usize>,
    pub order_end: Vec<usize>,
    pub elements: usize,
}

impl ChainDense {
    /// The number of chains.
    pub open spec fn count(&self) -> nat {
        self.order_end@.len()
    }

    /// Where chain `k` starts.
    pub open spec fn start(&self, k: int) -> int {
        if k == 0 {
            0
        } else {
            self.order_end@[k - 1] as int
        }
    }

    /// Chain `k`.
    pub open spec fn order(&self, k: int) -> Seq<usize> {
        self.orders@.subrange(self.start(k), self.order_end@[k] as int)
    }

    /// The end positions never decrease, the last is the end of the vector,
    /// and every chain lists distinct elements below `elements`.
    pub open spec fn wf(&self) -> bool {
        &&& forall|j: int, k: int|
            0 <= j <= k < self.count() ==> #[trigger] self.order_end@[j] <= #[trigger] self.order_end@[k]
        &&& if self.count() == 0 {
            self.orders@.len() == 0
        } else {
            self.order_end@[self.count() - 1] == self.orders@.len()
        }
        &&& forall|k: int| 0 <= k < self.count() ==> #[trigger] is_chain(self.elements as nat, self.order(k))
    }

    /// Chain `k` lies within the vector.
    pub proof fn lemma_bounds(&self, k: int)
        requires
            self.wf(),
            0 <= k < self.count(),
        ensures
            0 <= self.start(k) <= self.order_end@[k] <= self.orders@.len(),
    {
        assert(self.order_end@[k] <= self.order_end@[self.count() - 1]);
        if k > 0 {
            assert(self.order_end@[k - 1] <= self.order_end@[k]);
        }
    }

    /// An empty collection over `elements` elements.
    pub fn new(elements: usize) -> (res: Self)
        ensures
            res.wf(),
            res.elements == elements,
            res.count() == 0,
    {
        ChainDense { orders: Vec::new(), order_end: Vec::new(), elements }
    }

    pub fn elements(&self) -> (res: usize)
        ensures
            res == self.elements,
    {
        self.elements
    }

    /// The number of chains.
    pub fn len(&self) -> (res: usize)
        ensures
            res == self.count(),
    {
        self.order_end.len()
    }

    /// Whether there are no chains.
    pub fn is_empty(&self) -> (res: bool)
        ensures
            res == (self.count() == 0),
    {
        self.len() == 0
    }

    /// Returns true iff the end positions never decrease and end at the end
    /// of the vector, and every chain lists distinct elements below
    /// `elements`.
    pub fn valid(&self) -> (res: bool)
        ensures
            res == self.wf(),
    {
        let c = self.order_end.len();
        if c == 0 {
            return self.orders.len() == 0;
        }
        if self.order_end[c - 1] != self.orders.len() {
            return false;
        }
        let mut k: usize = 1;
        while k < c
            invariant
                c == self.count(),
                1 <= k <= c,
                forall|a: int, b: int| 0 <= a <= b < k ==> #[trigger] self.order_end@[a] <= #[trigger] self.order_end@[b],
            decreases c - k,
        {
            if self.order_end[k - 1] > self.order_end[k] {
                return false;
            }
            proof {
                assert forall|a: int, b: int| 0 <= a <= b < k + 1 implies #[trigger] self.order_end@[a]
                    <= #[trigger] self.order_end@[b] by {
                    if b == k && a < k {
                        assert(self.order_end@[a] <= self.order_end@[k - 1]);
                    }
                }
            }
            k += 1;
        }
        let mut k: usize = 0;
        while k < c
            invariant
                c == self.count(),
                c > 0,
                self.order_end@[c - 1] == self.orders@.len(),
                forall|a: int, b: int| 0 <= a <= b < c ==> #[trigger] self.order_end@[a] <= #[trigger] self.order_end@[b],
                k <= c,
                forall|j: int| 0 <= j < k ==> #[trigger] is_chain(self.elements as nat, self.order(j)),
            decreases c - k,
        {
            proof {
                assert(self.order_end@[k as int] <= self.order_end@[c - 1]);
                if k > 0 {
                    assert(self.order_end@[k - 1] <= self.order_end@[k as int]);
                }
            }
            let start = if k == 0 {
                0
            } else {
                self.order_end[k - 1]
            };
            let o = &self.orders.as_slice()[start..self.order_end[k]];
            if !unique_and_bounded(self.elements, o) {
                proof {
                    assert(o@ =~= self.order(k as int));
                    assert(!is_chain(self.elements as nat, self.order(k as int)));
                }
                return false;
            }
            proof {
                assert(o@ =~= self.order(k as int));
            }
            k += 1;
        }
        true
    }

    /// Chain `i`, or `None` if there is no such chain.
    pub fn try_get(&self, i: usize) -> (res: Option<StrictIRef<'_>>)
        requires
            self.wf(),
        ensures
            i < self.count() ==> (res matches Some(r) && r.elements == self.elements && r.order@ == self.order(
                i as int,
            )),
            i >= self.count() ==> res is None,
    {
        if i < self.order_end.len() {
            proof {
                self.lemma_bounds(i as int);
            }
            let start = if i == 0 {
                0
            } else {
                self.order_end[i - 1]
            };
            let end = self.order_end[i];
            let o = &self.orders.as_slice()[start..end];
            proof {
                assert(o@ =~= self.order(i as int));
                assert(is_chain(self.elements as nat, self.order(i as int)));
            }
            Some(StrictIRef::new(self.elements, o))
        } else {
            None
        }
    }

    /// Chain `i`.
    pub fn get(&self, i: usize) -> (res: StrictIRef<'_>)
        requires
            self.wf(),
            i < self.count(),
        ensures
            res.elements == self.elements,
            res.order@ == self.order(i as int),
    {
        self.try_get(i).unwrap()
    }

    /// Every chain, in turn.
    pub fn iter(&self) -> (res: Vec<StrictIRef<'_>>)
        requires
            self.wf(),
        ensures
            res@.len() == self.count(),
            forall|i: int| 0 <= i < res@.len() ==> (#[trigger] res@[i]).order@ == self.order(i),
    {
        let n = self.len();
        let mut res: Vec<StrictIRef<'_>> = Vec::new();
        let mut i: usize = 0;
        while i < n
            invariant
                self.wf(),
                n == self.count(),
                i <= n,
                res@.len() == i,
                forall|k: int| 0 <= k < i ==> (#[trigger] res@[k]).order@ == self.order(k),
            decreases n - i,
        {
            res.push(self.get(i));
            i += 1;
        }
        res
    }

    /// Appends the chain `order`.
    fn push_chain(&mut self, order: &[usize])
        requires
            old(self).wf(),
            is_chain(old(self).elements as nat, order@),
            old(self).orders@.len() + order@.len() <= usize::MAX,
        ensures
            final(self).wf(),
            final(self).elements == old(self).elements,
            final(self).count() == old(self).count() + 1,
            forall|k: int| 0 <= k < old(self).count() ==> #[trigger] final(self).order(k) == old(self).order(k),
            final(self).order(old(self).count() as int) == order@,
            final(self).orders@ == old(self).orders@ + order@,
    {
        let c = self.order_end.len();
        let start = if c == 0 {
            0
        } else {
            self.order_end[c - 1]
        };
        let n = order.len();
        let mut i: usize = 0;
        while i < n
            invariant
                n == order@.len(),
                i <= n,
                self.orders@ == old(self).orders@ + order@.take(i as int),
                self.order_end@ == old(self).order_end@,
                self.elements == old(self).elements,
            decreases n - i,
        {
            self.orders.push(order[i]);
            i += 1;
            proof {
                assert(self.orders@ =~= old(self).orders@ + order@.take(i as int));
            }
        }
        self.order_end.push(start + n);
        proof {
            assert(order@.take(n as int) =~= order@);
            let s0 = old(self).orders@;
            assert(start == s0.len());
            assert forall|k: int| 0 <= k < c implies #[trigger] self.order(k) == old(self).order(k) by {
                old(self).lemma_bounds(k);
                assert(self.order(k) =~= old(self).order(k));
            }
            assert(self.order(c as int) =~= order@);
            assert forall|j: int, k: int| 0 <= j <= k < self.count() implies #[trigger] self.order_end@[j]
                <= #[trigger] self.order_end@[k] by {
                if k == c && j < c {
                    assert(old(self).order_end@[j] <= old(self).order_end@[c - 1]);
                }
            }
            assert forall|k: int| 0 <= k < self.count() implies #[trigger] is_chain(self.elements as nat, self.order(k)) by {
                if k < c {
                    assert(self.order(k) == old(self).order(k));
                }
            }
        }
    }

    /// Adds the chain `v`, which must be over the same elements.
    pub fn add(&mut self, v: StrictIRef) -> (res: Result<(), &'static str>)
        requires
            old(self).wf(),
            v.elements == old(self).elements,
            is_chain(v.elements as nat, v.order@),
            old(self).orders@.len() + v.order@.len() <= usize::MAX,
        ensures
            res is Ok,
            final(self).wf(),
            final(self).elements == old(self).elements,
            final(self).count() == old(self).count() + 1,
            forall|k: int| 0 <= k < old(self).count() ==> #[trigger] final(self).order(k) == old(self).order(k),
            final(self).order(old(self).count() as int) == v.order@,
    {
        self.push_chain(v.order);
        Ok(())
    }

    /// Adds `new_orders` random chains: each ranks a random number (at least
    /// one) of distinct elements in random order. Nothing is added when there
    /// are no elements.
    pub fn generate_uniform(&mut self, rng: &mut StdRng, new_orders: usize)
        requires
            old(self).wf(),
            old(self).orders@.len() + new_orders * old(self).elements <= usize::MAX,
        ensures
            final(self).wf(),
            final(self).elements == old(self).elements,
            old(self).elements == 0 ==> *final(self) == *old(self),
            old(self).elements > 0 ==> final(self).count() == old(self).count() + new_orders,
            forall|k: int| 0 <= k < old(self).count() ==> #[trigger] final(self).order(k) == old(self).order(k),
            forall|k: int| old(self).count() <= k < final(self).count() ==> 1 <= #[trigger] final(self).order(k).len()
                <= old(self).elements,
    {
        if self.elements == 0 {
            return;
        }
        let e = self.elements;
        let mut v = crate::strict::Total::new_default(e).into_inner();
        let mut m: usize = 0;
        while m < new_orders
            invariant
                self.wf(),
                e == self.elements,
                e == old(self).elements,
                e > 0,
                m <= new_orders,
                is_total(v@),
                v@.len() == e,
                self.count() == old(self).count() + m,
                self.orders@.len() <= old(self).orders@.len() + m * e,
                old(self).orders@.len() + new_orders * e <= usize::MAX,
                forall|k: int| 0 <= k < old(self).count() ==> #[trigger] self.order(k) == old(self).order(k),
                forall|k: int| old(self).count() <= k < self.count() ==> 1 <= #[trigger] self.order(k).len() <= e,
            decreases new_orders - m,
        {
            let len = random_below(rng, e) + 1;
            let ghost v0 = v@;
            shuffle(rng, &mut v);
            proof {
                lemma_multiset_chain(v0, v@, e as nat);
            }
            let part = &v.as_slice()[0..len];
            proof {
                assert((m + 1) * e == m * e + e) by (nonlinear_arith);
                assert((m + 1) * e <= new_orders * e) by (nonlinear_arith)
                    requires
                        m < new_orders,
                ;
                assert(is_chain(e as nat, part@)) by {
                    assert forall|a: int, b: int| 0 <= a < part@.len() && 0 <= b < part@.len() && a != b implies part@[a]
                        != part@[b] by {
                        assert(v@[a] != v@[b]);
                    }
                    assert forall|a: int| 0 <= a < part@.len() implies part@[a] < e by {
                        assert(v@[a] < e);
                    }
                }
            }
            let ghost before = *self;
            self.push_chain(part);
            proof {
                assert forall|k: int| 0 <= k < old(self).count() implies #[trigger] self.order(k) == old(self).order(k) by {
                    assert(self.order(k) == before.order(k));
                }
                assert forall|k: int| old(self).count() <= k < self.count() implies 1 <= #[trigger] self.order(k).len()
                    <= e by {
                    if k < before.count() {
                        assert(self.order(k) == before.order(k));
                    }
                }
            }
            m += 1;
        }
    }

    /// The total orders of `value`, as chains that list every element.
    pub fn from_total(value: TotalDense) -> (res: ChainDense)
        requires
            value.wf(),
        ensures
            res.wf(),
            res.elements == value.elements,
            res.count() == value.num_orders(),
            forall|i: int| 0 <= i < res.count() ==> #[trigger] res.order(i) == value.order(i),
    {
        let n = value.len();
        let e = value.elements;
        let _ = value.orders.len();
        proof {
            if e > 0 {
                crate::util::lemma_div_exact(value.orders@.len() as int, e as int);
            } else {
                assert(value.orders@.len() == 0);
            }
        }
        let mut order_end: Vec<usize> = Vec::new();
        let mut i: usize = 0;
        while i < n
            invariant
                n == value.num_orders(),
                e == value.elements,
                n * e == value.orders@.len(),
                value.orders@.len() <= usize::MAX,
                i <= n,
                order_end@.len() == i,
                forall|k: int| 0 <= k < i ==> #[trigger] order_end@[k] == (k + 1) * e,
            decreases n - i,
        {
            proof {
                crate::util::lemma_mul_block(i as int, n as int, e as int);
                assert((i + 1) * e == i * e + e) by (nonlinear_arith);
            }
            order_end.push((i + 1) * e);
            i += 1;
        }
        let res = ChainDense { orders: value.orders, order_end, elements: e };
        proof {
            assert forall|k: int| 0 <= k < n implies #[trigger] res.order(k) == value.order(k) by {
                crate::util::lemma_mul_block(k, n as int, e as int);
                assert((k + 1) * e == k * e + e) by (nonlinear_arith);
                if k > 0 {
                    assert(((k - 1) + 1) * e == k * e);
                }
                assert(res.start(k) == k * e);
                assert(res.order(k) =~= value.order(k));
            }
            assert forall|j: int, k: int| 0 <= j <= k < res.count() implies #[trigger] res.order_end@[j]
                <= #[trigger] res.order_end@[k] by {
                assert((j + 1) * e <= (k + 1) * e) by (nonlinear_arith)
                    requires
                        j <= k,
                        e >= 0,
                ;
            }
            assert forall|k: int| 0 <= k < res.count() implies #[trigger] is_chain(res.elements as nat, res.order(k)) by {
                assert(res.order(k) == value.order(k));
                assert(is_total(value.order(k)));
                crate::util::lemma_mul_block(k, n as int, e as int);
            }
            if n > 0 {
                assert(res.order_end@[n - 1] == ((n - 1) + 1) * e);
                assert(res.order_end@[res.count() - 1] == res.orders@.len());
            } else {
                assert(n * e == 0) by (nonlinear_arith)
                    requires
                        n == 0,
                ;
            }
            assert(res.wf());
        }
        res
    }
}

} // verus!
