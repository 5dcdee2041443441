//! Collections of orders where every order is a single element, such as
//! the ballots of a single-choice vote.
use rand::rngs::StdRng;
use vstd::prelude::*;

use crate::random::random_below;
use crate::util::{all_below, copy_usizes};

verus! {

broadcast use vstd::seq_lib::group_seq_properties;

/// Number of positions of `s` that hold `v`.
pub open spec fn count_eq(s: Seq<usize>, v: usize) -> nat
    decreases s.len(),
{
    if s.len() == 0 {
        0
    } else {
        count_eq(s.drop_last(), v) + if s.last() == v {
            1nat
        } else {
            0nat
        }
    }
}

pub proof fn lemma_count_eq_bound(s: Seq<usize>, v: usize)
    ensures
        count_eq(s, v) <= s.len(),
    decreases s.len(),
{
    if s.len() > 0 {
        lemma_count_eq_bound(s.drop_last(), v);
    }
}

/// The element that more than half of `s` consists of, as `majority`
/// returns it: the smallest such element below `elements`.
pub open spec fn majority_spec(s: Seq<usize>, elements: nat) -> Option<usize> {
    if elements == 1 {
        Some(0usize)
    } else if exists|i: usize| i < elements && count_eq(s, i) > s.len() / 2 {
        Some(choose|i: usize| i < elements && count_eq(s, i) > s.len() / 2 && forall|j: usize| j < i ==> count_eq(s, j) <= s.len() / 2)
    } else {
        None
    }
}

proof fn lemma_smallest_majority(s: Seq<usize>, elements: nat, i: usize)
    requires
        i < elements,
        count_eq(s, i) > s.len() / 2,
    ensures
        exists|k: usize|
            k < elements && count_eq(s, k) > s.len() / 2 && forall|j: usize| j < k ==> count_eq(s, j) <= s.len() / 2,
    decreases i,
{
    if exists|j: usize| j < i && count_eq(s, j) > s.len() / 2 {
        let j = choose|j: usize| j < i && count_eq(s, j) > s.len() / 2;
        lemma_smallest_majority(s, elements, j);
    } else {
        assert(forall|j: usize| j < i ==> count_eq(s, j) <= s.len() / 2);
    }
}

/// The majority element, when there is one, is an element.
pub proof fn majority_below(s: Seq<usize>, elements: nat)
    ensures
        majority_spec(s, elements) matches Some(i) ==> i < elements,
{
    if elements != 1 && exists|i: usize| i < elements && count_eq(s, i) > s.len() / 2 {
        let i = choose|i: usize| i < elements && count_eq(s, i) > s.len() / 2;
        lemma_smallest_majority(s, elements, i);
    }
}

/// The values of `s` that are not `target`, with those above it lowered by
/// one.
pub open spec fn without_value(s: Seq<usize>, target: usize) -> Seq<usize>
    decreases s.len(),
{
    if s.len() == 0 {
        Seq::empty()
    } else {
        let rest = without_value(s.drop_last(), target);
        let v = s.last();
        if v == target {
            rest
        } else if v > target {
            rest.push((v - 1) as usize)
        } else {
            rest.push(v)
        }
    }
}

/// A collection of orders where every order is a single element.
///
/// Collection of orders where every order is a specific element. Some would
/// say that this isn't an order at all, but it's useful to model a
/// collection of votes in voting theory.
#[derive(Debug, PartialEq, Eq)]
pub struct SpecificDense {
    pub orders: Vec<usize>,
    pub elements: usize,
}

impl Clone for SpecificDense {
    fn clone(&self) -> (res: Self)
        ensures
            res.orders@ == self.orders@,
            res.elements == self.elements,
    {
        Self { orders: copy_usizes(self.orders.as_slice()), elements: self.elements }
    }
}

impl SpecificDense {
    /// Every order is one of the elements.
    pub open spec fn wf(&self) -> bool {
        all_below(self.orders@, self.elements as nat)
    }

    /// An empty collection over `elements` elements.
    pub fn new(elements: usize) -> (res: Self)
        ensures
            res.wf(),
            res.elements == elements,
            res.orders@.len() == 0,
    {
        SpecificDense { orders: Vec::new(), elements }
    }

    /// Creates a `SpecificDense` from a list of elements, each of which must
    /// be below `elements`.
    pub fn from_vec(elements: usize, orders: Vec<usize>) -> (res: Self)
        requires
            all_below(orders@, elements as nat),
        ensures
            res.wf(),
            res.elements == elements,
            res.orders == orders,
    {
        Self::try_from_vec(elements, orders).unwrap()
    }

    /// Creates a `SpecificDense` from a list of elements. Returns `None` if
    /// any of the elements is not below `elements`.
    pub fn try_from_vec(elements: usize, orders: Vec<usize>) -> (res: Option<Self>)
        ensures
            res is Some <==> all_below(orders@, elements as nat),
            res matches Some(r) ==> r.elements == elements && r.orders == orders,
    {
        let mut i: usize = 0;
        while i < orders.len()
            invariant
                i <= orders@.len(),
                forall|k: int| 0 <= k < i ==> orders@[k] < elements,
            decreases orders@.len() - i,
        {
            if orders[i] >= elements {
                return None;
            }
            i += 1;
        }
        Some(Self { orders, elements })
    }

    /// Every order, in turn.
    pub fn iter(&self) -> (res: Vec<usize>)
        ensures
            res@ == self.orders@,
    {
        copy_usizes(self.orders.as_slice())
    }

    /// The number of orders that are element `v`.
    fn count_of(&self, v: usize) -> (res: usize)
        ensures
            res == count_eq(self.orders@, v),
    {
        let mut c: usize = 0;
        let mut i: usize = 0;
        while i < self.orders.len()
            invariant
                i <= self.orders@.len(),
                c == count_eq(self.orders@.take(i as int), v),
                c <= i,
            decreases self.orders@.len() - i,
        {
            proof {
                assert(self.orders@.take(i + 1).drop_last() =~= self.orders@.take(i as int));
            }
            if self.orders[i] == v {
                c += 1;
            }
            i += 1;
        }
        proof {
            assert(self.orders@.take(self.orders@.len() as int) =~= self.orders@);
        }
        c
    }

    /// Returns the element that more than half of the orders consist of, or
    /// `None` if no element is the majority. With a single element, that
    /// element is returned.
    pub fn majority(&self) -> (res: Option<usize>)
        ensures
            res == majority_spec(self.orders@, self.elements as nat),
    {
        if self.elements == 1 {
            return Some(0);
        }
        let half = self.orders.len() / 2;
        let mut i: usize = 0;
        while i < self.elements
            invariant
                self.elements != 1,
                half == self.orders@.len() / 2,
                i <= self.elements,
                forall|j: usize| j < i ==> count_eq(self.orders@, j) <= half,
            decreases self.elements - i,
        {
            if self.count_of(i) > half {
                proof {
                    let c = choose|x: usize| x < self.elements && count_eq(self.orders@, x) > self.orders@.len() / 2 && forall|j: usize| j < x ==> count_eq(self.orders@, j) <= self.orders@.len() / 2;
                    assert(c == i) by {
                        if c < i {
                        } else if c > i {
                        }
                    }
                }
                return Some(i);
            }
            i += 1;
        }
        None
    }

    /// Returns true iff every order is one of the elements.
    pub fn valid(&self) -> (res: bool)
        ensures
            res == (self.wf() && (self.elements == 0 ==> self.orders@.len() == 0)),
    {
        if self.elements == 0 && self.orders.len() != 0 {
            return false;
        }
        let mut i: usize = 0;
        while i < self.orders.len()
            invariant
                i <= self.orders@.len(),
                forall|k: int| 0 <= k < i ==> self.orders@[k] < self.elements,
            decreases self.orders@.len() - i,
        {
            if self.orders[i] >= self.elements {
                return false;
            }
            i += 1;
        }
        true
    }

    /// Raises the number of elements to `elements`.
    pub fn set_elements(&mut self, elements: usize)
        requires
            old(self).elements <= elements,
        ensures
            final(self).elements == elements,
            final(self).orders == old(self).orders,
    {
        self.elements = elements;
    }

    /// The number of elements.
    pub fn elements(&self) -> (res: usize)
        ensures
            res == self.elements,
    {
        self.elements
    }

    /// The number of orders.
    pub fn len(&self) -> (res: usize)
        ensures
            res == self.orders@.len(),
    {
        self.orders.len()
    }

    /// Whether there are no orders.
    pub fn is_empty(&self) -> (res: bool)
        ensures
            res == (self.orders@.len() == 0),
    {
        self.orders.len() == 0
    }

    /// Order `i`, or `None` if there is no such order.
    pub fn try_get(&self, i: usize) -> (res: Option<usize>)
        ensures
            i < self.orders@.len() ==> res == Some(self.orders@[i as int]),
            i >= self.orders@.len() ==> res is None,
    {
        if i < self.orders.len() {
            Some(self.orders[i])
        } else {
            None
        }
    }

    /// Order `i`.
    pub fn get(&self, i: usize) -> (res: usize)
        requires
            i < self.orders@.len(),
        ensures
            res == self.orders@[i as int],
    {
        self.orders[i]
    }

    /// Adds the order `v`. Fails if `v` is not an element, or if memory for it
    /// could not be reserved.
    pub fn add(&mut self, v: usize) -> (res: Result<(), &'static str>)
        ensures
            final(self).elements == old(self).elements,
            v >= old(self).elements ==> res == Err::<(), &'static str>("Invalid element"),
            res == Err::<(), &'static str>("Invalid element") ==> v >= old(self).elements,
            res is Err ==> final(self).orders@ == old(self).orders@,
            res is Err ==> res == Err::<(), &'static str>("Invalid element") || res == Err::<
                (),
                &'static str,
            >("Could not add order"),
            res is Ok ==> v < old(self).elements && final(self).orders@ == old(self).orders@.push(v),
    {
        if v < self.elements {
            if self.orders.try_reserve(1).is_err() {
                return Err("Could not add order");
            }
            self.orders.push(v);
            Ok(())
        } else {
            Err("Invalid element")
        }
    }

    /// Removes element `target`: orders of `target` are removed, and the
    /// elements above it move down by one.
    pub fn remove_element(&mut self, target: usize) -> (res: Result<(), &'static str>)
        requires
            old(self).elements > 0,
        ensures
            res is Ok,
            final(self).elements == old(self).elements - 1,
            final(self).orders@ == without_value(old(self).orders@, target),
            old(self).wf() && target < old(self).elements ==> final(self).wf(),
    {
        let n = self.orders.len();
        let mut out: Vec<usize> = Vec::new();
        let mut i: usize = 0;
        while i < n
            invariant
                n == self.orders@.len(),
                self.orders@ == old(self).orders@,
                i <= n,
                out@ == without_value(old(self).orders@.take(i as int), target),
            decreases n - i,
        {
            proof {
                assert(old(self).orders@.take(i + 1).drop_last() =~= old(self).orders@.take(i as int));
            }
            let v = self.orders[i];
            if v != target {
                if v > target {
                    out.push(v - 1);
                } else {
                    out.push(v);
                }
            }
            i += 1;
        }
        proof {
            assert(old(self).orders@.take(n as int) =~= old(self).orders@);
            if old(self).wf() && target < old(self).elements {
                lemma_without_value_below(old(self).orders@, target, old(self).elements as nat);
            }
        }
        self.orders = out;
        self.elements = self.elements - 1;
        Ok(())
    }

    /// Adds `new_orders` orders, each a uniformly random element.
    pub fn generate_uniform(&mut self, rng: &mut StdRng, new_orders: usize)
        requires
            old(self).wf(),
        ensures
            final(self).wf(),
            final(self).elements == old(self).elements,
            old(self).elements == 0 ==> final(self).orders@ == old(self).orders@,
            old(self).elements > 0 ==> final(self).orders@.len() == old(self).orders@.len() + new_orders,
            final(self).orders@.subrange(0, old(self).orders@.len() as int) == old(self).orders@,
    {
        if self.elements == 0 || new_orders == 0 {
            proof {
                assert(self.orders@.subrange(0, old(self).orders@.len() as int) =~= old(self).orders@);
            }
            return;
        }
        let mut k: usize = 0;
        while k < new_orders
            invariant
                self.elements == old(self).elements,
                self.elements > 0,
                k <= new_orders,
                self.wf(),
                self.orders@.len() == old(self).orders@.len() + k,
                self.orders@.subrange(0, old(self).orders@.len() as int) == old(self).orders@,
            decreases new_orders - k,
        {
            let i = random_below(rng, self.elements);
            self.orders.push(i);
            k += 1;
            proof {
                assert(self.orders@.subrange(0, old(self).orders@.len() as int) =~= old(self).orders@);
            }
        }
    }

    /// A collection of the given orders, over one more element than the
    /// largest order names.
    pub fn from_iter(orders: Vec<usize>) -> (res: Self)
        requires
            forall|i: int| 0 <= i < orders@.len() ==> orders@[i] < usize::MAX,
        ensures
            res.orders == orders,
            res.wf(),
            forall|i: int| 0 <= i < orders@.len() ==> orders@[i] < res.elements,
            orders@.len() == 0 ==> res.elements == 1,
            orders@.len() > 0 ==> exists|i: int| 0 <= i < orders@.len() && orders@[i] + 1 == res.elements,
    {
        let mut max: usize = 0;
        let mut i: usize = 0;
        while i < orders.len()
            invariant
                i <= orders@.len(),
                forall|k: int| 0 <= k < orders@.len() ==> orders@[k] < usize::MAX,
                forall|k: int| 0 <= k < i ==> orders@[k] <= max,
                i == 0 ==> max == 0,
                i > 0 ==> exists|k: int| 0 <= k < i && orders@[k] == max,
            decreases orders@.len() - i,
        {
            if orders[i] > max {
                max = orders[i];
            }
            i += 1;
        }
        SpecificDense { orders, elements: max + 1 }
    }
}

proof fn lemma_without_value_below(s: Seq<usize>, target: usize, elements: nat)
    requires
        all_below(s, elements),
        target < elements,
    ensures
        all_below(without_value(s, target), (elements - 1) as nat),
    decreases s.len(),
{
    if s.len() > 0 {
        lemma_without_value_below(s.drop_last(), target, elements);
    }
}

} // verus!
