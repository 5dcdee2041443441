//! Cardinal orders: every element is given a number, higher is better.
use rand::rngs::StdRng;
use std::cmp::Ordering;
use vstd::prelude::*;

use crate::binary::{Binary, BinaryDense};
use crate::order::{Order, OrderOwned, OrderRef};
use crate::partial_order::{PartialOrder, PartialOrderManual};
use crate::random::random_between;
use crate::parse::{lemma_read_lines_grow, lemma_read_lines_stop, lines_result, read_lines, split_lines, text_lines};
use crate::util::{block, copy_usizes};
use vstd::string::StringSliceAdditionalSpecFns;

verus! {

broadcast use vstd::seq_lib::group_seq_properties;

/// `a` as a mathematical integer.
pub open spec fn int_of(a: usize) -> int {
    a as int
}

/// The comparison of `a` with `b`.
pub open spec fn compare_nat(a: int, b: int) -> Ordering {
    if a < b {
        Ordering::Less
    } else if a == b {
        Ordering::Equal
    } else {
        Ordering::Greater
    }
}

/// Compares `a` with `b`.
pub fn compare_usize(a: usize, b: usize) -> (res: Ordering)
    ensures
        res == compare_nat(int_of(a), int_of(b)),
{
    if a < b {
        Ordering::Less
    } else if a == b {
        Ordering::Equal
    } else {
        Ordering::Greater
    }
}

/// Every value of `v` at or above `cutoff` becomes an approval.
pub open spec fn approvals_from(v: Seq<usize>, cutoff: usize) -> Seq<bool> {
    Seq::new(v.len(), |i: int| v[i] >= cutoff)
}

/// An approval counts 1 and a disapproval 0.
pub open spec fn scores_from(v: Seq<bool>) -> Seq<usize> {
    Seq::new(v.len(), |i: int| if v[i] { 1usize } else { 0usize })
}

/// Converting approvals to scores and back with cutoff 1 gives the same
/// approvals.
pub proof fn law_binary_cardinal_roundtrip(v: Seq<bool>)
    ensures
        approvals_from(scores_from(v), 1) == v,
{
    assert(approvals_from(scores_from(v), 1) =~= v);
}

/// An owned cardinal order: `values[i]` is the score of element `i`.
#[derive(Debug)]
pub struct Cardinal {
    values: Vec<usize>,
}

impl View for Cardinal {
    type V = Seq<usize>;

    closed spec fn view(&self) -> Seq<usize> {
        self.values@
    }
}

impl Clone for Cardinal {
    fn clone(&self) -> (res: Self)
        ensures
            res@ == self@,
    {
        Self { values: copy_usizes(self.values.as_slice()) }
    }
}

impl Cardinal {
    /// A cardinal order with scores `v`.
    pub fn new(v: Vec<usize>) -> (res: Self)
        ensures
            res@ == v@,
    {
        Cardinal { values: v }
    }

    /// Removes the score at position `n`; later scores move down by one.
    pub fn remove(&mut self, n: usize)
        requires
            n < old(self)@.len(),
        ensures
            final(self)@ == old(self)@.remove(n as int),
    {
        self.values.remove(n);
    }

    /// Copies `source` into `self`, whatever their lengths, like
    /// `Clone::clone_from`.
    pub fn clone_from_ref(&mut self, source: CardinalRef)
        ensures
            final(self)@ == source@,
    {
        self.values = crate::util::copy_usizes(source.values);
    }

    /// A random cardinal order of `elements` scores, each uniform in
    /// `min..=max`.
    pub fn random(rng: &mut StdRng, elements: usize, min: usize, max: usize) -> (res: Cardinal)
        requires
            min <= max,
        ensures
            res@.len() == elements,
            forall|i: int| 0 <= i < elements ==> min <= #[trigger] res@[i] <= max,
    {
        let mut values: Vec<usize> = Vec::new();
        let mut i: usize = 0;
        while i < elements
            invariant
                min <= max,
                i <= elements,
                values@.len() == i,
                forall|k: int| 0 <= k < i ==> min <= #[trigger] values@[k] <= max,
            decreases elements - i,
        {
            values.push(random_between(rng, min, max));
            i += 1;
        }
        Cardinal { values }
    }
}

/// A borrowed cardinal order.
pub struct CardinalRef<'a> {
    values: &'a [usize],
}

impl<'a> View for CardinalRef<'a> {
    type V = Seq<usize>;

    closed spec fn view(&self) -> Seq<usize> {
        self.values@
    }
}

impl<'a> CardinalRef<'a> {
    /// A cardinal order with scores `s`.
    pub fn new(s: &'a [usize]) -> (res: Self)
        ensures
            res@ == s@,
    {
        CardinalRef { values: s }
    }

    /// Returns the number of elements in the order.
    pub fn len(&self) -> (res: usize)
        ensures
            res == self@.len(),
    {
        self.values.len()
    }

    /// Whether there are no elements.
    pub fn is_empty(&self) -> (res: bool)
        ensures
            res == (self@.len() == 0),
    {
        self.len() == 0
    }

    /// The scores, by element.
    pub fn values(&self) -> (res: &'a [usize])
        ensures
            res@ == self@,
    {
        self.values
    }

    /// Converts to a binary order, where any value less than `cutoff` becomes
    /// `false` and larger becomes `true`.
    pub fn to_binary(&self, cutoff: usize) -> (res: Binary)
        ensures
            res@ == approvals_from(self@, cutoff),
    {
        let mut values: Vec<bool> = Vec::new();
        let mut i: usize = 0;
        while i < self.values.len()
            invariant
                i <= self@.len(),
                values@ == approvals_from(self@, cutoff).take(i as int),
            decreases self@.len() - i,
        {
            values.push(self.values[i] >= cutoff);
            i += 1;
            proof {
                assert(values@ =~= approvals_from(self@, cutoff).take(i as int));
            }
        }
        proof {
            assert(approvals_from(self@, cutoff).take(self@.len() as int) =~= approvals_from(
                self@,
                cutoff,
            ));
        }
        Binary::new(values)
    }
}

/// `a ≤ b` in the partial order of a cardinal order: `a` is `b`, or `a` has
/// the lower score.
pub open spec fn cardinal_le(v: Seq<usize>, a: int, b: int) -> bool {
    a == b || v[a] < v[b]
}

impl Order for Cardinal {
    open spec fn order_len(&self) -> nat {
        self@.len()
    }

    open spec fn matrix_fits(&self) -> bool {
        self@.len() * self@.len() <= usize::MAX
    }

    fn elements(&self) -> (res: usize)
        ensures
            res == self@.len(),
    {
        self.values.len()
    }

    fn len(&self) -> (res: usize)
        ensures
            res == self@.len(),
    {
        self.values.len()
    }

    /// Converts to a `PartialOrder`: if `f(a) < f(b)` then `a ≤ b`. Equal
    /// cardinal values are not considered equal in the partial order.
    fn to_partial(self) -> (res: PartialOrder)
        ensures
            res.size() == self@.len(),
            forall|a: int, b: int|
                0 <= a < res.size() && 0 <= b < res.size() ==> #[trigger] res.rel(a, b)
                    == cardinal_le(self@, a, b),
            res.is_valid(),
    {
        let n = self.values.len();
        let mut tmp = PartialOrderManual::new(n);
        let mut i: usize = 0;
        while i < n
            invariant
                n == self@.len(),
                i <= n,
                tmp.relation().wf(),
                tmp.relation().dim == n,
                forall|a: int, b: int|
                    0 <= a < n && 0 <= b < n ==> #[trigger] tmp.relation().at(a, b) == (a == b
                        || (cardinal_le(self@, a, b) && (a < i || b < i))),
            decreases n - i,
        {
            let e1 = self.values[i];
            let mut j: usize = 0;
            while j < n
                invariant
                    n == self@.len(),
                    i < n,
                    j <= n,
                    e1 == self@[i as int],
                    tmp.relation().wf(),
                    tmp.relation().dim == n,
                    forall|a: int, b: int|
                        0 <= a < n && 0 <= b < n ==> #[trigger] tmp.relation().at(a, b) == (a == b
                            || (cardinal_le(self@, a, b) && (a < i || b < i || (a == i && b < j)
                            || (b == i && a < j)))),
                decreases n - j,
            {
                let e2 = self.values[j];
                if e1 != e2 {
                    set_by_scores(&mut tmp, i, j, e1, e2);
                }
                j += 1;
            }
            i += 1;
        }
        let ghost m0 = tmp.relation();
        let res = tmp.finish();
        proof {
            let r = |x: int, y: int| m0.at(x, y);
            assert(crate::partial_order::transitive_on(r, n as nat));
            assert(crate::partial_order::includes(r, m0));
            assert forall|a: int, b: int|
                0 <= a < res.size() && 0 <= b < res.size() implies #[trigger] res.rel(a, b)
                == cardinal_le(self@, a, b) by {
                if res.rel(a, b) {
                    assert(crate::partial_order::in_closure(m0, a, b));
                    assert(r(a, b));
                } else {
                    if cardinal_le(self@, a, b) {
                        assert(m0.at(a, b));
                        assert forall|rr: spec_fn(int, int) -> bool|
                            #[trigger] crate::partial_order::transitive_on(rr, m0.dim as nat)
                                && crate::partial_order::includes(rr, m0) implies rr(a, b) by {}
                    }
                }
            }
        }
        res
    }
}

/// Sets `i ≤ j` when `e1 < e2`, and `j ≤ i` when `e1 > e2`.
fn set_by_scores(tmp: &mut PartialOrderManual, i: usize, j: usize, e1: usize, e2: usize)
    requires
        i < old(tmp).relation().dim,
        j < old(tmp).relation().dim,
        e1 != e2,
    ensures
        final(tmp).relation().wf(),
        final(tmp).relation().dim == old(tmp).relation().dim,
        forall|a: int, b: int|
            0 <= a < old(tmp).relation().dim && 0 <= b < old(tmp).relation().dim
                ==> #[trigger] final(tmp).relation().at(a, b) == (old(tmp).relation().at(a, b) || (a
                == i && b == j && e1 < e2) || (a == j && b == i && e2 < e1)),
{
    tmp.set_ord(i, j, compare_usize(e1, e2));
}

impl<'a> OrderOwned<'a> for Cardinal {
    type Ref = CardinalRef<'a>;

    fn as_ref(&'a self) -> (res: CardinalRef<'a>)
        ensures
            res@ == self@,
    {
        CardinalRef { values: self.values.as_slice() }
    }
}

impl<'a> OrderRef for CardinalRef<'a> {
    type Owned = Cardinal;

    fn to_owned(self) -> (res: Cardinal)
        ensures
            res@ == self@,
    {
        Cardinal { values: copy_usizes(self.values) }
    }
}

} // verus!

verus! {

/// Why scaling or shifting the scores failed.
#[derive(Debug)]
pub enum MapError {
    Overflow,
    Underflow,
}

/// Why summing the scores failed.
#[derive(Debug, Clone, Copy)]
pub enum SumError {
    Alloc,
    Overflow,
}

/// Number of the first `k` orders (blocks of `e` scores in `s`) in which
/// element `a` scores higher than element `b`.
pub open spec fn count_wins(s: Seq<usize>, e: nat, k: nat, a: int, b: int) -> nat
    decreases k,
{
    if k == 0 {
        0
    } else {
        count_wins(s, e, (k - 1) as nat, a, b) + if block(s, e, k - 1)[a] > block(s, e, k - 1)[b] {
            1nat
        } else {
            0nat
        }
    }
}

/// Number of the first `k` orders in which element `a` scores `value`.
pub open spec fn count_value(s: Seq<usize>, e: nat, k: nat, a: int, value: usize) -> nat
    decreases k,
{
    if k == 0 {
        0
    } else {
        count_value(s, e, (k - 1) as nat, a, value) + if block(s, e, k - 1)[a] == value {
            1nat
        } else {
            0nat
        }
    }
}

/// The sum of the scores of element `a` over the first `k` orders.
pub open spec fn total_score(s: Seq<usize>, e: nat, k: nat, a: int) -> nat
    decreases k,
{
    if k == 0 {
        0
    } else {
        total_score(s, e, (k - 1) as nat, a) + block(s, e, k - 1)[a] as nat
    }
}

/// For threshold `lo + t`, the approvals of the scores above it.
pub open spec fn kp_block(order: Seq<usize>, lo: nat, t: nat) -> Seq<bool> {
    Seq::new(order.len(), |j: int| order[j] > lo + t)
}

/// The binary orders that one cardinal order becomes under the
/// Kotze-Pereira transformation, one per threshold `lo .. lo + w`.
pub open spec fn kp_order(order: Seq<usize>, lo: nat, w: nat) -> Seq<bool>
    decreases w,
{
    if w == 0 {
        Seq::empty()
    } else {
        kp_order(order, lo, (w - 1) as nat) + kp_block(order, lo, (w - 1) as nat)
    }
}

/// The Kotze-Pereira transformation of the first `k` orders of `s`.
pub open spec fn kp_all(s: Seq<usize>, e: nat, k: nat, lo: nat, w: nat) -> Seq<bool>
    decreases k,
{
    if k == 0 {
        Seq::empty()
    } else {
        kp_all(s, e, (k - 1) as nat, lo, w) + kp_order(block(s, e, k - 1), lo, w)
    }
}

proof fn lemma_kp_order_len(order: Seq<usize>, lo: nat, w: nat)
    ensures
        kp_order(order, lo, w).len() == w * order.len(),
    decreases w,
{
    if w > 0 {
        lemma_kp_order_len(order, lo, (w - 1) as nat);
        assert(w * order.len() == (w - 1) * order.len() + order.len()) by (nonlinear_arith)
            requires
                w > 0,
        ;
    } else {
        assert(w * order.len() == 0) by (nonlinear_arith)
            requires
                w == 0,
        ;
    }
}

proof fn lemma_kp_all_len(s: Seq<usize>, e: nat, k: nat, lo: nat, w: nat)
    requires
        k * e <= s.len(),
    ensures
        kp_all(s, e, k, lo, w).len() == k * (w * e),
    decreases k,
{
    if k > 0 {
        crate::util::lemma_mul_block((k - 1) as int, k as int, e as int);
        lemma_kp_all_len(s, e, (k - 1) as nat, lo, w);
        lemma_kp_order_len(block(s, e, k - 1), lo, w);
        assert(k * (w * e) == (k - 1) * (w * e) + w * e) by (nonlinear_arith)
            requires
                k > 0,
        ;
    } else {
        assert(k * (w * e) == 0) by (nonlinear_arith)
            requires
                k == 0,
        ;
    }
}

/// A collection of cardinal orders over the same elements, with scores in
/// `min..=max`, stored back to back: order `i` holds
/// `orders[i * elements .. (i + 1) * elements]`.
#[derive(Debug, PartialEq, Eq)]
pub struct CardinalDense {
    pub orders: Vec<usize>,
    pub elements: usize,
    pub min: usize,
    pub max: usize,
}

impl Clone for CardinalDense {
    fn clone(&self) -> (res: Self)
        ensures
            res.orders@ == self.orders@,
            res.elements == self.elements,
            res.min == self.min,
            res.max == self.max,
    {
        Self {
            orders: copy_usizes(self.orders.as_slice()),
            elements: self.elements,
            min: self.min,
            max: self.max,
        }
    }
}

impl CardinalDense {
    /// The orders fill whole blocks of `elements` values.
    pub open spec fn wf(&self) -> bool {
        if self.elements == 0 {
            self.orders@.len() == 0
        } else {
            (self.orders@.len() as int) % (self.elements as int) == 0
        }
    }

    /// Every score lies in `min..=max`.
    pub open spec fn in_range(&self) -> bool {
        forall|k: int| 0 <= k < self.orders@.len() ==> self.min <= #[trigger] self.orders@[k] <= self.max
    }

    /// The number of orders.
    pub open spec fn num_orders(&self) -> nat {
        if self.elements == 0 {
            0
        } else {
            self.orders@.len() / (self.elements as nat)
        }
    }

    /// Order `i`.
    pub open spec fn order(&self, i: int) -> Seq<usize> {
        block(self.orders@, self.elements as nat, i)
    }

    /// Each order scores every element.
    pub proof fn lemma_order_len(&self, i: int)
        requires
            self.wf(),
            0 <= i < self.num_orders(),
        ensures
            self.order(i).len() == self.elements,
            i * self.elements + self.elements <= self.orders@.len(),
            forall|j: int| 0 <= j < self.elements ==> #[trigger] self.order(i)[j] == self.orders@[i * self.elements + j],
    {
        self.lemma_shape();
        crate::util::lemma_mul_block(i, self.num_orders() as int, self.elements as int);
    }

    /// There are no more orders than scores.
    pub proof fn lemma_num_orders_bound(&self)
        ensures
            self.num_orders() <= self.orders@.len(),
    {
        if self.elements > 0 {
            vstd::arithmetic::div_mod::lemma_div_is_ordered_by_denominator(self.orders@.len() as int, 1, self.elements as int);
        }
    }

    proof fn lemma_shape(&self)
        requires
            self.wf(),
        ensures
            self.num_orders() * self.elements == self.orders@.len(),
    {
        if self.elements > 0 {
            crate::util::lemma_div_exact(self.orders@.len() as int, self.elements as int);
            assert(self.num_orders() == (self.orders@.len() as int) / (self.elements as int));
        } else {
            let k = self.num_orders();
            let e = self.elements;
            assert(k * e == 0) by (nonlinear_arith)
                requires
                    e == 0,
            ;
        }
    }

    /// An empty collection of orders over `elements` elements, with scores in
    /// `min..=max`.
    pub fn new(elements: usize, min: usize, max: usize) -> (res: CardinalDense)
        requires
            min <= max,
        ensures
            res.wf(),
            res.in_range(),
            res.elements == elements,
            res.min == min,
            res.max == max,
            res.orders@.len() == 0,
    {
        proof {
            if elements > 0 {
                vstd::arithmetic::div_mod::lemma_small_mod(0, elements as nat);
            }
        }
        CardinalDense { orders: Vec::new(), elements, min, max }
    }

    /// The lowest valid score.
    pub fn min(&self) -> (res: usize)
        ensures
            res == self.min,
    {
        self.min
    }

    /// The highest valid score.
    pub fn max(&self) -> (res: usize)
        ensures
            res == self.max,
    {
        self.max
    }

    /// The number of elements.
    pub fn elements(&self) -> (res: usize)
        ensures
            res == self.elements,
    {
        self.elements
    }

    /// Returns true iff the orders fill whole blocks and every score is in
    /// range.
    pub fn valid(&self) -> (res: bool)
        ensures
            res == (self.wf() && self.in_range()),
    {
        if self.elements == 0 {
            if self.orders.len() != 0 {
                return false;
            }
        } else if self.orders.len() % self.elements != 0 {
            return false;
        }
        let mut k: usize = 0;
        while k < self.orders.len()
            invariant
                k <= self.orders@.len(),
                forall|q: int| 0 <= q < k ==> self.min <= #[trigger] self.orders@[q] <= self.max,
            decreases self.orders@.len() - k,
        {
            let v = self.orders[k];
            if v < self.min || v > self.max {
                return false;
            }
            k += 1;
        }
        true
    }

    /// The number of orders.
    pub fn len(&self) -> (res: usize)
        ensures
            res == self.num_orders(),
    {
        if self.elements == 0 {
            0
        } else {
            self.orders.len() / self.elements
        }
    }

    /// Whether there are no orders.
    pub fn is_empty(&self) -> (res: bool)
        ensures
            res == (self.num_orders() == 0),
    {
        self.len() == 0
    }

    /// Order `i`, or `None` if there is no such order.
    pub fn try_get(&self, i: usize) -> (res: Option<CardinalRef<'_>>)
        requires
            self.wf(),
        ensures
            i < self.num_orders() ==> (res matches Some(r) && r@ == self.order(i as int)),
            i >= self.num_orders() ==> res is None,
    {
        let _ = self.orders.len();
        if i < self.len() {
            let e = self.elements;
            proof {
                self.lemma_shape();
                crate::util::lemma_mul_block(i as int, self.num_orders() as int, e as int);
            }
            let start = i * e;
            let end = start + e;
            let s = &self.orders.as_slice()[start..end];
            Some(CardinalRef::new(s))
        } else {
            None
        }
    }

    /// Order `i`.
    pub fn get(&self, i: usize) -> (res: CardinalRef<'_>)
        requires
            self.wf(),
            i < self.num_orders(),
        ensures
            res@ == self.order(i as int),
    {
        self.try_get(i).unwrap()
    }

    /// Every order, in turn.
    pub fn iter(&self) -> (res: Vec<CardinalRef<'_>>)
        requires
            self.wf(),
        ensures
            res@.len() == self.num_orders(),
            forall|i: int| 0 <= i < res@.len() ==> (#[trigger] res@[i])@ == self.order(i),
    {
        let n = self.len();
        let mut res: Vec<CardinalRef<'_>> = Vec::new();
        let mut i: usize = 0;
        while i < n
            invariant
                self.wf(),
                n == self.num_orders(),
                i <= n,
                res@.len() == i,
                forall|k: int| 0 <= k < i ==> (#[trigger] res@[k])@ == self.order(k),
            decreases n - i,
        {
            res.push(self.get(i));
            i += 1;
        }
        res
    }

    /// Adds order `v`, which must score every element. Fails only if memory
    /// for it could not be reserved.
    pub fn add(&mut self, v: CardinalRef) -> (res: Result<(), &'static str>)
        requires
            old(self).wf(),
            v@.len() == old(self).elements,
        ensures
            final(self).wf(),
            final(self).elements == old(self).elements,
            final(self).min == old(self).min,
            final(self).max == old(self).max,
            res is Err ==> final(self).orders@ == old(self).orders@ && res == Err::<(), &'static str>(
                "Could not add order",
            ),
            res is Ok ==> final(self).orders@ == old(self).orders@ + v@,
    {
        if self.orders.try_reserve(self.elements).is_err() {
            return Err("Could not add order");
        }
        let ghost before = self.orders@;
        let n = v.values.len();
        let mut i: usize = 0;
        while i < n
            invariant
                n == v@.len(),
                i <= n,
                self.elements == old(self).elements,
                self.min == old(self).min,
                self.max == old(self).max,
                before == old(self).orders@,
                self.orders@ == before + v@.take(i as int),
            decreases n - i,
        {
            self.orders.push(v.values[i]);
            i += 1;
            proof {
                assert(self.orders@ =~= before + v@.take(i as int));
            }
        }
        proof {
            assert(v@.take(n as int) =~= v@);
            if self.elements > 0 {
                crate::util::lemma_div_add_block(before.len() as int, self.elements as int);
            }
        }
        Ok(())
    }

    /// Removes element `target` from every order; the elements after it move
    /// down by one.
    pub fn remove_element(&mut self, target: usize) -> (res: Result<(), &'static str>)
        requires
            old(self).wf(),
            target < old(self).elements,
        ensures
            res is Ok,
            final(self).wf(),
            final(self).elements == old(self).elements - 1,
            final(self).min == old(self).min,
            final(self).max == old(self).max,
            final(self).elements > 0 ==> final(self).num_orders() == old(self).num_orders(),
            forall|i: int, j: int|
                0 <= i < old(self).num_orders() && 0 <= j < final(self).elements ==> #[trigger] final(self).order(i)[j]
                    == old(self).order(i)[crate::util::skip_index(j, target as int)],
    {
        let e = self.elements;
        let ne = e - 1;
        let count = self.len();
        proof {
            crate::util::lemma_div_exact(self.orders@.len() as int, e as int);
        }
        let out = crate::util::remove_column(&self.orders, e, count, target);
        self.orders = out;
        self.elements = ne;
        proof {
            if ne > 0 {
                crate::util::lemma_mul_div(count as int, ne as int);
            }
            assert forall|i2: int, j2: int|
                0 <= i2 < old(self).num_orders() && 0 <= j2 < self.elements implies #[trigger] self.order(
                i2,
            )[j2] == old(self).order(i2)[crate::util::skip_index(j2, target as int)] by {
                crate::util::lemma_mul_block(i2, count as int, e as int);
                crate::util::lemma_mul_block(i2, count as int, ne as int);
                assert(self.orders@[i2 * ne + j2] == old(self).orders@[i2 * e
                    + crate::util::skip_index(j2, target as int)]);
            }
        }
        Ok(())
    }

    /// Adds `new_orders` random orders, each score uniform in `min..=max`.
    pub fn generate_uniform(&mut self, rng: &mut StdRng, new_orders: usize)
        requires
            old(self).wf(),
            old(self).min <= old(self).max,
            old(self).orders@.len() + new_orders * old(self).elements <= usize::MAX,
        ensures
            final(self).wf(),
            final(self).elements == old(self).elements,
            final(self).min == old(self).min,
            final(self).max == old(self).max,
            final(self).orders@.len() == old(self).orders@.len() + new_orders * old(self).elements,
            final(self).orders@.subrange(0, old(self).orders@.len() as int) == old(self).orders@,
            forall|k: int|
                old(self).orders@.len() <= k < final(self).orders@.len() ==> old(self).min
                    <= #[trigger] final(self).orders@[k] <= old(self).max,
    {
        if self.elements == 0 || new_orders == 0 {
            proof {
                assert(self.orders@.subrange(0, old(self).orders@.len() as int) =~= old(self).orders@);
                let e0 = old(self).elements;
                assert(new_orders * e0 == 0) by (nonlinear_arith)
                    requires
                        new_orders == 0 || e0 == 0,
                ;
            }
            return;
        }
        let e = self.elements;
        let mut k: usize = 0;
        while k < new_orders
            invariant
                e == self.elements,
                e == old(self).elements,
                self.min == old(self).min,
                self.max == old(self).max,
                self.min <= self.max,
                e > 0,
                k <= new_orders,
                old(self).orders@.len() + new_orders * e <= usize::MAX,
                self.orders@.len() == old(self).orders@.len() + k * e,
                self.orders@.subrange(0, old(self).orders@.len() as int) == old(self).orders@,
                (self.orders@.len() as int) % (e as int) == 0,
                forall|q: int|
                    old(self).orders@.len() <= q < self.orders@.len() ==> self.min
                        <= #[trigger] self.orders@[q] <= self.max,
            decreases new_orders - k,
        {
            proof {
                crate::util::lemma_mul_block(k as int, new_orders as int, e as int);
            }
            let mut j: usize = 0;
            while j < e
                invariant
                    e == self.elements,
                    e == old(self).elements,
                    self.min == old(self).min,
                    self.max == old(self).max,
                    self.min <= self.max,
                    e > 0,
                    k < new_orders,
                    j <= e,
                    old(self).orders@.len() + new_orders * e <= usize::MAX,
                    k * e + e <= new_orders * e,
                    self.orders@.len() == old(self).orders@.len() + k * e + j,
                    self.orders@.subrange(0, old(self).orders@.len() as int) == old(self).orders@,
                    forall|q: int|
                        old(self).orders@.len() <= q < self.orders@.len() ==> self.min
                            <= #[trigger] self.orders@[q] <= self.max,
                decreases e - j,
            {
                let x = random_between(rng, self.min, self.max);
                self.orders.push(x);
                j += 1;
                proof {
                    assert(self.orders@.subrange(0, old(self).orders@.len() as int) =~= old(self).orders@);
                }
            }
            proof {
                crate::util::lemma_div_add_block((old(self).orders@.len() + k * e) as int, e as int);
                assert((k + 1) * e == k * e + e) by (nonlinear_arith);
            }
            k += 1;
        }
    }

    /// Converts each binary order to a cardinal order, with an approval
    /// scoring 1 and a disapproval 0. Fails only if memory for it could not
    /// be reserved.
    pub fn try_from(value: &BinaryDense) -> (res: Result<CardinalDense, &'static str>)
        requires
            value.wf(),
        ensures
            res matches Ok(c) ==> c.wf() && c.in_range() && c.elements == value.elements && c.min
                == 0 && c.max == 1 && c.orders@ == scores_from(value.orders@),
            res is Err ==> res == Err::<CardinalDense, &'static str>("Could not allocate"),
    {
        let mut orders: Vec<usize> = Vec::new();
        if orders.try_reserve(value.orders.len()).is_err() {
            return Err("Could not allocate");
        }
        let n = value.orders.len();
        let mut i: usize = 0;
        while i < n
            invariant
                n == value.orders@.len(),
                i <= n,
                orders@ == scores_from(value.orders@).take(i as int),
            decreases n - i,
        {
            orders.push(if value.orders[i] { 1 } else { 0 });
            i += 1;
            proof {
                assert(orders@ =~= scores_from(value.orders@).take(i as int));
            }
        }
        proof {
            assert(orders@ =~= scores_from(value.orders@));
        }
        Ok(CardinalDense { orders, elements: value.elements, min: 0, max: 1 })
    }

    /// Turns every order into a binary order, where every score at or above
    /// `n` becomes an approval. Fails only if memory for it could not be
    /// reserved.
    pub fn to_binary_cutoff(&self, n: usize) -> (res: Result<BinaryDense, &'static str>)
        requires
            self.wf(),
            self.min <= n <= self.max,
        ensures
            res matches Ok(b) ==> b.wf() && b.elements == self.elements && b.orders@
                == approvals_from(self.orders@, n),
            res is Err ==> res == Err::<BinaryDense, &'static str>("Could not allocate"),
    {
        let mut binary_orders: Vec<bool> = Vec::new();
        if binary_orders.try_reserve(self.orders.len()).is_err() {
            return Err("Could not allocate");
        }
        let len = self.orders.len();
        let mut i: usize = 0;
        while i < len
            invariant
                len == self.orders@.len(),
                i <= len,
                binary_orders@ == approvals_from(self.orders@, n).take(i as int),
            decreases len - i,
        {
            binary_orders.push(self.orders[i] >= n);
            i += 1;
            proof {
                assert(binary_orders@ =~= approvals_from(self.orders@, n).take(i as int));
            }
        }
        proof {
            assert(binary_orders@ =~= approvals_from(self.orders@, n));
        }
        Ok(BinaryDense::new_from_parts(binary_orders, self.elements))
    }

    /// Number of valid scores.
    pub fn values(&self) -> (res: usize)
        requires
            self.min <= self.max,
            self.max - self.min < usize::MAX,
        ensures
            res == self.max - self.min + 1,
    {
        self.max - self.min + 1
    }
}

} // verus!

verus! {

/// Every score of `s` multiplied by `a`.
pub open spec fn scaled(s: Seq<usize>, a: usize) -> Seq<usize> {
    Seq::new(s.len(), |i: int| (s[i] * a) as usize)
}

/// Every score of `s` plus `a`.
pub open spec fn shifted_up(s: Seq<usize>, a: usize) -> Seq<usize> {
    Seq::new(s.len(), |i: int| (s[i] + a) as usize)
}

/// Every score of `s` minus `a`.
pub open spec fn shifted_down(s: Seq<usize>, a: usize) -> Seq<usize> {
    Seq::new(s.len(), |i: int| (s[i] - a) as usize)
}

impl CardinalDense {
    /// Number of orders in which element `a` scores higher than element `b`.
    pub open spec fn wins(&self, a: usize, b: usize) -> int {
        count_wins(self.orders@, self.elements as nat, self.num_orders(), a as int, b as int) as int
    }

    /// Number of orders in which element `a` scores `value`.
    pub open spec fn scored(&self, a: usize, value: usize) -> int {
        count_value(self.orders@, self.elements as nat, self.num_orders(), a as int, value) as int
    }

    /// Sum of the scores of element `a` over all orders.
    pub open spec fn total(&self, a: int) -> nat {
        total_score(self.orders@, self.elements as nat, self.num_orders(), a)
    }

    /// Multiplies each score by `a`, changing `min` and `max` alike. Fails,
    /// changing nothing, if the new `min` or `max` would overflow.
    pub fn map_mul(&mut self, a: usize) -> (res: Result<(), MapError>)
        requires
            old(self).in_range(),
        ensures
            old(self).min * a > usize::MAX && a != 1 ==> res == Err::<(), MapError>(
                MapError::Underflow,
            ),
            old(self).min * a <= usize::MAX && old(self).max * a > usize::MAX && a != 1 ==> res
                == Err::<(), MapError>(MapError::Overflow),
            a == 1 || (old(self).min * a <= usize::MAX && old(self).max * a <= usize::MAX) ==> res is Ok,
            res is Err ==> *final(self) == *old(self),
            res is Ok ==> old(self).max * a <= usize::MAX && final(self).orders@ == scaled(
                old(self).orders@,
                a,
            ) && final(self).min == old(self).min * a && final(self).max == old(self).max * a
                && final(self).elements == old(self).elements,
    {
        if a == 1 {
            proof {
                assert(self.orders@ =~= scaled(self.orders@, a));
                let mx = self.max;
                let mn = self.min;
                assert(mx * a == mx && mn * a == mn) by (nonlinear_arith)
                    requires
                        a == 1,
                ;
            }
            return Ok(());
        }
        let new_min = match self.min.checked_mul(a) {
            Some(x) => x,
            None => {
                return Err(MapError::Underflow);
            },
        };
        let new_max = match self.max.checked_mul(a) {
            Some(x) => x,
            None => {
                return Err(MapError::Overflow);
            },
        };
        let n = self.orders.len();
        let mut k: usize = 0;
        while k < n
            invariant
                n == self.orders@.len(),
                n == old(self).orders@.len(),
                k <= n,
                self.elements == old(self).elements,
                self.min == old(self).min,
                self.max == old(self).max,
                old(self).max * a <= usize::MAX,
                old(self).in_range(),
                forall|q: int| 0 <= q < k ==> self.orders@[q] == scaled(old(self).orders@, a)[q],
                forall|q: int| k <= q < n ==> self.orders@[q] == old(self).orders@[q],
            decreases n - k,
        {
            let v = self.orders[k];
            proof {
                let mx = self.max as int;
                assert(v * a <= mx * a) by (nonlinear_arith)
                    requires
                        v <= mx,
                ;
            }
            self.orders.set(k, v * a);
            k += 1;
        }
        self.min = new_min;
        self.max = new_max;
        proof {
            assert(self.orders@ =~= scaled(old(self).orders@, a));
        }
        Ok(())
    }

    /// Adds `a` to each score, changing `min` and `max` alike. Fails,
    /// changing nothing, if the new `min` or `max` would overflow.
    pub fn map_add(&mut self, a: usize) -> (res: Result<(), MapError>)
        requires
            old(self).in_range(),
        ensures
            old(self).min + a > usize::MAX ==> res == Err::<(), MapError>(MapError::Underflow),
            old(self).min + a <= usize::MAX && old(self).max + a > usize::MAX ==> res == Err::<
                (),
                MapError,
            >(MapError::Overflow),
            old(self).min + a <= usize::MAX && old(self).max + a <= usize::MAX ==> res is Ok,
            res is Err ==> *final(self) == *old(self),
            res is Ok ==> old(self).max + a <= usize::MAX && final(self).orders@ == shifted_up(
                old(self).orders@,
                a,
            ) && final(self).min == old(self).min + a && final(self).max == old(self).max + a
                && final(self).elements == old(self).elements,
    {
        if a == 0 {
            proof {
                assert(self.orders@ =~= shifted_up(self.orders@, a));
            }
            return Ok(());
        }
        let new_min = match self.min.checked_add(a) {
            Some(x) => x,
            None => {
                return Err(MapError::Underflow);
            },
        };
        let new_max = match self.max.checked_add(a) {
            Some(x) => x,
            None => {
                return Err(MapError::Overflow);
            },
        };
        let n = self.orders.len();
        let mut k: usize = 0;
        while k < n
            invariant
                n == self.orders@.len(),
                n == old(self).orders@.len(),
                k <= n,
                self.elements == old(self).elements,
                self.min == old(self).min,
                self.max == old(self).max,
                old(self).max + a <= usize::MAX,
                old(self).in_range(),
                forall|q: int| 0 <= q < k ==> self.orders@[q] == shifted_up(old(self).orders@, a)[q],
                forall|q: int| k <= q < n ==> self.orders@[q] == old(self).orders@[q],
            decreases n - k,
        {
            let v = self.orders[k];
            self.orders.set(k, v + a);
            k += 1;
        }
        self.min = new_min;
        self.max = new_max;
        proof {
            assert(self.orders@ =~= shifted_up(old(self).orders@, a));
        }
        Ok(())
    }

    /// Subtracts `a` from each score, changing `min` and `max` alike. Fails,
    /// changing nothing, if the new `min` would be negative.
    pub fn map_sub(&mut self, a: usize) -> (res: Result<(), MapError>)
        requires
            old(self).in_range(),
            old(self).min <= old(self).max,
        ensures
            old(self).min < a ==> res == Err::<(), MapError>(MapError::Underflow),
            a <= old(self).min ==> res is Ok,
            res is Err ==> *final(self) == *old(self),
            res is Ok ==> a <= old(self).min && final(self).orders@ == shifted_down(
                old(self).orders@,
                a,
            ) && final(self).min == old(self).min - a && final(self).max == old(self).max - a
                && final(self).elements == old(self).elements,
    {
        if a == 0 {
            proof {
                assert(self.orders@ =~= shifted_down(self.orders@, a));
            }
            return Ok(());
        }
        let new_min = match self.min.checked_sub(a) {
            Some(x) => x,
            None => {
                return Err(MapError::Underflow);
            },
        };
        let new_max = match self.max.checked_sub(a) {
            Some(x) => x,
            None => {
                return Err(MapError::Overflow);
            },
        };
        let n = self.orders.len();
        let mut k: usize = 0;
        while k < n
            invariant
                n == self.orders@.len(),
                n == old(self).orders@.len(),
                k <= n,
                self.elements == old(self).elements,
                self.min == old(self).min,
                self.max == old(self).max,
                a <= old(self).min,
                old(self).in_range(),
                forall|q: int| 0 <= q < k ==> self.orders@[q] == shifted_down(old(self).orders@, a)[q],
                forall|q: int| k <= q < n ==> self.orders@[q] == old(self).orders@[q],
            decreases n - k,
        {
            let v = self.orders[k];
            self.orders.set(k, v - a);
            k += 1;
        }
        self.min = new_min;
        self.max = new_max;
        proof {
            assert(self.orders@ =~= shifted_down(old(self).orders@, a));
        }
        Ok(())
    }

    /// The number of orders in which `a` scores higher than `b`, and in which
    /// `b` scores higher than `a`.
    pub(crate) fn count_pairwise(&self, a: usize, b: usize) -> (res: (usize, usize))
        requires
            self.wf(),
            a < self.elements,
            b < self.elements,
        ensures
            res.0 == self.wins(a, b),
            res.1 == self.wins(b, a),
    {
        let n = self.len();
        let e = self.elements;
        let mut a_v: usize = 0;
        let mut b_v: usize = 0;
        let mut i: usize = 0;
        while i < n
            invariant
                self.wf(),
                n == self.num_orders(),
                e == self.elements,
                a < e,
                b < e,
                i <= n,
                a_v == count_wins(self.orders@, e as nat, i as nat, a as int, b as int),
                b_v == count_wins(self.orders@, e as nat, i as nat, b as int, a as int),
                a_v <= i,
                b_v <= i,
            decreases n - i,
        {
            let v = self.get(i);
            proof {
                self.lemma_order_len(i as int);
            }
            let x = v.values[a];
            let y = v.values[b];
            if x > y {
                a_v += 1;
            } else if x < y {
                b_v += 1;
            }
            i += 1;
        }
        (a_v, b_v)
    }

    /// Compares how many orders score `a` higher than `b` against how many
    /// score `b` higher than `a`.
    pub fn compare(&self, a: usize, b: usize) -> (res: Ordering)
        requires
            self.wf(),
            a < self.elements,
            b < self.elements,
        ensures
            res == compare_nat(self.wins(a, b), self.wins(b, a)),
    {
        let (a_v, b_v) = self.count_pairwise(a, b);
        compare_usize(a_v, b_v)
    }

    /// The number of orders in which `a` scores `value`, and in which `b`
    /// does.
    pub(crate) fn count_specific(&self, a: usize, b: usize, value: usize) -> (res: (usize, usize))
        requires
            self.wf(),
            a < self.elements,
            b < self.elements,
        ensures
            res.0 == self.scored(a, value),
            res.1 == self.scored(b, value),
    {
        let n = self.len();
        let e = self.elements;
        let mut a_v: usize = 0;
        let mut b_v: usize = 0;
        let mut i: usize = 0;
        while i < n
            invariant
                self.wf(),
                n == self.num_orders(),
                e == self.elements,
                a < e,
                b < e,
                i <= n,
                a_v == count_value(self.orders@, e as nat, i as nat, a as int, value),
                b_v == count_value(self.orders@, e as nat, i as nat, b as int, value),
                a_v <= i,
                b_v <= i,
            decreases n - i,
        {
            let v = self.get(i);
            proof {
                self.lemma_order_len(i as int);
            }
            if v.values[a] == value {
                a_v += 1;
            }
            if v.values[b] == value {
                b_v += 1;
            }
            i += 1;
        }
        (a_v, b_v)
    }

    /// Compares how many orders score `a` with `value` against how many
    /// score `b` with `value`.
    pub fn compare_specific(&self, a: usize, b: usize, value: usize) -> (res: Ordering)
        requires
            self.wf(),
            a < self.elements,
            b < self.elements,
        ensures
            res == compare_nat(self.scored(a, value), self.scored(b, value)),
    {
        let (a_v, b_v) = self.count_specific(a, b, value);
        compare_usize(a_v, b_v)
    }
}

} // verus!

verus! {

pub proof fn lemma_total_score_mono(s: Seq<usize>, e: nat, k1: nat, k2: nat, a: int)
    requires
        k1 <= k2,
    ensures
        total_score(s, e, k1, a) <= total_score(s, e, k2, a),
    decreases k2,
{
    if k1 < k2 {
        lemma_total_score_mono(s, e, k1, (k2 - 1) as nat, a);
    }
}

impl CardinalDense {
    /// The sum of every element's scores over all orders. Fails if a sum
    /// does not fit in `usize`, or if memory for the sums could not be
    /// reserved.
    pub fn sum(&self) -> (res: Result<Cardinal, SumError>)
        requires
            self.wf(),
        ensures
            res matches Ok(c) ==> c@.len() == self.elements && forall|i: int|
                0 <= i < self.elements ==> #[trigger] c@[i] == self.total(i),
            res matches Err(SumError::Overflow) ==> exists|i: int|
                0 <= i < self.elements && #[trigger] self.total(i) > usize::MAX,
    {
        let e = self.elements;
        let mut out: Vec<usize> = Vec::new();
        if out.try_reserve(e).is_err() {
            return Err(SumError::Alloc);
        }
        self.sum_into(out)
    }

    /// The sum of every element's scores over all orders, built in `out`
    /// (an empty vector, which may have room reserved). Succeeds exactly
    /// when every sum fits in `usize`.
    pub fn sum_into(&self, out: Vec<usize>) -> (res: Result<Cardinal, SumError>)
        requires
            self.wf(),
            out@.len() == 0,
        ensures
            res matches Ok(c) ==> c@.len() == self.elements && forall|i: int|
                0 <= i < self.elements ==> #[trigger] c@[i] == self.total(i),
            res is Ok <==> forall|i: int| 0 <= i < self.elements ==> #[trigger] self.total(i) <= usize::MAX,
            res is Err ==> res == Err::<Cardinal, SumError>(SumError::Overflow),
    {
        let e = self.elements;
        let mut out = out;
        let mut q: usize = 0;
        while q < e
            invariant
                q <= e,
                out@.len() == q,
                forall|k: int| 0 <= k < q ==> out@[k] == 0,
            decreases e - q,
        {
            out.push(0);
            q += 1;
        }
        let n = self.len();
        let mut k: usize = 0;
        while k < n
            invariant
                self.wf(),
                n == self.num_orders(),
                e == self.elements,
                k <= n,
                out@.len() == e,
                forall|i: int| 0 <= i < e ==> #[trigger] out@[i] == total_score(self.orders@, e as nat, k as nat, i),
            decreases n - k,
        {
            let order = self.get(k);
            proof {
                self.lemma_order_len(k as int);
            }
            let mut i: usize = 0;
            while i < e
                invariant
                    self.wf(),
                    n == self.num_orders(),
                    e == self.elements,
                    k < n,
                    i <= e,
                    order@ == self.order(k as int),
                    order@.len() == e,
                    out@.len() == e,
                    forall|j: int| 0 <= j < i ==> #[trigger] out@[j] == total_score(self.orders@, e as nat, (k + 1) as nat, j),
                    forall|j: int| i <= j < e ==> #[trigger] out@[j] == total_score(self.orders@, e as nat, k as nat, j),
                decreases e - i,
            {
                let v = order.values[i];
                match out[i].checked_add(v) {
                    Some(r) => {
                        out.set(i, r);
                    },
                    None => {
                        proof {
                            lemma_total_score_mono(self.orders@, e as nat, (k + 1) as nat, self.num_orders(), i as int);
                            assert(self.total(i as int) > usize::MAX);
                        }
                        return Err(SumError::Overflow);
                    },
                }
                i += 1;
            }
            k += 1;
        }
        proof {
            assert forall|i: int| 0 <= i < self.elements implies #[trigger] self.total(i) <= usize::MAX by {
                assert(out@[i] == total_score(self.orders@, e as nat, n as nat, i));
            }
        }
        Ok(Cardinal::new(out))
    }

    /// Adds to `matrix` the pairwise preferences between the elements listed
    /// in `keep`: cell `p * keep.len() + q` grows by the number of orders
    /// that score `keep[p]` higher than `keep[q]`.
    ///
    /// The diagonal of the matrix is left unchanged.
    pub fn fill_preference_matrix(&self, keep: &[usize], matrix: &mut Vec<usize>)
        requires
            self.wf(),
            old(matrix)@.len() == keep@.len() * keep@.len(),
            forall|i: int| 0 <= i < keep@.len() ==> #[trigger] keep@[i] < self.elements,
            forall|x: int| 0 <= x < old(matrix)@.len() ==> #[trigger] old(matrix)@[x] + self.num_orders() <= usize::MAX,
        ensures
            final(matrix)@.len() == old(matrix)@.len(),
            forall|p: int, q: int|
                0 <= p < keep@.len() && 0 <= q < keep@.len() ==> #[trigger] final(matrix)@[p * keep@.len() + q]
                    == old(matrix)@[p * keep@.len() + q] + if p == q {
                    0
                } else {
                    self.wins(keep@[p], keep@[q])
                },
    {
        let l = keep.len();
        let n = self.len();
        let e = self.elements;
        let ghost m0 = matrix@;
        let mut k: usize = 0;
        while k < n
            invariant
                self.wf(),
                n == self.num_orders(),
                e == self.elements,
                l == keep@.len(),
                k <= n,
                m0.len() == l * l,
                matrix@.len() == l * l,
                forall|i: int| 0 <= i < l ==> #[trigger] keep@[i] < e,
                forall|x: int| 0 <= x < m0.len() ==> #[trigger] m0[x] + n <= usize::MAX,
                forall|p: int, q: int|
                    0 <= p < l && 0 <= q < l ==> #[trigger] matrix@[p * l + q] == m0[p * l + q] + pref_count(
                        self.orders@,
                        e as nat,
                        k as nat,
                        keep@,
                        p,
                        q,
                    ),
            decreases n - k,
        {
            let order = self.get(k);
            proof {
                self.lemma_order_len(k as int);
            }
            let ghost mk = matrix@;
            let mut i: usize = 0;
            while i < l
                invariant
                    self.wf(),
                    n == self.num_orders(),
                    e == self.elements,
                    l == keep@.len(),
                    k < n,
                    i <= l,
                    order@ == self.order(k as int),
                    order@.len() == e,
                    m0.len() == l * l,
                    mk.len() == l * l,
                    matrix@.len() == l * l,
                    forall|i2: int| 0 <= i2 < l ==> #[trigger] keep@[i2] < e,
                    forall|x: int| 0 <= x < m0.len() ==> #[trigger] m0[x] + n <= usize::MAX,
                    forall|p: int, q: int|
                        0 <= p < l && 0 <= q < l ==> #[trigger] mk[p * l + q] == m0[p * l + q] + pref_count(
                            self.orders@,
                            e as nat,
                            k as nat,
                            keep@,
                            p,
                            q,
                        ),
                    forall|p: int, q: int|
                        0 <= p < l && 0 <= q < l ==> #[trigger] matrix@[p * l + q] == mk[p * l + q]
                            + if p != q && (p < i || q < i) && order@[keep@[p] as int] > order@[keep@[q] as int] {
                            1int
                        } else {
                            0int
                        },
                decreases l - i,
            {
                let ci = order.values[keep[i]];
                let mut j: usize = i + 1;
                while j < l
                    invariant
                        self.wf(),
                        n == self.num_orders(),
                        e == self.elements,
                        l == keep@.len(),
                        k < n,
                        i < l,
                        i + 1 <= j <= l,
                        ci == order@[keep@[i as int] as int],
                        order@.len() == e,
                        m0.len() == l * l,
                        mk.len() == l * l,
                        matrix@.len() == l * l,
                        forall|i2: int| 0 <= i2 < l ==> #[trigger] keep@[i2] < e,
                        forall|x: int| 0 <= x < m0.len() ==> #[trigger] m0[x] + n <= usize::MAX,
                        forall|p: int, q: int|
                            0 <= p < l && 0 <= q < l ==> #[trigger] mk[p * l + q] == m0[p * l + q] + pref_count(
                                self.orders@,
                                e as nat,
                                k as nat,
                                keep@,
                                p,
                                q,
                            ),
                        forall|p: int, q: int|
                            0 <= p < l && 0 <= q < l ==> #[trigger] matrix@[p * l + q] == mk[p * l + q]
                                + if p != q && (p < i || q < i || (p == i && q < j) || (q == i && p < j))
                                && order@[keep@[p] as int] > order@[keep@[q] as int] {
                                1int
                            } else {
                                0int
                            },
                    decreases l - j,
                {
                    let cj = order.values[keep[j]];
                    proof {
                        crate::partial_order::lemma_cell_bound(l as nat, j as int, i as int);
                        crate::partial_order::lemma_cell_bound(l as nat, i as int, j as int);
                        assert(i * l + j == j + l * i) by (nonlinear_arith);
                        assert(j * l + i == i + l * j) by (nonlinear_arith);
                    }
                    if ci > cj || ci < cj {
                        let (x, y) = if ci > cj { (i, j) } else { (j, i) };
                        let _ = matrix.len();
                        proof {
                            assert(x * l + y == y + l * x) by (nonlinear_arith);
                            crate::partial_order::lemma_cell_bound(l as nat, y as int, x as int);
                        }
                        let idx = x * l + y;
                        let ghost before = matrix@;
                        proof {
                            lemma_pref_count_bound(self.orders@, e as nat, k as nat, keep@, x as int, y as int);
                            assert(before[x * l + y] == mk[x * l + y]);
                            assert(m0[x * l + y] + n <= usize::MAX);
                        }
                        let old_v = matrix[idx];
                        matrix.set(idx, old_v + 1);
                        proof {
                            assert forall|p: int, q: int|
                                0 <= p < l && 0 <= q < l implies #[trigger] matrix@[p * l + q] == mk[p * l + q]
                                + if p != q && (p < i || q < i || (p == i && q < j + 1) || (q == i && p < j + 1))
                                && order@[keep@[p] as int] > order@[keep@[q] as int] {
                                1int
                            } else {
                                0int
                            } by {
                                assert(p * l + q == q + l * p) by (nonlinear_arith);
                                crate::partial_order::lemma_cell_bound(l as nat, q, p);
                                if p * l + q == idx {
                                    crate::partial_order::lemma_cell_injective(l as nat, q, p, y as int, x as int);
                                }
                            }
                        }
                    }
                    j += 1;
                }
                i += 1;
            }
            proof {
                assert forall|p: int, q: int|
                    0 <= p < l && 0 <= q < l implies #[trigger] matrix@[p * l + q] == m0[p * l + q] + pref_count(
                    self.orders@,
                    e as nat,
                    (k + 1) as nat,
                    keep@,
                    p,
                    q,
                ) by {
                    assert(mk[p * l + q] == m0[p * l + q] + pref_count(self.orders@, e as nat, k as nat, keep@, p, q));
                }
            }
            k += 1;
        }
    }
}

/// What the first `k` orders add to cell `(p, q)` of a preference matrix
/// over `keep`.
pub open spec fn pref_count(s: Seq<usize>, e: nat, k: nat, keep: Seq<usize>, p: int, q: int) -> int {
    if p == q {
        0
    } else {
        count_wins(s, e, k, keep[p] as int, keep[q] as int) as int
    }
}

proof fn lemma_pref_count_bound(s: Seq<usize>, e: nat, k: nat, keep: Seq<usize>, p: int, q: int)
    ensures
        pref_count(s, e, k, keep, p, q) <= k,
    decreases k,
{
    if k > 0 {
        lemma_pref_count_bound(s, e, (k - 1) as nat, keep, p, q);
    }
}

} // verus!

verus! {

impl CardinalDense {
    /// The [Kotze-Pereira transformation](https://electowiki.org/wiki/Kotze-Pereira_transformation):
    /// every order becomes `max - min` binary orders, one per threshold
    /// `t` in `min..max`, approving the elements that score above `t`.
    /// Fails if the result would not fit in memory, or if memory for it
    /// could not be reserved.
    pub fn kp_transform(&self) -> (res: Result<BinaryDense, &'static str>)
        requires
            self.wf(),
            self.min <= self.max,
            self.max - self.min < usize::MAX,
        ensures
            res matches Ok(b) ==> b.wf() && b.elements == self.elements && b.orders@ == kp_all(
                self.orders@,
                self.elements as nat,
                self.num_orders(),
                self.min as nat,
                (self.max - self.min) as nat,
            ),
            self.orders@.len() * (self.max - self.min) > usize::MAX ==> res == Err::<
                BinaryDense,
                &'static str,
            >("Number of orders would be too large"),
            self.orders@.len() * (self.max - self.min) <= usize::MAX ==> (res is Ok || res == Err::<
                BinaryDense,
                &'static str,
            >("Could not allocate")),
            res is Err ==> res == Err::<BinaryDense, &'static str>(
                "Number of orders would be too large",
            ) || res == Err::<BinaryDense, &'static str>("Could not allocate"),
    {
        let e = self.elements;
        let n = self.len();
        let w = self.values() - 1;
        proof {
            self.lemma_shape();
            assert(n * e == e * n) by (nonlinear_arith);
        }
        let _ = self.orders.len();
        let step = match e.checked_mul(n) {
            Some(x) => x,
            None => {
                return Err("Number of orders would be too large");
            },
        };
        let orders_size = match step.checked_mul(w) {
            Some(x) => x,
            None => {
                return Err("Number of orders would be too large");
            },
        };
        let mut out: Vec<bool> = Vec::new();
        if out.try_reserve(orders_size).is_err() {
            return Err("Could not allocate");
        }
        Ok(self.kp_transform_into(out))
    }

    /// The Kotze-Pereira transformation built in `out`, an empty vector
    /// which may have room reserved; it always succeeds.
    pub fn kp_transform_into(&self, out: Vec<bool>) -> (res: BinaryDense)
        requires
            self.wf(),
            self.min <= self.max,
            self.max - self.min < usize::MAX,
            out@.len() == 0,
        ensures
            res.wf() && res.elements == self.elements && res.orders@ == kp_all(
                self.orders@,
                self.elements as nat,
                self.num_orders(),
                self.min as nat,
                (self.max - self.min) as nat,
            ),
    {
        let mut out = out;
        let e = self.elements;
        let n = self.len();
        let w = self.values() - 1;
        proof {
            self.lemma_shape();
        }
        let lo = self.min;
        let mut k: usize = 0;
        while k < n
            invariant
                self.wf(),
                n == self.num_orders(),
                e == self.elements,
                lo == self.min,
                w == self.max - self.min,
                k <= n,
                out@ == kp_all(self.orders@, e as nat, k as nat, lo as nat, w as nat),
            decreases n - k,
        {
            let order = self.get(k);
            proof {
                self.lemma_order_len(k as int);
            }
            let mut t: usize = 0;
            while t < w
                invariant
                    self.wf(),
                    n == self.num_orders(),
                    e == self.elements,
                    lo == self.min,
                    w == self.max - self.min,
                    k < n,
                    t <= w,
                    order@ == self.order(k as int),
                    order@.len() == e,
                    out@ == kp_all(self.orders@, e as nat, k as nat, lo as nat, w as nat) + kp_order(
                        order@,
                        lo as nat,
                        t as nat,
                    ),
                decreases w - t,
            {
                let threshold = lo + t;
                let mut j: usize = 0;
                while j < e
                    invariant
                        e == self.elements,
                        order@.len() == e,
                        threshold == lo + t,
                        j <= e,
                        out@ == kp_all(self.orders@, e as nat, k as nat, lo as nat, w as nat)
                            + kp_order(order@, lo as nat, t as nat) + kp_block(
                            order@,
                            lo as nat,
                            t as nat,
                        ).take(j as int),
                    decreases e - j,
                {
                    out.push(order.values[j] > threshold);
                    j += 1;
                    proof {
                        assert(out@ =~= kp_all(self.orders@, e as nat, k as nat, lo as nat, w as nat)
                            + kp_order(order@, lo as nat, t as nat) + kp_block(
                            order@,
                            lo as nat,
                            t as nat,
                        ).take(j as int));
                    }
                }
                proof {
                    assert(kp_block(order@, lo as nat, t as nat).take(e as int) =~= kp_block(
                        order@,
                        lo as nat,
                        t as nat,
                    ));
                    assert(kp_order(order@, lo as nat, (t + 1) as nat) == kp_order(
                        order@,
                        lo as nat,
                        t as nat,
                    ) + kp_block(order@, lo as nat, t as nat));
                    assert(out@ =~= kp_all(self.orders@, e as nat, k as nat, lo as nat, w as nat)
                        + kp_order(order@, lo as nat, (t + 1) as nat));
                }
                t += 1;
            }
            proof {
                assert(block(self.orders@, e as nat, k as int) == order@);
                assert(kp_all(self.orders@, e as nat, (k + 1) as nat, lo as nat, w as nat)
                    == kp_all(self.orders@, e as nat, k as nat, lo as nat, w as nat) + kp_order(
                    order@,
                    lo as nat,
                    w as nat,
                ));
            }
            k += 1;
        }
        proof {
            lemma_kp_all_len(self.orders@, e as nat, n as nat, lo as nat, w as nat);
            if e > 0 {
                assert(n * (w * e) == (n * w) * e) by (nonlinear_arith);
                crate::util::lemma_mul_div((n * w) as int, e as int);
            } else {
                assert(n * (w * e) == 0) by (nonlinear_arith)
                    requires
                        e == 0,
                ;
            }
        }
        BinaryDense::new_from_parts(out, e)
    }
}

} // verus!

verus! {

/// The Kotze-Pereira transformation turns each order into one approval
/// order per threshold: `max - min` of them.
pub proof fn kp_transform_orders(cv: CardinalDense, b: BinaryDense)
    requires
        cv.wf(),
        cv.min <= cv.max,
        b.elements == cv.elements,
        b.orders@ == kp_all(cv.orders@, cv.elements as nat, cv.num_orders(), cv.min as nat, (cv.max - cv.min) as nat),
    ensures
        b.num_orders() == cv.num_orders() * (cv.max - cv.min),
{
    let e = cv.elements as nat;
    let k = cv.num_orders();
    let w = (cv.max - cv.min) as nat;
    cv.lemma_shape();
    lemma_kp_all_len(cv.orders@, e, k, cv.min as nat, w);
    if e > 0 {
        assert(k * (w * e) == (k * w) * e) by (nonlinear_arith);
        crate::util::lemma_mul_div((k * w) as int, e as int);
        assert(b.orders@.len() == (k * w) * e);
        assert(b.num_orders() == k * w);
    } else {
        assert(k == 0);
        assert(k * w == 0) by (nonlinear_arith)
            requires
                k == 0,
        ;
    }
}

} // verus!

verus! {

/// Reads the scores of an order from its comma separated `parts`, in turn;
/// the first part that is no number, or a number outside `min..=max`,
/// decides the error.
pub open spec fn scan_cardinal(parts: Seq<Seq<u8>>, min: usize, max: usize) -> Result<Seq<usize>, &'static str>
    decreases parts.len(),
{
    if parts.len() == 0 {
        Ok(Seq::empty())
    } else {
        match scan_cardinal(parts.drop_last(), min, max) {
            Err(e) => Err(e),
            Ok(o) => match crate::parse::parse_usize_spec(parts.last()) {
                None => Err("Order is not a number"),
                Some(v) => if v > max {
                    Err("Cardinal order is larger than max value")
                } else if v < min {
                    Err("Cardinal order is smaller than min value")
                } else {
                    Ok(o.push(v))
                },
            },
        }
    }
}

/// Reads one line holding the scores of `elements` elements, such as
/// `0,4,2`.
pub open spec fn cardinal_line(elements: nat, min: usize, max: usize, line: Seq<u8>) -> Result<
    Seq<usize>,
    &'static str,
> {
    match scan_cardinal(crate::parse::split_on(line, crate::parse::COMMA), min, max) {
        Err(e) => Err(e),
        Ok(o) => if o.len() > elements {
            Err("Too many elements listed in order")
        } else if o.len() < elements {
            Err("Too few elements listed in order")
        } else {
            Ok(o)
        },
    }
}

proof fn lemma_scan_cardinal_stop(parts: Seq<Seq<u8>>, min: usize, max: usize, k: int)
    requires
        0 <= k <= parts.len(),
        scan_cardinal(parts.take(k), min, max) is Err,
    ensures
        scan_cardinal(parts, min, max) == scan_cardinal(parts.take(k), min, max),
    decreases parts.len() - k,
{
    if k < parts.len() {
        assert(parts.take(k + 1).drop_last() =~= parts.take(k));
        lemma_scan_cardinal_stop(parts, min, max, k + 1);
    } else {
        assert(parts.take(k) =~= parts);
    }
}

proof fn lemma_scan_cardinal_range(parts: Seq<Seq<u8>>, min: usize, max: usize)
    ensures
        scan_cardinal(parts, min, max) matches Ok(o) ==> forall|i: int| 0 <= i < o.len() ==> min <= #[trigger] o[i] <= max,
    decreases parts.len(),
{
    if parts.len() > 0 {
        lemma_scan_cardinal_range(parts.drop_last(), min, max);
    }
}

/// Reads one line of scores of `elements` elements.
fn read_cardinal_line(elements: usize, min: usize, max: usize, line: &[u8]) -> (res: Result<Vec<usize>, &'static str>)
    ensures
        match (res, cardinal_line(elements as nat, min, max, line@)) {
            (Ok(v), Ok(o)) => v@ == o,
            (Err(x), Err(y)) => x == y,
            _ => false,
        },
{
    let parts = crate::parse::split_bytes(line, crate::parse::COMMA);
    let ghost sp = crate::parse::split_on(line@, crate::parse::COMMA);
    let np = parts.len();
    let mut order: Vec<usize> = Vec::new();
    proof {
        assert(sp.take(0) =~= Seq::<Seq<u8>>::empty());
    }
    let mut k: usize = 0;
    while k < np
        invariant
            np == parts@.len(),
            sp == crate::parse::split_on(line@, crate::parse::COMMA),
            np == sp.len(),
            forall|j: int| 0 <= j < np ==> (#[trigger] parts@[j])@ == sp[j],
            k <= np,
            scan_cardinal(sp.take(k as int), min, max) == Ok::<Seq<usize>, &'static str>(order@),
        decreases np - k,
    {
        proof {
            assert(sp.take(k + 1).drop_last() =~= sp.take(k as int));
            assert(sp.take(k + 1).last() == parts@[k as int]@);
        }
        let v = match crate::parse::parse_usize(parts[k].as_slice()) {
            Some(v) => v,
            None => {
                proof {
                    lemma_scan_cardinal_stop(sp, min, max, k + 1);
                }
                return Err("Order is not a number");
            },
        };
        if v > max {
            proof {
                lemma_scan_cardinal_stop(sp, min, max, k + 1);
            }
            return Err("Cardinal order is larger than max value");
        }
        if v < min {
            proof {
                lemma_scan_cardinal_stop(sp, min, max, k + 1);
            }
            return Err("Cardinal order is smaller than min value");
        }
        order.push(v);
        k += 1;
    }
    proof {
        assert(sp.take(np as int) =~= sp);
    }
    if order.len() > elements {
        return Err("Too many elements listed in order");
    }
    if order.len() < elements {
        return Err("Too few elements listed in order");
    }
    Ok(order)
}

impl CardinalDense {
    /// The orders as text, such as `0,4,2\n1,1,3\n`: the scores of each
    /// joined by commas, one order per line.
    pub fn to_string(&self) -> (res: String)
        requires
            self.wf(),
        ensures
            res@ == crate::parse::ascii_chars(
                crate::tied::format_lines(Seq::new(self.num_orders(), |k: int| self.order(k))),
            ),
    {
        let e = self.elements;
        let c = self.len();
        let ghost all = Seq::new(self.num_orders(), |k: int| self.order(k));
        let mut out: Vec<u8> = Vec::new();
        let mut k: usize = 0;
        proof {
            assert(all.take(0) =~= Seq::<Seq<usize>>::empty());
        }
        let _ = self.orders.len();
        while k < c
            invariant
                self.wf(),
                self.orders@.len() <= usize::MAX,
                e == self.elements,
                c == self.num_orders(),
                all == Seq::new(self.num_orders(), |k: int| self.order(k)),
                k <= c,
                out@ == crate::tied::format_lines(all.take(k as int)),
                crate::parse::is_ascii_bytes(out@),
            decreases c - k,
        {
            proof {
                self.lemma_order_len(k as int);
            }
            let start = k * e;
            let o = &self.orders.as_slice()[start..start + e];
            proof {
                assert(o@ =~= self.order(k as int));
                assert(all.take(k + 1).drop_last() =~= all.take(k as int));
            }
            crate::tied::push_joined(&mut out, o);
            out.push(crate::parse::NEWLINE);
            k += 1;
        }
        proof {
            assert(all.take(c as int) =~= all);
        }
        crate::parse::string_from_ascii(out)
    }

    /// Reads orders from `text`, one per line (see `text_lines`), each the
    /// comma separated scores of every element, such as `0,4,2`, and adds
    /// them. Stops at the first line that is no such order and returns its
    /// error; the orders before it stay added. With no elements, nothing is
    /// read.
    pub fn parse_add(&mut self, text: &str) -> (res: Result<(), &'static str>)
        requires
            old(self).wf(),
            old(self).in_range(),
            old(self).orders@.len() + read_lines(
                text_lines(text.spec_bytes()),
                |l: Seq<u8>| cardinal_line(old(self).elements as nat, old(self).min, old(self).max, l),
            ).0.len() * old(self).elements <= usize::MAX,
        ensures
            final(self).wf(),
            final(self).in_range(),
            final(self).elements == old(self).elements,
            final(self).min == old(self).min,
            final(self).max == old(self).max,
            old(self).elements == 0 ==> res is Ok && final(self).orders@ == old(self).orders@,
            old(self).elements > 0 ==> res == lines_result(
                read_lines(text_lines(text.spec_bytes()), |l: Seq<u8>| cardinal_line(old(self).elements as nat, old(self).min, old(self).max, l)).1,
            ),
            old(self).elements > 0 ==> final(self).num_orders() == old(self).num_orders() + read_lines(
                text_lines(text.spec_bytes()),
                |l: Seq<u8>| cardinal_line(old(self).elements as nat, old(self).min, old(self).max, l),
            ).0.len(),
            forall|k: int| 0 <= k < old(self).num_orders() ==> #[trigger] final(self).order(k) == old(self).order(k),
            forall|j: int|
                0 <= j < read_lines(
                    text_lines(text.spec_bytes()),
                    |l: Seq<u8>| cardinal_line(old(self).elements as nat, old(self).min, old(self).max, l),
                ).0.len() && old(self).elements > 0 ==> #[trigger] final(self).order(old(self).num_orders() + j)
                    == read_lines(
                    text_lines(text.spec_bytes()),
                    |l: Seq<u8>| cardinal_line(old(self).elements as nat, old(self).min, old(self).max, l),
                ).0[j],
    {
        if self.elements == 0 {
            return Ok(());
        }
        let e = self.elements;
        let lo = self.min;
        let hi = self.max;
        let ghost read = |l: Seq<u8>| cardinal_line(e as nat, lo, hi, l);
        let bytes = text.as_bytes();
        let lines = split_lines(bytes);
        let ghost tl = text_lines(bytes@);
        let ghost total = read_lines(tl, read).0;
        let nl = lines.len();
        let ghost c0 = old(self).num_orders();
        proof {
            assert(tl.take(0) =~= Seq::<Seq<u8>>::empty());
            lemma_read_lines_grow(tl, read, 0);
            crate::util::lemma_div_exact(old(self).orders@.len() as int, e as int);
        }
        let mut i: usize = 0;
        while i < nl
            invariant
                nl == lines@.len(),
                tl == text_lines(bytes@),
                bytes@ == text.spec_bytes(),
                nl == tl.len(),
                forall|k: int| 0 <= k < nl ==> (#[trigger] lines@[k])@ == tl[k],
                read == (|l: Seq<u8>| cardinal_line(e as nat, lo, hi, l)),
                e == self.elements,
                e == old(self).elements,
                lo == self.min,
                lo == old(self).min,
                hi == self.max,
                hi == old(self).max,
                self.in_range(),
                e > 0,
                total == read_lines(tl, read).0,
                c0 == old(self).num_orders(),
                c0 * e == old(self).orders@.len(),
                i <= nl,
                self.wf(),
                read_lines(tl.take(i as int), read).1 is None,
                self.orders@.len() == old(self).orders@.len() + read_lines(tl.take(i as int), read).0.len() * e,
                read_lines(tl.take(i as int), read).0.len() <= total.len(),
                old(self).orders@.len() + total.len() * e <= usize::MAX,
                forall|k: int| 0 <= k < c0 ==> #[trigger] self.order(k) == old(self).order(k),
                forall|j: int|
                    0 <= j < read_lines(tl.take(i as int), read).0.len() ==> #[trigger] self.order(c0 + j)
                        == read_lines(tl.take(i as int), read).0[j],
            decreases nl - i,
        {
            let line = lines[i].as_slice();
            proof {
                assert(tl.take(i + 1).drop_last() =~= tl.take(i as int));
                assert(tl.take(i + 1).last() == tl[i as int]);
            }
            match read_cardinal_line(e, lo, hi, line) {
                Err(x) => {
                    proof {
                        assert(read_lines(tl.take(i + 1), read).1 == Some(x));
                        lemma_read_lines_stop(tl, read, i + 1);
                        let cnt = read_lines(tl.take(i as int), read).0.len();
                        let l = self.orders@.len();
                        assert(l == (c0 + cnt) * e) by (nonlinear_arith)
                            requires
                                l == c0 * e + cnt * e,
                        ;
                        crate::util::lemma_mul_div((c0 + cnt) as int, e as int);
                    }
                    return Err(x);
                },
                Ok(v) => {
                    let ghost prev = read_lines(tl.take(i as int), read).0;
                    let ghost before = self.orders@;
                    let ghost snap = *self;
                    proof {
                        lemma_read_lines_grow(tl, read, i + 1);
                        let l0 = old(self).orders@.len();
                        assert(before.len() + e <= l0 + total.len() * e) by (nonlinear_arith)
                            requires
                                before.len() == l0 + prev.len() * e,
                                prev.len() + 1 <= total.len(),
                        ;
                    }
                    proof {
                        lemma_scan_cardinal_range(crate::parse::split_on(line@, crate::parse::COMMA), lo, hi);
                    }
                    let n = v.len();
                    let mut k: usize = 0;
                    while k < n
                        invariant
                            n == v@.len(),
                            k <= n,
                            self.elements == e,
                            self.min == lo,
                            self.max == hi,
                            self.orders@ == before + v@.take(k as int),
                        decreases n - k,
                    {
                        self.orders.push(v[k]);
                        k += 1;
                        proof {
                            assert(self.orders@ =~= before + v@.take(k as int));
                        }
                    }
                    proof {
                        assert(v@.take(n as int) =~= v@);
                        assert forall|q: int| 0 <= q < self.orders@.len() implies lo <= #[trigger] self.orders@[q] <= hi by {
                            if q >= before.len() {
                                assert(self.orders@[q] == v@[q - before.len()]);
                            } else {
                                assert(self.orders@[q] == before[q]);
                            }
                        }
                        let pl = prev.len();
                        assert(before.len() == (c0 + pl) * e) by (nonlinear_arith)
                            requires
                                before.len() == c0 * e + pl * e,
                        ;
                        crate::util::lemma_mul_div((c0 + pl) as int, e as int);
                        crate::util::lemma_block_appended(before, v@, e as nat);
                        let l0 = old(self).orders@.len();
                        let l1 = self.orders@.len();
                        assert(l1 == l0 + (pl + 1) * e) by (nonlinear_arith)
                            requires
                                l1 == before.len() + e,
                                before.len() == l0 + pl * e,
                        ;
                        assert forall|k: int| 0 <= k < c0 + pl implies #[trigger] self.order(k) == snap.order(k) by {
                            crate::util::lemma_mul_block(k, (c0 + pl) as int, e as int);
                            crate::util::lemma_block_append(before, v@, e as nat, k);
                        }
                        assert forall|k: int| 0 <= k < c0 implies #[trigger] self.order(k) == old(self).order(k) by {
                            assert(self.order(k) == snap.order(k));
                        }
                        assert forall|j: int|
                            0 <= j < read_lines(tl.take(i + 1), read).0.len() implies #[trigger] self.order(c0 + j)
                            == read_lines(tl.take(i + 1), read).0[j] by {
                            if j < pl {
                                assert(self.order(c0 + j) == snap.order(c0 + j));
                            } else {
                                assert(c0 + j == (before.len() / (e as nat)) as int);
                            }
                        }
                    }
                },
            }
            i += 1;
        }
        proof {
            assert(tl.take(nl as int) =~= tl);
            let cnt = read_lines(tl, read).0.len();
            let l = self.orders@.len();
            assert(l == (c0 + cnt) * e) by (nonlinear_arith)
                requires
                    l == c0 * e + cnt * e,
            ;
            crate::util::lemma_mul_div((c0 + cnt) as int, e as int);
        }
        Ok(())
    }
}

/// Place `t * order.len() + j` of the transformation of one order says
/// whether element `j` scores above threshold `lo + t`.
proof fn lemma_kp_order_at(order: Seq<usize>, lo: nat, w: nat, t: int, j: int)
    requires
        0 <= t < w,
        0 <= j < order.len(),
    ensures
        0 <= t * order.len() + j < kp_order(order, lo, w).len(),
        kp_order(order, lo, w)[t * order.len() + j] == (order[j] > lo + t),
    decreases w,
{
    let l = order.len() as int;
    lemma_kp_order_len(order, lo, w);
    lemma_kp_order_len(order, lo, (w - 1) as nat);
    assert(0 <= t * l) by (nonlinear_arith)
        requires
            t >= 0,
            l >= 0,
    ;
    assert(t * l + l <= w * l) by (nonlinear_arith)
        requires
            t < w,
            l >= 0,
    ;
    assert((w - 1) * l == w * l - l) by (nonlinear_arith);
    if t == w - 1 {
        assert(kp_order(order, lo, w)[t * l + j] == kp_block(order, lo, (w - 1) as nat)[j]);
    } else {
        lemma_kp_order_at(order, lo, (w - 1) as nat, t, j);
        assert(t * l + l <= (w - 1) * l) by (nonlinear_arith)
            requires
                t < w - 1,
                l >= 0,
        ;
    }
}

/// Place `i * (w * e) + t * e + j` of the transformation of the first `k`
/// orders says whether element `j` of order `i` scores above `lo + t`.
proof fn lemma_kp_all_at(s: Seq<usize>, e: nat, k: nat, lo: nat, w: nat, i: int, t: int, j: int)
    requires
        k * e <= s.len(),
        0 <= i < k,
        0 <= t < w,
        0 <= j < e,
    ensures
        0 <= i * (w * e) + t * e + j < kp_all(s, e, k, lo, w).len(),
        kp_all(s, e, k, lo, w)[i * (w * e) + t * e + j] == (s[i * e + j] > lo + t),
    decreases k,
{
    crate::util::lemma_mul_block(i, k as int, e as int);
    crate::util::lemma_mul_block((k - 1) as int, k as int, e as int);
    lemma_kp_all_len(s, e, k, lo, w);
    lemma_kp_all_len(s, e, (k - 1) as nat, lo, w);
    let we = w * e;
    assert(0 <= t * e && t * e + e <= we) by (nonlinear_arith)
        requires
            0 <= t < w,
            we == w * e,
            e >= 0,
    ;
    assert(0 <= i * we) by (nonlinear_arith)
        requires
            i >= 0,
            we >= 0,
    ;
    assert(k * we == (k - 1) * we + we) by (nonlinear_arith)
        requires
            k >= 1,
    ;
    assert(i * we + we <= k * we) by (nonlinear_arith)
        requires
            i < k,
            we >= 0,
    ;
    if i == k - 1 {
        let b = block(s, e, k - 1);
        assert(b.len() == e);
        lemma_kp_order_at(b, lo, w, t, j);
        assert(b[j] == s[i * e + j]);
    } else {
        lemma_kp_all_at(s, e, (k - 1) as nat, lo, w, i, t, j);
        assert(i * we + we <= (k - 1) * we) by (nonlinear_arith)
            requires
                i < k - 1,
                we >= 0,
        ;
    }
}

/// The Kotze-Pereira transformation approves exactly what scores above
/// the threshold: in the binary order for threshold `min + t` made from
/// order `i`, element `j` is approved if and only if `i` scores it above
/// `min + t`. So an element scored `min` is never approved, and one scored
/// `max` is approved at every threshold.
pub proof fn kp_transform_approves(cv: CardinalDense, i: int, t: int, j: int)
    requires
        cv.wf(),
        cv.min <= cv.max,
        0 <= i < cv.num_orders(),
        0 <= t < cv.max - cv.min,
        0 <= j < cv.elements,
    ensures
        kp_all(cv.orders@, cv.elements as nat, cv.num_orders(), cv.min as nat, (cv.max - cv.min) as nat)[i * ((
        cv.max - cv.min) * cv.elements) + t * cv.elements + j] == (cv.order(i)[j] > cv.min + t),
{
    cv.lemma_shape();
    cv.lemma_order_len(i);
    lemma_kp_all_at(
        cv.orders@,
        cv.elements as nat,
        cv.num_orders(),
        cv.min as nat,
        (cv.max - cv.min) as nat,
        i,
        t,
        j,
    );
}

} // verus!
