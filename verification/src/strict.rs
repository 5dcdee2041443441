//! # Total orders
//!
//! A total order is an order of all elements where every element is
//! comparable, ordered from largest to smallest. A chain is like a total
//! order, but only orders a subset of all elements.
use rand::rngs::StdRng;
use vstd::prelude::*;
use core::cmp::Ordering;
use crate::sort::{lemma_sorted_keeps_chain, sort_by_cmp, stably_sorted_by, total_preorder};

use crate::order::{Order, OrderOwned, OrderRef};
use crate::partial_order::{PartialOrder, PartialOrderManual};
use crate::random::{choose_multiple_below, random_below, shuffle};
use crate::util::{all_below, all_distinct, copy_usizes, unique_and_bounded};

verus! {

broadcast use vstd::seq_lib::group_seq_properties;

/// `order` lists distinct elements, each below `elements`.
pub open spec fn is_chain(elements: nat, order: Seq<usize>) -> bool {
    all_below(order, elements) && all_distinct(order)
}

/// `order` lists every element of `0..order.len()` exactly once.
pub open spec fn is_total(order: Seq<usize>) -> bool {
    is_chain(order.len(), order)
}

/// `a ≤ b` in the partial order of the chain `order`: `a` is `b`, or both
/// are listed and `b` comes first.
pub open spec fn chain_le(order: Seq<usize>, a: int, b: int) -> bool {
    a == b || exists|i: int, j: int|
        0 <= i < j < order.len() && order[i] == b && order[j] == a
}

/// `order` with `n` removed and the values above `n` lowered by one.
pub open spec fn remove_renumber(order: Seq<usize>, n: usize) -> Seq<usize>
    decreases order.len(),
{
    if order.len() == 0 {
        Seq::empty()
    } else {
        let rest = remove_renumber(order.drop_last(), n);
        let v = order.last();
        if v == n {
            rest
        } else if v > n {
            rest.push((v - 1) as usize)
        } else {
            rest.push(v)
        }
    }
}

/// `v` after element `n` is removed: the values above `n` move down by one.
pub open spec fn renumbered(v: usize, n: usize) -> usize {
    if v > n {
        (v - 1) as usize
    } else {
        v
    }
}

/// Removing `n` from a chain over `e` elements, with `n < e`, leaves a
/// chain over `e - 1` elements, one shorter when `n` was listed.
pub proof fn lemma_remove_renumber_chain(o: Seq<usize>, n: usize, e: nat)
    requires
        is_chain(e, o),
        n < e,
    ensures
        is_chain((e - 1) as nat, remove_renumber(o, n)),
        remove_renumber(o, n).len() == if o.contains(n) { o.len() - 1 } else { o.len() as int },
        forall|x: usize| #[trigger] remove_renumber(o, n).contains(x) <==> exists|i: int|
            0 <= i < o.len() && o[i] != n && renumbered(o[i], n) == x,
    decreases o.len(),
{
    if o.len() > 0 {
        let d = o.drop_last();
        assert(is_chain(e, d)) by {
            assert forall|a: int, b: int| 0 <= a < d.len() && 0 <= b < d.len() && a != b implies d[a] != d[b] by {
                assert(o[a] != o[b]);
            }
        }
        lemma_remove_renumber_chain(d, n, e);
        let rest = remove_renumber(d, n);
        let v = o.last();
        let r = remove_renumber(o, n);
        assert(o.contains(n) == (d.contains(n) || v == n)) by {
            if o.contains(n) {
                let i = choose|i: int| 0 <= i < o.len() && o[i] == n;
                if i < d.len() {
                    assert(d[i] == n);
                }
            }
            if d.contains(n) {
                let i = choose|i: int| 0 <= i < d.len() && d[i] == n;
                assert(o[i] == n);
            }
        }
        if v == n {
            assert(!d.contains(n)) by {
                if d.contains(n) {
                    let i = choose|i: int| 0 <= i < d.len() && d[i] == n;
                    assert(o[i] == o[o.len() - 1]);
                }
            }
            assert forall|x: usize| #[trigger] r.contains(x) <==> exists|i: int|
                0 <= i < o.len() && o[i] != n && renumbered(o[i], n) == x by {
                if r.contains(x) {
                    let i = choose|i: int| 0 <= i < d.len() && d[i] != n && renumbered(d[i], n) == x;
                    assert(o[i] == d[i]);
                }
                if exists|i: int| 0 <= i < o.len() && o[i] != n && renumbered(o[i], n) == x {
                    let i = choose|i: int| 0 <= i < o.len() && o[i] != n && renumbered(o[i], n) == x;
                    assert(i < d.len());
                    assert(d[i] == o[i]);
                }
            }
        } else {
            let w = renumbered(v, n);
            assert(r == rest.push(w));
            assert(!rest.contains(w)) by {
                if rest.contains(w) {
                    let i = choose|i: int| 0 <= i < d.len() && d[i] != n && renumbered(d[i], n) == w;
                    assert(o[i] != o[o.len() - 1]);
                }
            }
            assert forall|a: int, b: int| 0 <= a < r.len() && 0 <= b < r.len() && a != b implies r[a] != r[b] by {
                if a == r.len() - 1 {
                    assert(rest.contains(r[b]));
                } else if b == r.len() - 1 {
                    assert(rest.contains(r[a]));
                }
            }
            assert forall|x: usize| #[trigger] r.contains(x) <==> exists|i: int|
                0 <= i < o.len() && o[i] != n && renumbered(o[i], n) == x by {
                if r.contains(x) {
                    if x == w {
                        assert(o[o.len() - 1] == v);
                    } else {
                        let j = choose|j: int| 0 <= j < r.len() && r[j] == x;
                        assert(rest[j] == x);
                        assert(rest.contains(x));
                        let i = choose|i: int| 0 <= i < d.len() && d[i] != n && renumbered(d[i], n) == x;
                        assert(o[i] == d[i]);
                    }
                }
                if exists|i: int| 0 <= i < o.len() && o[i] != n && renumbered(o[i], n) == x {
                    let i = choose|i: int| 0 <= i < o.len() && o[i] != n && renumbered(o[i], n) == x;
                    if i == o.len() - 1 {
                        assert(r[r.len() - 1] == x);
                    } else {
                        assert(d[i] == o[i]);
                        assert(rest.contains(x));
                        let j = choose|j: int| 0 <= j < rest.len() && rest[j] == x;
                        assert(r[j] == x);
                    }
                }
            }
            assert(w < e - 1) by {
                assert(v < e);
            }
        }
    }
}

/// Removing an element above every listed one changes nothing.
pub proof fn lemma_remove_renumber_above(o: Seq<usize>, n: usize)
    requires
        forall|i: int| 0 <= i < o.len() ==> #[trigger] o[i] < n,
    ensures
        remove_renumber(o, n) == o,
    decreases o.len(),
{
    if o.len() > 0 {
        lemma_remove_renumber_above(o.drop_last(), n);
        assert(o.drop_last().push(o.last()) =~= o);
    }
}

/// Inserting an element above every listed one anywhere and then removing
/// it gives the order back.
pub proof fn lemma_remove_renumber_insert(o: Seq<usize>, p: int, n: usize)
    requires
        forall|i: int| 0 <= i < o.len() ==> #[trigger] o[i] < n,
        0 <= p <= o.len(),
    ensures
        remove_renumber(o.insert(p, n), n) == o,
    decreases o.len(),
{
    let w = o.insert(p, n);
    if p == o.len() {
        assert(w.drop_last() =~= o);
        lemma_remove_renumber_above(o, n);
    } else {
        let d = o.drop_last();
        assert(w.drop_last() =~= d.insert(p, n));
        assert(w.last() == o.last());
        lemma_remove_renumber_insert(d, p, n);
        assert(d.push(o.last()) =~= o);
    }
}

/// The chain `order` over `n` elements as a partial order: the elements of
/// `order` are ordered from first (largest) to last, and the other
/// elements are incomparable to everything but themselves.
pub(crate) fn chain_to_partial(n: usize, order: &[usize]) -> (res: PartialOrder)
    requires
        is_chain(n as nat, order@),
        n * n <= usize::MAX,
    ensures
        res.size() == n,
        forall|a: int, b: int| 0 <= a < n && 0 <= b < n ==> #[trigger] res.rel(a, b) == chain_le(order@, a, b),
        res.is_valid(),
{
    let manual = chain_matrix(n, order);
    let len = order.len();
    let res = manual.finish_unchecked();
    proof {
        assert forall|a: int, b: int, c: int|
            #![trigger res.rel(a, b), res.rel(b, c)]
            0 <= a < n && 0 <= b < n && 0 <= c < n && res.rel(a, b) && res.rel(b, c) implies res.rel(a, c) by {
            if a != b && b != c && a != c {
                let (i1, j1) = choose|i: int, j: int| 0 <= i < j < order@.len() && order@[i] == b && order@[j] == a;
                let (i2, j2) = choose|i: int, j: int| 0 <= i < j < order@.len() && order@[i] == c && order@[j] == b;
                assert(j2 == i1);
                assert(chain_le(order@, a, c));
            }
        }
    }
    res
}

/// The relation of the chain `order` over `n` elements, as a matrix.
pub(crate) fn chain_matrix(n: usize, order: &[usize]) -> (manual: PartialOrderManual)
    requires
        is_chain(n as nat, order@),
        n * n <= usize::MAX,
    ensures
        manual.relation().wf(),
        manual.relation().dim == n,
        forall|a: int, b: int| 0 <= a < n && 0 <= b < n ==> #[trigger] manual.relation().at(a, b) == chain_le(order@, a, b),
{
    let len = order.len();
    let mut manual = PartialOrderManual::new(n);
    let mut i1: usize = 0;
    while i1 < len
        invariant
            len == order@.len(),
            is_chain(n as nat, order@),
            i1 <= len,
            manual.relation().wf(),
            manual.relation().dim == n,
            forall|a: int, b: int|
                0 <= a < n && 0 <= b < n && #[trigger] manual.relation().at(a, b) ==> a == b || (order@.contains(a as usize) && order@.contains(b as usize)),
            forall|a: int| 0 <= a < n ==> #[trigger] manual.relation().at(a, a),
            forall|i: int, j: int|
                0 <= i < len && 0 <= j < len && i != j ==> #[trigger] manual.relation().at(order@[i] as int, order@[j] as int) == (i > j && j < i1),
        decreases len - i1,
    {
        let e1 = order[i1];
        let mut k: usize = i1 + 1;
        while k < len
            invariant
                len == order@.len(),
                is_chain(n as nat, order@),
                i1 < len,
                i1 + 1 <= k <= len,
                e1 == order@[i1 as int],
                manual.relation().wf(),
                manual.relation().dim == n,
                forall|a: int, b: int|
                    0 <= a < n && 0 <= b < n && #[trigger] manual.relation().at(a, b) ==> a == b || (order@.contains(a as usize) && order@.contains(b as usize)),
                forall|a: int| 0 <= a < n ==> #[trigger] manual.relation().at(a, a),
                forall|i: int, j: int|
                    0 <= i < len && 0 <= j < len && i != j ==> #[trigger] manual.relation().at(order@[i] as int, order@[j] as int) == (i > j && (j < i1 || (j == i1 && i < k))),
            decreases len - k,
        {
            let e2 = order[k];
            proof {
                assert(order@.contains(e2));
                assert(order@.contains(e1));
            }
            manual.set(e2, e1);
            proof {
                assert forall|i: int, j: int|
                    0 <= i < len && 0 <= j < len && i != j implies #[trigger] manual.relation().at(order@[i] as int, order@[j] as int) == (i > j && (j < i1 || (j == i1 && i < k + 1))) by {
                    if order@[i] == e2 && order@[j] == e1 {
                        assert(i == k && j == i1);
                    }
                }
            }
            k += 1;
        }
        i1 += 1;
    }
    proof {
        assert forall|a: int, b: int| 0 <= a < n && 0 <= b < n implies #[trigger] manual.relation().at(a, b) == chain_le(
            order@,
            a,
            b,
        ) by {
            if a != b {
                if manual.relation().at(a, b) {
                    let ia = choose|i: int| 0 <= i < len && order@[i] == a as usize;
                    let ib = choose|i: int| 0 <= i < len && order@[i] == b as usize;
                    assert(manual.relation().at(order@[ia] as int, order@[ib] as int));
                }
                if chain_le(order@, a, b) {
                    let (i, j) = choose|i: int, j: int| 0 <= i < j < order@.len() && order@[i] == b && order@[j] == a;
                    assert(manual.relation().at(order@[j] as int, order@[i] as int));
                }
            }
        }
    }
    manual
}

/// An owned total order: a list of every element, from highest to lowest.
#[derive(Debug)]
pub struct Total {
    pub order: Vec<usize>,
}

impl Clone for Total {
    fn clone(&self) -> (res: Self)
        ensures
            res.order@ == self.order@,
    {
        Self { order: copy_usizes(self.order.as_slice()) }
    }
}

impl Total {

    /// Sorts the order by the comparison `f`, as `sort_by` of a slice does:
    /// a stable sort, so that elements `f` finds equal keep their order. `f`
    /// must compare as a total preorder.
    pub fn sort_by<F: Fn(&usize, &usize) -> Ordering>(&mut self, f: F)
        requires
            total_preorder(f),
        ensures
            exists|perm: Seq<int>| stably_sorted_by(f, old(self).order@, final(self).order@, perm),
            is_total(old(self).order@) ==> is_total(final(self).order@),
    {
        let ghost before = self.order@;
        sort_by_cmp(&mut self.order, f);
        proof {
            let perm = choose|perm: Seq<int>| stably_sorted_by(f, before, self.order@, perm);
            if is_total(before) {
                lemma_sorted_keeps_chain(f, before, self.order@, perm, before.len());
            }
        }
    }
    /// Creates a new total order, which `v` must be.
    pub fn new(v: Vec<usize>) -> (res: Self)
        requires
            is_total(v@),
        ensures
            res.order == v,
    {
        Self::try_new(v).unwrap()
    }

    /// Creates a new total order. Returns `None` if `v` is not a total
    /// order.
    pub fn try_new(v: Vec<usize>) -> (res: Option<Self>)
        ensures
            res is Some <==> is_total(v@),
            res matches Some(t) ==> t.order == v,
    {
        if unique_and_bounded(v.len(), v.as_slice()) {
            Some(Self { order: v })
        } else {
            None
        }
    }

    /// The total order of `n` elements in the natural order.
    pub fn new_default(n: usize) -> (res: Self)
        ensures
            res.order@.len() == n,
            forall|i: int| 0 <= i < n ==> #[trigger] res.order@[i] == i,
            is_total(res.order@),
    {
        let mut order: Vec<usize> = Vec::new();
        let mut i: usize = 0;
        while i < n
            invariant
                i <= n,
                order@.len() == i,
                forall|k: int| 0 <= k < i ==> #[trigger] order@[k] == k,
            decreases n - i,
        {
            order.push(i);
            i += 1;
        }
        Total { order }
    }

    /// Copies `source` into `self`, whatever their lengths, like
    /// `Clone::clone_from`.
    pub fn clone_from_ref(&mut self, source: TotalRef)
        ensures
            final(self).order@ == source.order@,
    {
        self.order = crate::util::copy_usizes(source.order);
    }

    /// The order as a `Vec`.
    pub fn into_inner(self) -> (res: Vec<usize>)
        ensures
            res == self.order,
    {
        self.order
    }

    /// Removes element `n` from the order; the elements above it move down
    /// by one.
    pub fn remove(&mut self, n: usize)
        ensures
            final(self).order@ == remove_renumber(old(self).order@, n),
    {
        let len = self.order.len();
        let mut out: Vec<usize> = Vec::new();
        let mut i: usize = 0;
        while i < len
            invariant
                len == self.order@.len(),
                self.order@ == old(self).order@,
                i <= len,
                out@ == remove_renumber(old(self).order@.take(i as int), n),
            decreases len - i,
        {
            proof {
                assert(old(self).order@.take(i + 1).drop_last() =~= old(self).order@.take(i as int));
            }
            let v = self.order[i];
            if n < v {
                out.push(v - 1);
            } else if n > v {
                out.push(v);
            }
            i += 1;
        }
        proof {
            assert(old(self).order@.take(len as int) =~= old(self).order@);
        }
        self.order = out;
    }

    /// A uniformly random total order of `elements` elements.
    pub fn random(rng: &mut StdRng, elements: usize) -> (res: Total)
        ensures
            res.order@.len() == elements,
            is_total(res.order@),
    {
        let mut t = Total::new_default(elements);
        let ghost before = t.order@;
        shuffle(rng, &mut t.order);
        proof {
            lemma_multiset_chain(before, t.order@, elements as nat);
        }
        t
    }

    /// Lossless conversion to `Chain`.
    pub fn to_incomplete(self) -> (res: Chain)
        ensures
            res.elements == self.order@.len(),
            res.order == self.order,
    {
        let elements = self.order.len();
        Chain { elements, order: self.order }
    }
}

impl Order for Total {
    open spec fn order_len(&self) -> nat {
        self.order@.len()
    }

    open spec fn matrix_fits(&self) -> bool {
        self.order@.len() * self.order@.len() <= usize::MAX && is_total(self.order@)
    }

    fn elements(&self) -> (res: usize)
        ensures
            res == self.order@.len(),
    {
        self.order.len()
    }

    fn len(&self) -> (res: usize)
        ensures
            res == self.order@.len(),
    {
        self.order.len()
    }

    fn to_partial(self) -> (res: PartialOrder)
        ensures
            res.size() == self.order@.len(),
            forall|a: int, b: int|
                0 <= a < res.size() && 0 <= b < res.size() ==> #[trigger] res.rel(a, b)
                    == chain_le(self.order@, a, b),
            res.is_valid(),
    {
        self.to_incomplete().to_partial()
    }
}

impl<'a> OrderOwned<'a> for Total {
    type Ref = TotalRef<'a>;

    fn as_ref(&'a self) -> (res: TotalRef<'a>)
        ensures
            res.order@ == self.order@,
    {
        TotalRef { order: self.order.as_slice() }
    }
}

/// A borrowed total order.
#[derive(Debug, Clone, Copy)]
pub struct TotalRef<'a> {
    pub order: &'a [usize],
}

impl<'a> TotalRef<'a> {
    /// A reference to the total order `v`, which must list every element of
    /// `0..v.len()` once.
    pub fn new(v: &'a [usize]) -> (res: Self)
        requires
            is_total(v@),
        ensures
            res.order@ == v@,
    {
        TotalRef { order: v }
    }

    /// The number of elements.
    pub fn elements(&self) -> (res: usize)
        ensures
            res == self.order@.len(),
    {
        self.order.len()
    }

    /// The `n` highest elements.
    pub fn top(&self, n: usize) -> (res: &'a [usize])
        requires
            n <= self.order@.len(),
        ensures
            res@ == self.order@.take(n as int),
    {
        &self.order[0..n]
    }

    /// Lossless conversion to a chain.
    pub fn to_incomplete(self) -> (res: StrictIRef<'a>)
        ensures
            res.elements == self.order@.len(),
            res.order@ == self.order@,
    {
        let elements = self.order.len();
        StrictIRef { elements, order: self.order }
    }
}

impl<'a> OrderRef for TotalRef<'a> {
    type Owned = Total;

    fn to_owned(self) -> (res: Total)
        ensures
            res.order@ == self.order@,
    {
        Total { order: copy_usizes(self.order) }
    }
}

/// A possibly incomplete order without any ties.
#[derive(Debug, PartialEq, Eq)]
pub struct Chain {
    pub elements: usize,
    pub order: Vec<usize>,
}

impl Clone for Chain {
    fn clone(&self) -> (res: Self)
        ensures
            res.elements == self.elements,
            res.order@ == self.order@,
    {
        Self { elements: self.elements, order: copy_usizes(self.order.as_slice()) }
    }
}

impl Chain {
    /// A chain of `order` over `elements` elements, which it must be.
    pub fn new(elements: usize, order: Vec<usize>) -> (res: Self)
        requires
            is_chain(elements as nat, order@),
        ensures
            res.elements == elements,
            res.order == order,
    {
        Self::try_new(elements, order).unwrap()
    }

    /// A chain of `order` over `elements` elements. Returns `None` if an
    /// element is listed twice or is not below `elements`.
    pub fn try_new(elements: usize, order: Vec<usize>) -> (res: Option<Self>)
        ensures
            res is Some <==> is_chain(elements as nat, order@),
            res matches Some(c) ==> c.elements == elements && c.order == order,
    {
        if unique_and_bounded(elements, order.as_slice()) {
            Some(Chain { elements, order })
        } else {
            None
        }
    }

    /// Copies `source` into `self`, whatever their lengths, like
    /// `Clone::clone_from`.
    pub fn clone_from_ref(&mut self, source: StrictIRef)
        ensures
            final(self).order@ == source.order@,
            final(self).elements == source.elements,
    {
        self.order = crate::util::copy_usizes(source.order);
        self.elements = source.elements;
    }

    /// A random chain over `elements` elements, ranking fewer than
    /// `elements` of them (none when `elements` is 0).
    pub fn random(rng: &mut StdRng, elements: usize) -> (res: Chain)
        ensures
            res.elements == elements,
            is_chain(elements as nat, res.order@),
            elements > 0 ==> res.order@.len() < elements,
            elements == 0 ==> res.order@.len() == 0,
    {
        if elements == 0 {
            Chain { order: Vec::new(), elements }
        } else {
            let len = random_below(rng, elements);
            let mut order = choose_multiple_below(rng, elements, len);
            let ghost chosen = order@;
            shuffle(rng, &mut order);
            proof {
                lemma_multiset_chain(chosen, order@, elements as nat);
            }
            Chain { order, elements }
        }
    }

    /// Converts to a total order. Returns `Err` if not all elements are
    /// ranked.
    pub fn to_total(self) -> (res: Result<Total, ()>)
        ensures
            res is Ok <==> self.elements == self.order@.len(),
            res matches Ok(t) ==> t.order == self.order,
    {
        if self.elements == self.order.len() {
            Ok(Total { order: self.order })
        } else {
            Err(())
        }
    }
}

pub proof fn lemma_multiset_chain(a: Seq<usize>, b: Seq<usize>, n: nat)
    requires
        is_chain(n, a),
        a.to_multiset() == b.to_multiset(),
        a.len() == b.len(),
    ensures
        is_chain(n, b),
{
    assert forall|i: int| 0 <= i < b.len() implies b[i] < n by {
        b.to_multiset_ensures();
        a.to_multiset_ensures();
        assert(b.to_multiset().count(b[i]) > 0);
        assert(a.contains(b[i]));
    }
    assert(a.no_duplicates()) by {
        assert forall|i: int, j: int| 0 <= i < a.len() && 0 <= j < a.len() && i != j implies a[i] != a[j] by {}
    }
    a.lemma_multiset_has_no_duplicates();
    b.lemma_multiset_has_no_duplicates_conv();
}

impl Order for Chain {
    open spec fn order_len(&self) -> nat {
        self.order@.len()
    }

    open spec fn matrix_fits(&self) -> bool {
        self.elements * self.elements <= usize::MAX && is_chain(self.elements as nat, self.order@)
    }

    fn elements(&self) -> (res: usize)
        ensures
            res == self.elements,
    {
        self.elements
    }

    fn len(&self) -> (res: usize)
        ensures
            res == self.order@.len(),
    {
        self.order.len()
    }

    /// The elements of the chain are ordered from first (largest) to last;
    /// the other elements are incomparable to everything but themselves.
    fn to_partial(self) -> (res: PartialOrder)
        ensures
            res.size() == self.elements,
            forall|a: int, b: int|
                0 <= a < res.size() && 0 <= b < res.size() ==> #[trigger] res.rel(a, b)
                    == chain_le(self.order@, a, b),
            res.is_valid(),
    {
        chain_to_partial(self.elements, self.order.as_slice())
    }
}

impl<'a> OrderOwned<'a> for Chain {
    type Ref = StrictIRef<'a>;

    fn as_ref(&'a self) -> (res: StrictIRef<'a>)
        ensures
            res.elements == self.elements,
            res.order@ == self.order@,
    {
        StrictIRef { elements: self.elements, order: self.order.as_slice() }
    }
}

/// A borrowed, possibly incomplete, order without any ties.
#[derive(Copy, Clone, Debug, PartialEq, Eq)]
pub struct StrictIRef<'a> {
    pub elements: usize,
    pub order: &'a [usize],
}

impl<'a> StrictIRef<'a> {
    /// A reference to the chain `order` over `elements` elements, which it
    /// must be.
    pub fn new(elements: usize, order: &'a [usize]) -> (res: Self)
        requires
            is_chain(elements as nat, order@),
        ensures
            res.elements == elements,
            res.order@ == order@,
    {
        Self::try_new(elements, order).unwrap()
    }

    /// A reference to the chain `order` over `elements` elements. Returns
    /// `None` if an element is listed twice or is not below `elements`.
    pub fn try_new(elements: usize, order: &'a [usize]) -> (res: Option<Self>)
        ensures
            res is Some <==> is_chain(elements as nat, order@),
            res matches Some(r) ==> r.elements == elements && r.order@ == order@,
    {
        if unique_and_bounded(elements, order) {
            Some(StrictIRef { elements, order })
        } else {
            None
        }
    }

    /// The listed elements, from highest to lowest.
    pub fn order(&self) -> (res: &[usize])
        ensures
            res@ == self.order@,
    {
        self.order
    }

    /// The number of listed elements.
    pub fn len(&self) -> (res: usize)
        ensures
            res == self.order@.len(),
    {
        self.order.len()
    }

    /// Whether no element is listed.
    pub fn is_empty(&self) -> (res: bool)
        ensures
            res == (self.order@.len() == 0),
    {
        self.len() == 0
    }

    /// The chain of the `n` highest elements.
    pub fn top(&self, n: usize) -> (res: Self)
        requires
            is_chain(self.elements as nat, self.order@),
            n <= self.order@.len(),
        ensures
            res.elements == self.elements,
            res.order@ == self.order@.take(n as int),
    {
        StrictIRef::new(self.elements, &self.order[0..n])
    }

    /// The highest element.
    pub fn winner(&self) -> (res: usize)
        requires
            self.order@.len() > 0,
        ensures
            res == self.order@[0],
    {
        self.order[0]
    }

    /// Converts to a complete order. Returns `Err(())` if the order isn't
    /// actually complete.
    pub fn to_total(self) -> (res: Result<TotalRef<'a>, ()>)
        ensures
            res is Ok <==> self.elements == self.order@.len(),
            res matches Ok(t) ==> t.order@ == self.order@,
    {
        if self.elements == self.order.len() {
            Ok(TotalRef { order: self.order })
        } else {
            Err(())
        }
    }
}

impl<'a> StrictIRef<'a> {
    /// The chain with the tie flags `tied`.
    pub fn to_tied(self, tied: &'a [bool]) -> (res: crate::tied::TiedRankRef<'a>)
        requires
            is_chain(self.elements as nat, self.order@),
            crate::tied::tie_shape(self.order@.len(), tied@.len()),
        ensures
            res.wf(),
            res.elements == self.elements,
            res.order@ == self.order@,
            res.tied@ == tied@,
    {
        crate::tied::TiedRankRef::new(self.elements, self.order, tied)
    }
}

impl<'a> OrderRef for StrictIRef<'a> {
    type Owned = Chain;

    fn to_owned(self) -> (res: Chain)
        ensures
            res.elements == self.elements,
            res.order@ == self.order@,
    {
        Chain { elements: self.elements, order: copy_usizes(self.order) }
    }
}

} // verus!

verus! {

/// Why an order could not be added.
pub enum AddError {
    Alloc,
    Elements,
}

/// A collection of total orders over the same elements, stored back to back.
#[derive(Debug, PartialEq, Eq)]
pub struct TotalDense {
    pub orders: Vec<usize>,
    pub elements: usize,
}

impl Clone for TotalDense {
    fn clone(&self) -> (res: Self)
        ensures
            res.orders@ == self.orders@,
            res.elements == self.elements,
    {
        Self { orders: copy_usizes(self.orders.as_slice()), elements: self.elements }
    }
}

impl TotalDense {
    /// The orders fill whole blocks, and every block is a total order.
    pub open spec fn wf(&self) -> bool {
        &&& if self.elements == 0 {
            self.orders@.len() == 0
        } else {
            (self.orders@.len() as int) % (self.elements as int) == 0
        }
        &&& forall|i: int| 0 <= i < self.num_orders() ==> #[trigger] is_total(self.order(i))
    }

    /// The number of orders.
    pub open spec fn num_orders(&self) -> nat {
        if self.elements == 0 {
            0
        } else {
            ((self.orders@.len() as int) / (self.elements as int)) as nat
        }
    }

    /// Order `i`.
    pub open spec fn order(&self, i: int) -> Seq<usize> {
        crate::util::block(self.orders@, self.elements as nat, i)
    }

    proof fn lemma_order(&self, i: int)
        requires
            self.elements > 0,
            (self.orders@.len() as int) % (self.elements as int) == 0,
            0 <= i < self.num_orders(),
        ensures
            self.order(i).len() == self.elements,
            i * self.elements + self.elements <= self.orders@.len(),
            self.num_orders() * self.elements == self.orders@.len(),
    {
        crate::util::lemma_div_exact(self.orders@.len() as int, self.elements as int);
        crate::util::lemma_mul_block(i, self.num_orders() as int, self.elements as int);
    }

    /// An empty collection over `elements` elements.
    pub fn new(elements: usize) -> (res: Self)
        ensures
            res.wf(),
            res.elements == elements,
            res.orders@.len() == 0,
    {
        proof {
            if elements > 0 {
                vstd::arithmetic::div_mod::lemma_small_mod(0, elements as nat);
                vstd::arithmetic::div_mod::lemma_div_of0(elements as int);
            }
        }
        TotalDense { orders: Vec::new(), elements }
    }

    /// The number of elements.
    pub fn elements(&self) -> (res: usize)
        ensures
            res == self.elements,
    {
        self.elements
    }

    /// The number of orders.
    pub fn len(&self) -> (res: usize)
        ensures
            res == self.num_orders(),
    {
        if self.elements == 0 {
            0
        } else {
            self.orders.len() / self.elements
        }
    }

    /// Whether there are no orders.
    pub fn is_empty(&self) -> (res: bool)
        ensures
            res == (self.num_orders() == 0),
    {
        self.len() == 0
    }

    /// Order `i`, or `None` if there is no such order.
    pub fn try_get(&self, i: usize) -> (res: Option<TotalRef<'_>>)
        requires
            self.wf(),
        ensures
            i < self.num_orders() ==> (res matches Some(r) && r.order@ == self.order(i as int)),
            i >= self.num_orders() ==> res is None,
    {
        let _ = self.orders.len();
        if i < self.len() {
            let e = self.elements;
            proof {
                self.lemma_order(i as int);
            }
            let start = i * e;
            let end = start + e;
            let s = &self.orders.as_slice()[start..end];
            proof {
                assert(s@ == self.order(i as int));
            }
            Some(TotalRef::new(s))
        } else {
            None
        }
    }

    /// Order `i`.
    pub fn get(&self, i: usize) -> (res: TotalRef<'_>)
        requires
            self.wf(),
            i < self.num_orders(),
        ensures
            res.order@ == self.order(i as int),
    {
        self.try_get(i).unwrap()
    }

    /// Every order, in turn.
    pub fn iter(&self) -> (res: Vec<TotalRef<'_>>)
        requires
            self.wf(),
        ensures
            res@.len() == self.num_orders(),
            forall|i: int| 0 <= i < res@.len() ==> (#[trigger] res@[i]).order@ == self.order(i),
    {
        let n = self.len();
        let mut res: Vec<TotalRef<'_>> = Vec::new();
        let mut i: usize = 0;
        while i < n
            invariant
                self.wf(),
                n == self.num_orders(),
                i <= n,
                res@.len() == i,
                forall|k: int| 0 <= k < i ==> (#[trigger] res@[k]).order@ == self.order(k),
            decreases n - i,
        {
            res.push(self.get(i));
            i += 1;
        }
        res
    }

    /// Returns true iff the orders fill whole blocks and every block is a
    /// total order.
    pub fn valid(&self) -> (res: bool)
        ensures
            res == self.wf(),
    {
        if self.elements == 0 {
            return self.orders.len() == 0;
        }
        if self.orders.len() % self.elements != 0 {
            return false;
        }
        let n = self.len();
        let e = self.elements;
        let _ = self.orders.len();
        let mut i: usize = 0;
        while i < n
            invariant
                e == self.elements,
                e > 0,
                n == self.num_orders(),
                (self.orders@.len() as int) % (e as int) == 0,
                self.orders@.len() <= usize::MAX,
                i <= n,
                forall|k: int| 0 <= k < i ==> #[trigger] is_total(self.order(k)),
            decreases n - i,
        {
            proof {
                self.lemma_order(i as int);
            }
            let s = &self.orders.as_slice()[i * e..i * e + e];
            proof {
                assert(s@ =~= self.order(i as int));
            }
            if !unique_and_bounded(e, s) {
                proof {
                    assert(!is_total(self.order(i as int)));
                }
                return false;
            }
            i += 1;
        }
        true
    }

    /// Adds the total order `v`. Fails if `v` does not order exactly the
    /// elements of this collection, if there are no elements, or if memory
    /// for it could not be reserved.
    pub fn add(&mut self, v: TotalRef) -> (res: Result<(), &'static str>)
        requires
            old(self).wf(),
            is_total(v.order@),
        ensures
            final(self).wf(),
            final(self).elements == old(self).elements,
            v.order@.len() != old(self).elements || old(self).elements == 0 ==> res is Err,
            res is Err ==> final(self).orders@ == old(self).orders@ && res == Err::<(), &'static str>("Could not add order"),
            res is Ok ==> final(self).orders@ == old(self).orders@ + v.order@,
    {
        if v.elements() != self.elements || self.elements == 0 {
            return Err("Could not add order");
        }
        if self.orders.try_reserve(self.elements).is_err() {
            proof {
                assert forall|i: int| 0 <= i < self.num_orders() implies #[trigger] is_total(self.order(i)) by {
                    assert(self.order(i) =~= old(self).order(i));
                }
            }
            return Err("Could not add order");
        }
        let ghost before = self.orders@;
        let n = v.order.len();
        let mut i: usize = 0;
        while i < n
            invariant
                n == v.order@.len(),
                i <= n,
                self.elements == old(self).elements,
                before == old(self).orders@,
                self.orders@ == before + v.order@.take(i as int),
            decreases n - i,
        {
            self.orders.push(v.order[i]);
            i += 1;
            proof {
                assert(self.orders@ =~= before + v.order@.take(i as int));
            }
        }
        proof {
            assert(v.order@.take(n as int) =~= v.order@);
            let e = self.elements as int;
            crate::util::lemma_div_add_block(before.len() as int, e);
            assert forall|i: int| 0 <= i < self.num_orders() implies #[trigger] is_total(self.order(i)) by {
                if i < old(self).num_orders() {
                    old(self).lemma_order(i);
                    assert(self.order(i) =~= old(self).order(i));
                } else {
                    crate::util::lemma_div_exact(before.len() as int, e);
                    assert(i * e == before.len());
                    assert(self.order(i) =~= v.order@);
                }
            }
        }
        Ok(())
    }

    /// Removes the element at position `target` of every order, then
    /// renumbers the remaining elements of each order to `0..elements - 1`,
    /// keeping their relative order.
    pub fn remove_element(&mut self, target: usize) -> (res: Result<(), &'static str>)
        requires
            old(self).wf(),
            target < old(self).elements,
        ensures
            res is Ok,
            final(self).wf(),
            final(self).elements == old(self).elements - 1,
            final(self).elements > 0 ==> final(self).num_orders() == old(self).num_orders(),
            forall|i: int|
                0 <= i < old(self).num_orders() && final(self).elements > 0 ==> #[trigger] final(self).order(i)
                    == crate::util::order_ranks(
                    without_position(old(self).order(i), target as int),
                    false,
                ),
    {
        let e = self.elements;
        let ne = e - 1;
        let count = self.len();
        proof {
            crate::util::lemma_div_exact(self.orders@.len() as int, e as int);
        }
        let removed = crate::util::remove_column(&self.orders, e, count, target);
        let mut out: Vec<usize> = Vec::new();
        let mut i: usize = 0;
        let _ = removed.len();
        while i < count
            invariant
                e == old(self).elements,
                ne == e - 1,
                count == old(self).num_orders(),
                count * e == old(self).orders@.len(),
                (old(self).orders@.len() as int) % (e as int) == 0,
                removed@.len() == count * ne,
                removed@.len() <= usize::MAX,
                target < e,
                forall|i2: int, j2: int|
                    0 <= i2 < count && 0 <= j2 < ne ==> #[trigger] removed@[i2 * ne + j2] == old(self).orders@[i2 * e
                        + crate::util::skip_index(j2, target as int)],
                i <= count,
                out@.len() == i * ne,
                forall|i2: int| 0 <= i2 < i ==> #[trigger] crate::util::block(out@, ne as nat, i2)
                    == crate::util::order_ranks(without_position(old(self).order(i2), target as int), false),
            decreases count - i,
        {
            proof {
                crate::util::lemma_mul_block(i as int, count as int, ne as int);
                crate::util::lemma_mul_block(i as int, count as int, e as int);
            }
            let s = &removed.as_slice()[i * ne..i * ne + ne];
            proof {
                old(self).lemma_order(i as int);
                let w = without_position(old(self).order(i as int), target as int);
                assert forall|j: int| 0 <= j < ne implies s@[j] == w[j] by {
                    assert(removed@[i * ne + j] == old(self).orders@[i * e + crate::util::skip_index(j, target as int)]);
                }
                assert(s@ =~= w);
            }
            let ranks = crate::util::get_order(s, false);
            let ghost before = out@;
            let mut j: usize = 0;
            while j < ne
                invariant
                    ranks@.len() == ne,
                    j <= ne,
                    out@ == before + ranks@.take(j as int),
                decreases ne - j,
            {
                out.push(ranks[j]);
                j += 1;
                proof {
                    assert(out@ =~= before + ranks@.take(j as int));
                }
            }
            proof {
                assert(ranks@.take(ne as int) =~= ranks@);
                assert forall|i2: int| 0 <= i2 < i + 1 implies #[trigger] crate::util::block(out@, ne as nat, i2)
                    == crate::util::order_ranks(without_position(old(self).order(i2), target as int), false) by {
                    crate::util::lemma_mul_block(i2, (i + 1) as int, ne as int);
                    if i2 < i {
                        crate::util::lemma_mul_block(i2, i as int, ne as int);
                        assert(crate::util::block(out@, ne as nat, i2) =~= crate::util::block(before, ne as nat, i2));
                    } else {
                        assert(crate::util::block(out@, ne as nat, i2) =~= ranks@);
                    }
                }
                assert(out@.len() == (i + 1) * ne) by (nonlinear_arith)
                    requires
                        out@.len() == i * ne + ne,
                ;
            }
            i += 1;
        }
        self.orders = out;
        self.elements = ne;
        proof {
            if ne > 0 {
                crate::util::lemma_mul_div(count as int, ne as int);
                assert forall|i: int| 0 <= i < self.num_orders() implies #[trigger] is_total(self.order(i)) by {
                    old(self).lemma_order(i);
                    assert(is_total(old(self).order(i)));
                    lemma_without_position_distinct(old(self).order(i), target as int);
                    crate::ranks::lemma_ranks_total(without_position(old(self).order(i), target as int), false);
                }
            } else {
                assert(out@.len() == 0) by (nonlinear_arith)
                    requires
                        out@.len() == count * ne,
                        ne == 0,
                ;
            }
        }
        Ok(())
    }

    /// Adds `new_orders` uniformly random total orders.
    pub fn generate_uniform(&mut self, rng: &mut StdRng, new_orders: usize)
        requires
            old(self).wf(),
            old(self).orders@.len() + new_orders * old(self).elements <= usize::MAX,
        ensures
            final(self).wf(),
            final(self).elements == old(self).elements,
            final(self).orders@.len() == old(self).orders@.len() + new_orders * old(self).elements,
            final(self).orders@.subrange(0, old(self).orders@.len() as int) == old(self).orders@,
    {
        if self.elements == 0 {
            proof {
                assert(self.orders@.subrange(0, old(self).orders@.len() as int) =~= old(self).orders@);
                let e0 = old(self).elements;
                assert(new_orders * e0 == 0) by (nonlinear_arith)
                    requires
                        e0 == 0,
                ;
            }
            return;
        }
        let e = self.elements;
        let mut v = Total::new_default(e).into_inner();
        let mut k: usize = 0;
        while k < new_orders
            invariant
                e == self.elements,
                e == old(self).elements,
                e > 0,
                k <= new_orders,
                is_total(v@),
                v@.len() == e,
                old(self).orders@.len() + new_orders * e <= usize::MAX,
                self.orders@.len() == old(self).orders@.len() + k * e,
                self.orders@.subrange(0, old(self).orders@.len() as int) == old(self).orders@,
                self.wf(),
            decreases new_orders - k,
        {
            proof {
                crate::util::lemma_mul_block(k as int, new_orders as int, e as int);
            }
            let ghost v0 = v@;
            shuffle(rng, &mut v);
            proof {
                lemma_multiset_chain(v0, v@, e as nat);
            }
            let ghost before = self.orders@;
            let ghost snap = *self;
            let mut j: usize = 0;
            while j < e
                invariant
                    e == self.elements,
                    e > 0,
                    v@.len() == e,
                    j <= e,
                    self.orders@ == before + v@.take(j as int),
                decreases e - j,
            {
                self.orders.push(v[j]);
                j += 1;
                proof {
                    assert(self.orders@ =~= before + v@.take(j as int));
                }
            }
            proof {
                assert(v@.take(e as int) =~= v@);
                crate::util::lemma_div_exact(before.len() as int, e as int);
                crate::util::lemma_div_add_block(before.len() as int, e as int);
                assert((k + 1) * e == k * e + e) by (nonlinear_arith);
                assert(self.orders@.subrange(0, old(self).orders@.len() as int) =~= before.subrange(0, old(self).orders@.len() as int));
                assert forall|i: int| 0 <= i < self.num_orders() implies #[trigger] is_total(self.order(i)) by {
                    let nb = before.len() as int / e as int;
                    if i < nb {
                        crate::util::lemma_mul_block(i, nb, e as int);
                        assert(self.order(i) =~= snap.order(i));
                        assert(is_total(snap.order(i)));
                    } else {
                        assert(i * e == before.len());
                        assert(self.order(i) =~= v@);
                    }
                }
            }
            k += 1;
        }
    }
}

/// `s` without the value at position `p`.
pub open spec fn without_position(s: Seq<usize>, p: int) -> Seq<usize> {
    s.take(p) + s.skip(p + 1)
}

/// Dropping a position keeps the values distinct and below their bound.
pub proof fn lemma_without_position_distinct(s: Seq<usize>, p: int)
    requires
        all_distinct(s),
        0 <= p < s.len(),
    ensures
        all_distinct(without_position(s, p)),
        without_position(s, p).len() == s.len() - 1,
        forall|n: nat| all_below(s, n) ==> all_below(#[trigger] without_position(s, p), n),
{
    let w = without_position(s, p);
    assert forall|j: int| 0 <= j < w.len() implies #[trigger] w[j] == s[crate::util::skip_index(j, p)] by {}
    assert forall|i: int, j: int| 0 <= i < w.len() && 0 <= j < w.len() && i != j implies w[i] != w[j] by {
        assert(w[i] == s[crate::util::skip_index(i, p)]);
        assert(w[j] == s[crate::util::skip_index(j, p)]);
    }
    assert forall|n: nat| all_below(s, n) implies #[trigger] all_below(without_position(s, p), n) by {
        assert forall|j: int| 0 <= j < w.len() implies w[j] < n by {
            assert(w[j] == s[crate::util::skip_index(j, p)]);
        }
    }
}

} // verus!
