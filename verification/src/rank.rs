//! # Ranks
//!
//! A rank lists some of the elements without ties, from the highest ranked
//! to the lowest. A total rank lists every element.
use rand::rngs::StdRng;
use vstd::prelude::*;
use vstd::string::StringSliceAdditionalSpecFns;
use core::cmp::Ordering;
use crate::sort::{lemma_sorted_keeps_chain, sort_by_cmp, stably_sorted_by, total_preorder};

use crate::order::{Order, OrderOwned, OrderRef};
use crate::parse::{parse_usize, parse_usize_spec, split_bytes, split_on, lemma_split_on_len, COMMA};
use crate::partial_order::PartialOrder;
use crate::random::{choose_multiple_below, random_below, shuffle};
use crate::strict::{chain_le, chain_matrix, is_chain, is_total, lemma_multiset_chain, remove_renumber};
use crate::tied::{tie_shape, TiedRankRef};
use crate::util::{all_distinct, copy_usizes, unique};

verus! {

broadcast use vstd::seq_lib::group_seq_properties;

/// The numbers written by the comma separated pieces `parts`, or `None`
/// when a piece is not a number below `elements`.
pub open spec fn scan_numbers(parts: Seq<Seq<u8>>, elements: nat) -> Option<Seq<usize>>
    decreases parts.len(),
{
    if parts.len() == 0 {
        Some(Seq::empty())
    } else {
        match scan_numbers(parts.drop_last(), elements) {
            None => None,
            Some(o) => match parse_usize_spec(parts.last()) {
                Some(n) => if n < elements {
                    Some(o.push(n))
                } else {
                    None
                },
                None => None,
            },
        }
    }
}

proof fn lemma_scan_numbers_none(parts: Seq<Seq<u8>>, elements: nat, k: int)
    requires
        0 <= k <= parts.len(),
        scan_numbers(parts.take(k), elements) is None,
    ensures
        scan_numbers(parts, elements) is None,
    decreases parts.len(),
{
    if k == parts.len() {
        assert(parts.take(k) =~= parts);
    } else {
        assert(parts.drop_last().take(k) =~= parts.take(k));
        lemma_scan_numbers_none(parts.drop_last(), elements, k);
    }
}

/// The order that the text `s` writes: comma separated numbers below
/// `elements`, none of them twice.
pub open spec fn parse_rank_spec(elements: usize, s: Seq<u8>) -> Option<Seq<usize>> {
    match scan_numbers(split_on(s, COMMA), elements as nat) {
        Some(o) => if all_distinct(o) {
            Some(o)
        } else {
            None
        },
        None => None,
    }
}

/// Reads comma separated numbers below `elements` from `b`.
pub(crate) fn parse_numbers(elements: usize, b: &[u8]) -> (res: Option<Vec<usize>>)
    ensures
        scan_numbers(split_on(b@, COMMA), elements as nat) is None ==> res is None,
        scan_numbers(split_on(b@, COMMA), elements as nat) matches Some(o) ==> (res matches Some(v) && v@ == o),
        res matches Some(v) ==> crate::util::all_below(v@, elements as nat),
{
    let parts = split_bytes(b, COMMA);
    let ghost sp = split_on(b@, COMMA);
    let np = parts.len();
    let mut order: Vec<usize> = Vec::new();
    let mut k: usize = 0;
    while k < np
        invariant
            np == parts@.len(),
            sp == split_on(b@, COMMA),
            np == sp.len(),
            forall|j: int| 0 <= j < np ==> (#[trigger] parts@[j])@ == sp[j],
            k <= np,
            scan_numbers(sp.take(k as int), elements as nat) == Some(order@),
            crate::util::all_below(order@, elements as nat),
        decreases np - k,
    {
        proof {
            assert(sp.take(k + 1).drop_last() =~= sp.take(k as int));
            assert(sp.take(k + 1).last() == parts@[k as int]@);
        }
        let n = match parse_usize(parts[k].as_slice()) {
            Some(n) => n,
            None => {
                proof {
                    assert(scan_numbers(sp.take(k + 1), elements as nat) is None);
                    lemma_scan_numbers_none(sp, elements as nat, k + 1);
                }
                return None;
            },
        };
        if n >= elements {
            proof {
                assert(scan_numbers(sp.take(k + 1), elements as nat) is None);
                lemma_scan_numbers_none(sp, elements as nat, k + 1);
            }
            return None;
        }
        order.push(n);
        k += 1;
    }
    proof {
        assert(sp.take(np as int) =~= sp);
    }
    Some(order)
}

/// A possibly incomplete order without any ties.
#[derive(Clone, Debug, PartialEq, Eq)]
pub struct Rank {
    pub elements: usize,
    pub order: Vec<usize>,
}

/// A borrowed, possibly incomplete, order without any ties.
#[derive(Copy, Clone, Debug, PartialEq, Eq)]
pub struct RankRef<'a> {
    pub elements: usize,
    pub order: &'a [usize],
}

/// A total order, listing every element of `0..len` once.
#[derive(Debug)]
pub struct TotalRank {
    pub order: Vec<usize>,
}

/// A borrowed total order.
#[derive(Debug, Clone, Copy)]
pub struct TotalRankRef<'a> {
    pub order: &'a [usize],
}

impl Rank {
    /// The order `order` over `elements` elements, which must not list an
    /// element twice.
    pub fn new(elements: usize, order: Vec<usize>) -> (res: Self)
        requires
            all_distinct(order@),
        ensures
            res.elements == elements,
            res.order == order,
    {
        Rank { elements, order }
    }

    pub fn elements(&self) -> (res: usize)
        ensures
            res == self.elements,
    {
        self.elements
    }

    /// Reads an order of `elements` from comma separated numbers, such as
    /// `2,0,1`. Returns `None` when a piece is not a number below
    /// `elements`, or when a number occurs twice.
    pub fn parse_order(elements: usize, s: &str) -> (res: Option<Self>)
        ensures
            parse_rank_spec(elements, s.spec_bytes()) matches Some(o) ==> (res matches Some(r) && r.elements
                == elements && r.order@ == o),
            parse_rank_spec(elements, s.spec_bytes()) is None ==> res is None,
    {
        match parse_numbers(elements, s.as_bytes()) {
            Some(order) => {
                if unique(order.as_slice()) {
                    Some(Rank::new(elements, order))
                } else {
                    None
                }
            },
            None => None,
        }
    }

    pub fn as_ref(&self) -> (res: RankRef<'_>)
        ensures
            res.elements == self.elements,
            res.order@ == self.order@,
    {
        RankRef { elements: self.elements, order: self.order.as_slice() }
    }

    /// The total order of the same elements; every element must be ranked.
    pub fn to_complete(self) -> (res: TotalRank)
        requires
            self.elements == self.order@.len(),
        ensures
            res.order == self.order,
    {
        TotalRank { order: self.order }
    }

    /// A random order over `elements` elements, ranking fewer than
    /// `elements` of them (none when `elements` is 0).
    pub fn random(rng: &mut StdRng, elements: usize) -> (res: Rank)
        ensures
            res.elements == elements,
            is_chain(elements as nat, res.order@),
            elements > 0 ==> res.order@.len() < elements,
            elements == 0 ==> res.order@.len() == 0,
    {
        if elements == 0 {
            Rank { order: Vec::new(), elements }
        } else {
            let len = random_below(rng, elements);
            let mut order = choose_multiple_below(rng, elements, len);
            let ghost chosen = order@;
            shuffle(rng, &mut order);
            proof {
                lemma_multiset_chain(chosen, order@, elements as nat);
            }
            Rank { order, elements }
        }
    }
}

/// `a ≤ b` in the partial order of the ranking `order`: as in the chain
/// `order`, and besides every unranked element lies below every ranked one.
pub open spec fn rank_le(order: Seq<usize>, a: int, b: int) -> bool {
    chain_le(order, a, b) || (order.contains(b as usize) && !order.contains(a as usize))
}

/// The ranking `order` over `n` elements as a partial order.
fn rank_to_partial(n: usize, order: &[usize]) -> (res: PartialOrder)
    requires
        is_chain(n as nat, order@),
        n * n <= usize::MAX,
    ensures
        res.size() == n,
        forall|a: int, b: int| 0 <= a < n && 0 <= b < n ==> #[trigger] res.rel(a, b) == rank_le(order@, a, b),
        res.is_valid(),
{
    let mut manual = chain_matrix(n, order);
    let len = order.len();
    let mut seen: Vec<bool> = Vec::new();
    let mut x: usize = 0;
    while x < n
        invariant
            x <= n,
            seen@.len() == x,
            forall|y: int| 0 <= y < x ==> !seen@[y],
        decreases n - x,
    {
        seen.push(false);
        x += 1;
    }
    let mut i: usize = 0;
    while i < len
        invariant
            len == order@.len(),
            is_chain(n as nat, order@),
            i <= len,
            seen@.len() == n,
            forall|y: int| 0 <= y < n ==> seen@[y] == order@.take(i as int).contains(y as usize),
        decreases len - i,
    {
        let v = order[i];
        let ghost before = seen@;
        seen.set(v, true);
        proof {
            let t1 = order@.take(i + 1);
            let t0 = order@.take(i as int);
            assert forall|y: int| 0 <= y < n implies seen@[y] == t1.contains(y as usize) by {
                if t1.contains(y as usize) {
                    let k = choose|k: int| 0 <= k < t1.len() && t1[k] == y as usize;
                    if k < i {
                        assert(t0[k] == y as usize);
                    }
                }
                if t0.contains(y as usize) {
                    let k = choose|k: int| 0 <= k < t0.len() && t0[k] == y as usize;
                    assert(t1[k] == y as usize);
                }
                if y == v {
                    assert(t1[i as int] == v);
                }
            }
        }
        i += 1;
    }
    proof {
        assert(order@.take(len as int) =~= order@);
        assert(order@.take(0) =~= Seq::<usize>::empty());
    }
    let mut i: usize = 0;
    while i < len
        invariant
            len == order@.len(),
            is_chain(n as nat, order@),
            i <= len,
            seen@.len() == n,
            forall|y: int| 0 <= y < n ==> seen@[y] == order@.contains(y as usize),
            manual.relation().wf(),
            manual.relation().dim == n,
            forall|a: int, b: int|
                0 <= a < n && 0 <= b < n ==> #[trigger] manual.relation().at(a, b) == (chain_le(order@, a, b) || (
                !order@.contains(a as usize) && order@.take(i as int).contains(b as usize))),
        decreases len - i,
    {
        let upper = order[i];
        proof {
            assert(order@.contains(upper));
        }
        let mut lower: usize = 0;
        while lower < n
            invariant
                len == order@.len(),
                is_chain(n as nat, order@),
                i < len,
                upper == order@[i as int],
                upper < n,
                lower <= n,
                seen@.len() == n,
                forall|y: int| 0 <= y < n ==> seen@[y] == order@.contains(y as usize),
                manual.relation().wf(),
                manual.relation().dim == n,
                forall|a: int, b: int|
                    0 <= a < n && 0 <= b < n ==> #[trigger] manual.relation().at(a, b) == (chain_le(order@, a, b) || (
                    !order@.contains(a as usize) && (order@.take(i as int).contains(b as usize) || (b == upper && a
                        < lower)))),
            decreases n - lower,
        {
            if !seen[lower] {
                manual.set(lower, upper);
            }
            lower += 1;
        }
        proof {
            let t1 = order@.take(i + 1);
            let t0 = order@.take(i as int);
            assert forall|a: int, b: int| 0 <= a < n && 0 <= b < n implies #[trigger] manual.relation().at(a, b) == (
            chain_le(order@, a, b) || (!order@.contains(a as usize) && t1.contains(b as usize))) by {
                if t1.contains(b as usize) {
                    let k = choose|k: int| 0 <= k < t1.len() && t1[k] == b as usize;
                    if k < i {
                        assert(t0[k] == b as usize);
                    }
                }
                if t0.contains(b as usize) {
                    let k = choose|k: int| 0 <= k < t0.len() && t0[k] == b as usize;
                    assert(t1[k] == b as usize);
                }
                if b == upper {
                    assert(t1[i as int] == upper);
                }
            }
        }
        i += 1;
    }
    let res = manual.finish_unchecked();
    proof {
        assert forall|a: int, b: int| 0 <= a < n && 0 <= b < n implies #[trigger] res.rel(a, b) == rank_le(order@, a, b) by {
            assert(res.rel(a, b) == manual.relation().at(a, b));
        }
        assert forall|a: int| 0 <= a < n implies #[trigger] res.rel(a, a) by {
            assert(rank_le(order@, a, a));
        }
        assert forall|a: int, b: int, c: int|
            #![trigger res.rel(a, b), res.rel(b, c)]
            0 <= a < n && 0 <= b < n && 0 <= c < n && res.rel(a, b) && res.rel(b, c) implies res.rel(a, c) by {
            assert(rank_le(order@, a, b));
            assert(rank_le(order@, b, c));
            if a != b && b != c && a != c {
                if chain_le(order@, a, b) && chain_le(order@, b, c) {
                    let (i1, j1) = choose|i: int, j: int| 0 <= i < j < order@.len() && order@[i] == b && order@[j] == a;
                    let (i2, j2) = choose|i: int, j: int| 0 <= i < j < order@.len() && order@[i] == c && order@[j] == b;
                    assert(j2 == i1);
                    assert(chain_le(order@, a, c));
                } else if chain_le(order@, a, b) {
                    let (i1, j1) = choose|i: int, j: int| 0 <= i < j < order@.len() && order@[i] == b && order@[j] == a;
                    assert(order@.contains(b as usize));
                } else if chain_le(order@, b, c) {
                    let (i2, j2) = choose|i: int, j: int| 0 <= i < j < order@.len() && order@[i] == c && order@[j] == b;
                    assert(order@.contains(c as usize));
                }
            }
            assert(rank_le(order@, a, c));
        }
    }
    res
}

impl Order for Rank {
    open spec fn order_len(&self) -> nat {
        self.order@.len()
    }

    open spec fn matrix_fits(&self) -> bool {
        self.elements * self.elements <= usize::MAX && is_chain(self.elements as nat, self.order@)
    }

    fn elements(&self) -> (res: usize)
        ensures
            res == self.elements,
    {
        self.elements
    }

    fn len(&self) -> (res: usize)
        ensures
            res == self.order@.len(),
    {
        self.order.len()
    }

    /// The ranked elements are ordered from first (largest) to last, above
    /// every unranked element; the unranked elements are incomparable to
    /// each other.
    fn to_partial(self) -> (res: PartialOrder)
        ensures
            res.size() == self.elements,
            forall|a: int, b: int|
                0 <= a < res.size() && 0 <= b < res.size() ==> #[trigger] res.rel(a, b)
                    == rank_le(self.order@, a, b),
            res.is_valid(),
    {
        rank_to_partial(self.elements, self.order.as_slice())
    }
}

impl<'a> OrderOwned<'a> for Rank {
    type Ref = RankRef<'a>;

    fn as_ref(&'a self) -> (res: RankRef<'a>)
        ensures
            res.elements == self.elements,
            res.order@ == self.order@,
    {
        RankRef { elements: self.elements, order: self.order.as_slice() }
    }
}

impl<'a> RankRef<'a> {
    /// The order `order` over `elements` elements, which must not list an
    /// element twice.
    pub fn new(elements: usize, order: &'a [usize]) -> (res: Self)
        requires
            all_distinct(order@),
        ensures
            res.elements == elements,
            res.order@ == order@,
    {
        RankRef { elements, order }
    }

    pub fn len(&self) -> (res: usize)
        ensures
            res == self.order@.len(),
    {
        self.order.len()
    }

    pub fn is_empty(&self) -> (res: bool)
        ensures
            res == (self.order@.len() == 0),
    {
        self.order.len() == 0
    }

    /// The `n` highest ranked elements.
    pub fn top(&self, n: usize) -> (res: Self)
        requires
            n <= self.order@.len(),
        ensures
            res.elements == self.elements,
            res.order@ == self.order@.take(n as int),
    {
        RankRef { elements: self.elements, order: &self.order[0..n] }
    }

    pub fn to_owned(&self) -> (res: Rank)
        ensures
            res.elements == self.elements,
            res.order@ == self.order@,
    {
        Rank { elements: self.elements, order: copy_usizes(self.order) }
    }

    /// The highest ranked element.
    pub fn winner(&self) -> (res: usize)
        requires
            self.order@.len() > 0,
        ensures
            res == self.order@[0],
    {
        self.order[0]
    }

    /// The same order with the tie flags `tied`.
    pub fn to_tied(self, tied: &'a [bool]) -> (res: TiedRankRef<'a>)
        requires
            is_chain(self.elements as nat, self.order@),
            tie_shape(self.order@.len(), tied@.len()),
        ensures
            res.wf(),
            res.elements == self.elements,
            res.order@ == self.order@,
            res.tied@ == tied@,
    {
        TiedRankRef::new(self.elements, self.order, tied)
    }

    /// The total order of the same elements; every element must be ranked.
    pub fn to_complete(self) -> (res: TotalRankRef<'a>)
        requires
            self.elements == self.order@.len(),
        ensures
            res.order@ == self.order@,
    {
        TotalRankRef { order: self.order }
    }
}

impl<'a> OrderRef for RankRef<'a> {
    type Owned = Rank;

    fn to_owned(self) -> (res: Rank)
        ensures
            res.elements == self.elements,
            res.order@ == self.order@,
    {
        Rank { elements: self.elements, order: copy_usizes(self.order) }
    }
}

impl Clone for TotalRank {
    fn clone(&self) -> (res: Self)
        ensures
            res.order@ == self.order@,
    {
        TotalRank { order: copy_usizes(self.order.as_slice()) }
    }
}

/// Whether `order` may be a total rank: empty, or free of repeats and
/// holding `0`.
pub open spec fn total_rank_ok(order: Seq<usize>) -> bool {
    order.len() == 0 || (all_distinct(order) && order.contains(0))
}

impl TotalRank {

    /// Sorts the order by the comparison `f`, as `sort_by` of a slice does:
    /// a stable sort, so that elements `f` finds equal keep their order. `f`
    /// must compare as a total preorder.
    pub fn sort_by<F: Fn(&usize, &usize) -> Ordering>(&mut self, f: F)
        requires
            total_preorder(f),
        ensures
            exists|perm: Seq<int>| stably_sorted_by(f, old(self).order@, final(self).order@, perm),
            is_total(old(self).order@) ==> is_total(final(self).order@),
    {
        let ghost before = self.order@;
        sort_by_cmp(&mut self.order, f);
        proof {
            let perm = choose|perm: Seq<int>| stably_sorted_by(f, before, self.order@, perm);
            if is_total(before) {
                lemma_sorted_keeps_chain(f, before, self.order@, perm, before.len());
            }
        }
    }

    /// Sorts the order by the comparison `f`, as `sort_by` does.
    pub fn sort_with<F: Fn(&usize, &usize) -> Ordering>(&mut self, f: F)
        requires
            total_preorder(f),
        ensures
            exists|perm: Seq<int>| stably_sorted_by(f, old(self).order@, final(self).order@, perm),
            is_total(old(self).order@) ==> is_total(final(self).order@),
    {
        self.sort_by(f)
    }
    /// The total order `v`, which must be empty or free of repeats and hold
    /// `0`.
    pub fn new(v: Vec<usize>) -> (res: Self)
        requires
            total_rank_ok(v@),
        ensures
            res.order == v,
    {
        TotalRank { order: v }
    }

    /// The total order of no elements.
    pub fn new_empty() -> (res: Self)
        ensures
            res.order@.len() == 0,
    {
        TotalRank { order: Vec::new() }
    }

    /// The order `0, 1, ..., n - 1`.
    pub fn new_default(n: usize) -> (res: Self)
        ensures
            res.order@.len() == n,
            forall|i: int| 0 <= i < n ==> #[trigger] res.order@[i] == i,
    {
        let mut order: Vec<usize> = Vec::new();
        let mut i: usize = 0;
        while i < n
            invariant
                i <= n,
                order@.len() == i,
                forall|k: int| 0 <= k < i ==> #[trigger] order@[k] == k,
            decreases n - i,
        {
            order.push(i);
            i += 1;
        }
        TotalRank { order }
    }

    pub fn as_ref(&self) -> (res: TotalRankRef<'_>)
        ensures
            res.order@ == self.order@,
    {
        TotalRankRef { order: self.order.as_slice() }
    }

    pub fn get_inner(self) -> (res: Vec<usize>)
        ensures
            res == self.order,
    {
        self.order
    }

    /// Removes element `n`; the elements above it move down by one.
    pub fn remove(&mut self, n: usize)
        ensures
            final(self).order@ == remove_renumber(old(self).order@, n),
    {
        let len = self.order.len();
        let mut out: Vec<usize> = Vec::new();
        let mut i: usize = 0;
        while i < len
            invariant
                len == self.order@.len(),
                self.order@ == old(self).order@,
                i <= len,
                out@ == remove_renumber(old(self).order@.take(i as int), n),
            decreases len - i,
        {
            proof {
                assert(old(self).order@.take(i + 1).drop_last() =~= old(self).order@.take(i as int));
            }
            let v = self.order[i];
            if n < v {
                out.push(v - 1);
            } else if n > v {
                out.push(v);
            }
            i += 1;
        }
        proof {
            assert(old(self).order@.take(len as int) =~= old(self).order@);
        }
        self.order = out;
    }

    /// Becomes a copy of `other`.
    pub fn copy_from_ref(&mut self, other: TotalRankRef)
        ensures
            final(self).order@ == other.order@,
    {
        self.order = copy_usizes(other.order);
    }

    /// The same order, as an order over its own length.
    pub fn to_incomplete(self) -> (res: Rank)
        ensures
            res.elements == self.order@.len(),
            res.order == self.order,
    {
        let elements = self.order.len();
        Rank { elements, order: self.order }
    }
}

impl<'a> TotalRankRef<'a> {
    /// The total order `v`, which must be empty or free of repeats and hold
    /// `0`.
    pub fn new(v: &'a [usize]) -> (res: Self)
        requires
            total_rank_ok(v@),
        ensures
            res.order@ == v@,
    {
        TotalRankRef { order: v }
    }

    /// The number of elements.
    pub fn elements(&self) -> (res: usize)
        ensures
            res == self.order@.len(),
    {
        self.order.len()
    }

    /// The `n` highest ranked elements.
    pub fn top(&self, n: usize) -> (res: &'a [usize])
        requires
            n <= self.order@.len(),
        ensures
            res@ == self.order@.take(n as int),
    {
        &self.order[0..n]
    }

    pub fn owned(&self) -> (res: TotalRank)
        ensures
            res.order@ == self.order@,
    {
        TotalRank { order: copy_usizes(self.order) }
    }

    /// The same order, as an order over its own length.
    pub fn to_incomplete(self) -> (res: RankRef<'a>)
        ensures
            res.elements == self.order@.len(),
            res.order@ == self.order@,
    {
        let elements = self.order.len();
        RankRef { elements, order: self.order }
    }
}

} // verus!
