//! Binary orders: every element is either approved (high) or not (low).
use rand::rngs::StdRng;
use vstd::prelude::*;

use crate::order::{Order, OrderOwned, OrderRef};
use crate::partial_order::{PartialOrder, PartialOrderManual};
use crate::random::random_bool;
use crate::parse::{lemma_read_lines_grow, lemma_read_lines_stop, lines_result, read_lines, split_lines, text_lines};
use crate::util::copy_bools;
use vstd::string::StringSliceAdditionalSpecFns;

verus! {

broadcast use vstd::seq_lib::group_seq_properties;

/// `a ≤ b` in the partial order of a binary order: `a` is `b`, or `a` is
/// not approved and `b` is.
pub open spec fn binary_le(v: Seq<bool>, a: int, b: int) -> bool {
    a == b || (!v[a] && v[b])
}

/// An owned binary order.
#[derive(Debug)]
pub struct Binary {
    values: Vec<bool>,
}

impl View for Binary {
    type V = Seq<bool>;

    closed spec fn view(&self) -> Seq<bool> {
        self.values@
    }
}

impl Clone for Binary {
    fn clone(&self) -> (res: Self)
        ensures
            res@ == self@,
    {
        Self { values: copy_bools(self.values.as_slice()) }
    }
}

impl Binary {
    /// A binary order with `v[i]` saying whether element `i` is approved.
    pub fn new(v: Vec<bool>) -> (res: Self)
        ensures
            res@ == v@,
    {
        Binary { values: v }
    }

    /// Copies `source` into `self`, whatever their lengths, like
    /// `Clone::clone_from`.
    pub fn clone_from_ref(&mut self, source: BinaryRef)
        ensures
            final(self)@ == source@,
    {
        self.values = crate::util::copy_bools(source.values);
    }

    /// A random binary order of `elements` elements, each approved by a fair
    /// coin.
    pub fn random(rng: &mut StdRng, elements: usize) -> (res: Binary)
        ensures
            res@.len() == elements,
    {
        let mut values: Vec<bool> = Vec::new();
        let mut i: usize = 0;
        while i < elements
            invariant
                i <= elements,
                values@.len() == i,
            decreases elements - i,
        {
            values.push(random_bool(rng));
            i += 1;
        }
        Binary { values }
    }

    /// The approvals, by element.
    pub fn into_inner(self) -> (res: Vec<bool>)
        ensures
            res@ == self@,
    {
        self.values
    }
}

/// A borrowed binary order.
pub struct BinaryRef<'a> {
    values: &'a [bool],
}

impl<'a> View for BinaryRef<'a> {
    type V = Seq<bool>;

    closed spec fn view(&self) -> Seq<bool> {
        self.values@
    }
}

impl<'a> BinaryRef<'a> {
    /// A binary order over the approvals in `v`.
    pub fn new(v: &'a [bool]) -> (res: Self)
        ensures
            res@ == v@,
    {
        BinaryRef { values: v }
    }

    /// The number of elements.
    pub fn len(&self) -> (res: usize)
        ensures
            res == self@.len(),
    {
        self.values.len()
    }

    /// Whether there are no elements.
    pub fn is_empty(&self) -> (res: bool)
        ensures
            res == (self@.len() == 0),
    {
        self.len() == 0
    }

    /// The approvals, by element.
    pub fn values(&self) -> (res: &'a [bool])
        ensures
            res@ == self@,
    {
        self.values
    }
}

impl Order for Binary {
    open spec fn order_len(&self) -> nat {
        self@.len()
    }

    open spec fn matrix_fits(&self) -> bool {
        self@.len() * self@.len() <= usize::MAX
    }

    fn elements(&self) -> (res: usize)
        ensures
            res == self@.len(),
    {
        self.values.len()
    }

    fn len(&self) -> (res: usize)
        ensures
            res == self@.len(),
    {
        self.values.len()
    }

    /// Converts to `PartialOrder`. We only know that approved elements are
    /// above the other elements, so those are the only relations between
    /// distinct elements that the result holds.
    fn to_partial(self) -> (res: PartialOrder)
        ensures
            res.size() == self@.len(),
            forall|a: int, b: int|
                0 <= a < res.size() && 0 <= b < res.size() ==> #[trigger] res.rel(a, b)
                    == binary_le(self@, a, b),
            res.is_valid(),
    {
        let n = self.values.len();
        let mut tmp = PartialOrderManual::new(n);
        let mut i1: usize = 0;
        while i1 < n
            invariant
                n == self@.len(),
                i1 <= n,
                tmp.relation().wf(),
                tmp.relation().dim == n,
                forall|a: int, b: int|
                    0 <= a < n && 0 <= b < n ==> #[trigger] tmp.relation().at(a, b) == (a == b
                        || (binary_le(self@, a, b) && (a < i1 || b < i1))),
            decreases n - i1,
        {
            let b1 = self.values[i1];
            let mut i2: usize = i1 + 1;
            while i2 < n
                invariant
                    n == self@.len(),
                    i1 < n,
                    i1 + 1 <= i2 <= n,
                    b1 == self@[i1 as int],
                    tmp.relation().wf(),
                    tmp.relation().dim == n,
                    forall|a: int, b: int|
                        0 <= a < n && 0 <= b < n ==> #[trigger] tmp.relation().at(a, b) == (a == b
                            || (binary_le(self@, a, b) && (a < i1 || b < i1 || (a == i1 && b < i2)
                            || (b == i1 && a < i2)))),
                decreases n - i2,
            {
                let b2 = self.values[i2];
                if b1 && !b2 {
                    tmp.set(i2, i1);
                } else if !b1 && b2 {
                    tmp.set(i1, i2);
                }
                i2 += 1;
            }
            i1 += 1;
        }
        tmp.finish_unchecked()
    }
}


} // verus!

verus! {

impl<'a> OrderOwned<'a> for Binary {
    type Ref = BinaryRef<'a>;

    fn as_ref(&'a self) -> (res: BinaryRef<'a>)
        ensures
            res@ == self@,
    {
        BinaryRef { values: self.values.as_slice() }
    }
}

impl<'a> OrderRef for BinaryRef<'a> {
    type Owned = Binary;

    fn to_owned(self) -> (res: Binary)
        ensures
            res@ == self@,
    {
        Binary { values: copy_bools(self.values) }
    }
}

/// A collection of binary orders over the same elements, stored back to
/// back: order `i` holds `orders[i * elements .. (i + 1) * elements]`.
#[derive(Debug, PartialEq, Eq)]
pub struct BinaryDense {
    pub orders: Vec<bool>,
    pub elements: usize,
}

impl Clone for BinaryDense {
    fn clone(&self) -> (res: Self)
        ensures
            res.orders@ == self.orders@,
            res.elements == self.elements,
    {
        Self { orders: copy_bools(self.orders.as_slice()), elements: self.elements }
    }
}

impl BinaryDense {
    /// The orders fill whole blocks of `elements` values.
    pub open spec fn wf(&self) -> bool {
        if self.elements == 0 {
            self.orders@.len() == 0
        } else {
            (self.orders@.len() as int) % (self.elements as int) == 0
        }
    }

    /// The number of orders.
    pub open spec fn num_orders(&self) -> nat {
        if self.elements == 0 {
            0
        } else {
            self.orders@.len() / (self.elements as nat)
        }
    }

    /// Order `i`.
    pub open spec fn order(&self, i: int) -> Seq<bool> {
        crate::util::block(self.orders@, self.elements as nat, i)
    }

    /// An empty collection of orders over `elements` elements.
    pub fn new(elements: usize) -> (res: BinaryDense)
        ensures
            res.wf(),
            res.elements == elements,
            res.orders@.len() == 0,
    {
        proof {
            if elements > 0 {
                vstd::arithmetic::div_mod::lemma_small_mod(0, elements as nat);
            }
        }
        BinaryDense { orders: Vec::new(), elements }
    }

    /// A collection made of `orders`, which must fill whole blocks of
    /// `elements` values.
    pub fn new_from_parts(orders: Vec<bool>, elements: usize) -> (res: BinaryDense)
        requires
            (BinaryDense { orders, elements }).wf(),
        ensures
            res.wf(),
            res.orders == orders,
            res.elements == elements,
    {
        BinaryDense { orders, elements }
    }

    /// Returns true iff the orders fill whole blocks of `elements` values.
    pub fn valid(&self) -> (res: bool)
        ensures
            res == self.wf(),
    {
        if self.elements == 0 {
            self.orders.len() == 0
        } else {
            self.orders.len() % self.elements == 0
        }
    }

    /// The number of elements.
    pub fn elements(&self) -> (res: usize)
        ensures
            res == self.elements,
    {
        self.elements
    }

    /// The number of orders.
    pub fn len(&self) -> (res: usize)
        ensures
            res == self.num_orders(),
    {
        if self.elements == 0 {
            0
        } else {
            self.orders.len() / self.elements
        }
    }

    /// Whether there are no orders.
    pub fn is_empty(&self) -> (res: bool)
        ensures
            res == (self.num_orders() == 0),
    {
        self.len() == 0
    }

    /// Order `i`, or `None` if there is no such order.
    pub fn try_get(&self, i: usize) -> (res: Option<BinaryRef<'_>>)
        requires
            self.wf(),
        ensures
            i < self.num_orders() ==> (res matches Some(r) && r@ == self.order(i as int)),
            i >= self.num_orders() ==> res is None,
    {
        let _ = self.orders.len();
        if i < self.len() {
            let e = self.elements;
            proof {
                crate::util::lemma_div_exact(self.orders@.len() as int, e as int);
                crate::util::lemma_mul_block(i as int, self.num_orders() as int, e as int);
            }
            let start = i * e;
            let end = start + e;
            let s = &self.orders.as_slice()[start..end];
            Some(BinaryRef::new(s))
        } else {
            None
        }
    }

    /// Order `i`.
    pub fn get(&self, i: usize) -> (res: BinaryRef<'_>)
        requires
            self.wf(),
            i < self.num_orders(),
        ensures
            res@ == self.order(i as int),
    {
        self.try_get(i).unwrap()
    }

    /// Adds order `v`, which must rank every element. Fails if `v` has the
    /// wrong number of elements, or if memory for it could not be reserved.
    pub fn add(&mut self, v: BinaryRef) -> (res: Result<(), &'static str>)
        requires
            old(self).wf(),
        ensures
            final(self).wf(),
            final(self).elements == old(self).elements,
            v@.len() != old(self).elements ==> res == Err::<(), &'static str>(
                "Order must contains all elements",
            ),
            res == Err::<(), &'static str>("Order must contains all elements") ==> v@.len() != old(self).elements,
            res is Err ==> final(self).orders@ == old(self).orders@,
            res is Ok ==> v@.len() == old(self).elements && final(self).orders@ == old(self).orders@ + v@,
            res is Err ==> res == Err::<(), &'static str>("Order must contains all elements") || res
                == Err::<(), &'static str>("Could not add order"),
    {
        if v.len() != self.elements {
            return Err("Order must contains all elements");
        }
        if self.orders.try_reserve(self.elements).is_err() {
            return Err("Could not add order");
        }
        let ghost before = self.orders@;
        assert(before == old(self).orders@);
        let n = v.values.len();
        let mut i: usize = 0;
        while i < n
            invariant
                n == v@.len(),
                i <= n,
                self.elements == old(self).elements,
                self.orders@ == before + v@.take(i as int),
            decreases n - i,
        {
            self.orders.push(v.values[i]);
            i += 1;
            proof {
                assert(self.orders@ =~= before + v@.take(i as int));
            }
        }
        proof {
            assert(v@.take(n as int) =~= v@);
            if self.elements > 0 {
                crate::util::lemma_div_add_block(before.len() as int, self.elements as int);
            }
        }
        Ok(())
    }

    /// Removes element `target` from every order; the elements after it move
    /// down by one.
    pub fn remove_element(&mut self, target: usize) -> (res: Result<(), &'static str>)
        requires
            old(self).wf(),
            target < old(self).elements,
        ensures
            res is Ok,
            final(self).wf(),
            final(self).elements == old(self).elements - 1,
            final(self).elements > 0 ==> final(self).num_orders() == old(self).num_orders(),
            forall|i: int, j: int|
                0 <= i < old(self).num_orders() && 0 <= j < final(self).elements ==> #[trigger] final(self).order(i)[j] == old(self).order(i)[if j < target {
                    j
                } else {
                    j + 1
                }],
    {
        let e = self.elements;
        let ne = e - 1;
        let count = self.len();
        proof {
            crate::util::lemma_div_exact(self.orders@.len() as int, e as int);
        }
        let out = crate::util::remove_column(&self.orders, e, count, target);
        self.orders = out;
        self.elements = ne;
        proof {
            if ne > 0 {
                crate::util::lemma_mul_div(count as int, ne as int);
            }
            assert forall|i2: int, j2: int|
                0 <= i2 < old(self).num_orders() && 0 <= j2 < self.elements implies #[trigger] self.order(
                i2,
            )[j2] == old(self).order(i2)[if j2 < target {
                j2
            } else {
                j2 + 1
            }] by {
                crate::util::lemma_mul_block(i2, count as int, e as int);
                crate::util::lemma_mul_block(i2, count as int, ne as int);
                assert(self.orders@[i2 * ne + j2] == old(self).orders@[i2 * e
                    + crate::util::skip_index(j2, target as int)]);
            }
        }
        Ok(())
    }

    /// Adds `new_orders` random orders, each element approved by a fair coin.
    pub fn generate_uniform(&mut self, rng: &mut StdRng, new_orders: usize)
        requires
            old(self).wf(),
            old(self).orders@.len() + new_orders * old(self).elements <= usize::MAX,
        ensures
            final(self).wf(),
            final(self).elements == old(self).elements,
            final(self).orders@.len() == old(self).orders@.len() + new_orders * old(self).elements,
            final(self).orders@.subrange(0, old(self).orders@.len() as int) == old(self).orders@,
    {
        if self.elements == 0 || new_orders == 0 {
            proof {
                assert(self.orders@.subrange(0, old(self).orders@.len() as int) =~= old(self).orders@);
                let e0 = old(self).elements;
                assert(new_orders * e0 == 0) by (nonlinear_arith)
                    requires
                        new_orders == 0 || e0 == 0,
                ;
            }
            return;
        }
        let e = self.elements;
        let mut k: usize = 0;
        while k < new_orders
            invariant
                e == self.elements,
                e == old(self).elements,
                e > 0,
                k <= new_orders,
                old(self).orders@.len() + new_orders * e <= usize::MAX,
                self.orders@.len() == old(self).orders@.len() + k * e,
                self.orders@.subrange(0, old(self).orders@.len() as int) == old(self).orders@,
                (self.orders@.len() as int) % (e as int) == 0,
            decreases new_orders - k,
        {
            proof {
                crate::util::lemma_mul_block(k as int, new_orders as int, e as int);
            }
            let mut j: usize = 0;
            while j < e
                invariant
                    e == self.elements,
                    e == old(self).elements,
                    e > 0,
                    k < new_orders,
                    j <= e,
                    old(self).orders@.len() + new_orders * e <= usize::MAX,
                    k * e + e <= new_orders * e,
                    self.orders@.len() == old(self).orders@.len() + k * e + j,
                    self.orders@.subrange(0, old(self).orders@.len() as int) == old(self).orders@,
                decreases e - j,
            {
                let b = random_bool(rng);
                self.orders.push(b);
                j += 1;
                proof {
                    assert(self.orders@.subrange(0, old(self).orders@.len() as int) =~= old(self).orders@);
                }
            }
            proof {
                crate::util::lemma_div_add_block((old(self).orders@.len() + k * e) as int, e as int);
                assert((k + 1) * e == k * e + e) by (nonlinear_arith);
            }
            k += 1;
        }
    }
}

} // verus!

verus! {

/// Whether `b` is the digit `0` or `1`.
pub open spec fn is_bit(b: u8) -> bool {
    b == 48 || b == 49
}

/// Reads one line of approvals, such as `1,0,1`: a `0` or `1` for each of
/// the `elements` elements, separated by commas, and nothing else.
pub open spec fn binary_line(elements: nat, line: Seq<u8>) -> Result<Seq<bool>, &'static str> {
    if elements > 0 && line.len() == 2 * elements - 1 && forall|p: int|
        0 <= p < line.len() ==> if p % 2 == 0 {
            is_bit(#[trigger] line[p])
        } else {
            line[p] == crate::parse::COMMA
        } {
        Ok(Seq::new(elements, |i: int| line[2 * i] == 49))
    } else {
        Err("Invalid vote")
    }
}

/// Reads one line of approvals of `elements` elements.
fn read_binary_line(elements: usize, line: &[u8]) -> (res: Result<Vec<bool>, &'static str>)
    requires
        elements > 0,
    ensures
        match (res, binary_line(elements as nat, line@)) {
            (Ok(v), Ok(o)) => v@ == o,
            (Err(x), Err(y)) => x == y,
            _ => false,
        },
{
    let n = line.len();
    if n % 2 != 1 || n / 2 != elements - 1 {
        return Err("Invalid vote");
    }
    let mut out: Vec<bool> = Vec::new();
    let mut i: usize = 0;
    while i < elements
        invariant
            n == line@.len(),
            n == 2 * elements - 1,
            elements > 0,
            i <= elements,
            out@.len() == i,
            forall|k: int| 0 <= k < i ==> #[trigger] out@[k] == (line@[2 * k] == 49),
            forall|p: int| 0 <= p < 2 * i && p < n ==> if p % 2 == 0 {
                is_bit(#[trigger] line@[p])
            } else {
                line@[p] == crate::parse::COMMA
            },
        decreases elements - i,
    {
        let b = line[2 * i];
        if b == 48 {
            out.push(false);
        } else if b == 49 {
            out.push(true);
        } else {
            proof {
                assert(!is_bit(line@[2 * i]));
                assert((2 * i) % 2 == 0);
            }
            return Err("Invalid vote");
        }
        if i + 1 < elements {
            if line[2 * i + 1] != crate::parse::COMMA {
                proof {
                    assert((2 * i + 1) % 2 == 1);
                }
                return Err("Invalid vote");
            }
        }
        proof {
            assert forall|p: int| 0 <= p < 2 * (i + 1) && p < n implies if p % 2 == 0 {
                is_bit(#[trigger] line@[p])
            } else {
                line@[p] == crate::parse::COMMA
            } by {
                if p == 2 * i {
                    assert(p % 2 == 0);
                } else if p == 2 * i + 1 {
                    assert(p % 2 == 1);
                }
            }
        }
        i += 1;
    }
    proof {
        assert(out@ =~= Seq::new(elements as nat, |k: int| line@[2 * k] == 49));
    }
    Ok(out)
}

/// `1` for an approval and `0` for none, joined by commas.
pub open spec fn join_bits(v: Seq<bool>) -> Seq<u8>
    decreases v.len(),
{
    if v.len() == 0 {
        Seq::empty()
    } else if v.len() == 1 {
        seq![bit_char(v[0])]
    } else {
        join_bits(v.drop_last()) + seq![crate::parse::COMMA, bit_char(v.last())]
    }
}

/// The digit of an approval.
pub open spec fn bit_char(b: bool) -> u8 {
    if b {
        49
    } else {
        48
    }
}

/// Approval orders as text: one `join_bits` per line.
pub open spec fn format_bits(orders: Seq<Seq<bool>>) -> Seq<u8>
    decreases orders.len(),
{
    if orders.len() == 0 {
        Seq::empty()
    } else {
        format_bits(orders.drop_last()) + join_bits(orders.last()) + seq![crate::parse::NEWLINE]
    }
}

impl BinaryDense {
    /// The orders as text, such as `1,0,1\n0,0,1\n`: a `1` or `0` for each
    /// element joined by commas, one order per line.
    pub fn to_string(&self) -> (res: String)
        requires
            self.wf(),
        ensures
            res@ == crate::parse::ascii_chars(format_bits(Seq::new(self.num_orders(), |k: int| self.order(k)))),
    {
        let e = self.elements;
        let c = self.len();
        let ghost all = Seq::new(self.num_orders(), |k: int| self.order(k));
        let mut out: Vec<u8> = Vec::new();
        let mut k: usize = 0;
        proof {
            assert(all.take(0) =~= Seq::<Seq<bool>>::empty());
        }
        let _ = self.orders.len();
        while k < c
            invariant
                self.wf(),
                e == self.elements,
                c == self.num_orders(),
                self.orders@.len() <= usize::MAX,
                all == Seq::new(self.num_orders(), |k: int| self.order(k)),
                k <= c,
                out@ == format_bits(all.take(k as int)),
                crate::parse::is_ascii_bytes(out@),
            decreases c - k,
        {
            proof {
                crate::util::lemma_div_exact(self.orders@.len() as int, e as int);
                crate::util::lemma_mul_block(k as int, c as int, e as int);
            }
            let start = k * e;
            let o = &self.orders.as_slice()[start..start + e];
            proof {
                assert(o@ =~= self.order(k as int));
                assert(all.take(k + 1).drop_last() =~= all.take(k as int));
            }
            let ghost mid = out@;
            let mut j: usize = 0;
            while j < e
                invariant
                    o@.len() == e,
                    e > 0,
                    j <= e,
                    mid == out@.take(mid.len() as int),
                    out@ == mid + join_bits(o@.take(j as int)),
                    crate::parse::is_ascii_bytes(out@),
                decreases e - j,
            {
                if j > 0 {
                    out.push(crate::parse::COMMA);
                }
                if o[j] {
                    out.push(49);
                } else {
                    out.push(48);
                }
                proof {
                    assert(o@.take(j + 1).drop_last() =~= o@.take(j as int));
                    if j == 0 {
                        assert(o@.take(1) =~= seq![o@[0]]);
                    }
                    assert(out@ =~= mid + join_bits(o@.take(j + 1)));
                }
                j += 1;
            }
            proof {
                assert(o@.take(e as int) =~= o@);
            }
            out.push(crate::parse::NEWLINE);
            proof {
                assert(out@ =~= format_bits(all.take(k + 1)));
            }
            k += 1;
        }
        proof {
            assert(all.take(c as int) =~= all);
        }
        crate::parse::string_from_ascii(out)
    }

    /// Reads approval orders from `text`, one per line (see `text_lines`),
    /// each a `0` or `1` for every element separated by commas, such as
    /// `1,0,1`, and adds them. Stops at the first line that is no such
    /// order and returns `"Invalid vote"`; the orders before it stay added.
    /// With no elements, nothing is read.
    pub fn parse_add(&mut self, text: &str) -> (res: Result<(), &'static str>)
        requires
            old(self).wf(),
            old(self).orders@.len() + read_lines(
                text_lines(text.spec_bytes()),
                |l: Seq<u8>| binary_line(old(self).elements as nat, l),
            ).0.len() * old(self).elements <= usize::MAX,
        ensures
            final(self).wf(),
            final(self).elements == old(self).elements,
            old(self).elements == 0 ==> res is Ok && final(self).orders@ == old(self).orders@,
            old(self).elements > 0 ==> res == lines_result(
                read_lines(text_lines(text.spec_bytes()), |l: Seq<u8>| binary_line(old(self).elements as nat, l)).1,
            ),
            old(self).elements > 0 ==> final(self).num_orders() == old(self).num_orders() + read_lines(
                text_lines(text.spec_bytes()),
                |l: Seq<u8>| binary_line(old(self).elements as nat, l),
            ).0.len(),
            forall|k: int| 0 <= k < old(self).num_orders() ==> #[trigger] final(self).order(k) == old(self).order(k),
            forall|j: int|
                0 <= j < read_lines(
                    text_lines(text.spec_bytes()),
                    |l: Seq<u8>| binary_line(old(self).elements as nat, l),
                ).0.len() && old(self).elements > 0 ==> #[trigger] final(self).order(old(self).num_orders() + j)
                    == read_lines(
                    text_lines(text.spec_bytes()),
                    |l: Seq<u8>| binary_line(old(self).elements as nat, l),
                ).0[j],
    {
        if self.elements == 0 {
            return Ok(());
        }
        let e = self.elements;
        let ghost read = |l: Seq<u8>| binary_line(e as nat, l);
        let bytes = text.as_bytes();
        let lines = split_lines(bytes);
        let ghost tl = text_lines(bytes@);
        let ghost total = read_lines(tl, read).0;
        let nl = lines.len();
        let ghost c0 = old(self).num_orders();
        proof {
            assert(tl.take(0) =~= Seq::<Seq<u8>>::empty());
            lemma_read_lines_grow(tl, read, 0);
            crate::util::lemma_div_exact(old(self).orders@.len() as int, e as int);
        }
        let mut i: usize = 0;
        while i < nl
            invariant
                nl == lines@.len(),
                tl == text_lines(bytes@),
                bytes@ == text.spec_bytes(),
                nl == tl.len(),
                forall|k: int| 0 <= k < nl ==> (#[trigger] lines@[k])@ == tl[k],
                read == (|l: Seq<u8>| binary_line(e as nat, l)),
                e == self.elements,
                e == old(self).elements,
                e > 0,
                total == read_lines(tl, read).0,
                c0 == old(self).num_orders(),
                c0 * e == old(self).orders@.len(),
                i <= nl,
                self.wf(),
                read_lines(tl.take(i as int), read).1 is None,
                self.orders@.len() == old(self).orders@.len() + read_lines(tl.take(i as int), read).0.len() * e,
                read_lines(tl.take(i as int), read).0.len() <= total.len(),
                old(self).orders@.len() + total.len() * e <= usize::MAX,
                forall|k: int| 0 <= k < c0 ==> #[trigger] self.order(k) == old(self).order(k),
                forall|j: int|
                    0 <= j < read_lines(tl.take(i as int), read).0.len() ==> #[trigger] self.order(c0 + j)
                        == read_lines(tl.take(i as int), read).0[j],
            decreases nl - i,
        {
            let line = lines[i].as_slice();
            proof {
                assert(tl.take(i + 1).drop_last() =~= tl.take(i as int));
                assert(tl.take(i + 1).last() == tl[i as int]);
            }
            match read_binary_line(e, line) {
                Err(x) => {
                    proof {
                        assert(read_lines(tl.take(i + 1), read).1 == Some(x));
                        lemma_read_lines_stop(tl, read, i + 1);
                        let cnt = read_lines(tl.take(i as int), read).0.len();
                        let l = self.orders@.len();
                        assert(l == (c0 + cnt) * e) by (nonlinear_arith)
                            requires
                                l == c0 * e + cnt * e,
                        ;
                        crate::util::lemma_mul_div((c0 + cnt) as int, e as int);
                    }
                    return Err(x);
                },
                Ok(v) => {
                    let ghost prev = read_lines(tl.take(i as int), read).0;
                    let ghost before = self.orders@;
                    let ghost snap = *self;
                    proof {
                        lemma_read_lines_grow(tl, read, i + 1);
                        let l0 = old(self).orders@.len();
                        assert(before.len() + e <= l0 + total.len() * e) by (nonlinear_arith)
                            requires
                                before.len() == l0 + prev.len() * e,
                                prev.len() + 1 <= total.len(),
                        ;
                    }
                    let n = v.len();
                    let mut k: usize = 0;
                    while k < n
                        invariant
                            n == v@.len(),
                            k <= n,
                            self.elements == e,
                            self.orders@ == before + v@.take(k as int),
                        decreases n - k,
                    {
                        self.orders.push(v[k]);
                        k += 1;
                        proof {
                            assert(self.orders@ =~= before + v@.take(k as int));
                        }
                    }
                    proof {
                        assert(v@.take(n as int) =~= v@);
                        let pl = prev.len();
                        assert(before.len() == (c0 + pl) * e) by (nonlinear_arith)
                            requires
                                before.len() == c0 * e + pl * e,
                        ;
                        crate::util::lemma_mul_div((c0 + pl) as int, e as int);
                        crate::util::lemma_block_appended(before, v@, e as nat);
                        let l0 = old(self).orders@.len();
                        let l1 = self.orders@.len();
                        assert(l1 == l0 + (pl + 1) * e) by (nonlinear_arith)
                            requires
                                l1 == before.len() + e,
                                before.len() == l0 + pl * e,
                        ;
                        assert forall|k: int| 0 <= k < c0 + pl implies #[trigger] self.order(k) == snap.order(k) by {
                            crate::util::lemma_mul_block(k, (c0 + pl) as int, e as int);
                            crate::util::lemma_block_append(before, v@, e as nat, k);
                        }
                        assert forall|k: int| 0 <= k < c0 implies #[trigger] self.order(k) == old(self).order(k) by {
                            assert(self.order(k) == snap.order(k));
                        }
                        assert forall|j: int|
                            0 <= j < read_lines(tl.take(i + 1), read).0.len() implies #[trigger] self.order(c0 + j)
                            == read_lines(tl.take(i + 1), read).0[j] by {
                            if j < pl {
                                assert(self.order(c0 + j) == snap.order(c0 + j));
                            } else {
                                assert(c0 + j == (before.len() / (e as nat)) as int);
                            }
                        }
                    }
                },
            }
            i += 1;
        }
        proof {
            assert(tl.take(nl as int) =~= tl);
            let cnt = read_lines(tl, read).0.len();
            let l = self.orders@.len();
            assert(l == (c0 + cnt) * e) by (nonlinear_arith)
                requires
                    l == c0 * e + cnt * e,
            ;
            crate::util::lemma_mul_div((c0 + cnt) as int, e as int);
        }
        Ok(())
    }
}

} // verus!
