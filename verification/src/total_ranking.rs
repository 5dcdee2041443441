//! # Total rankings
//!
//! A packed collection of total rankings: each gives every element its own
//! rank, `0` for the best, with no two elements sharing a rank.
use rand::rngs::StdRng;
use vstd::prelude::*;
use vstd::string::StringSliceAdditionalSpecFns;

use crate::parse::{
    ascii_chars, is_ascii_bytes, parse_usize, parse_usize_spec, split_bytes, split_on, string_from_ascii, strip_cr,
    text_lines, COMMA, CR, NEWLINE,
};
use crate::random::shuffle;
use crate::strict::{is_total, lemma_multiset_chain, without_position, TotalDense};
use crate::tied::{format_lines, push_joined};
use crate::util::{block, lemma_block_append, lemma_mul_block, order_ranks};

verus! {

/// Reads the numbers of a ranking from its comma separated `parts`, in
/// turn; the first part that is no number, names no element or names one a
/// second time decides the error.
pub open spec fn scan_ranking(parts: Seq<Seq<u8>>, elements: nat) -> Result<Seq<usize>, &'static str>
    decreases parts.len(),
{
    if parts.len() == 0 {
        Ok(Seq::empty())
    } else {
        match scan_ranking(parts.drop_last(), elements) {
            Err(e) => Err(e),
            Ok(o) => match parse_usize_spec(parts.last()) {
                None => Err("Order is not a number"),
                Some(v) => if v >= elements {
                    Err("Ranking of element larger than or equal to number of elements")
                } else if o.contains(v) {
                    Err("Not a total ranking")
                } else {
                    Ok(o.push(v))
                },
            },
        }
    }
}

/// Reads one line holding a total ranking of `elements` elements, such as
/// `2,0,1`.
pub open spec fn parse_ranking_line(elements: nat, line: Seq<u8>) -> Result<Seq<usize>, &'static str> {
    match scan_ranking(split_on(line, COMMA), elements) {
        Err(e) => Err(e),
        Ok(o) => if o.len() > elements {
            Err("Too many elements listed in order")
        } else if o.len() < elements {
            Err("Too few elements listed in order")
        } else {
            Ok(o)
        },
    }
}

/// Reads `lines` in turn: the rankings read before the first line that is
/// no ranking, and the error of that line, if there is one.
pub open spec fn parse_lines(elements: nat, lines: Seq<Seq<u8>>) -> (Seq<Seq<usize>>, Option<&'static str>)
    decreases lines.len(),
{
    if lines.len() == 0 {
        (Seq::empty(), None)
    } else {
        let prev = parse_lines(elements, lines.drop_last());
        if prev.1 is Some {
            prev
        } else {
            match parse_ranking_line(elements, lines.last()) {
                Ok(o) => (prev.0.push(o), None),
                Err(e) => (prev.0, Some(e)),
            }
        }
    }
}

proof fn lemma_scan_stop(parts: Seq<Seq<u8>>, elements: nat, k: int)
    requires
        0 <= k <= parts.len(),
        scan_ranking(parts.take(k), elements) is Err,
    ensures
        scan_ranking(parts, elements) == scan_ranking(parts.take(k), elements),
    decreases parts.len() - k,
{
    if k < parts.len() {
        assert(parts.take(k + 1).drop_last() =~= parts.take(k));
        lemma_scan_stop(parts, elements, k + 1);
    } else {
        assert(parts.take(k) =~= parts);
    }
}

proof fn lemma_lines_stop(elements: nat, lines: Seq<Seq<u8>>, k: int)
    requires
        0 <= k <= lines.len(),
        parse_lines(elements, lines.take(k)).1 is Some,
    ensures
        parse_lines(elements, lines) == parse_lines(elements, lines.take(k)),
    decreases lines.len() - k,
{
    if k < lines.len() {
        assert(lines.take(k + 1).drop_last() =~= lines.take(k));
        lemma_lines_stop(elements, lines, k + 1);
    } else {
        assert(lines.take(k) =~= lines);
    }
}

proof fn lemma_lines_grow(elements: nat, lines: Seq<Seq<u8>>, k: int)
    requires
        0 <= k <= lines.len(),
    ensures
        parse_lines(elements, lines.take(k)).0.len() <= parse_lines(elements, lines).0.len(),
    decreases lines.len() - k,
{
    if k < lines.len() {
        assert(lines.take(k + 1).drop_last() =~= lines.take(k));
        lemma_lines_grow(elements, lines, k + 1);
    } else {
        assert(lines.take(k) =~= lines);
    }
}

/// A ranking that reads well ranks every element once.
proof fn lemma_scan_total(parts: Seq<Seq<u8>>, elements: nat)
    requires
        scan_ranking(parts, elements) is Ok,
    ensures
        crate::util::all_below(scan_ranking(parts, elements)->Ok_0, elements),
        crate::util::all_distinct(scan_ranking(parts, elements)->Ok_0),
    decreases parts.len(),
{
    if parts.len() > 0 {
        lemma_scan_total(parts.drop_last(), elements);
        let o = scan_ranking(parts.drop_last(), elements)->Ok_0;
        let n = scan_ranking(parts, elements)->Ok_0;
        assert forall|i: int, j: int| 0 <= i < n.len() && 0 <= j < n.len() && i != j implies n[i] != n[j] by {
            if i == o.len() {
                assert(o[j] == n[j]);
            } else if j == o.len() {
                assert(o[i] == n[i]);
            }
        }
    }
}

/// Reads one line of a total ranking of `elements` elements.
fn read_ranking(elements: usize, line: &[u8]) -> (res: Result<Vec<usize>, &'static str>)
    ensures
        match (res, parse_ranking_line(elements as nat, line@)) {
            (Ok(v), Ok(o)) => v@ == o,
            (Err(x), Err(y)) => x == y,
            _ => false,
        },
{
    let parts = split_bytes(line, COMMA);
    let ghost sp = split_on(line@, COMMA);
    let np = parts.len();
    let mut seen: Vec<bool> = Vec::new();
    let mut j: usize = 0;
    while j < elements
        invariant
            j <= elements,
            seen@.len() == j,
            forall|x: int| 0 <= x < j ==> !seen@[x],
        decreases elements - j,
    {
        seen.push(false);
        j += 1;
    }
    let mut order: Vec<usize> = Vec::new();
    proof {
        assert(sp.take(0) =~= Seq::<Seq<u8>>::empty());
    }
    let mut k: usize = 0;
    while k < np
        invariant
            np == parts@.len(),
            sp == split_on(line@, COMMA),
            np == sp.len(),
            forall|j: int| 0 <= j < np ==> (#[trigger] parts@[j])@ == sp[j],
            k <= np,
            scan_ranking(sp.take(k as int), elements as nat) == Ok::<Seq<usize>, &'static str>(order@),
            seen@.len() == elements,
            forall|x: int| 0 <= x < elements ==> seen@[x] == order@.contains(x as usize),
        decreases np - k,
    {
        proof {
            assert(sp.take(k + 1).drop_last() =~= sp.take(k as int));
            assert(sp.take(k + 1).last() == parts@[k as int]@);
        }
        let v = match parse_usize(parts[k].as_slice()) {
            Some(v) => v,
            None => {
                proof {
                    lemma_scan_stop(sp, elements as nat, k + 1);
                }
                return Err("Order is not a number");
            },
        };
        if v >= elements {
            proof {
                lemma_scan_stop(sp, elements as nat, k + 1);
            }
            return Err("Ranking of element larger than or equal to number of elements");
        }
        if seen[v] {
            proof {
                lemma_scan_stop(sp, elements as nat, k + 1);
            }
            return Err("Not a total ranking");
        }
        let ghost o0 = order@;
        seen.set(v, true);
        order.push(v);
        proof {
            assert forall|x: int| 0 <= x < elements implies seen@[x] == order@.contains(x as usize) by {
                if x == v {
                    assert(order@[o0.len() as int] == v);
                } else {
                    if o0.contains(x as usize) {
                        let i = choose|i: int| 0 <= i < o0.len() && o0[i] == x as usize;
                        assert(order@[i] == x as usize);
                    }
                    if order@.contains(x as usize) {
                        let i = choose|i: int| 0 <= i < order@.len() && order@[i] == x as usize;
                        assert(o0[i] == x as usize);
                    }
                }
            }
        }
        k += 1;
    }
    proof {
        assert(sp.take(np as int) =~= sp);
    }
    if order.len() > elements {
        return Err("Too many elements listed in order");
    }
    if order.len() < elements {
        return Err("Too few elements listed in order");
    }
    Ok(order)
}

/// Total rankings, `elements` ranks each, stored back to back.
#[derive(Clone, Debug, PartialEq, Eq)]
pub struct TotalRankingDense {
    pub orders: Vec<usize>,
    pub elements: usize,
    pub orders_count: usize,
}

impl TotalRankingDense {
    /// Ranking `k`: the rank of each element.
    pub open spec fn order(&self, k: int) -> Seq<usize> {
        block(self.orders@, self.elements as nat, k)
    }

    /// All the rankings.
    pub open spec fn rankings(&self) -> Seq<Seq<usize>> {
        Seq::new(self.orders_count as nat, |k: int| self.order(k))
    }

    /// The vector holds `orders_count` rankings, each giving every element a
    /// distinct rank below `elements`.
    pub open spec fn wf(&self) -> bool {
        &&& self.orders@.len() == self.orders_count * self.elements
        &&& forall|k: int| 0 <= k < self.orders_count ==> #[trigger] is_total(self.order(k))
    }

    /// Ranking `k` lies within the vector.
    pub proof fn lemma_bounds(&self, k: int)
        requires
            self.orders@.len() == self.orders_count * self.elements,
            0 <= k < self.orders_count,
        ensures
            0 <= k * self.elements,
            k * self.elements + self.elements <= self.orders@.len(),
            self.order(k).len() == self.elements,
    {
        lemma_mul_block(k, self.orders_count as int, self.elements as int);
    }

    /// An empty collection over `elements` elements.
    pub fn new(elements: usize) -> (res: Self)
        ensures
            res.wf(),
            res.elements == elements,
            res.orders_count == 0,
    {
        TotalRankingDense { orders: Vec::new(), elements, orders_count: 0 }
    }

    pub fn elements(&self) -> (res: usize)
        ensures
            res == self.elements,
    {
        self.elements
    }

    /// Returns true iff the vector holds `orders_count` rankings, each giving
    /// every element a distinct rank below `elements`, and there are no
    /// rankings when there are no elements.
    pub fn valid(&self) -> (res: bool)
        ensures
            res == (self.wf() && (self.elements == 0 ==> self.orders_count == 0)),
    {
        let e = self.elements;
        let c = self.orders_count;
        let _ = self.orders.len();
        if e == 0 {
            proof {
                assert(c * e == 0) by (nonlinear_arith)
                    requires
                        e == 0,
                ;
                assert forall|k: int| 0 <= k < c implies #[trigger] is_total(self.order(k)) by {
                    assert(k * e == 0) by (nonlinear_arith)
                        requires
                            e == 0,
                    ;
                    assert(self.order(k).len() == 0);
                }
            }
            return c == 0 && self.orders.len() == 0;
        }
        match c.checked_mul(e) {
            None => {
                return false;
            },
            Some(total) => {
                if self.orders.len() != total {
                    return false;
                }
            },
        }
        let mut k: usize = 0;
        while k < c
            invariant
                e == self.elements,
                e > 0,
                c == self.orders_count,
                self.orders@.len() == c * e,
                self.orders@.len() <= usize::MAX,
                k <= c,
                forall|j: int| 0 <= j < k ==> #[trigger] is_total(self.order(j)),
            decreases c - k,
        {
            proof {
                self.lemma_bounds(k as int);
            }
            let start = k * e;
            let o = &self.orders.as_slice()[start..start + e];
            proof {
                assert(o@ =~= self.order(k as int));
            }
            if !crate::util::unique_and_bounded(e, o) {
                proof {
                    assert(!is_total(self.order(k as int)));
                }
                return false;
            }
            k += 1;
        }
        true
    }

    /// Appends the ranking `o`.
    fn push_ranking(&mut self, o: &[usize])
        requires
            old(self).wf(),
            old(self).elements > 0,
            o@.len() == old(self).elements,
            is_total(o@),
            old(self).orders@.len() + old(self).elements <= usize::MAX,
        ensures
            final(self).wf(),
            final(self).elements == old(self).elements,
            final(self).orders_count == old(self).orders_count + 1,
            forall|k: int| 0 <= k < old(self).orders_count ==> #[trigger] final(self).order(k) == old(self).order(k),
            final(self).order(old(self).orders_count as int) == o@,
            final(self).orders@ == old(self).orders@ + o@,
    {
        let e = self.elements;
        let c = self.orders_count;
        proof {
            assert(c * e + e == (c + 1) * e) by (nonlinear_arith);
            assert(c + 1 <= (c + 1) * e) by (nonlinear_arith)
                requires
                    e > 0,
            ;
        }
        let n = o.len();
        let mut i: usize = 0;
        while i < n
            invariant
                n == o@.len(),
                i <= n,
                self.orders@ == old(self).orders@ + o@.take(i as int),
                self.elements == e,
                self.orders_count == c,
            decreases n - i,
        {
            self.orders.push(o[i]);
            i += 1;
            proof {
                assert(self.orders@ =~= old(self).orders@ + o@.take(i as int));
            }
        }
        self.orders_count = c + 1;
        proof {
            assert(o@.take(n as int) =~= o@);
            let s0 = old(self).orders@;
            assert forall|k: int| 0 <= k < c implies #[trigger] self.order(k) == old(self).order(k) by {
                old(self).lemma_bounds(k);
                lemma_block_append(s0, o@, e as nat, k);
            }
            assert(self.order(c as int) =~= o@);
            assert forall|k: int| 0 <= k < self.orders_count implies #[trigger] is_total(self.order(k)) by {
                if k < c {
                    assert(self.order(k) == old(self).order(k));
                }
            }
        }
    }

    /// Reads rankings from `text`, one per line (see `text_lines`), each
    /// the comma separated ranks of the elements, such as `2,0,1`, and adds
    /// them. Stops at the first line that is no total ranking and returns
    /// its error; the rankings before it stay added. With no elements,
    /// nothing is read.
    pub fn parse_add(&mut self, text: &str) -> (res: Result<(), &'static str>)
        requires
            old(self).wf(),
            old(self).orders@.len() + parse_lines(old(self).elements as nat, text_lines(text.spec_bytes())).0.len()
                * old(self).elements <= usize::MAX,
        ensures
            final(self).wf(),
            final(self).elements == old(self).elements,
            old(self).elements == 0 ==> res is Ok && *final(self) == *old(self),
            old(self).elements > 0 ==> res == match parse_lines(old(self).elements as nat, text_lines(text.spec_bytes())).1 {
                None => Ok::<(), &'static str>(()),
                Some(x) => Err(x),
            },
            old(self).elements > 0 ==> final(self).orders_count == old(self).orders_count + parse_lines(
                old(self).elements as nat,
                text_lines(text.spec_bytes()),
            ).0.len(),
            forall|k: int| 0 <= k < old(self).orders_count ==> #[trigger] final(self).order(k) == old(self).order(k),
            forall|j: int|
                0 <= j < parse_lines(old(self).elements as nat, text_lines(text.spec_bytes())).0.len()
                    && old(self).elements > 0 ==> #[trigger] final(self).order(old(self).orders_count + j)
                    == parse_lines(old(self).elements as nat, text_lines(text.spec_bytes())).0[j],
    {
        if self.elements == 0 {
            return Ok(());
        }
        let e = self.elements;
        let ghost en = e as nat;
        let bytes = text.as_bytes();
        let parts = split_bytes(bytes, NEWLINE);
        let ghost sp = split_on(bytes@, NEWLINE);
        let ghost lines = text_lines(bytes@);
        let ghost total = parse_lines(en, lines).0;
        let np = parts.len();
        proof {
            crate::parse::lemma_split_on_len(bytes@, NEWLINE);
        }
        let nl = if parts[np - 1].len() == 0 {
            np - 1
        } else {
            np
        };
        proof {
            assert(lines.len() == nl);
            assert(lines.take(0) =~= Seq::<Seq<u8>>::empty());
            lemma_lines_grow(en, lines, 0);
        }
        let mut i: usize = 0;
        while i < nl
            invariant
                np == parts@.len(),
                sp == split_on(bytes@, NEWLINE),
                np == sp.len(),
                np >= 1,
                forall|j: int| 0 <= j < np ==> (#[trigger] parts@[j])@ == sp[j],
                lines == text_lines(bytes@),
                bytes@ == text.spec_bytes(),
                nl == lines.len(),
                nl <= np,
                en == e,
                e == self.elements,
                e == old(self).elements,
                e > 0,
                total == parse_lines(en, lines).0,
                i <= nl,
                self.wf(),
                parse_lines(en, lines.take(i as int)).1 is None,
                self.orders_count == old(self).orders_count + parse_lines(en, lines.take(i as int)).0.len(),
                parse_lines(en, lines.take(i as int)).0.len() <= total.len(),
                old(self).orders@.len() + total.len() * e <= usize::MAX,
                old(self).orders@.len() == old(self).orders_count * e,
                forall|k: int| 0 <= k < old(self).orders_count ==> #[trigger] self.order(k) == old(self).order(k),
                forall|j: int|
                    0 <= j < parse_lines(en, lines.take(i as int)).0.len() ==> #[trigger] self.order(
                        old(self).orders_count + j,
                    ) == parse_lines(en, lines.take(i as int)).0[j],
            decreases nl - i,
        {
            let p = parts[i].as_slice();
            let plen = p.len();
            let len = if i + 1 < np && plen > 0 && p[plen - 1] == CR {
                plen - 1
            } else {
                plen
            };
            let line = &p[0..len];
            proof {
                assert(line@ =~= lines[i as int]);
                assert(lines.take(i + 1).drop_last() =~= lines.take(i as int));
                assert(lines.take(i + 1).last() == lines[i as int]);
            }
            match read_ranking(e, line) {
                Err(x) => {
                    proof {
                        assert(parse_lines(en, lines.take(i + 1)).1 == Some(x));
                        lemma_lines_stop(en, lines, i + 1);
                    }
                    return Err(x);
                },
                Ok(o) => {
                    let ghost prev = parse_lines(en, lines.take(i as int)).0;
                    let ghost before = *self;
                    proof {
                        lemma_scan_total(split_on(line@, COMMA), en);
                        lemma_lines_grow(en, lines, i + 1);
                        assert(self.orders@.len() == self.orders_count * e);
                        assert(self.orders_count == old(self).orders_count + prev.len());
                        assert(prev.len() + 1 <= total.len());
                        let l0 = old(self).orders@.len();
                        let c0 = old(self).orders_count;
                        let l1 = self.orders@.len();
                        let c1 = self.orders_count;
                        assert(l1 + e <= l0 + total.len() * e) by (nonlinear_arith)
                            requires
                                l1 == c1 * e,
                                l0 == c0 * e,
                                c1 == c0 + prev.len(),
                                prev.len() + 1 <= total.len(),
                        ;
                    }
                    self.push_ranking(o.as_slice());
                    proof {
                        assert forall|j: int|
                            0 <= j < parse_lines(en, lines.take(i + 1)).0.len() implies #[trigger] self.order(
                            old(self).orders_count + j,
                        ) == parse_lines(en, lines.take(i + 1)).0[j] by {
                            if j < prev.len() {
                                assert(self.order(old(self).orders_count + j) == before.order(
                                    old(self).orders_count + j,
                                ));
                            }
                        }
                    }
                },
            }
            i += 1;
        }
        proof {
            assert(lines.take(nl as int) =~= lines);
        }
        Ok(())
    }

    /// The rankings as text, such as `2,0,1\n0,1,2\n`: the ranks of each
    /// joined by commas, one ranking per line.
    pub fn to_string(&self) -> (res: String)
        requires
            self.wf(),
            self.elements > 0 || self.orders_count == 0,
        ensures
            res@ == ascii_chars(format_lines(self.rankings())),
    {
        let e = self.elements;
        let c = self.orders_count;
        let mut out: Vec<u8> = Vec::new();
        let _ = self.orders.len();
        let mut k: usize = 0;
        proof {
            assert(self.rankings().take(0) =~= Seq::<Seq<usize>>::empty());
        }
        while k < c
            invariant
                self.wf(),
                e == self.elements,
                c == self.orders_count,
                self.orders@.len() <= usize::MAX,
                k <= c,
                out@ == format_lines(self.rankings().take(k as int)),
                is_ascii_bytes(out@),
            decreases c - k,
        {
            proof {
                self.lemma_bounds(k as int);
            }
            let start = k * e;
            let o = &self.orders.as_slice()[start..start + e];
            proof {
                assert(o@ =~= self.order(k as int));
                assert(self.rankings().take(k + 1).drop_last() =~= self.rankings().take(k as int));
            }
            push_joined(&mut out, o);
            out.push(NEWLINE);
            k += 1;
        }
        proof {
            assert(self.rankings().take(c as int) =~= self.rankings());
        }
        string_from_ascii(out)
    }

    /// Adds the ranking `v`, which must give each element a distinct rank.
    /// Fails if `v` does not rank exactly the elements of this collection,
    /// or if memory for it could not be reserved.
    pub fn add(&mut self, v: &[usize]) -> (res: Result<(), &'static str>)
        requires
            old(self).wf(),
            v@.len() == old(self).elements ==> is_total(v@),
            old(self).orders@.len() + v@.len() <= usize::MAX,
        ensures
            final(self).wf(),
            final(self).elements == old(self).elements,
            v@.len() != old(self).elements ==> res == Err::<(), &'static str>("Order must contains all elements"),
            res == Err::<(), &'static str>("Order must contains all elements") ==> v@.len() != old(self).elements,
            res is Err ==> final(self).orders@ == old(self).orders@ && final(self).orders_count == old(
                self,
            ).orders_count,
            res is Err ==> res == Err::<(), &'static str>("Order must contains all elements") || res == Err::<
                (),
                &'static str,
            >("Could not add order"),
            res is Ok ==> v@.len() == old(self).elements && final(self).orders@ == old(self).orders@ + v@
                && final(self).orders_count == old(self).orders_count + 1,
    {
        if v.len() != self.elements {
            return Err("Order must contains all elements");
        }
        if self.elements == 0 {
            if self.orders_count == usize::MAX {
                return Err("Could not add order");
            }
            self.orders_count = self.orders_count + 1;
            proof {
                assert(self.orders@ =~= old(self).orders@ + v@);
            }
            return Ok(());
        }
        if self.orders.try_reserve(self.elements).is_err() {
            proof {
                assert(self.orders@ =~= old(self).orders@);
                assert forall|k: int| 0 <= k < self.orders_count implies #[trigger] is_total(self.order(k)) by {
                    assert(self.order(k) =~= old(self).order(k));
                }
            }
            return Err("Could not add order");
        }
        proof {
            assert(self.orders@ =~= old(self).orders@);
            assert forall|k: int| 0 <= k < self.orders_count implies #[trigger] is_total(self.order(k)) by {
                assert(self.order(k) =~= old(self).order(k));
            }
        }
        self.push_ranking(v);
        Ok(())
    }

    /// Removes element `target`: each ranking drops its rank, and the
    /// remaining ranks close up to `0..elements - 1` in the same order.
    pub fn remove_element(&mut self, target: usize) -> (res: Result<(), &'static str>)
        requires
            old(self).wf(),
            target < old(self).elements,
            old(self).elements > 1 || old(self).orders_count == 0,
        ensures
            res is Ok,
            final(self).wf(),
            final(self).elements == old(self).elements - 1,
            final(self).orders_count == old(self).orders_count,
            forall|i: int|
                0 <= i < old(self).orders_count ==> #[trigger] final(self).order(i) == order_ranks(
                    without_position(old(self).order(i), target as int),
                    false,
                ),
    {
        let e = self.elements;
        let c = self.orders_count;
        let mut orders: Vec<usize> = Vec::new();
        std::mem::swap(&mut orders, &mut self.orders);
        let mut dense = TotalDense { orders, elements: e };
        proof {
            crate::util::lemma_mul_div(c as int, e as int);
            assert forall|i: int| 0 <= i < dense.num_orders() implies #[trigger] is_total(dense.order(i)) by {
                assert(dense.order(i) == old(self).order(i));
            }
        }
        let ghost d0 = dense;
        let _ = dense.remove_element(target);
        let ghost d = dense;
        self.orders = dense.orders;
        self.elements = dense.elements;
        proof {
            let ne = (e - 1) as int;
            if ne > 0 {
                crate::util::lemma_div_exact(d.orders@.len() as int, ne);
                assert forall|i: int| 0 <= i < c implies #[trigger] is_total(self.order(i)) by {
                    assert(self.order(i) == d.order(i));
                }
                assert forall|i: int| 0 <= i < c implies #[trigger] self.order(i) == order_ranks(
                    without_position(old(self).order(i), target as int),
                    false,
                ) by {
                    assert(self.order(i) == d.order(i));
                    assert(d0.order(i) == old(self).order(i));
                    assert(i < d0.num_orders());
                }
            } else {
                assert(self.orders@.len() == 0);
                assert(c * 0 == 0);
            }
        }
        Ok(())
    }

    /// Adds `new_orders` uniformly random total rankings. Nothing is added
    /// when there are no elements.
    pub fn generate_uniform(&mut self, rng: &mut StdRng, new_orders: usize)
        requires
            old(self).wf(),
            old(self).orders@.len() + new_orders * old(self).elements <= usize::MAX,
        ensures
            final(self).wf(),
            final(self).elements == old(self).elements,
            old(self).elements == 0 ==> *final(self) == *old(self),
            old(self).elements > 0 ==> final(self).orders_count == old(self).orders_count + new_orders,
            forall|k: int| 0 <= k < old(self).orders_count ==> #[trigger] final(self).order(k) == old(self).order(k),
    {
        if self.elements == 0 {
            return;
        }
        let e = self.elements;
        let mut v = crate::strict::Total::new_default(e).into_inner();
        let mut m: usize = 0;
        while m < new_orders
            invariant
                self.wf(),
                e == self.elements,
                e == old(self).elements,
                e > 0,
                m <= new_orders,
                is_total(v@),
                v@.len() == e,
                self.orders_count == old(self).orders_count + m,
                self.orders@.len() == old(self).orders@.len() + m * e,
                old(self).orders@.len() + new_orders * e <= usize::MAX,
                forall|k: int| 0 <= k < old(self).orders_count ==> #[trigger] self.order(k) == old(self).order(k),
            decreases new_orders - m,
        {
            let ghost v0 = v@;
            shuffle(rng, &mut v);
            proof {
                lemma_multiset_chain(v0, v@, e as nat);
                assert((m + 1) * e == m * e + e) by (nonlinear_arith);
                assert((m + 1) * e <= new_orders * e) by (nonlinear_arith)
                    requires
                        m < new_orders,
                ;
            }
            let ghost before = *self;
            self.push_ranking(v.as_slice());
            proof {
                assert forall|k: int| 0 <= k < old(self).orders_count implies #[trigger] self.order(k) == old(
                    self,
                ).order(k) by {
                    assert(self.order(k) == before.order(k));
                }
            }
            m += 1;
        }
    }
}

} // verus!
