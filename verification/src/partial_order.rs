//! Partial orders over `0..n`, stored as an `n × n` boolean matrix.
use std::cmp::Ordering;
use vstd::prelude::*;

use crate::util::{strictly_increasing, all_below, copy_bools};

verus! {

broadcast use vstd::seq_lib::group_seq_properties;

/// Position of cell `(x, y)` in a row-major matrix of dimension `d`.
pub open spec fn cell(d: nat, x: int, y: int) -> int {
    x + d * y
}

pub proof fn lemma_cell_bound(d: nat, x: int, y: int)
    requires
        0 <= x < d,
        0 <= y < d,
    ensures
        0 <= cell(d, x, y) < d * d,
        d * y <= d * d,
{
    assert(0 <= d * y) by (nonlinear_arith)
        requires
            0 <= y,
            0 <= d,
    ;
    assert(x + d * y < d * d) by (nonlinear_arith)
        requires
            0 <= x < d,
            0 <= y < d,
    ;
}

pub proof fn lemma_cell_injective(d: nat, x1: int, y1: int, x2: int, y2: int)
    requires
        0 <= x1 < d,
        0 <= y1 < d,
        0 <= x2 < d,
        0 <= y2 < d,
        cell(d, x1, y1) == cell(d, x2, y2),
    ensures
        x1 == x2,
        y1 == y2,
{
    if y1 < y2 {
        assert(d * y1 + d <= d * y2) by (nonlinear_arith)
            requires
                y1 < y2,
                0 <= d,
        ;
    } else if y2 < y1 {
        assert(d * y2 + d <= d * y1) by (nonlinear_arith)
            requires
                y2 < y1,
                0 <= d,
        ;
    }
}

pub proof fn lemma_square_mono(a: nat, b: nat)
    requires
        a <= b,
    ensures
        a * a <= b * b,
{
    assert(a * a <= b * b) by (nonlinear_arith)
        requires
            a <= b,
    ;
}

/// A square boolean matrix, stored row by row: cell `(x, y)` is at
/// `x + dim * y`.
#[derive(Debug, PartialEq, Eq, Default)]
pub struct MatrixBool {
    pub dim: usize,
    pub elements: Vec<bool>,
}

impl Clone for MatrixBool {
    fn clone(&self) -> (res: Self)
        ensures
            res.dim == self.dim,
            res.elements@ == self.elements@,
    {
        MatrixBool { dim: self.dim, elements: copy_bools(self.elements.as_slice()) }
    }
}

impl MatrixBool {
    /// The matrix holds exactly `dim * dim` cells.
    pub open spec fn wf(&self) -> bool {
        self.elements@.len() == self.dim * self.dim
    }

    /// The value of cell `(x, y)`.
    pub open spec fn at(&self, x: int, y: int) -> bool {
        self.elements@[cell(self.dim as nat, x, y)]
    }

    /// Every diagonal cell is set and the set cells form a transitive
    /// relation.
    pub open spec fn is_partial_order_spec(&self) -> bool {
        &&& forall|a: int| 0 <= a < self.dim ==> #[trigger] self.at(a, a)
        &&& forall|a: int, b: int, c: int|
            #![trigger self.at(a, b), self.at(b, c)]
            0 <= a < self.dim && 0 <= b < self.dim && 0 <= c < self.dim && self.at(a, b)
                && self.at(b, c) ==> self.at(a, c)
    }

    /// A `dim × dim` matrix with every cell unset.
    pub fn new(dim: usize) -> (res: Self)
        requires
            dim * dim <= usize::MAX,
        ensures
            res.wf(),
            res.dim == dim,
            forall|x: int, y: int| 0 <= x < dim && 0 <= y < dim ==> !#[trigger] res.at(x, y),
    {
        let n = dim * dim;
        let mut elements: Vec<bool> = Vec::new();
        let mut i: usize = 0;
        while i < n
            invariant
                i <= n,
                elements@.len() == i,
                forall|k: int| 0 <= k < i ==> !elements@[k],
            decreases n - i,
        {
            elements.push(false);
            i += 1;
        }
        let res = MatrixBool { dim, elements };
        proof {
            assert forall|x: int, y: int| 0 <= x < dim && 0 <= y < dim implies !#[trigger] res.at(
                x,
                y,
            ) by {
                lemma_cell_bound(dim as nat, x, y);
            }
        }
        res
    }

    /// A matrix over the given cells.
    pub fn from_vec(elements: Vec<bool>, dim: usize) -> (res: Self)
        requires
            dim * dim == elements@.len(),
        ensures
            res.wf(),
            res.dim == dim,
            res.elements == elements,
    {
        MatrixBool { elements, dim }
    }

    /// The value of cell `(x, y)`.
    pub fn get(&self, x: usize, y: usize) -> (res: bool)
        requires
            self.wf(),
            x < self.dim,
            y < self.dim,
        ensures
            res == self.at(x as int, y as int),
    {
        let _ = self.elements.len();
        proof {
            lemma_cell_bound(self.dim as nat, x as int, y as int);
        }
        self.elements[x + self.dim * y]
    }

    /// Sets cell `(x, y)` to `v`.
    pub fn set(&mut self, x: usize, y: usize, v: bool)
        requires
            old(self).wf(),
            x < old(self).dim,
            y < old(self).dim,
        ensures
            final(self).wf(),
            final(self).dim == old(self).dim,
            final(self).elements@ == old(self).elements@.update(cell(old(self).dim as nat, x as int, y as int), v),
            forall|a: int, b: int|
                0 <= a < old(self).dim && 0 <= b < old(self).dim ==> #[trigger] final(self).at(a, b)
                    == if a == x && b == y {
                    v
                } else {
                    old(self).at(a, b)
                },
    {
        let _ = self.elements.len();
        proof {
            lemma_cell_bound(self.dim as nat, x as int, y as int);
        }
        let idx = x + self.dim * y;
        self.elements.set(idx, v);
        proof {
            assert forall|a: int, b: int| 0 <= a < old(self).dim && 0 <= b < old(self).dim implies #[trigger] self.at(a, b)
                == if a == x && b == y {
                v
            } else {
                old(self).at(a, b)
            } by {
                lemma_cell_bound(self.dim as nat, a, b);
                if cell(self.dim as nat, a, b) == idx {
                    lemma_cell_injective(self.dim as nat, a, b, x as int, y as int);
                }
            }
        }
    }

    /// A matrix with `x` more rows and columns; the old cells keep their
    /// values and the new cells are unset.
    pub fn add_rows(&self, x: usize) -> (res: Self)
        requires
            self.wf(),
            (self.dim + x) * (self.dim + x) <= usize::MAX,
        ensures
            res.wf(),
            res.dim == self.dim + x,
            forall|a: int, b: int|
                0 <= a < res.dim && 0 <= b < res.dim ==> #[trigger] res.at(a, b) == if a < self.dim
                    && b < self.dim {
                    self.at(a, b)
                } else {
                    false
                },
    {
        proof {
            let n = (self.dim + x) as nat;
            assert(n <= n * n || n == 0) by (nonlinear_arith);
        }
        let mut new_matrix = MatrixBool::new(self.dim + x);
        let d = self.dim;
        let mut y: usize = 0;
        while y < d
            invariant
                self.wf(),
                d == self.dim,
                y <= d,
                new_matrix.wf(),
                new_matrix.dim == d + x,
                forall|a: int, b: int|
                    0 <= a < new_matrix.dim && 0 <= b < new_matrix.dim ==> #[trigger] new_matrix.at(
                        a,
                        b,
                    ) == if a < d && b < y {
                        self.at(a, b)
                    } else {
                        false
                    },
            decreases d - y,
        {
            let mut xx: usize = 0;
            while xx < d
                invariant
                    self.wf(),
                    d == self.dim,
                    y < d,
                    xx <= d,
                    new_matrix.wf(),
                    new_matrix.dim == d + x,
                    forall|a: int, b: int|
                        0 <= a < new_matrix.dim && 0 <= b < new_matrix.dim ==> #[trigger] new_matrix.at(
                            a,
                            b,
                        ) == if a < d && (b < y || (b == y && a < xx)) {
                            self.at(a, b)
                        } else {
                            false
                        },
                decreases d - xx,
            {
                let v = self.get(xx, y);
                new_matrix.set(xx, y, v);
                xx += 1;
            }
            y += 1;
        }
        new_matrix
    }

    /// A matrix with the last `x` rows and columns removed.
    pub fn remove_rows(&self, x: usize) -> (res: Self)
        requires
            self.wf(),
            x <= self.dim,
        ensures
            res.wf(),
            res.dim == self.dim - x,
            forall|a: int, b: int|
                0 <= a < res.dim && 0 <= b < res.dim ==> #[trigger] res.at(a, b) == self.at(a, b),
    {
        let nd = self.dim - x;
        let _ = self.elements.len();
        proof {
            lemma_square_mono(nd as nat, self.dim as nat);
        }
        let mut new_matrix = MatrixBool::new(nd);
        let mut y: usize = 0;
        while y < nd
            invariant
                self.wf(),
                nd <= self.dim,
                y <= nd,
                new_matrix.wf(),
                new_matrix.dim == nd,
                forall|a: int, b: int|
                    0 <= a < nd && 0 <= b < nd ==> #[trigger] new_matrix.at(a, b) == if b < y {
                        self.at(a, b)
                    } else {
                        false
                    },
            decreases nd - y,
        {
            let mut xx: usize = 0;
            while xx < nd
                invariant
                    self.wf(),
                    nd <= self.dim,
                    y < nd,
                    xx <= nd,
                    new_matrix.wf(),
                    new_matrix.dim == nd,
                    forall|a: int, b: int|
                        0 <= a < nd && 0 <= b < nd ==> #[trigger] new_matrix.at(a, b) == if b < y || (
                        b == y && a < xx) {
                            self.at(a, b)
                        } else {
                            false
                        },
                decreases nd - xx,
            {
                let v = self.get(xx, y);
                new_matrix.set(xx, y, v);
                xx += 1;
            }
            y += 1;
        }
        new_matrix
    }

    /// A matrix without the rows and columns listed in `remove`, which is
    /// strictly increasing; the kept rows and columns keep their order.
    pub fn remove_rows_set(&self, remove: &[usize]) -> (res: Self)
        requires
            self.wf(),
            remove@.len() > 0,
            strictly_increasing(remove@),
            all_below(remove@, self.dim as nat),
        ensures
            res.wf(),
            res.dim == kept(self.dim as nat, remove@).len(),
            res.dim == self.dim - remove@.len(),
            forall|a: int, b: int|
                0 <= a < res.dim && 0 <= b < res.dim ==> #[trigger] res.at(a, b) == self.at(
                    kept(self.dim as nat, remove@)[a] as int,
                    kept(self.dim as nat, remove@)[b] as int,
                ),
    {
        let d = self.dim;
        let mut skipped: Vec<bool> = Vec::new();
        let mut i: usize = 0;
        while i < d
            invariant
                i <= d,
                skipped@.len() == i,
                forall|k: int| 0 <= k < i ==> !skipped@[k],
            decreases d - i,
        {
            skipped.push(false);
            i += 1;
        }
        let mut r: usize = 0;
        while r < remove.len()
            invariant
                d == self.dim,
                skipped@.len() == d,
                r <= remove@.len(),
                all_below(remove@, d as nat),
                forall|k: int| 0 <= k < d ==> skipped@[k] == remove@.take(r as int).contains(k as usize),
            decreases remove@.len() - r,
        {
            let t = remove[r];
            skipped.set(t, true);
            proof {
                assert(remove@.take(r + 1) =~= remove@.take(r as int).push(t));
            }
            r += 1;
        }
        proof {
            assert(remove@.take(remove@.len() as int) =~= remove@);
        }
        let mut map: Vec<usize> = Vec::new();
        let mut k: usize = 0;
        while k < d
            invariant
                d == self.dim,
                k <= d,
                skipped@.len() == d,
                forall|q: int| 0 <= q < d ==> skipped@[q] == remove@.contains(q as usize),
                map@ == kept(k as nat, remove@),
            decreases d - k,
        {
            proof {
                lemma_kept_step(k as nat, remove@);
            }
            if !skipped[k] {
                map.push(k);
            }
            k += 1;
        }
        proof {
            lemma_kept_len(d as nat, remove@);
            lemma_kept_bound(d as nat, remove@);
        }
        let j = map.len();
        let _ = self.elements.len();
        proof {
            lemma_square_mono(j as nat, d as nat);
        }
        let mut new_matrix = MatrixBool::new(j);
        let mut y: usize = 0;
        while y < j
            invariant
                self.wf(),
                d == self.dim,
                j == map@.len(),
                j <= d,
                map@ == kept(d as nat, remove@),
                forall|q: int| 0 <= q < j ==> map@[q] < d,
                y <= j,
                new_matrix.wf(),
                new_matrix.dim == j,
                forall|a: int, b: int|
                    0 <= a < j && 0 <= b < j ==> #[trigger] new_matrix.at(a, b) == if b < y {
                        self.at(map@[a] as int, map@[b] as int)
                    } else {
                        false
                    },
            decreases j - y,
        {
            let mut xx: usize = 0;
            while xx < j
                invariant
                    self.wf(),
                    d == self.dim,
                    j == map@.len(),
                    forall|q: int| 0 <= q < j ==> map@[q] < d,
                    y < j,
                    xx <= j,
                    new_matrix.wf(),
                    new_matrix.dim == j,
                    forall|a: int, b: int|
                        0 <= a < j && 0 <= b < j ==> #[trigger] new_matrix.at(a, b) == if b < y || (b
                            == y && a < xx) {
                            self.at(map@[a] as int, map@[b] as int)
                        } else {
                            false
                        },
                decreases j - xx,
            {
                let v = self.get(map[xx], map[y]);
                new_matrix.set(xx, y, v);
                xx += 1;
            }
            y += 1;
        }
        new_matrix
    }

    /// Returns true iff the matrix is reflexive and transitive.
    pub fn is_partial_order(&self) -> (res: bool)
        requires
            self.wf(),
        ensures
            res == self.is_partial_order_spec(),
    {
        let d = self.dim;
        let mut a: usize = 0;
        while a < d
            invariant
                self.wf(),
                d == self.dim,
                a <= d,
                forall|p: int| 0 <= p < a ==> #[trigger] self.at(p, p),
                forall|p: int, q: int, r: int|
                    #![trigger self.at(p, q), self.at(q, r)]
                    0 <= p < a && 0 <= q < d && 0 <= r < d && self.at(p, q) && self.at(q, r)
                        ==> self.at(p, r),
            decreases d - a,
        {
            if !self.get(a, a) {
                return false;
            }
            let mut c: usize = 0;
            while c < d
                invariant
                    self.wf(),
                    d == self.dim,
                    a < d,
                    c <= d,
                    self.at(a as int, a as int),
                    forall|q: int, r: int|
                        #![trigger self.at(a as int, q), self.at(q, r)]
                        0 <= q < d && 0 <= r < c && self.at(a as int, q) && self.at(q, r)
                            ==> self.at(a as int, r),
                decreases d - c,
            {
                if a != c {
                    let mut b: usize = 0;
                    while b < d
                        invariant
                            self.wf(),
                            d == self.dim,
                            a < d,
                            c < d,
                            a != c,
                            b <= d,
                            self.at(a as int, a as int),
                            forall|q: int|
                                0 <= q < b && #[trigger] self.at(a as int, q) && self.at(q, c as int)
                                    ==> self.at(a as int, c as int),
                        decreases d - b,
                    {
                        if b != a && b != c {
                            if self.get(a, b) && self.get(b, c) && !self.get(a, c) {
                                return false;
                            }
                        }
                        b += 1;
                    }
                }
                c += 1;
            }
            a += 1;
        }
        true
    }
}

/// The numbers of `0..n` that `remove` does not list, in increasing order.
pub open spec fn kept(n: nat, remove: Seq<usize>) -> Seq<usize>
    decreases n,
{
    if n == 0 {
        Seq::empty()
    } else if remove.contains((n - 1) as usize) {
        kept((n - 1) as nat, remove)
    } else {
        kept((n - 1) as nat, remove).push((n - 1) as usize)
    }
}

proof fn lemma_kept_step(n: nat, remove: Seq<usize>)
    ensures
        kept(n + 1, remove) == if remove.contains(n as usize) {
            kept(n, remove)
        } else {
            kept(n, remove).push(n as usize)
        },
{
}

proof fn lemma_kept_bound(n: nat, remove: Seq<usize>)
    ensures
        forall|i: int| 0 <= i < kept(n, remove).len() ==> kept(n, remove)[i] < n,
        kept(n, remove).len() <= n,
    decreases n,
{
    if n > 0 {
        lemma_kept_bound((n - 1) as nat, remove);
    }
}

proof fn lemma_kept_len(n: nat, remove: Seq<usize>)
    requires
        strictly_increasing(remove),
        all_below(remove, n),
        n <= usize::MAX,
    ensures
        kept(n, remove).len() == n - remove.len(),
    decreases n,
{
    if n == 0 {
        if remove.len() > 0 {
            assert(remove[0] < 0);
        }
    } else {
        let m = (n - 1) as nat;
        let last = m as usize;
        if remove.len() > 0 && remove.last() == last {
            let r2 = remove.drop_last();
            assert forall|i: int| 0 <= i < r2.len() implies r2[i] < m by {
                lemma_increasing_lt(remove, i, remove.len() - 1);
            }
            lemma_kept_len(m, r2);
            lemma_kept_same(m, remove, r2);
        } else {
            assert forall|i: int| 0 <= i < remove.len() implies remove[i] < m by {
                if remove[i] == last {
                    lemma_increasing_lt(remove, i, remove.len() - 1);
                }
            }
            lemma_kept_len(m, remove);
            assert(!remove.contains(last));
        }
    }
}

proof fn lemma_increasing_lt(s: Seq<usize>, i: int, j: int)
    requires
        strictly_increasing(s),
        0 <= i <= j < s.len(),
    ensures
        s[i] <= s[j],
        i < j ==> s[i] < s[j],
    decreases j - i,
{
    if i < j {
        lemma_increasing_lt(s, i, j - 1);
        assert(s[j - 1] < s[j]);
    }
}

proof fn lemma_kept_same(n: nat, r1: Seq<usize>, r2: Seq<usize>)
    requires
        forall|k: usize| k < n ==> (r1.contains(k) <==> r2.contains(k)),
    ensures
        kept(n, r1) == kept(n, r2),
    decreases n,
{
    if n > 0 {
        lemma_kept_same((n - 1) as nat, r1, r2);
    }
}

/// A partial order over the elements `0..elements()`.
#[derive(Debug)]
pub struct PartialOrder {
    // Cell (a, b) is set iff a ≤ b.
    matrix: MatrixBool,
}

impl Clone for PartialOrder {
    fn clone(&self) -> (res: Self)
        ensures
            res.size() == self.size(),
            forall|a: int, b: int| #[trigger] res.rel(a, b) == self.rel(a, b),
    {
        proof {
            use_type_invariant(self);
        }
        Self { matrix: self.matrix.clone() }
    }
}

impl PartialOrder {
    #[verifier::type_invariant]
    spec fn inv(&self) -> bool {
        self.matrix.wf()
    }

    /// The number of elements.
    pub closed spec fn size(&self) -> nat {
        self.matrix.dim as nat
    }

    /// `a ≤ b` in this order.
    pub closed spec fn rel(&self, a: int, b: int) -> bool {
        self.matrix.at(a, b)
    }

    /// The number of elements fits in a `usize`.
    pub proof fn lemma_size_bound(&self)
        ensures
            self.size() <= usize::MAX,
    {
    }

    /// The relation is reflexive and transitive.
    pub open spec fn is_valid(&self) -> bool {
        &&& forall|a: int| 0 <= a < self.size() ==> #[trigger] self.rel(a, a)
        &&& forall|a: int, b: int, c: int|
            #![trigger self.rel(a, b), self.rel(b, c)]
            0 <= a < self.size() && 0 <= b < self.size() && 0 <= c < self.size() && self.rel(a, b)
                && self.rel(b, c) ==> self.rel(a, c)
    }

    /// `a` and `b` are equal in this order.
    pub open spec fn equiv(&self, a: int, b: int) -> bool {
        a == b || (self.rel(a, b) && self.rel(b, a))
    }

    /// `a ≤ b` in this order, for indices given as `usize`.
    pub open spec fn rel_at(&self, a: usize, b: usize) -> bool {
        self.rel(a as int, b as int)
    }

    /// What `ord` returns for `i` and `j`.
    pub open spec fn ord_spec(&self, i: usize, j: usize) -> Option<Ordering> {
        if i == j || (self.rel_at(i, j) && self.rel_at(j, i)) {
            Some(Ordering::Equal)
        } else if self.rel_at(i, j) {
            Some(Ordering::Less)
        } else if self.rel_at(j, i) {
            Some(Ordering::Greater)
        } else {
            None
        }
    }

    /// Returns true iff the relation is reflexive and transitive.
    pub fn valid(&self) -> (res: bool)
        ensures
            res == self.is_valid(),
    {
        proof {
            use_type_invariant(self);
        }
        let res = self.matrix.is_partial_order();
        proof {
            if res {
                assert forall|a: int, b: int, c: int|
                    #![trigger self.rel(a, b), self.rel(b, c)]
                    0 <= a < self.size() && 0 <= b < self.size() && 0 <= c < self.size()
                        && self.rel(a, b) && self.rel(b, c) implies self.rel(a, c) by {
                    assert(self.matrix.at(a, b) && self.matrix.at(b, c));
                }
            } else if self.is_valid() {
                assert forall|a: int, b: int, c: int|
                    #![trigger self.matrix.at(a, b), self.matrix.at(b, c)]
                    0 <= a < self.matrix.dim && 0 <= b < self.matrix.dim && 0 <= c
                        < self.matrix.dim && self.matrix.at(a, b) && self.matrix.at(
                        b,
                        c,
                    ) implies self.matrix.at(a, c) by {
                    assert(self.rel(a, b) && self.rel(b, c));
                }
                assert forall|a: int| 0 <= a < self.matrix.dim implies #[trigger] self.matrix.at(
                    a,
                    a,
                ) by {
                    assert(self.rel(a, a));
                }
            }
        }
        res
    }

    /// A partial order over `elements` elements, with `order[a + elements * b]`
    /// saying whether `a ≤ b`.
    pub fn new(order: Vec<bool>, elements: usize) -> (res: Self)
        requires
            elements * elements == order@.len(),
            (MatrixBool { dim: elements, elements: order }).is_partial_order_spec(),
        ensures
            res.size() == elements,
            forall|a: int, b: int|
                0 <= a < elements && 0 <= b < elements ==> #[trigger] res.rel(a, b)
                    == order@[cell(elements as nat, a, b)],
            res.is_valid(),
    {
        let matrix = MatrixBool::from_vec(order, elements);
        Self { matrix }
    }

    /// The partial order over `n` elements where no two distinct elements
    /// are comparable.
    pub fn new_empty(n: usize) -> (res: Self)
        requires
            n * n <= usize::MAX,
        ensures
            res.size() == n,
            forall|a: int, b: int|
                0 <= a < n && 0 <= b < n ==> (#[trigger] res.rel(a, b) <==> a == b),
            res.is_valid(),
    {
        let mut matrix = MatrixBool::new(n);
        let mut i: usize = 0;
        while i < n
            invariant
                i <= n,
                matrix.wf(),
                matrix.dim == n,
                forall|a: int, b: int|
                    0 <= a < n && 0 <= b < n ==> (#[trigger] matrix.at(a, b) <==> (a == b && a
                        < i)),
            decreases n - i,
        {
            matrix.set(i, i, true);
            i += 1;
        }
        Self { matrix }
    }

    /// A partial order over the given matrix, which need not be transitive.
    pub fn new_unchecked(order: Vec<bool>, elements: usize) -> (res: Self)
        requires
            elements * elements == order@.len(),
        ensures
            res.size() == elements,
            forall|a: int, b: int|
                0 <= a < elements && 0 <= b < elements ==> #[trigger] res.rel(a, b)
                    == order@[cell(elements as nat, a, b)],
    {
        Self { matrix: MatrixBool::from_vec(order, elements) }
    }

    /// The number of elements of the order.
    pub fn elements(&self) -> (res: usize)
        ensures
            res == self.size(),
    {
        self.matrix.dim
    }

    /// Returns true if and only if `a ≤ b`.
    pub fn le(&self, a: usize, b: usize) -> (res: bool)
        requires
            a < self.size(),
            b < self.size(),
        ensures
            res == self.rel(a as int, b as int),
    {
        proof {
            use_type_invariant(self);
        }
        self.matrix.get(a, b)
    }

    /// Returns true iff `a` and `b` are equal in the order.
    pub fn eq(&self, a: usize, b: usize) -> (res: bool)
        requires
            a < self.size(),
            b < self.size(),
        ensures
            res == self.equiv(a as int, b as int),
    {
        a == b || self.le(a, b) && self.le(b, a)
    }

    /// Adds `x` elements that are incomparable to every other element.
    pub fn add(&mut self, x: usize)
        requires
            (old(self).size() + x) * (old(self).size() + x) <= usize::MAX,
        ensures
            final(self).size() == old(self).size() + x,
            forall|a: int, b: int|
                0 <= a < final(self).size() && 0 <= b < final(self).size() ==> #[trigger] final(self).rel(a, b) == if a < old(self).size() && b < old(self).size() {
                    old(self).rel(a, b)
                } else {
                    a == b
                },
            old(self).is_valid() ==> final(self).is_valid(),
    {
        proof {
            use_type_invariant(&*self);
        }
        if x == 0 {
            return;
        }
        let orig_len = self.matrix.dim;
        let mut m = self.matrix.add_rows(x);
        let mut i = orig_len;
        while i < orig_len + x
            invariant
                orig_len <= i <= orig_len + x,
                m.wf(),
                m.dim == orig_len + x,
                orig_len == old(self).size(),
                forall|a: int, b: int|
                    0 <= a < m.dim && 0 <= b < m.dim ==> #[trigger] m.at(a, b) == if a < orig_len
                        && b < orig_len {
                        old(self).rel(a, b)
                    } else {
                        a == b && a < i
                    },
            decreases orig_len + x - i,
        {
            m.set(i, i, true);
            i += 1;
        }
        self.matrix = m;
    }

    /// Removes the last `x` elements.
    pub fn remove(&mut self, x: usize)
        requires
            x < old(self).size(),
        ensures
            final(self).size() == old(self).size() - x,
            forall|a: int, b: int|
                0 <= a < final(self).size() && 0 <= b < final(self).size() ==> #[trigger] final(self).rel(a, b) == old(self).rel(a, b),
            old(self).is_valid() ==> final(self).is_valid(),
    {
        proof {
            use_type_invariant(&*self);
        }
        self.matrix = self.matrix.remove_rows(x);
        proof {
            if old(self).is_valid() {
                assert forall|a: int, b: int, c: int|
                    #![trigger self.rel(a, b), self.rel(b, c)]
                    0 <= a < self.size() && 0 <= b < self.size() && 0 <= c < self.size()
                        && self.rel(a, b) && self.rel(b, c) implies self.rel(a, c) by {
                    assert(old(self).rel(a, b) && old(self).rel(b, c));
                }
                assert forall|a: int| 0 <= a < self.size() implies #[trigger] self.rel(a, a) by {
                    assert(old(self).rel(a, a));
                }
            }
        }
    }

    /// Removes the elements listed in `x`, which is strictly increasing; the
    /// other elements keep their order and are renumbered from 0.
    pub fn remove_subset(&mut self, x: &[usize])
        requires
            x@.len() > 0,
            strictly_increasing(x@),
            all_below(x@, old(self).size()),
        ensures
            final(self).size() == old(self).size() - x@.len(),
            forall|a: int, b: int|
                0 <= a < final(self).size() && 0 <= b < final(self).size() ==> #[trigger] final(self).rel(a, b) == old(self).rel(
                    kept(old(self).size(), x@)[a] as int,
                    kept(old(self).size(), x@)[b] as int,
                ),
            old(self).is_valid() ==> final(self).is_valid(),
    {
        proof {
            use_type_invariant(&*self);
        }
        let m = self.matrix.remove_rows_set(x);
        proof {
            lemma_kept_bound(old(self).size(), x@);
        }
        self.matrix = m;
        proof {
            let k = kept(old(self).size(), x@);
            if old(self).is_valid() {
                assert forall|a: int, b: int, c: int|
                    #![trigger self.rel(a, b), self.rel(b, c)]
                    0 <= a < self.size() && 0 <= b < self.size() && 0 <= c < self.size()
                        && self.rel(a, b) && self.rel(b, c) implies self.rel(a, c) by {
                    assert(old(self).rel(k[a] as int, k[b] as int) && old(self).rel(
                        k[b] as int,
                        k[c] as int,
                    ));
                }
                assert forall|a: int| 0 <= a < self.size() implies #[trigger] self.rel(a, a) by {
                    assert(old(self).rel(k[a] as int, k[a] as int));
                }
            }
        }
    }

    /// Sets `i ≤ j`, and every relation that follows from it by transitivity.
    pub fn set(&mut self, i: usize, j: usize)
        requires
            i < old(self).size(),
            j < old(self).size(),
        ensures
            final(self).size() == old(self).size(),
            forall|a: int, b: int|
                0 <= a < old(self).size() && 0 <= b < old(self).size() ==> #[trigger] final(self).rel(a, b) == set_closure(old(self), i as int, j as int, a, b),
            old(self).is_valid() ==> final(self).is_valid(),
    {
        proof {
            use_type_invariant(&*self);
        }
        if self.le(i, j) {
            return;
        }
        let n = self.matrix.dim;
        let mut m = self.matrix.clone();
        m.set(i, j, true);
        let ghost m1 = m;
        let mut ii: usize = 0;
        while ii < n
            invariant
                n == old(self).size(),
                i < n,
                j < n,
                m1.wf(),
                m1.dim == n,
                forall|a: int, b: int|
                    0 <= a < n && 0 <= b < n ==> #[trigger] m1.at(a, b) == (old(self).rel(a, b)
                        || (a == i && b == j)),
                ii <= n,
                m.wf(),
                m.dim == n,
                forall|a: int, b: int|
                    0 <= a < n && 0 <= b < n ==> #[trigger] m.at(a, b) == (m1.at(a, b) || (a < ii
                        && m1.at(a, i as int) && m1.at(j as int, b))),
            decreases n - ii,
        {
            let mut jj: usize = 0;
            while jj < n
                invariant
                    n == old(self).size(),
                    i < n,
                    j < n,
                    m1.wf(),
                    m1.dim == n,
                    ii < n,
                    jj <= n,
                    m.wf(),
                    m.dim == n,
                    forall|a: int, b: int|
                        0 <= a < n && 0 <= b < n ==> #[trigger] m.at(a, b) == (m1.at(a, b) || ((a
                            < ii || (a == ii && b < jj)) && m1.at(a, i as int) && m1.at(
                            j as int,
                            b,
                        ))),
                decreases n - jj,
            {
                proof {
                    assert(m.at(ii as int, i as int) == m1.at(ii as int, i as int));
                    assert(m.at(j as int, jj as int) == m1.at(j as int, jj as int));
                }
                if m.get(ii, i) && m.get(j, jj) {
                    m.set(ii, jj, true);
                }
                jj += 1;
            }
            ii += 1;
        }
        self.matrix = m;
        proof {
            if old(self).is_valid() {
                assert forall|a: int, b: int, c: int|
                    #![trigger self.rel(a, b), self.rel(b, c)]
                    0 <= a < n && 0 <= b < n && 0 <= c < n && self.rel(a, b) && self.rel(b, c)
                        implies self.rel(a, c) by {
                    assert(old(self).rel(a, b) || (old(self).rel(a, i as int) && old(self).rel(
                        j as int,
                        b,
                    )));
                    assert(old(self).rel(b, c) || (old(self).rel(b, i as int) && old(self).rel(
                        j as int,
                        c,
                    )));
                }
            }
        }
    }

    /// Compares `i` and `j` in the order; `None` if they are incomparable.
    pub fn ord(&self, i: usize, j: usize) -> (res: Option<Ordering>)
        requires
            i < self.size(),
            j < self.size(),
        ensures
            res == self.ord_spec(i, j),
    {
        if self.eq(i, j) {
            Some(Ordering::Equal)
        } else if self.le(i, j) {
            Some(Ordering::Less)
        } else if self.le(j, i) {
            Some(Ordering::Greater)
        } else {
            None
        }
    }

    /// Sets `i < j`, `i = j` or `i > j`, by `o`, with every relation that
    /// follows by transitivity.
    pub fn set_ord(&mut self, i: usize, j: usize, o: Ordering)
        requires
            i < old(self).size(),
            j < old(self).size(),
        ensures
            final(self).size() == old(self).size(),
            forall|a: int, b: int|
                0 <= a < old(self).size() && 0 <= b < old(self).size() ==> #[trigger] final(self).rel(a, b) == match o {
                    Ordering::Less => set_closure_at(old(self), i, j, a, b),
                    Ordering::Greater => set_closure_at(old(self), j, i, a, b),
                    Ordering::Equal => set_closure2_at(old(self), i, j, a, b),
                },
            old(self).is_valid() ==> final(self).is_valid(),
    {
        match o {
            Ordering::Less => self.set(i, j),
            Ordering::Equal => {
                let ghost mid = *self;
                self.set(i, j);
                let ghost mid2 = *self;
                self.set(j, i);
                proof {
                    lemma_set_twice(&mid, &mid2, self, i, j);
                }
            },
            Ordering::Greater => self.set(j, i),
        }
    }

    /// The intersection of two partial orders over the same elements.
    pub fn combine(po1: &Self, po2: &Self) -> (res: Self)
        requires
            po1.size() == po2.size(),
        ensures
            res.size() == po1.size(),
            forall|a: int, b: int|
                0 <= a < res.size() && 0 <= b < res.size() ==> #[trigger] res.rel(a, b) == (po1.rel(
                    a,
                    b,
                ) && po2.rel(a, b)),
            po1.is_valid() && po2.is_valid() ==> res.is_valid(),
    {
        let mut po3 = po1.clone();
        po3.and_mut(po2);
        po3
    }

    /// Keeps only the relations that also hold in `other`.
    pub fn and_mut(&mut self, other: &Self)
        requires
            old(self).size() == other.size(),
        ensures
            final(self).size() == old(self).size(),
            forall|a: int, b: int|
                0 <= a < old(self).size() && 0 <= b < old(self).size() ==> #[trigger] final(self).rel(a, b) == (old(self).rel(a, b) && other.rel(a, b)),
            old(self).is_valid() && other.is_valid() ==> final(self).is_valid(),
    {
        proof {
            use_type_invariant(&*self);
        }
        let n = self.matrix.dim;
        let mut m = self.matrix.clone();
        let mut i: usize = 0;
        while i < n
            invariant
                n == old(self).size(),
                n == other.size(),
                i <= n,
                m.wf(),
                m.dim == n,
                forall|a: int, b: int|
                    0 <= a < n && 0 <= b < n ==> #[trigger] m.at(a, b) == (old(self).rel(a, b) && (
                    a >= i || other.rel(a, b))),
            decreases n - i,
        {
            let mut j: usize = 0;
            while j < n
                invariant
                    n == old(self).size(),
                    n == other.size(),
                    i < n,
                    j <= n,
                    m.wf(),
                    m.dim == n,
                    forall|a: int, b: int|
                        0 <= a < n && 0 <= b < n ==> #[trigger] m.at(a, b) == (old(self).rel(a, b)
                            && ((a > i || (a == i && b >= j)) || other.rel(a, b))),
                decreases n - j,
            {
                let v: bool = m.get(i, j) && other.le(i, j);
                m.set(i, j, v);
                j += 1;
            }
            i += 1;
        }
        self.matrix = m;
    }
}

/// Whether `a ≤ b` holds after setting `i ≤ j` in `po` with its
/// transitive consequences.
pub open spec fn set_closure(po: &PartialOrder, i: int, j: int, a: int, b: int) -> bool {
    if po.rel(i, j) {
        po.rel(a, b)
    } else {
        let r1 = |x: int, y: int| po.rel(x, y) || (x == i && y == j);
        r1(a, b) || (r1(a, i) && r1(j, b))
    }
}

/// `set_closure` with `i` and `j` given as `usize`.
pub open spec fn set_closure_at(po: &PartialOrder, i: usize, j: usize, a: int, b: int) -> bool {
    set_closure(po, i as int, j as int, a, b)
}

/// `set_closure2` with `i` and `j` given as `usize`.
pub open spec fn set_closure2_at(po: &PartialOrder, i: usize, j: usize, a: int, b: int) -> bool {
    set_closure2(po, i as int, j as int, a, b)
}

proof fn lemma_set_twice(p0: &PartialOrder, p1: &PartialOrder, p2: &PartialOrder, i: usize, j: usize)
    requires
        p1.size() == p0.size(),
        p2.size() == p0.size(),
        i < p0.size(),
        j < p0.size(),
        forall|a: int, b: int|
            0 <= a < p0.size() && 0 <= b < p0.size() ==> #[trigger] p1.rel(a, b) == set_closure(
                p0,
                i as int,
                j as int,
                a,
                b,
            ),
        forall|a: int, b: int|
            0 <= a < p0.size() && 0 <= b < p0.size() ==> #[trigger] p2.rel(a, b) == set_closure(
                p1,
                j as int,
                i as int,
                a,
                b,
            ),
    ensures
        forall|a: int, b: int|
            0 <= a < p0.size() && 0 <= b < p0.size() ==> #[trigger] p2.rel(a, b) == set_closure2(
                p0,
                i as int,
                j as int,
                a,
                b,
            ),
{
    assert forall|a: int, b: int| 0 <= a < p0.size() && 0 <= b < p0.size() implies #[trigger] p2.rel(
        a,
        b,
    ) == set_closure2(p0, i as int, j as int, a, b) by {
        assert(p1.rel(j as int, i as int) == set_closure(p0, i as int, j as int, j as int, i as int));
        assert(p1.rel(a, b) == set_closure(p0, i as int, j as int, a, b));
        assert(p1.rel(a, j as int) == set_closure(p0, i as int, j as int, a, j as int));
        assert(p1.rel(i as int, b) == set_closure(p0, i as int, j as int, i as int, b));
    }
}

/// Whether `a ≤ b` holds after setting `i ≤ j` and then `j ≤ i` in `po`.
pub open spec fn set_closure2(po: &PartialOrder, i: int, j: int, a: int, b: int) -> bool {
    let r1 = |x: int, y: int| set_closure(po, i, j, x, y);
    if r1(j, i) {
        r1(a, b)
    } else {
        let r2 = |x: int, y: int| r1(x, y) || (x == j && y == i);
        r2(a, b) || (r2(a, j) && r2(i, b))
    }
}

} // verus!

verus! {

/// `r` is transitive on `0..n`.
pub open spec fn transitive_on(r: spec_fn(int, int) -> bool, n: nat) -> bool {
    forall|a: int, b: int, c: int|
        #![trigger r(a, b), r(b, c)]
        0 <= a < n && 0 <= b < n && 0 <= c < n && r(a, b) && r(b, c) ==> r(a, c)
}

/// Every relation set in `m` holds in `r`.
pub open spec fn includes(r: spec_fn(int, int) -> bool, m: MatrixBool) -> bool {
    forall|a: int, b: int| 0 <= a < m.dim && 0 <= b < m.dim && #[trigger] m.at(a, b) ==> r(a, b)
}

/// `(a, b)` lies in the transitive closure of the relation set in `m`: every
/// transitive relation that includes `m` relates `a` to `b`.
pub open spec fn in_closure(m: MatrixBool, a: int, b: int) -> bool {
    forall|r: spec_fn(int, int) -> bool|
        #[trigger] transitive_on(r, m.dim as nat) && includes(r, m) ==> r(a, b)
}

/// The number of set cells of `s`.
pub open spec fn count_set(s: Seq<bool>) -> nat
    decreases s.len(),
{
    if s.len() == 0 {
        0
    } else {
        count_set(s.drop_last()) + if s.last() {
            1nat
        } else {
            0nat
        }
    }
}

pub proof fn lemma_count_set_update(s: Seq<bool>, k: int)
    requires
        0 <= k < s.len(),
        !s[k],
    ensures
        count_set(s.update(k, true)) == count_set(s) + 1,
        count_set(s) < s.len(),
    decreases s.len(),
{
    let t = s.update(k, true);
    if k == s.len() - 1 {
        assert(t.drop_last() =~= s.drop_last());
        lemma_count_set_bound(s.drop_last());
    } else {
        assert(t.drop_last() =~= s.drop_last().update(k, true));
        lemma_count_set_update(s.drop_last(), k);
    }
}

pub proof fn lemma_count_set_bound(s: Seq<bool>)
    ensures
        count_set(s) <= s.len(),
    decreases s.len(),
{
    if s.len() > 0 {
        lemma_count_set_bound(s.drop_last());
    }
}

/// Like `PartialOrder`, but transitive relations need not be set.
pub struct PartialOrderManual {
    matrix: MatrixBool,
}

impl PartialOrderManual {
    #[verifier::type_invariant]
    spec fn inv(&self) -> bool {
        self.matrix.wf()
    }

    /// The relation set so far.
    pub closed spec fn relation(&self) -> MatrixBool {
        self.matrix
    }

    /// The number of elements.
    pub fn elements(&self) -> (res: usize)
        ensures
            res == self.relation().dim,
    {
        self.matrix.dim
    }

    /// A relation over `n` elements where each element relates only to
    /// itself.
    pub fn new(n: usize) -> (res: Self)
        requires
            n * n <= usize::MAX,
        ensures
            res.relation().wf(),
            res.relation().dim == n,
            forall|a: int, b: int|
                0 <= a < n && 0 <= b < n ==> (#[trigger] res.relation().at(a, b) <==> a == b),
    {
        let mut matrix = MatrixBool::new(n);
        let mut i: usize = 0;
        while i < n
            invariant
                i <= n,
                matrix.wf(),
                matrix.dim == n,
                forall|a: int, b: int|
                    0 <= a < n && 0 <= b < n ==> (#[trigger] matrix.at(a, b) <==> (a == b && a
                        < i)),
            decreases n - i,
        {
            matrix.set(i, i, true);
            i += 1;
        }
        Self { matrix }
    }

    /// Sets only `i ≤ j`, without the relations that follow by transitivity.
    pub fn set(&mut self, i: usize, j: usize)
        requires
            i < old(self).relation().dim,
            j < old(self).relation().dim,
        ensures
            final(self).relation().wf(),
            final(self).relation().dim == old(self).relation().dim,
            forall|a: int, b: int|
                0 <= a < old(self).relation().dim && 0 <= b < old(self).relation().dim
                    ==> #[trigger] final(self).relation().at(a, b) == (old(self).relation().at(a, b)
                    || (a == i && b == j)),
    {
        proof {
            use_type_invariant(&*self);
        }
        let mut m = self.matrix.clone();
        m.set(i, j, true);
        self.matrix = m;
    }

    /// Converts to `PartialOrder`, taking the transitive closure of the
    /// relation.
    pub fn finish(self) -> (res: PartialOrder)
        ensures
            res.size() == self.relation().dim,
            forall|a: int, b: int|
                0 <= a < res.size() && 0 <= b < res.size() ==> (#[trigger] res.rel(a, b)
                    <==> in_closure(self.relation(), a, b)),
            (forall|a: int| 0 <= a < self.relation().dim ==> #[trigger] self.relation().at(a, a))
                ==> res.is_valid(),
    {
        proof {
            use_type_invariant(&self);
        }
        let ghost m0 = self.matrix;
        let mut m = self.matrix;
        let n = m.dim;
        let _ = m.elements.len();
        loop
            invariant
                m.wf(),
                m.dim == n,
                n == m0.dim,
                m0.wf(),
                forall|a: int, b: int|
                    0 <= a < n && 0 <= b < n && #[trigger] m0.at(a, b) ==> m.at(a, b),
                forall|a: int, b: int| 0 <= a < n && 0 <= b < n && #[trigger] m.at(a, b) ==> in_closure(m0, a, b),
            ensures
                m.wf(),
                m.dim == n,
                forall|a: int, b: int|
                    0 <= a < n && 0 <= b < n && #[trigger] m0.at(a, b) ==> m.at(a, b),
                forall|a: int, b: int| 0 <= a < n && 0 <= b < n && #[trigger] m.at(a, b) ==> in_closure(m0, a, b),
                forall|a: int, b: int, c: int|
                    #![trigger m.at(a, b), m.at(b, c)]
                    0 <= a < n && 0 <= b < n && 0 <= c < n && m.at(a, b) && m.at(b, c) ==> m.at(a, c),
            decreases n * n - count_set(m.elements@),
        {
            let ghost start = m.elements@;
            let mut updated = false;
            let mut i: usize = 0;
            while i < n
                invariant
                    m.wf(),
                    m.dim == n,
                    n == m0.dim,
                    m0.wf(),
                    i <= n,
                    forall|a: int, b: int|
                        0 <= a < n && 0 <= b < n && #[trigger] m0.at(a, b) ==> m.at(a, b),
                    forall|a: int, b: int| 0 <= a < n && 0 <= b < n && #[trigger] m.at(a, b) ==> in_closure(m0, a, b),
                    !updated ==> m.elements@ == start,
                    updated ==> count_set(m.elements@) > count_set(start),
                    count_set(m.elements@) >= count_set(start),
                    !updated ==> forall|a: int, b: int, c: int|
                        #![trigger m.at(a, b), m.at(b, c)]
                        0 <= a < i && 0 <= b < n && 0 <= c < n && m.at(a, b) && m.at(b, c) ==> m.at(a, c),
                decreases n - i,
            {
                let mut k: usize = 0;
                while k < n
                    invariant
                        m.wf(),
                        m.dim == n,
                        n == m0.dim,
                        m0.wf(),
                        i < n,
                        k <= n,
                        forall|a: int, b: int|
                            0 <= a < n && 0 <= b < n && #[trigger] m0.at(a, b) ==> m.at(a, b),
                        forall|a: int, b: int| 0 <= a < n && 0 <= b < n && #[trigger] m.at(a, b) ==> in_closure(m0, a, b),
                        !updated ==> m.elements@ == start,
                        updated ==> count_set(m.elements@) > count_set(start),
                        count_set(m.elements@) >= count_set(start),
                        !updated ==> forall|a: int, b: int, c: int|
                            #![trigger m.at(a, b), m.at(b, c)]
                            0 <= a < i && 0 <= b < n && 0 <= c < n && m.at(a, b) && m.at(b, c) ==> m.at(a, c),
                        !updated ==> forall|b: int, c: int|
                            #![trigger m.at(i as int, b), m.at(b, c)]
                            0 <= b < n && 0 <= c < k && m.at(i as int, b) && m.at(b, c) ==> m.at(i as int, c),
                    decreases n - k,
                {
                    let mut j: usize = 0;
                    while j < n
                        invariant
                            m.wf(),
                            m.dim == n,
                            n == m0.dim,
                            m0.wf(),
                            i < n,
                            k < n,
                            j <= n,
                            forall|a: int, b: int|
                                0 <= a < n && 0 <= b < n && #[trigger] m0.at(a, b) ==> m.at(a, b),
                            forall|a: int, b: int| 0 <= a < n && 0 <= b < n && #[trigger] m.at(a, b) ==> in_closure(m0, a, b),
                            !updated ==> m.elements@ == start,
                            updated ==> count_set(m.elements@) > count_set(start),
                            count_set(m.elements@) >= count_set(start),
                            !updated ==> forall|a: int, b: int, c: int|
                                #![trigger m.at(a, b), m.at(b, c)]
                                0 <= a < i && 0 <= b < n && 0 <= c < n && m.at(a, b) && m.at(b, c) ==> m.at(a, c),
                            !updated ==> forall|b: int, c: int|
                                #![trigger m.at(i as int, b), m.at(b, c)]
                                0 <= b < n && 0 <= c < k && m.at(i as int, b) && m.at(b, c) ==> m.at(i as int, c),
                            !updated ==> forall|b: int|
                                0 <= b < j && #[trigger] m.at(i as int, b) && m.at(b, k as int) ==> m.at(i as int, k as int),
                        decreases n - j,
                    {
                        if m.get(i, j) && m.get(j, k) && !m.get(i, k) {
                            let ghost before = m.elements@;
                            proof {
                                assert forall|r: spec_fn(int, int) -> bool|
                                    #[trigger] transitive_on(r, m0.dim as nat) && includes(r, m0) implies r(i as int, k as int) by {
                                    assert(in_closure(m0, i as int, j as int));
                                    assert(in_closure(m0, j as int, k as int));
                                    assert(r(i as int, j as int));
                                    assert(r(j as int, k as int));
                                }
                                lemma_cell_bound(n as nat, i as int, k as int);
                                lemma_count_set_update(before, cell(n as nat, i as int, k as int));
                            }
                            m.set(i, k, true);
                            proof {
                                assert(m.elements@ =~= before.update(cell(n as nat, i as int, k as int), true));
                            }
                            updated = true;
                        }
                        j += 1;
                    }
                    k += 1;
                }
                i += 1;
            }
            if !updated {
                break;
            }
            proof {
                lemma_count_set_bound(m.elements@);
            }
        }
        let res = PartialOrder { matrix: m };
        proof {
            if forall|a: int| 0 <= a < self.relation().dim ==> #[trigger] self.relation().at(a, a) {
                assert forall|a: int| 0 <= a < res.size() implies #[trigger] res.rel(a, a) by {
                    assert(self.relation() == m0);
                    assert(self.relation().at(a, a));
                }
            }
            assert forall|a: int, b: int| 0 <= a < n && 0 <= b < n && in_closure(m0, a, b) implies #[trigger] res.rel(a, b) by {
                let r = |x: int, y: int| m.at(x, y);
                assert forall|x: int, y: int, z: int|
                    #![trigger r(x, y), r(y, z)]
                    0 <= x < n && 0 <= y < n && 0 <= z < n && r(x, y) && r(y, z) implies r(x, z) by {
                    assert(m.at(x, y) && m.at(y, z));
                }
                assert(transitive_on(r, m0.dim as nat));
                assert(includes(r, m0));
            }
        }
        res
    }

    /// Converts to `PartialOrder`, keeping exactly the relations set so far.
    pub fn finish_unchecked(self) -> (res: PartialOrder)
        ensures
            res.size() == self.relation().dim,
            forall|a: int, b: int|
                0 <= a < res.size() && 0 <= b < res.size() ==> #[trigger] res.rel(a, b)
                    == self.relation().at(a, b),
    {
        proof {
            use_type_invariant(&self);
        }
        PartialOrder { matrix: self.matrix }
    }
}

} // verus!

verus! {

impl PartialOrderManual {
    /// Sets `i ≤ j`, `i = j` or `i ≥ j`, by `o`, without transitive
    /// relations.
    pub fn set_ord(&mut self, i: usize, j: usize, o: Ordering)
        requires
            i < old(self).relation().dim,
            j < old(self).relation().dim,
        ensures
            final(self).relation().wf(),
            final(self).relation().dim == old(self).relation().dim,
            forall|a: int, b: int|
                0 <= a < old(self).relation().dim && 0 <= b < old(self).relation().dim
                    ==> #[trigger] final(self).relation().at(a, b) == (old(self).relation().at(a, b)
                    || match o {
                    Ordering::Less => set_pair(a, b, i, j),
                    Ordering::Greater => set_pair(a, b, j, i),
                    Ordering::Equal => set_pair(a, b, i, j) || set_pair(a, b, j, i),
                }),
    {
        match o {
            Ordering::Less => self.set(i, j),
            Ordering::Equal => {
                self.set(i, j);
                self.set(j, i);
            },
            Ordering::Greater => self.set(j, i),
        }
    }
}

/// `(a, b)` is the pair `(i, j)`.
pub open spec fn set_pair(a: int, b: int, i: usize, j: usize) -> bool {
    a == i && b == j
}

/// Adding `x` elements and then removing the last `x` gives the partial
/// order back: `p1` is what `add(x)` makes of `p0`, and `p2` what
/// `remove(x)` makes of `p1`.
pub proof fn add_remove(p0: PartialOrder, p1: PartialOrder, p2: PartialOrder, x: nat)
    requires
        p0.is_valid(),
        p1.size() == p0.size() + x,
        forall|a: int, b: int|
            0 <= a < p1.size() && 0 <= b < p1.size() ==> #[trigger] p1.rel(a, b) == if a < p0.size() && b
                < p0.size() {
                p0.rel(a, b)
            } else {
                a == b
            },
        p2.size() == p1.size() - x,
        forall|a: int, b: int|
            0 <= a < p2.size() && 0 <= b < p2.size() ==> #[trigger] p2.rel(a, b) == p1.rel(a, b),
    ensures
        p2.size() == p0.size(),
        forall|a: int, b: int| 0 <= a < p2.size() && 0 <= b < p2.size() ==> #[trigger] p2.rel(a, b) == p0.rel(a, b),
        p2.is_valid(),
{
    assert forall|a: int, b: int| 0 <= a < p2.size() && 0 <= b < p2.size() implies #[trigger] p2.rel(a, b)
        == p0.rel(a, b) by {
        assert(p1.rel(a, b) == p0.rel(a, b));
    }
    assert forall|a: int| 0 <= a < p2.size() implies #[trigger] p2.rel(a, a) by {
        assert(p0.rel(a, a));
    }
    assert forall|a: int, b: int, c: int|
        #![trigger p2.rel(a, b), p2.rel(b, c)]
        0 <= a < p2.size() && 0 <= b < p2.size() && 0 <= c < p2.size() && p2.rel(a, b) && p2.rel(b, c) implies p2.rel(
            a,
            c,
        ) by {
        assert(p0.rel(a, b) && p0.rel(b, c));
    }
}

} // verus!
