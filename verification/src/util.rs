use vstd::prelude::*;

verus! {

broadcast use vstd::seq_lib::group_seq_properties, vstd::set::group_set_axioms;

/// `true` iff no two positions of `s` hold the same value.
pub open spec fn all_distinct(s: Seq<usize>) -> bool {
    forall|i: int, j: int| 0 <= i < s.len() && 0 <= j < s.len() && i != j ==> s[i] != s[j]
}

/// `true` iff every value of `s` is less than `bound`.
pub open spec fn all_below(s: Seq<usize>, bound: nat) -> bool {
    forall|i: int| 0 <= i < s.len() ==> s[i] < bound
}

/// `true` iff `s` is strictly increasing.
pub open spec fn strictly_increasing(s: Seq<usize>) -> bool {
    forall|i: int| 0 <= i && i + 1 < s.len() ==> #[trigger] s[i] < s[i + 1]
}

/// `true` iff `s` is sorted in non-decreasing order.
pub open spec fn sorted_le(s: Seq<usize>) -> bool {
    forall|i: int, j: int| 0 <= i <= j < s.len() ==> s[i] <= s[j]
}

/// A copy of `s` in a new vector.
pub fn copy_bools(s: &[bool]) -> (res: Vec<bool>)
    ensures
        res@ == s@,
{
    let mut res: Vec<bool> = Vec::new();
    let mut i: usize = 0;
    while i < s.len()
        invariant
            i <= s@.len(),
            res@ == s@.take(i as int),
        decreases s@.len() - i,
    {
        res.push(s[i]);
        i += 1;
        proof {
            assert(res@ =~= s@.take(i as int));
        }
    }
    proof {
        assert(s@.take(s@.len() as int) =~= s@);
    }
    res
}

/// A copy of `s` in a new vector.
pub fn copy_usizes(s: &[usize]) -> (res: Vec<usize>)
    ensures
        res@ == s@,
{
    let mut res: Vec<usize> = Vec::new();
    let mut i: usize = 0;
    while i < s.len()
        invariant
            i <= s@.len(),
            res@ == s@.take(i as int),
        decreases s@.len() - i,
    {
        res.push(s[i]);
        i += 1;
        proof {
            assert(res@ =~= s@.take(i as int));
        }
    }
    proof {
        assert(s@.take(s@.len() as int) =~= s@);
    }
    res
}

/// `n` copies of `false`.
pub fn falses(n: usize) -> (res: Vec<bool>)
    ensures
        res@ == Seq::new(n as nat, |i: int| false),
{
    let mut res: Vec<bool> = Vec::new();
    let mut i: usize = 0;
    while i < n
        invariant
            i <= n,
            res@ == Seq::new(i as nat, |k: int| false),
        decreases n - i,
    {
        res.push(false);
        i += 1;
    }
    res
}

/// `n` copies of `x`.
pub fn repeated(x: usize, n: usize) -> (res: Vec<usize>)
    ensures
        res@.len() == n,
        forall|i: int| 0 <= i < n ==> #[trigger] res@[i] == x,
{
    let mut res: Vec<usize> = Vec::new();
    let mut i: usize = 0;
    while i < n
        invariant
            i <= n,
            res@.len() == i,
            forall|k: int| 0 <= k < i ==> #[trigger] res@[k] == x,
        decreases n - i,
    {
        res.push(x);
        i += 1;
    }
    res
}

/// Returns true iff all elements in `l` are different.
pub fn unique(l: &[usize]) -> (res: bool)
    ensures
        res == all_distinct(l@),
{
    let n = l.len();
    let mut i: usize = 0;
    while i < n
        invariant
            n == l@.len(),
            i <= n,
            forall|a: int, b: int| 0 <= a < i && 0 <= b < i && a != b ==> l@[a] != l@[b],
        decreases n - i,
    {
        let mut j: usize = 0;
        while j < i
            invariant
                n == l@.len(),
                j <= i < n,
                forall|b: int| 0 <= b < j ==> l@[i as int] != l@[b],
            decreases i - j,
        {
            if l[i] == l[j] {
                return false;
            }
            j += 1;
        }
        i += 1;
    }
    true
}

/// Returns true iff `v` is strictly increasing.
pub fn pairwise_lt(v: &[usize]) -> (res: bool)
    ensures
        res == strictly_increasing(v@),
{
    let n = v.len();
    if n >= 2 {
        let mut i: usize = 0;
        while i < n - 1
            invariant
                n == v@.len(),
                n >= 2,
                i <= n - 1,
                forall|k: int| 0 <= k < i ==> #[trigger] v@[k] < v@[k + 1],
            decreases n - 1 - i,
        {
            if v[i] >= v[i + 1] {
                return false;
            }
            i += 1;
        }
    }
    true
}

/// Returns true iff every value of `order` is less than `elements` and no
/// value occurs twice.
pub fn unique_and_bounded(elements: usize, order: &[usize]) -> (res: bool)
    ensures
        res == (all_below(order@, elements as nat) && all_distinct(order@)),
{
    let n = order.len();
    let mut i: usize = 0;
    while i < n
        invariant
            n == order@.len(),
            i <= n,
            forall|a: int| 0 <= a < i ==> order@[a] < elements,
            forall|a: int, b: int| 0 <= a < i && 0 <= b < n && a != b ==> order@[a] != order@[b],
        decreases n - i,
    {
        if order[i] >= elements {
            return false;
        }
        let mut j: usize = 0;
        while j < n
            invariant
                n == order@.len(),
                i < n,
                j <= n,
                forall|b: int| 0 <= b < j && b != i ==> order@[i as int] != order@[b],
            decreases n - j,
        {
            if j != i && order[i] == order[j] {
                return false;
            }
            j += 1;
        }
        i += 1;
    }
    true
}

/// `w` lies beyond `x`: above it when `reverse`, below it otherwise.
pub open spec fn beyond(w: usize, x: usize, reverse: bool) -> bool {
    if reverse {
        w > x
    } else {
        w < x
    }
}

/// The distinct values of `s` that lie beyond `x`.
pub open spec fn values_beyond(s: Seq<usize>, x: usize, reverse: bool) -> Set<usize> {
    s.to_set().filter(|w: usize| beyond(w, x, reverse))
}

/// The rank of value `x` among the values of `s`: the number of distinct
/// values of `s` above `x` (when `reverse`) or below it (otherwise).
pub open spec fn order_rank(s: Seq<usize>, x: usize, reverse: bool) -> nat {
    values_beyond(s, x, reverse).len()
}

/// The rank of every position of `s`, as `get_order` computes it.
pub open spec fn order_ranks(s: Seq<usize>, reverse: bool) -> Seq<usize> {
    Seq::new(s.len(), |i: int| order_rank(s, s[i], reverse) as usize)
}

proof fn lemma_values_beyond_step(s: Seq<usize>, j: int, x: usize, reverse: bool)
    requires
        0 <= j < s.len(),
    ensures
        values_beyond(s.take(j), x, reverse).finite(),
        values_beyond(s.take(j + 1), x, reverse).len() == values_beyond(s.take(j), x, reverse).len()
            + (if beyond(s[j], x, reverse) && !s.take(j).contains(s[j]) {
            1nat
        } else {
            0nat
        }),
{
    let a = s.take(j);
    let b = s.take(j + 1);
    assert(b =~= a.push(s[j]));
    a.lemma_push_to_set_commute(s[j]);
    vstd::seq_lib::seq_to_set_is_finite(a);
    let fa = values_beyond(a, x, reverse);
    let fb = values_beyond(b, x, reverse);
    if beyond(s[j], x, reverse) && !a.contains(s[j]) {
        assert(fb =~= fa.insert(s[j]));
        assert(!fa.contains(s[j]));
    } else {
        assert(fb =~= fa);
    }
}

proof fn lemma_values_beyond_bound(s: Seq<usize>, x: usize, reverse: bool)
    ensures
        values_beyond(s, x, reverse).len() <= s.len(),
        values_beyond(s, x, reverse).finite(),
{
    vstd::seq_lib::seq_to_set_is_finite(s);
    s.lemma_cardinality_of_set();
    vstd::set_lib::lemma_len_subset(values_beyond(s, x, reverse), s.to_set());
}

/// Convert a list of numbers to the rank of each number among the distinct
/// values of the list. With `reverse`, the largest value gets rank 0;
/// otherwise the smallest value does. Equal values get equal ranks, and the
/// ranks have no gaps.
pub fn get_order(v: &[usize], reverse: bool) -> (out: Vec<usize>)
    ensures
        out@ == order_ranks(v@, reverse),
{
    let n = v.len();
    // first[j]: v[j] does not occur before position j
    let mut first: Vec<bool> = Vec::new();
    let mut j: usize = 0;
    while j < n
        invariant
            n == v@.len(),
            j <= n,
            first@.len() == j,
            forall|k: int| 0 <= k < j ==> first@[k] == !v@.take(k).contains(v@[k]),
        decreases n - j,
    {
        let mut seen = false;
        let mut k: usize = 0;
        while k < j
            invariant
                n == v@.len(),
                k <= j < n,
                seen == exists|m: int| 0 <= m < k && v@[m] == v@[j as int],
            decreases j - k,
        {
            if v[k] == v[j] {
                seen = true;
            }
            k += 1;
        }
        proof {
            if seen {
                let m = choose|m: int| 0 <= m < j && v@[m] == v@[j as int];
                assert(v@.take(j as int)[m] == v@[j as int]);
            } else {
                assert forall|m: int| 0 <= m < j implies v@.take(j as int)[m] != v@[j as int] by {}
            }
        }
        first.push(!seen);
        j += 1;
    }
    let mut out: Vec<usize> = Vec::new();
    let mut i: usize = 0;
    while i < n
        invariant
            n == v@.len(),
            i <= n,
            first@.len() == n,
            forall|k: int| 0 <= k < n ==> first@[k] == !v@.take(k).contains(v@[k]),
            out@.len() == i,
            forall|k: int| 0 <= k < i ==> out@[k] == order_ranks(v@, reverse)[k],
        decreases n - i,
    {
        let x = v[i];
        let mut cnt: usize = 0;
        proof {
            assert(values_beyond(v@.take(0), x, reverse) =~= Set::empty());
        }
        let mut j: usize = 0;
        while j < n
            invariant
                n == v@.len(),
                i < n,
                x == v@[i as int],
                j <= n,
                first@.len() == n,
                forall|k: int| 0 <= k < n ==> first@[k] == !v@.take(k).contains(v@[k]),
                cnt == values_beyond(v@.take(j as int), x, reverse).len(),
            decreases n - j,
        {
            proof {
                lemma_values_beyond_step(v@, j as int, x, reverse);
                lemma_values_beyond_bound(v@.take(j as int), x, reverse);
            }
            let b = if reverse { v[j] > x } else { v[j] < x };
            if first[j] && b {
                cnt += 1;
            }
            j += 1;
        }
        proof {
            assert(v@.take(n as int) =~= v@);
        }
        out.push(cnt);
        i += 1;
    }
    out
}

} // verus!

verus! {

/// `i * m + m <= k * m` when `i < k`.
pub proof fn lemma_mul_block(i: int, k: int, m: int)
    requires
        0 <= i < k,
        0 <= m,
    ensures
        0 <= i * m,
        i * m + m <= k * m,
{
    assert(0 <= i * m) by (nonlinear_arith)
        requires
            0 <= i,
            0 <= m,
    ;
    assert(i * m + m <= k * m) by (nonlinear_arith)
        requires
            0 <= i < k,
            0 <= m,
    ;
}

/// `n / m` whole blocks of length `m` make up `n` when `m` divides `n`.
pub proof fn lemma_div_exact(n: int, m: int)
    requires
        0 <= n,
        0 < m,
        n % m == 0,
    ensures
        (n / m) * m == n,
        0 <= n / m,
{
    vstd::arithmetic::div_mod::lemma_fundamental_div_mod(n, m);
    assert((n / m) * m == m * (n / m)) by (nonlinear_arith);
    vstd::arithmetic::div_mod::lemma_div_pos_is_pos(n, m);
}

/// Adding a block of `m` keeps divisibility, and adds one to the quotient.
pub proof fn lemma_div_add_block(n: int, m: int)
    requires
        0 <= n,
        0 < m,
        n % m == 0,
    ensures
        (n + m) % m == 0,
        (n + m) / m == n / m + 1,
{
    vstd::arithmetic::div_mod::lemma_mod_add_multiples_vanish(n, m);
    vstd::arithmetic::div_mod::lemma_div_plus_one(n, m);
}

/// `k * m` is a multiple of `m`, with quotient `k`.
pub proof fn lemma_mul_div(k: int, m: int)
    requires
        0 <= k,
        0 < m,
    ensures
        (k * m) % m == 0,
        (k * m) / m == k,
        0 <= k * m,
{
    vstd::arithmetic::div_mod::lemma_mod_multiples_basic(k, m);
    vstd::arithmetic::div_mod::lemma_div_multiples_vanish(k, m);
    assert(k * m == m * k) by (nonlinear_arith);
    assert(0 <= k * m) by (nonlinear_arith)
        requires
            0 <= k,
            0 < m,
    ;
}

/// The `i`-th block of length `m` of `s`.
pub open spec fn block<T>(s: Seq<T>, m: nat, i: int) -> Seq<T> {
    s.subrange(i * m, i * m + m)
}

} // verus!

verus! {

/// The position that new position `j` takes its value from when the value
/// at position `target` is dropped.
pub open spec fn skip_index(j: int, target: int) -> int {
    if j < target {
        j
    } else {
        j + 1
    }
}

/// Drops column `target` from `count` blocks of `e` values each.
pub fn remove_column<T: Copy>(orders: &Vec<T>, e: usize, count: usize, target: usize) -> (out: Vec<T>)
    requires
        e > 0,
        target < e,
        count * e == orders@.len(),
    ensures
        out@.len() == count * (e - 1),
        forall|i: int, j: int|
            0 <= i < count && 0 <= j < e - 1 ==> #[trigger] out@[i * (e - 1) + j] == orders@[i * e
                + skip_index(j, target as int)],
{
    let ne = e - 1;
    let _ = orders.len();
    let mut out: Vec<T> = Vec::new();
    let mut i: usize = 0;
    while i < count
        invariant
            e > 0,
            ne == e - 1,
            target < e,
            count * e == orders@.len(),
            orders@.len() <= usize::MAX,
            i <= count,
            out@.len() == i * ne,
            forall|i2: int, j2: int|
                0 <= i2 < i && 0 <= j2 < ne ==> #[trigger] out@[i2 * ne + j2] == orders@[i2 * e
                    + skip_index(j2, target as int)],
        decreases count - i,
    {
        proof {
            lemma_mul_block(i as int, count as int, e as int);
        }
        let base = i * e;
        let mut j: usize = 0;
        while j < e
            invariant
                e > 0,
                ne == e - 1,
                target < e,
                count * e == orders@.len(),
                orders@.len() <= usize::MAX,
                i < count,
                base == i * e,
                base + e <= count * e,
                j <= e,
                out@.len() == i * ne + if j <= target {
                    j as nat
                } else {
                    (j - 1) as nat
                },
                forall|i2: int, j2: int|
                    0 <= i2 < i && 0 <= j2 < ne ==> #[trigger] out@[i2 * ne + j2] == orders@[i2 * e
                        + skip_index(j2, target as int)],
                forall|j2: int|
                    0 <= j2 < ne && skip_index(j2, target as int) < j ==> #[trigger] out@[i * ne
                        + j2] == orders@[i * e + skip_index(j2, target as int)],
            decreases e - j,
        {
            if j != target {
                let ghost before = out@;
                out.push(orders[base + j]);
                proof {
                    assert forall|i2: int, j2: int|
                        0 <= i2 < i && 0 <= j2 < ne implies #[trigger] out@[i2 * ne + j2]
                        == orders@[i2 * e + skip_index(j2, target as int)] by {
                        lemma_mul_block(i2, i as int, ne as int);
                        assert(before[i2 * ne + j2] == out@[i2 * ne + j2]);
                    }
                }
            }
            j += 1;
        }
        i += 1;
        proof {
            assert(out@.len() == i * ne) by (nonlinear_arith)
                requires
                    out@.len() == (i - 1) * ne + ne,
            ;
        }
    }
    out
}

} // verus!

verus! {

/// Appending to `s` leaves its whole blocks as they were.
pub proof fn lemma_block_append<T>(s: Seq<T>, t: Seq<T>, m: nat, k: int)
    requires
        0 <= k,
        k * m + m <= s.len(),
    ensures
        block(s + t, m, k) == block(s, m, k),
{
    lemma_mul_block(k, k + 1, m as int);
    assert(block(s + t, m, k) =~= block(s, m, k));
}

/// A block appended after whole blocks is the next block.
pub proof fn lemma_block_appended<T>(s: Seq<T>, t: Seq<T>, m: nat)
    requires
        0 < m,
        (s.len() as int) % (m as int) == 0,
        t.len() == m,
    ensures
        block(s + t, m, (s.len() / m) as int) == t,
        ((s + t).len() as int) % (m as int) == 0,
        (s + t).len() / m == s.len() / m + 1,
{
    lemma_div_exact(s.len() as int, m as int);
    lemma_div_add_block(s.len() as int, m as int);
    assert(block(s + t, m, (s.len() / m) as int) =~= t);
}

} // verus!
