//! Splitting the elements of a partial order into a few categories of
//! neighbouring rank.
use vstd::prelude::*;

use crate::partial_order::PartialOrder;

verus! {

broadcast use vstd::seq_lib::group_seq_properties;

/// `a` is strictly below `b` in `p`.
pub open spec fn strictly_below(p: PartialOrder, a: usize, b: usize) -> bool {
    a != b && p.rel_at(a, b) && !p.rel_at(b, a)
}

/// The number of values at the start of `s` that are not strictly above
/// `x`.
pub open spec fn not_above_prefix(p: PartialOrder, s: Seq<usize>, x: usize) -> nat
    decreases s.len(),
{
    if s.len() > 0 && !strictly_below(p, x, s[0]) {
        1 + not_above_prefix(p, s.skip(1), x)
    } else {
        0
    }
}

/// `x` inserted into `s` just before the first value strictly above it, or
/// at the end.
pub open spec fn insert_before_above(p: PartialOrder, s: Seq<usize>, x: usize) -> Seq<usize> {
    s.insert(not_above_prefix(p, s, x) as int, x)
}

/// The elements `0..k`, sorted from the lowest by inserting each in turn
/// just before the first element strictly above it: elements that the
/// order does not separate keep increasing order.
pub open spec fn sorted_elements(p: PartialOrder, k: nat) -> Seq<usize>
    decreases k,
{
    if k == 0 {
        Seq::empty()
    } else {
        insert_before_above(p, sorted_elements(p, (k - 1) as nat), (k - 1) as usize)
    }
}

/// No value of `s` is strictly below a value that comes before it.
pub open spec fn never_below_earlier(p: PartialOrder, s: Seq<usize>) -> bool {
    forall|i: int, j: int| 0 <= i < j < s.len() ==> !strictly_below(p, #[trigger] s[j], #[trigger] s[i])
}

/// The positions `i` in `1..k` where `objs[i - 1]` is strictly below
/// `objs[i]`, in increasing order.
pub open spec fn switches(p: PartialOrder, objs: Seq<usize>, k: nat) -> Seq<usize>
    decreases k,
{
    if k <= 1 {
        Seq::empty()
    } else if strictly_below(p, objs[k - 2], objs[k - 1]) {
        switches(p, objs, (k - 1) as nat).push((k - 1) as usize)
    } else {
        switches(p, objs, (k - 1) as nat)
    }
}

/// Between two candidate ends of the current category, at sizes `a` and
/// `b` (`a < b`), with `c` the wanted size: `None` when both are still
/// smaller than `c`, `Some(true)` to end at `b`, `Some(false)` to end at
/// `a`. The end closer to `c` wins, and `a` wins a draw.
pub open spec fn choose_end(a: int, b: int, c: int) -> Option<bool> {
    if a < c && b < c {
        None
    } else if a < c && b == c {
        Some(true)
    } else if a < c && b > c {
        Some(c - a > b - c)
    } else {
        Some(false)
    }
}

/// One step of the categorization: the current category starts at `cs`,
/// and the next two switches are `aa` and `bb`.
pub open spec fn category_step(cs: usize, rs: Seq<(usize, usize)>, aa: usize, bb: usize, c: int) -> (usize, Seq<(usize, usize)>) {
    match choose_end(aa - cs, bb - cs, c) {
        None => (cs, rs),
        Some(take_b) => if take_b && cs != bb {
            (bb, rs.push((cs, bb)))
        } else if cs != aa {
            (aa, rs.push((cs, aa)))
        } else {
            (cs, rs)
        },
    }
}

/// The start of the current category and the categories so far, after
/// the first `k` pairs of neighbouring switches; no pair is looked at once
/// there are `x` categories.
pub open spec fn category_state(sw: Seq<usize>, c: int, x: nat, k: nat) -> (usize, Seq<(usize, usize)>)
    decreases k,
{
    if k == 0 {
        (0, Seq::empty())
    } else {
        let (cs, rs) = category_state(sw, c, x, (k - 1) as nat);
        if rs.len() >= x {
            (cs, rs)
        } else {
            category_step(cs, rs, sw[k - 1], sw[k as int], c)
        }
    }
}

/// The wanted size of a category: `n` split into `x` parts, rounded up.
pub open spec fn category_size(n: nat, x: nat) -> int {
    if n % x == 0 {
        (n / x) as int
    } else {
        (n / x) as int + 1
    }
}

/// The ranges of positions of the categories of `n` sorted elements with
/// switches `sw`: the categories of the steps, then the rest as one more
/// when there is room for it, or else joined to the last one.
pub open spec fn category_ranges(sw: Seq<usize>, n: nat, x: nat) -> Seq<(usize, usize)> {
    let windows: nat = if sw.len() == 0 { 0 } else { (sw.len() - 1) as nat };
    let (cs, rs) = category_state(sw, category_size(n, x), x, windows);
    if cs == n {
        rs
    } else if rs.len() < x {
        rs.push((cs, n as usize))
    } else {
        rs.update(rs.len() - 1, (rs.last().0, n as usize))
    }
}

/// The categories of `p` for at most `x` of them: the elements are sorted
/// from the lowest, and cut at places where one element is strictly below
/// the next, so that each category comes as close as it can to an equal
/// share; the categories are listed from the highest.
pub open spec fn categories(p: PartialOrder, x: nat) -> Seq<Seq<usize>> {
    let n = p.size();
    if n == 0 || x == 0 {
        Seq::empty()
    } else {
        let objs = sorted_elements(p, n);
        pieces(objs, category_ranges(switches(p, objs, n), n, x))
    }
}

/// The pieces of `objs` at the ranges `rs`, the last range first.
pub open spec fn pieces(objs: Seq<usize>, rs: Seq<(usize, usize)>) -> Seq<Seq<usize>> {
    Seq::new(rs.len(), |i: int| objs.subrange(rs[rs.len() - 1 - i].0 as int, rs[rs.len() - 1 - i].1 as int))
}

/// `e` lies in one of the sequences of `cats`.
pub open spec fn in_some(cats: Seq<Seq<usize>>, e: usize) -> bool {
    exists|i: int, j: int| 0 <= i < cats.len() && 0 <= j < cats[i].len() && #[trigger] cats[i][j] == e
}

/// The ranges `rs` cut `0..n` into nonempty pieces, in order.
pub open spec fn tiles(rs: Seq<(usize, usize)>, n: nat) -> bool {
    &&& rs.len() > 0 ==> rs[0].0 == 0 && rs.last().1 == n
    &&& rs.len() == 0 ==> n == 0
    &&& forall|t: int| 0 <= t < rs.len() ==> (#[trigger] rs[t]).0 < rs[t].1
    &&& forall|t: int| 0 <= t < rs.len() - 1 ==> (#[trigger] rs[t]).1 == rs[t + 1].0
}

/// Once there are `x` categories, no later step adds one.
proof fn lemma_state_stops(sw: Seq<usize>, c: int, x: nat, k: nat, m: nat)
    requires
        k <= m,
        k == m || category_state(sw, c, x, k).1.len() >= x,
    ensures
        category_state(sw, c, x, m) == category_state(sw, c, x, k),
    decreases m - k,
{
    if k < m {
        lemma_state_stops(sw, c, x, k, (m - 1) as nat);
    }
}

proof fn lemma_not_above_prefix_is(p: PartialOrder, s: Seq<usize>, x: usize, j: int)
    requires
        0 <= j <= s.len(),
        forall|k: int| 0 <= k < j ==> !strictly_below(p, x, #[trigger] s[k]),
        j == s.len() || strictly_below(p, x, s[j]),
    ensures
        not_above_prefix(p, s, x) == j,
    decreases s.len(),
{
    if j > 0 {
        assert(!strictly_below(p, x, s[0]));
        assert forall|k: int| 0 <= k < j - 1 implies !strictly_below(p, x, #[trigger] s.skip(1)[k]) by {
            assert(s.skip(1)[k] == s[k + 1]);
        }
        if j < s.len() {
            assert(s.skip(1)[j - 1] == s[j]);
        }
        lemma_not_above_prefix_is(p, s.skip(1), x, j - 1);
    }
}

/// `not_above_prefix` counts a run at the start of `s`: none of its values
/// is strictly above `x`, and the value after it is.
proof fn lemma_not_above_prefix(p: PartialOrder, s: Seq<usize>, x: usize)
    ensures
        not_above_prefix(p, s, x) <= s.len(),
        forall|k: int| 0 <= k < not_above_prefix(p, s, x) ==> !strictly_below(p, x, #[trigger] s[k]),
        not_above_prefix(p, s, x) < s.len() ==> strictly_below(p, x, s[not_above_prefix(p, s, x) as int]),
    decreases s.len(),
{
    if s.len() > 0 && !strictly_below(p, x, s[0]) {
        let d = s.skip(1);
        lemma_not_above_prefix(p, d, x);
        assert forall|k: int| 0 <= k < not_above_prefix(p, s, x) implies !strictly_below(p, x, #[trigger] s[k]) by {
            if k > 0 {
                assert(s[k] == d[k - 1]);
            }
        }
        if not_above_prefix(p, s, x) < s.len() {
            assert(s[not_above_prefix(p, s, x) as int] == d[not_above_prefix(p, d, x) as int]);
        }
    }
}

/// In a valid partial order, being strictly below is transitive.
proof fn lemma_strictly_below_trans(p: PartialOrder, a: usize, b: usize, c: usize)
    requires
        p.is_valid(),
        a < p.size(),
        b < p.size(),
        c < p.size(),
        strictly_below(p, a, b),
        strictly_below(p, b, c),
    ensures
        strictly_below(p, a, c),
{
    assert(p.rel(a as int, b as int) && p.rel(b as int, c as int));
    if p.rel(c as int, a as int) {
        assert(p.rel(c as int, a as int) && p.rel(a as int, b as int));
    }
}

/// The sorted elements of a valid partial order list `0..k` once each, and
/// no element comes after one it is strictly below.
proof fn lemma_sorted_extension(p: PartialOrder, k: nat)
    requires
        p.is_valid(),
        k <= p.size(),
    ensures
        sorted_elements(p, k).len() == k,
        forall|i: int| 0 <= i < k ==> #[trigger] sorted_elements(p, k)[i] < k,
        crate::util::all_distinct(sorted_elements(p, k)),
        never_below_earlier(p, sorted_elements(p, k)),
    decreases k,
{
    if k > 0 {
        let s = sorted_elements(p, (k - 1) as nat);
        let x = (k - 1) as usize;
        lemma_sorted_extension(p, (k - 1) as nat);
        p.lemma_size_bound();
        assert(x == k - 1);
        lemma_not_above_prefix(p, s, x);
        let pos = not_above_prefix(p, s, x) as int;
        let t = s.insert(pos, x);
        assert(t == sorted_elements(p, k));
        assert forall|i: int| 0 <= i < k implies #[trigger] t[i] < k by {
            if i < pos {
                assert(t[i] == s[i]);
            } else if i > pos {
                assert(t[i] == s[i - 1]);
            }
        }
        assert forall|i: int, j: int| 0 <= i < t.len() && 0 <= j < t.len() && i != j implies t[i] != t[j] by {
            if i != pos && j != pos {
                let si = if i < pos { i } else { i - 1 };
                let sj = if j < pos { j } else { j - 1 };
                assert(t[i] == s[si] && t[j] == s[sj]);
            } else if i == pos {
                let sj = if j < pos { j } else { j - 1 };
                assert(t[j] == s[sj] && s[sj] < x);
            } else {
                let si = if i < pos { i } else { i - 1 };
                assert(t[i] == s[si] && s[si] < x);
            }
        }
        assert forall|i: int, j: int| 0 <= i < j < t.len() implies !strictly_below(p, #[trigger] t[j], #[trigger] t[i]) by {
            if i != pos && j != pos {
                let si = if i < pos { i } else { i - 1 };
                let sj = if j < pos { j } else { j - 1 };
                assert(t[i] == s[si] && t[j] == s[sj]);
                assert(!strictly_below(p, s[sj], s[si]));
            } else if j == pos {
                assert(t[i] == s[i]);
            } else {
                assert(t[i] == x);
                assert(t[j] == s[j - 1]);
                if strictly_below(p, s[j - 1], x) {
                    let b = s[pos];
                    assert(strictly_below(p, x, b));
                    if j - 1 == pos {
                        assert(p.rel(b as int, x as int) && p.rel(x as int, b as int));
                    } else {
                        lemma_strictly_below_trans(p, s[j - 1], x, b);
                        assert(!strictly_below(p, s[j - 1], s[pos]));
                    }
                }
            }
        }
    }
}

/// The elements `0..n` of `p`, sorted from the lowest by insertion: each
/// element goes just before the first element strictly above it.
fn sort_elements(p: &PartialOrder) -> (objs: Vec<usize>)
    ensures
        objs@ == sorted_elements(*p, p.size()),
        objs@.len() == p.size(),
        forall|i: int| 0 <= i < objs@.len() ==> #[trigger] objs@[i] < p.size(),
{
    let n = p.elements();
    let mut objs: Vec<usize> = Vec::new();
    let mut x: usize = 0;
    while x < n
        invariant
            n == p.size(),
            x <= n,
            objs@ == sorted_elements(*p, x as nat),
            objs@.len() == x,
            forall|i: int| 0 <= i < objs@.len() ==> #[trigger] objs@[i] < x,
        decreases n - x,
    {
        let len = objs.len();
        let mut j: usize = 0;
        while j < len && !(x != objs[j] && p.le(x, objs[j]) && !p.le(objs[j], x))
            invariant
                n == p.size(),
                x < n,
                len == objs@.len(),
                forall|i: int| 0 <= i < objs@.len() ==> #[trigger] objs@[i] < x,
                j <= len,
                forall|k: int| 0 <= k < j ==> !strictly_below(*p, x, #[trigger] objs@[k]),
            decreases len - j,
        {
            j += 1;
        }
        proof {
            lemma_not_above_prefix_is(*p, objs@, x, j as int);
        }
        let ghost before = objs@;
        objs.insert(j, x);
        proof {
            assert(objs@ =~= sorted_elements(*p, (x + 1) as nat));
            assert forall|i: int| 0 <= i < objs@.len() implies #[trigger] objs@[i] < x + 1 by {
                if i < j {
                    assert(objs@[i] == before[i]);
                } else if i > j {
                    assert(objs@[i] == before[i - 1]);
                }
            }
        }
        x += 1;
    }
    objs
}

/// The positions where one sorted element is strictly below the next.
fn find_switches(p: &PartialOrder, objs: &Vec<usize>) -> (sw: Vec<usize>)
    requires
        forall|i: int| 0 <= i < objs@.len() ==> #[trigger] objs@[i] < p.size(),
    ensures
        sw@ == switches(*p, objs@, objs@.len()),
        forall|i: int| 0 <= i < sw@.len() ==> 1 <= #[trigger] sw@[i] < objs@.len(),
        forall|i: int, j: int| 0 <= i < j < sw@.len() ==> sw@[i] < sw@[j],
{
    let n = objs.len();
    let mut sw: Vec<usize> = Vec::new();
    if n <= 1 {
        return sw;
    }
    let mut i: usize = 1;
    while i < n
        invariant
            n == objs@.len(),
            1 <= i <= n,
            forall|k: int| 0 <= k < objs@.len() ==> #[trigger] objs@[k] < p.size(),
            sw@ == switches(*p, objs@, i as nat),
            forall|k: int| 0 <= k < sw@.len() ==> 1 <= #[trigger] sw@[k] < i,
            forall|a: int, b: int| 0 <= a < b < sw@.len() ==> sw@[a] < sw@[b],
        decreases n - i,
    {
        let a = objs[i - 1];
        let b = objs[i];
        if a != b && p.le(a, b) && !p.le(b, a) {
            sw.push(i);
        }
        i += 1;
    }
    sw
}

proof fn lemma_state_len(sw: Seq<usize>, c: int, x: nat, k: nat)
    ensures
        category_state(sw, c, x, k).1.len() <= x,
    decreases k,
{
    if k > 0 {
        lemma_state_len(sw, c, x, (k - 1) as nat);
    }
}

proof fn lemma_sorted_len(p: PartialOrder, k: nat)
    ensures
        sorted_elements(p, k).len() == k,
    decreases k,
{
    if k > 0 {
        lemma_sorted_len(p, (k - 1) as nat);
        lemma_not_above_prefix(p, sorted_elements(p, (k - 1) as nat), (k - 1) as usize);
    }
}

proof fn lemma_switches_below(p: PartialOrder, objs: Seq<usize>, k: nat)
    ensures
        forall|i: int| 0 <= i < switches(p, objs, k).len() ==> #[trigger] switches(p, objs, k)[i] < k,
    decreases k,
{
    if k > 1 {
        lemma_switches_below(p, objs, (k - 1) as nat);
        let prev = switches(p, objs, (k - 1) as nat);
        assert forall|i: int| 0 <= i < switches(p, objs, k).len() implies #[trigger] switches(p, objs, k)[i] < k by {
            if i < prev.len() {
                assert(prev[i] < k - 1);
            }
        }
    }
}

/// With one category wanted of size `n` and every switch below `n`, no
/// step closes a category.
proof fn lemma_state_one(sw: Seq<usize>, n: nat, k: nat)
    requires
        k < sw.len() || k == 0,
        forall|i: int| 0 <= i < sw.len() ==> #[trigger] sw[i] < n,
    ensures
        category_state(sw, n as int, 1, k) == (0usize, Seq::<(usize, usize)>::empty()),
    decreases k,
{
    if k > 0 {
        lemma_state_one(sw, n, (k - 1) as nat);
        assert(sw[k - 1] < n);
        assert(sw[k as int] < n);
    }
}

/// Splitting into at most `x` categories never gives more than `x`.
pub proof fn categorize_at_most(p: PartialOrder, x: nat)
    ensures
        categories(p, x).len() <= x,
{
    let n = p.size();
    if n > 0 && x > 0 {
        let objs = sorted_elements(p, n);
        let sw = switches(p, objs, n);
        let windows: nat = if sw.len() == 0 { 0 } else { (sw.len() - 1) as nat };
        lemma_state_len(sw, category_size(n, x), x, windows);
    }
}

/// Splitting into one category gives a single category that holds every
/// element, sorted.
pub proof fn categorize_one(p: PartialOrder)
    requires
        p.size() > 0,
    ensures
        categories(p, 1).len() == 1,
        categories(p, 1)[0] == sorted_elements(p, p.size()),
        categories(p, 1)[0].len() == p.size(),
{
    let n = p.size();
    p.lemma_size_bound();
    let objs = sorted_elements(p, n);
    lemma_sorted_len(p, n);
    let sw = switches(p, objs, n);
    lemma_switches_below(p, objs, n);
    let windows: nat = if sw.len() == 0 { 0 } else { (sw.len() - 1) as nat };
    assert(category_size(n, 1) == n as int) by {
        vstd::arithmetic::div_mod::lemma_div_basics(n as int);
        vstd::arithmetic::div_mod::lemma_fundamental_div_mod(n as int, 1);
    }
    lemma_state_one(sw, n, windows);
    let rs = category_ranges(sw, n, 1);
    assert(rs =~= seq![(0usize, n as usize)]);
    assert(objs.subrange(0, n as int) =~= objs);
    assert(categories(p, 1)[0] == objs.subrange(rs[0].0 as int, rs[0].1 as int));
}

/// The switches of the first `k` positions lie in `1..k`, increasing.
proof fn lemma_switches_props(p: PartialOrder, objs: Seq<usize>, k: nat)
    requires
        k <= usize::MAX,
    ensures
        forall|i: int| 0 <= i < switches(p, objs, k).len() ==> 1 <= #[trigger] switches(p, objs, k)[i] < k,
        forall|i: int, j: int|
            0 <= i < j < switches(p, objs, k).len() ==> switches(p, objs, k)[i] < switches(p, objs, k)[j],
    decreases k,
{
    if k > 1 {
        lemma_switches_props(p, objs, (k - 1) as nat);
        let prev = switches(p, objs, (k - 1) as nat);
        let cur = switches(p, objs, k);
        if strictly_below(p, objs[k - 2], objs[k - 1]) {
            assert(cur == prev.push((k - 1) as usize));
        } else {
            assert(cur == prev);
        }
        assert forall|i: int| 0 <= i < cur.len() implies 1 <= #[trigger] cur[i] < k by {
            if i < prev.len() {
                assert(cur[i] == prev[i]);
            }
        }
        assert forall|i: int, j: int| 0 <= i < j < cur.len() implies cur[i] < cur[j] by {
            assert(cur[i] == prev[i]);
            if j < prev.len() {
                assert(cur[j] == prev[j]);
            }
        }
    }
}

/// The state after `k` steps: the categories so far tile the positions up
/// to the start of the current one, which lies at or before the next
/// switch.
proof fn lemma_state_shape(sw: Seq<usize>, c: int, x: nat, n: nat, k: nat)
    requires
        forall|i: int| 0 <= i < sw.len() ==> 1 <= #[trigger] sw[i] < n,
        forall|i: int, j: int| 0 <= i < j < sw.len() ==> sw[i] < sw[j],
        k == 0 || k < sw.len(),
    ensures
        tiles(category_state(sw, c, x, k).1, category_state(sw, c, x, k).0 as nat),
        category_state(sw, c, x, k).0 < n || (category_state(sw, c, x, k).0 == 0 && n == 0),
        k < sw.len() ==> category_state(sw, c, x, k).0 <= sw[k as int],
    decreases k,
{
    if k > 0 {
        lemma_state_shape(sw, c, x, n, (k - 1) as nat);
        let (cs, rs) = category_state(sw, c, x, (k - 1) as nat);
        assert(sw[k - 1] < sw[k as int]);
        if rs.len() < x {
            let (cs2, rs2) = category_step(cs, rs, sw[k - 1], sw[k as int], c);
            if rs2.len() > rs.len() {
                assert(rs2 == rs.push((cs, cs2)));
                assert(cs < cs2);
                assert forall|t: int| 0 <= t < rs2.len() - 1 implies (#[trigger] rs2[t]).1 == rs2[t + 1].0 by {
                    if t < rs.len() - 1 {
                        assert(rs2[t] == rs[t] && rs2[t + 1] == rs[t + 1]);
                    }
                }
                assert forall|t: int| 0 <= t < rs2.len() implies (#[trigger] rs2[t]).0 < rs2[t].1 by {
                    if t < rs.len() {
                        assert(rs2[t] == rs[t]);
                    }
                }
            }
        }
    } else {
        if sw.len() > 0 {
            assert(1 <= sw[0]);
        }
    }
}

/// The final ranges tile `0..n`.
proof fn lemma_ranges_tile(sw: Seq<usize>, n: nat, x: nat)
    requires
        forall|i: int| 0 <= i < sw.len() ==> 1 <= #[trigger] sw[i] < n,
        forall|i: int, j: int| 0 <= i < j < sw.len() ==> sw[i] < sw[j],
        0 < n <= usize::MAX,
        x > 0,
    ensures
        tiles(category_ranges(sw, n, x), n),
{
    let windows: nat = if sw.len() == 0 { 0 } else { (sw.len() - 1) as nat };
    let c = category_size(n, x);
    lemma_state_shape(sw, c, x, n, windows);
    lemma_state_len(sw, c, x, windows);
    let (cs, rs) = category_state(sw, c, x, windows);
    let f = category_ranges(sw, n, x);
    if cs == n as usize {
    } else if rs.len() < x {
        assert(f == rs.push((cs, n as usize)));
        assert forall|t: int| 0 <= t < f.len() - 1 implies (#[trigger] f[t]).1 == f[t + 1].0 by {
            if t < rs.len() - 1 {
                assert(f[t] == rs[t] && f[t + 1] == rs[t + 1]);
            }
        }
        assert forall|t: int| 0 <= t < f.len() implies (#[trigger] f[t]).0 < f[t].1 by {
            if t < rs.len() {
                assert(f[t] == rs[t]);
            } else {
                assert(f[t] == (cs, n as usize));
            }
        }
    } else {
        let last = rs.len() - 1;
        assert(f == rs.update(last, (rs[last].0, n as usize)));
        assert forall|t: int| 0 <= t < f.len() - 1 implies (#[trigger] f[t]).1 == f[t + 1].0 by {
            assert(f[t] == rs[t]);
            if t + 1 < last {
                assert(f[t + 1] == rs[t + 1]);
            }
        }
        assert forall|t: int| 0 <= t < f.len() implies (#[trigger] f[t]).0 < f[t].1 by {
            if t < last {
                assert(f[t] == rs[t]);
            }
        }
    }
}

/// Of two ranges of a tiling, the earlier ends before the later starts.
proof fn lemma_tiles_order(rs: Seq<(usize, usize)>, n: nat, t1: int, t2: int)
    requires
        tiles(rs, n),
        0 <= t1 < t2 < rs.len(),
    ensures
        rs[t1].1 <= rs[t2].0,
    decreases t2 - t1,
{
    if t2 > t1 + 1 {
        lemma_tiles_order(rs, n, t1, t2 - 1);
        assert(rs[t2 - 1].1 == rs[t2].0);
    } else {
        assert(rs[t1].1 == rs[t1 + 1].0);
    }
}

/// Every position below `n` lies in some range of a tiling.
proof fn lemma_tiles_cover(rs: Seq<(usize, usize)>, n: nat, q: int) -> (t: int)
    requires
        tiles(rs, n),
        0 <= q < n,
    ensures
        0 <= t < rs.len(),
        rs[t].0 <= q < rs[t].1,
    decreases rs.len(),
{
    let last = rs.len() - 1;
    if q >= rs[last].0 {
        last
    } else {
        let d = rs.drop_last();
        assert(rs[last - 1].1 == rs[last].0);
        assert(tiles(d, rs[last].0 as nat)) by {
            assert forall|t: int| 0 <= t < d.len() - 1 implies (#[trigger] d[t]).1 == d[t + 1].0 by {
                assert(rs[t].1 == rs[t + 1].0);
            }
            assert forall|t: int| 0 <= t < d.len() implies (#[trigger] d[t]).0 < d[t].1 by {
                assert(rs[t].0 < rs[t].1);
            }
        }
        lemma_tiles_cover(d, rs[last].0 as nat, q)
    }
}

/// Piece `i` at place `j` is the value of `objs` at that place of range
/// `m - 1 - i`.
proof fn lemma_piece_at(objs: Seq<usize>, f: Seq<(usize, usize)>, n: nat, i: int, j: int)
    requires
        tiles(f, n),
        objs.len() == n,
        0 <= i < f.len(),
        0 <= j < pieces(objs, f)[i].len(),
    ensures
        pieces(objs, f)[i][j] == objs[f[f.len() - 1 - i].0 + j],
        0 <= f[f.len() - 1 - i].0 + j < f[f.len() - 1 - i].1 <= n,
{
    let m = f.len();
    assert(f[m - 1 - i].0 < f[m - 1 - i].1);
    if m - 1 - i < m - 1 {
        lemma_tiles_order(f, n, m - 1 - i, m - 1);
    }
}

/// The pieces of a sequence listing `0..n` once each, cut by a tiling,
/// partition `0..n` into nonempty pieces; and when no value of the sequence
/// is strictly below an earlier one, no value of an earlier piece is
/// strictly below a value of a later one.
proof fn lemma_pieces_partition(p: PartialOrder, objs: Seq<usize>, f: Seq<(usize, usize)>, n: nat)
    requires
        tiles(f, n),
        objs.len() == n,
        n <= usize::MAX,
        crate::util::all_below(objs, n),
        crate::util::all_distinct(objs),
        never_below_earlier(p, objs),
    ensures
        forall|i: int| 0 <= i < pieces(objs, f).len() ==> (#[trigger] pieces(objs, f)[i]).len() > 0,
        forall|e: usize| e < n ==> #[trigger] in_some(pieces(objs, f), e),
        forall|i1: int, j1: int, i2: int, j2: int|
            0 <= i1 < pieces(objs, f).len() && 0 <= j1 < pieces(objs, f)[i1].len() && 0 <= i2 < pieces(objs, f).len()
                && 0 <= j2 < pieces(objs, f)[i2].len() && #[trigger] pieces(objs, f)[i1][j1]
                == #[trigger] pieces(objs, f)[i2][j2] ==> i1 == i2 && j1 == j2,
        forall|i1: int, j1: int, i2: int, j2: int|
            0 <= i1 < i2 < pieces(objs, f).len() && 0 <= j1 < pieces(objs, f)[i1].len() && 0 <= j2 < pieces(
                objs,
                f,
            )[i2].len() ==> !strictly_below(p, #[trigger] pieces(objs, f)[i1][j1], #[trigger] pieces(objs, f)[i2][j2]),
{
    let cats = pieces(objs, f);
    let m = f.len();
    assert forall|i: int| 0 <= i < cats.len() implies (#[trigger] cats[i]).len() > 0 by {
        assert(f[m - 1 - i].0 < f[m - 1 - i].1);
        if m - 1 - i < m - 1 {
            lemma_tiles_order(f, n, m - 1 - i, m - 1);
        }
    }
    crate::ranks::lemma_total_holds_all(objs, n);
    assert forall|e: usize| e < n implies #[trigger] in_some(cats, e) by {
        assert(objs.contains(e));
        let q = choose|q: int| 0 <= q < objs.len() && objs[q] == e;
        let t = lemma_tiles_cover(f, n, q);
        let i = m - 1 - t;
        let j = q - f[t].0;
        if t < m - 1 {
            lemma_tiles_order(f, n, t, m - 1);
        }
        lemma_piece_at(objs, f, n, i, j);
        assert(cats[i][j] == e);
    }
    assert forall|i1: int, j1: int, i2: int, j2: int|
        0 <= i1 < cats.len() && 0 <= j1 < cats[i1].len() && 0 <= i2 < cats.len() && 0 <= j2 < cats[i2].len()
            && #[trigger] cats[i1][j1] == #[trigger] cats[i2][j2] implies i1 == i2 && j1 == j2 by {
        lemma_piece_at(objs, f, n, i1, j1);
        lemma_piece_at(objs, f, n, i2, j2);
        let q1 = f[m - 1 - i1].0 + j1;
        let q2 = f[m - 1 - i2].0 + j2;
        assert(q1 == q2);
        if i1 < i2 {
            lemma_tiles_order(f, n, m - 1 - i2, m - 1 - i1);
        } else if i2 < i1 {
            lemma_tiles_order(f, n, m - 1 - i1, m - 1 - i2);
        }
    }
    assert forall|i1: int, j1: int, i2: int, j2: int|
        0 <= i1 < i2 < cats.len() && 0 <= j1 < cats[i1].len() && 0 <= j2 < cats[i2].len() implies !strictly_below(
            p,
            #[trigger] cats[i1][j1],
            #[trigger] cats[i2][j2],
        ) by {
        lemma_piece_at(objs, f, n, i1, j1);
        lemma_piece_at(objs, f, n, i2, j2);
        let q1 = f[m - 1 - i1].0 + j1;
        let q2 = f[m - 1 - i2].0 + j2;
        lemma_tiles_order(f, n, m - 1 - i2, m - 1 - i1);
        assert(q2 < q1);
        assert(!strictly_below(p, objs[q1], objs[q2]));
    }
}

/// The categories of a valid partial order partition its elements: each
/// category is nonempty, each element lies in exactly one category at one
/// place, and no element of an earlier category is strictly below an
/// element of a later one, so the larger values come first.
pub proof fn categorize_partition(p: PartialOrder, x: nat)
    requires
        p.is_valid(),
        x > 0,
    ensures
        forall|i: int| 0 <= i < categories(p, x).len() ==> (#[trigger] categories(p, x)[i]).len() > 0,
        forall|e: usize| e < p.size() ==> #[trigger] in_some(categories(p, x), e),
        forall|i1: int, j1: int, i2: int, j2: int|
            0 <= i1 < categories(p, x).len() && 0 <= j1 < categories(p, x)[i1].len() && 0 <= i2 < categories(
                p,
                x,
            ).len() && 0 <= j2 < categories(p, x)[i2].len() && #[trigger] categories(p, x)[i1][j1]
                == #[trigger] categories(p, x)[i2][j2] ==> i1 == i2 && j1 == j2,
        forall|i1: int, j1: int, i2: int, j2: int|
            0 <= i1 < i2 < categories(p, x).len() && 0 <= j1 < categories(p, x)[i1].len() && 0 <= j2
                < categories(p, x)[i2].len() ==> !strictly_below(
                p,
                #[trigger] categories(p, x)[i1][j1],
                #[trigger] categories(p, x)[i2][j2],
            ),
{
    let n = p.size();
    p.lemma_size_bound();
    if n > 0 {
        let objs = sorted_elements(p, n);
        lemma_sorted_extension(p, n);
        let sw = switches(p, objs, n);
        lemma_switches_props(p, objs, n);
        let f = category_ranges(sw, n, x);
        lemma_ranges_tile(sw, n, x);
        assert(categories(p, x) == pieces(objs, f));
        lemma_pieces_partition(p, objs, f, n);
    } else {
        assert(categories(p, x).len() == 0);
    }
}

impl PartialOrder {
    /// Partitions the elements into at most `x` categories, the larger
    /// values in the earlier categories (see `categorize_partition`). The
    /// elements are sorted from the lowest (by inserting each one just before
    /// the first element strictly above it, so that elements the order does
    /// not separate keep increasing order), and cut only where an element is
    /// strictly below the next, each category as close as it can come to
    /// `elements / x` (rounded up) elements. The elements after the last
    /// cut form one more category when there is room for it, and join the
    /// last one otherwise.
    pub fn categorize(&self, x: usize) -> (res: Vec<Vec<usize>>)
        ensures
            res@.len() == categories(*self, x as nat).len(),
            forall|i: int| 0 <= i < res@.len() ==> (#[trigger] res@[i])@ == categories(*self, x as nat)[i],
    {
        let n = self.elements();
        if n == 0 || x == 0 {
            return Vec::new();
        }
        let c: usize = if n % x == 0 {
            n / x
        } else {
            proof {
                assert(x != 1) by {
                    if x == 1 {
                        assert(n % x == 0) by (nonlinear_arith)
                            requires
                                x == 1,
                        ;
                    }
                }
                assert(n / x < n) by (nonlinear_arith)
                    requires
                        x >= 2,
                        n > 0,
                ;
            }
            n / x + 1
        };
        let objs = sort_elements(self);
        let sw = find_switches(self, &objs);
        let ghost cs0 = category_size(n as nat, x as nat);
        let mut ranges: Vec<(usize, usize)> = Vec::new();
        let mut curr_start: usize = 0;
        let nsw = sw.len();
        let windows: usize = if nsw == 0 {
            0
        } else {
            nsw - 1
        };
        let mut k: usize = 0;
        while k < windows && ranges.len() < x
            invariant
                n == objs@.len(),
                nsw == sw@.len(),
                windows == if nsw == 0 { 0 } else { nsw - 1 },
                c == cs0,
                forall|i: int| 0 <= i < sw@.len() ==> 1 <= #[trigger] sw@[i] < n,
                forall|i: int, j: int| 0 <= i < j < sw@.len() ==> sw@[i] < sw@[j],
                k <= windows,
                (curr_start, ranges@) == category_state(sw@, cs0, x as nat, k as nat),
                ranges@.len() <= x,
                k < windows ==> curr_start <= sw@[k as int],
                forall|i: int| 0 <= i < ranges@.len() ==> (#[trigger] ranges@[i]).0 <= ranges@[i].1 <= n,
                curr_start <= n,
            decreases windows - k,
        {
            let aa = sw[k];
            let bb = sw[k + 1];
            let a_size = aa - curr_start;
            let b_size = bb - curr_start;
            let take_b: Option<bool> = if a_size < c && b_size < c {
                None
            } else if a_size < c && b_size == c {
                Some(true)
            } else if a_size < c && b_size > c {
                Some(c - a_size > b_size - c)
            } else {
                Some(false)
            };
            proof {
                assert(take_b == choose_end(aa - curr_start, bb - curr_start, cs0));
            }
            match take_b {
                None => {},
                Some(tb) => {
                    if tb && curr_start != bb {
                        ranges.push((curr_start, bb));
                        curr_start = bb;
                    } else if curr_start != aa {
                        ranges.push((curr_start, aa));
                        curr_start = aa;
                    }
                },
            }
            k += 1;
        }
        proof {
            lemma_state_stops(sw@, cs0, x as nat, k as nat, windows as nat);
        }
        if curr_start != n {
            if ranges.len() < x {
                ranges.push((curr_start, n));
            } else {
                let last = ranges.len() - 1;
                let (s0, _) = ranges[last];
                ranges.set(last, (s0, n));
            }
        }
        let m = ranges.len();
        let mut out: Vec<Vec<usize>> = Vec::new();
        let mut i: usize = 0;
        while i < m
            invariant
                m == ranges@.len(),
                i <= m,
                out@.len() == i,
                n == objs@.len(),
                forall|j: int| 0 <= j < ranges@.len() ==> (#[trigger] ranges@[j]).0 <= ranges@[j].1 <= n,
                forall|j: int| 0 <= j < i ==> (#[trigger] out@[j])@ == objs@.subrange(ranges@[m - 1 - j].0 as int, ranges@[m - 1 - j].1 as int),
            decreases m - i,
        {
            let (s, e) = ranges[m - 1 - i];
            out.push(crate::util::copy_usizes(&objs.as_slice()[s..e]));
            i += 1;
        }
        out
    }
}

} // verus!
