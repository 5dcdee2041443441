//! The text form of a ranking with ties reads back as the same ranking.
use vstd::prelude::*;
use vstd::string::StringSliceAdditionalSpecFns;

use crate::parse::{
    all_digits, ascii_chars, decimal, digits_value, is_ascii_bytes, is_digit, lemma_split_on_len, parse_usize_spec,
    split_on, unsigned_digits, CLOSE, COMMA, OPEN,
};
use crate::tied::{
    format_group, format_groups, groups, join_decimal, lead_true, lemma_lead_true, parse_tied_spec, rest_tied,
    scan_tied, strip_close, strip_open, tie_shape, winner_len,
};
use crate::util::all_below;

verus! {

broadcast use vstd::seq_lib::group_seq_properties;

/// The digits of a number are digits, at least one, and read back as the
/// number.
proof fn lemma_decimal(n: nat)
    ensures
        decimal(n).len() > 0,
        all_digits(decimal(n)),
        digits_value(decimal(n)) == n,
    decreases n,
{
    let d = decimal(n);
    if n >= 10 {
        lemma_decimal(n / 10);
        assert(d.drop_last() =~= decimal(n / 10));
        assert forall|i: int| 0 <= i < d.len() implies is_digit(#[trigger] d[i]) by {
            if i < d.len() - 1 {
                assert(d[i] == decimal(n / 10)[i]);
            }
        }
        vstd::arithmetic::div_mod::lemma_fundamental_div_mod(n as int, 10);
        assert(d.last() == ((n % 10) + 48) as u8);
        assert(d.last() - 48 == n % 10);
        assert(digits_value(d) == digits_value(decimal(n / 10)) * 10 + (d.last() - 48) as nat);
    } else {
        assert(d.last() == (n + 48) as u8);
        assert(d.drop_last() =~= Seq::<u8>::empty());
        assert(digits_value(d) == digits_value(d.drop_last()) * 10 + (d.last() - 48) as nat);
    }
}

/// The text of a number reads back as the number.
proof fn lemma_parse_decimal(n: usize)
    ensures
        parse_usize_spec(decimal(n as nat)) == Some(n),
{
    let d = decimal(n as nat);
    lemma_decimal(n as nat);
    assert(is_digit(d[0]));
    assert(unsigned_digits(d) == d);
}

/// Text without the separator is a single piece.
proof fn lemma_split_whole(s: Seq<u8>, sep: u8)
    requires
        forall|i: int| 0 <= i < s.len() ==> #[trigger] s[i] != sep,
    ensures
        split_on(s, sep) == seq![s],
    decreases s.len(),
{
    if s.len() > 0 {
        lemma_split_whole(s.drop_last(), sep);
        assert(s.drop_last().push(s.last()) =~= s);
        assert(seq![s.drop_last()].update(0, s) =~= seq![s]);
    } else {
        assert(s =~= Seq::<u8>::empty());
    }
}

/// Cutting at a separator between two texts cuts each of them.
proof fn lemma_split_join(a: Seq<u8>, b: Seq<u8>, sep: u8)
    ensures
        split_on(a + seq![sep] + b, sep) == split_on(a, sep) + split_on(b, sep),
    decreases b.len(),
{
    let s = a + seq![sep] + b;
    lemma_split_on_len(a, sep);
    if b.len() == 0 {
        assert(s.drop_last() =~= a);
        assert(split_on(b, sep) =~= seq![Seq::<u8>::empty()]);
        assert(split_on(a, sep).push(Seq::empty()) =~= split_on(a, sep) + split_on(b, sep));
    } else {
        lemma_split_join(a, b.drop_last(), sep);
        lemma_split_on_len(b.drop_last(), sep);
        assert(s.drop_last() =~= a + seq![sep] + b.drop_last());
        let ra = split_on(a, sep);
        let rb = split_on(b.drop_last(), sep);
        if b.last() == sep {
            assert((ra + rb).push(Seq::empty()) =~= ra + rb.push(Seq::empty()));
        } else {
            let r = ra + rb;
            assert(r.update(r.len() - 1, r.last().push(b.last())) =~= ra + rb.update(
                rb.len() - 1,
                rb.last().push(b.last()),
            ));
        }
    }
}

/// A number's text holds neither a comma nor a brace.
proof fn lemma_decimal_plain(n: nat)
    ensures
        forall|i: int| 0 <= i < decimal(n).len() ==> #[trigger] decimal(n)[i] != COMMA && decimal(n)[i] != OPEN
            && decimal(n)[i] != CLOSE,
{
    lemma_decimal(n);
    assert forall|i: int| 0 <= i < decimal(n).len() implies #[trigger] decimal(n)[i] != COMMA && decimal(n)[i]
        != OPEN && decimal(n)[i] != CLOSE by {
        assert(is_digit(decimal(n)[i]));
    }
}

/// The pieces that `{` followed by the numbers of `h` joined by commas is
/// cut into: `{` with the first number, then each other number.
spec fn open_pieces(h: Seq<usize>) -> Seq<Seq<u8>> {
    Seq::new(h.len(), |i: int| if i == 0 { seq![OPEN] + decimal(h[0] as nat) } else { decimal(h[i] as nat) })
}

/// The pieces that the text of the group `g` is cut into at commas.
spec fn group_pieces(g: Seq<usize>) -> Seq<Seq<u8>> {
    if g.len() == 1 {
        seq![decimal(g[0] as nat)]
    } else {
        open_pieces(g.drop_last()).push(decimal(g.last() as nat) + seq![CLOSE])
    }
}

/// The tie flags that reading a group gives: each element is tied to the
/// next, but the last.
spec fn group_flags(g: Seq<usize>) -> Seq<bool> {
    Seq::new(g.len(), |i: int| i + 1 < g.len())
}

proof fn lemma_open_split(h: Seq<usize>)
    requires
        h.len() >= 1,
    ensures
        split_on(seq![OPEN] + join_decimal(h), COMMA) == open_pieces(h),
    decreases h.len(),
{
    if h.len() == 1 {
        lemma_decimal_plain(h[0] as nat);
        let p = seq![OPEN] + decimal(h[0] as nat);
        assert forall|i: int| 0 <= i < p.len() implies #[trigger] p[i] != COMMA by {
            if i > 0 {
                assert(p[i] == decimal(h[0] as nat)[i - 1]);
            }
        }
        lemma_split_whole(p, COMMA);
        assert(open_pieces(h) =~= seq![p]);
    } else {
        let dl = h.drop_last();
        lemma_open_split(dl);
        let d = decimal(h.last() as nat);
        lemma_decimal_plain(h.last() as nat);
        lemma_split_whole(d, COMMA);
        assert(seq![OPEN] + join_decimal(h) =~= (seq![OPEN] + join_decimal(dl)) + seq![COMMA] + d);
        lemma_split_join(seq![OPEN] + join_decimal(dl), d, COMMA);
        assert(open_pieces(dl) + seq![d] =~= open_pieces(h));
    }
}

proof fn lemma_group_split(g: Seq<usize>)
    requires
        g.len() >= 1,
    ensures
        split_on(format_group(g), COMMA) == group_pieces(g),
{
    if g.len() == 1 {
        lemma_decimal_plain(g[0] as nat);
        lemma_split_whole(decimal(g[0] as nat), COMMA);
    } else {
        let dl = g.drop_last();
        lemma_open_split(dl);
        let d = decimal(g.last() as nat) + seq![CLOSE];
        lemma_decimal_plain(g.last() as nat);
        assert forall|i: int| 0 <= i < d.len() implies #[trigger] d[i] != COMMA by {
            if i < d.len() - 1 {
                assert(d[i] == decimal(g.last() as nat)[i]);
            }
        }
        lemma_split_whole(d, COMMA);
        assert(format_group(g) =~= (seq![OPEN] + join_decimal(dl)) + seq![COMMA] + d);
        lemma_split_join(seq![OPEN] + join_decimal(dl), d, COMMA);
    }
}

/// Reading pieces after pieces that close every group reads each part on
/// its own.
proof fn lemma_scan_compose(p1: Seq<Seq<u8>>, p2: Seq<Seq<u8>>, e: nat, o1: Seq<usize>, t1: Seq<bool>)
    requires
        scan_tied(p1, e) == Some((o1, t1, false)),
    ensures
        scan_tied(p1 + p2, e) == match scan_tied(p2, e) {
            Some((o2, t2, g2)) => Some((o1 + o2, t1 + t2, g2)),
            None => None,
        },
    decreases p2.len(),
{
    if p2.len() == 0 {
        assert(p1 + p2 =~= p1);
        assert(o1 + Seq::<usize>::empty() =~= o1);
        assert(t1 + Seq::<bool>::empty() =~= t1);
    } else {
        lemma_scan_compose(p1, p2.drop_last(), e, o1, t1);
        assert((p1 + p2).drop_last() =~= p1 + p2.drop_last());
        assert((p1 + p2).last() == p2.last());
        match scan_tied(p2.drop_last(), e) {
            Some((o2, t2, g2)) => {
                let (q1, h1) = strip_open(p2.last(), g2);
                let (q2, h2) = strip_close(q1, h1);
                match parse_usize_spec(q2) {
                    Some(n) => {
                        assert((o1 + o2).push(n) =~= o1 + o2.push(n));
                        assert((t1 + t2).push(h2) =~= t1 + t2.push(h2));
                    },
                    None => {},
                }
            },
            None => {},
        }
    }
}

proof fn lemma_scan_open(h: Seq<usize>, e: nat)
    requires
        h.len() >= 1,
        all_below(h, e),
    ensures
        scan_tied(open_pieces(h), e) == Some((h, Seq::new(h.len(), |i: int| true), true)),
    decreases h.len(),
{
    let ps = open_pieces(h);
    if h.len() == 1 {
        let d = decimal(h[0] as nat);
        let p = seq![OPEN] + d;
        lemma_decimal_plain(h[0] as nat);
        lemma_decimal(h[0] as nat);
        lemma_parse_decimal(h[0]);
        assert(ps.drop_last() =~= Seq::<Seq<u8>>::empty());
        assert(ps.last() == p);
        assert(p.skip(1) =~= d);
        assert(strip_open(p, false) == (d, true));
        assert(d.last() != CLOSE);
        assert(strip_close(d, true) == (d, true));
        assert(Seq::<usize>::empty().push(h[0]) =~= h);
        assert(Seq::<bool>::empty().push(true) =~= Seq::new(h.len(), |i: int| true));
    } else {
        let dl = h.drop_last();
        lemma_scan_open(dl, e);
        assert(ps.drop_last() =~= open_pieces(dl));
        let d = decimal(h.last() as nat);
        assert(ps.last() == d);
        lemma_decimal_plain(h.last() as nat);
        lemma_decimal(h.last() as nat);
        lemma_parse_decimal(h.last());
        assert(strip_open(d, true) == (d, true));
        assert(d.last() != CLOSE);
        assert(strip_close(d, true) == (d, true));
        assert(dl.push(h.last()) =~= h);
        assert(Seq::new(dl.len(), |i: int| true).push(true) =~= Seq::new(h.len(), |i: int| true));
    }
}

proof fn lemma_scan_group(g: Seq<usize>, e: nat)
    requires
        g.len() >= 1,
        all_below(g, e),
    ensures
        scan_tied(group_pieces(g), e) == Some((g, group_flags(g), false)),
{
    let ps = group_pieces(g);
    if g.len() == 1 {
        let d = decimal(g[0] as nat);
        lemma_decimal_plain(g[0] as nat);
        lemma_decimal(g[0] as nat);
        lemma_parse_decimal(g[0]);
        assert(ps.drop_last() =~= Seq::<Seq<u8>>::empty());
        assert(d[0] != OPEN);
        assert(strip_open(d, false) == (d, false));
        assert(Seq::<usize>::empty().push(g[0]) =~= g);
        assert(Seq::<bool>::empty().push(false) =~= group_flags(g));
    } else {
        let dl = g.drop_last();
        lemma_scan_open(dl, e);
        assert(ps.drop_last() =~= open_pieces(dl));
        let d = decimal(g.last() as nat);
        let p = d + seq![CLOSE];
        assert(ps.last() == p);
        lemma_decimal(g.last() as nat);
        lemma_parse_decimal(g.last());
        assert(strip_open(p, true) == (p, true));
        assert(p.drop_last() =~= d);
        assert(strip_close(p, true) == (d, false));
        assert(dl.push(g.last()) =~= g);
        assert(Seq::new(dl.len(), |i: int| true).push(false) =~= group_flags(g));
    }
}

/// The text of a nonempty ranking reads back as its elements, with the tie
/// flags and one more `false` for the last element.
#[verifier::spinoff_prover]
proof fn lemma_scan_groups(o: Seq<usize>, t: Seq<bool>, e: nat)
    requires
        o.len() > 0,
        tie_shape(o.len(), t.len()),
        all_below(o, e),
    ensures
        scan_tied(split_on(format_groups(groups(o, t)), COMMA), e) == Some((o, t.push(false), false)),
        format_groups(groups(o, t)).len() > 0,
    decreases o.len(),
{
    lemma_lead_true(t);
    let w = winner_len(o, t);
    let g0 = o.take(w as int);
    let ro = o.skip(w as int);
    let rt = rest_tied(o, t);
    let gs = groups(o, t);
    assert(w == 1 + lead_true(t));
    assert(all_below(g0, e));
    lemma_group_split(g0);
    lemma_scan_group(g0, e);
    lemma_decimal(g0[0] as nat);
    assert(gs == seq![g0] + groups(ro, rt));
    if w == o.len() {
        assert(ro.len() == 0);
        assert(groups(ro, rt) == Seq::<Seq<usize>>::empty());
        assert(gs =~= seq![g0]);
        assert(g0 =~= o);
        assert(group_flags(o) =~= t.push(false));
    } else {
        assert(rt == t.skip(w as int));
        assert(all_below(ro, e));
        lemma_scan_groups(ro, rt, e);
        let rest = groups(ro, rt);
        assert(gs.skip(1) =~= rest);
        assert(rest.len() > 0);
        assert(format_groups(gs) == format_group(g0) + seq![COMMA] + format_groups(rest));
        lemma_split_join(format_group(g0), format_groups(rest), COMMA);
        lemma_scan_compose(group_pieces(g0), split_on(format_groups(rest), COMMA), e, g0, group_flags(g0));
        assert(g0 + ro =~= o);
        assert(group_flags(g0) =~= t.take(w as int));
        assert(t.take(w as int) + rt.push(false) =~= t.push(false));
    }
}

/// Writing a ranking as text and reading the text back gives the ranking:
/// the elements in order, with the same ties.
pub proof fn format_parse_roundtrip(elements: usize, order: Seq<usize>, tied: Seq<bool>)
    requires
        tie_shape(order.len(), tied.len()),
        all_below(order, elements as nat),
    ensures
        parse_tied_spec(elements, format_groups(groups(order, tied))) == Some((order, tied)),
{
    if order.len() == 0 {
        assert(order =~= Seq::<usize>::empty());
        assert(tied =~= Seq::<bool>::empty());
    } else {
        lemma_scan_groups(order, tied, elements as nat);
        assert(tied.push(false).drop_last() =~= tied);
    }
}

/// The numbers of a group joined by commas are ASCII.
proof fn lemma_join_ascii(g: Seq<usize>)
    ensures
        is_ascii_bytes(join_decimal(g)),
    decreases g.len(),
{
    if g.len() == 1 {
        crate::tied::lemma_decimal_ascii(g[0] as nat);
    } else if g.len() > 1 {
        lemma_join_ascii(g.drop_last());
        crate::tied::lemma_decimal_ascii(g.last() as nat);
        let a = join_decimal(g.drop_last());
        let d = decimal(g.last() as nat);
        let j = a + seq![COMMA] + d;
        assert forall|i: int| 0 <= i < j.len() implies #[trigger] j[i] < 128 by {
            if i < a.len() {
                assert(j[i] == a[i]);
            } else if i > a.len() {
                assert(j[i] == d[i - a.len() - 1]);
            }
        }
    }
}

/// The text of a list of groups is ASCII.
proof fn lemma_format_ascii(gs: Seq<Seq<usize>>)
    ensures
        is_ascii_bytes(format_groups(gs)),
    decreases gs.len(),
{
    if gs.len() > 0 {
        lemma_join_ascii(gs[0]);
        let f = format_group(gs[0]);
        assert(is_ascii_bytes(f)) by {
            if gs[0].len() > 1 {
                let j = join_decimal(gs[0]);
                assert forall|i: int| 0 <= i < f.len() implies #[trigger] f[i] < 128 by {
                    if 0 < i < f.len() - 1 {
                        assert(f[i] == j[i - 1]);
                    }
                }
            }
        }
        if gs.len() > 1 {
            lemma_format_ascii(gs.skip(1));
            let r = format_groups(gs.skip(1));
            let t = f + seq![COMMA] + r;
            assert forall|i: int| 0 <= i < t.len() implies #[trigger] t[i] < 128 by {
                if i < f.len() {
                    assert(t[i] == f[i]);
                } else if i > f.len() {
                    assert(t[i] == r[i - f.len() - 1]);
                }
            }
        }
    }
}

/// Reading back the text of a ranking gives the ranking: for the text
/// that `TiedRankRef::to_string` returns, whose characters are those of
/// `format_groups`, the bytes that `TiedRank::parse_order` reads parse to
/// the same elements in order with the same ties.
pub proof fn text_parse_roundtrip(elements: usize, order: Seq<usize>, tied: Seq<bool>, text: &str)
    requires
        tie_shape(order.len(), tied.len()),
        all_below(order, elements as nat),
        text@ == ascii_chars(format_groups(groups(order, tied))),
    ensures
        parse_tied_spec(elements, text.spec_bytes()) == Some((order, tied)),
{
    let b = format_groups(groups(order, tied));
    lemma_format_ascii(groups(order, tied));
    assert(vstd::string::is_ascii(text)) by {
        assert forall|i: int| 0 <= i < text@.len() implies '\0' <= #[trigger] text@[i] <= '\u{7f}' by {
            assert(text@[i] == b[i] as char);
            assert(b[i] < 128);
        }
    }
    vstd::string::is_ascii_spec_bytes(text);
    assert forall|i: int| 0 <= i < b.len() implies #[trigger] text.spec_bytes()[i] == b[i] by {
        assert(text@[i] == b[i] as char);
        assert(b[i] < 128);
    }
    assert(text.spec_bytes() =~= b);
    format_parse_roundtrip(elements, order, tied);
}

} // verus!
