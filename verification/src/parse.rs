//! Reading and writing the comma separated text forms of orders.
use vstd::prelude::*;

verus! {



/// The byte `,`.
pub const COMMA: u8 = 44;

/// The byte `\n`.
pub const NEWLINE: u8 = 10;

/// The byte `\r`.
pub const CR: u8 = 13;

/// The byte `{`.
pub const OPEN: u8 = 123;

/// The byte `}`.
pub const CLOSE: u8 = 125;

/// Whether `b` is one of the ASCII digits `0` to `9`.
pub open spec fn is_digit(b: u8) -> bool {
    48 <= b <= 57
}

/// Whether every byte of `s` is a digit.
pub open spec fn all_digits(s: Seq<u8>) -> bool {
    forall|i: int| 0 <= i < s.len() ==> is_digit(#[trigger] s[i])
}

/// The number written by the decimal digits `s`, most significant first.
pub open spec fn digits_value(s: Seq<u8>) -> nat
    decreases s.len(),
{
    if s.len() == 0 {
        0
    } else {
        digits_value(s.drop_last()) * 10 + (s.last() - 48) as nat
    }
}

/// `s` without a leading `+`.
pub open spec fn unsigned_digits(s: Seq<u8>) -> Seq<u8> {
    if s.len() > 0 && s[0] == 43 {
        s.skip(1)
    } else {
        s
    }
}

/// The `usize` that `s` writes in decimal: an optional `+` and then at least
/// one digit, with a value that fits; `None` for any other text.
pub open spec fn parse_usize_spec(s: Seq<u8>) -> Option<usize> {
    let d = unsigned_digits(s);
    if d.len() > 0 && all_digits(d) && digits_value(d) <= usize::MAX {
        Some(digits_value(d) as usize)
    } else {
        None
    }
}

proof fn lemma_digits_value_prefix(s: Seq<u8>, i: int)
    requires
        all_digits(s),
        0 <= i <= s.len(),
    ensures
        digits_value(s.take(i)) <= digits_value(s),
    decreases s.len(),
{
    if i == s.len() {
        assert(s.take(i) =~= s);
    } else {
        assert(s.drop_last().take(i) =~= s.take(i));
        assert(all_digits(s.drop_last()));
        lemma_digits_value_prefix(s.drop_last(), i);
    }
}

proof fn lemma_digits_step(d: Seq<u8>, k: int)
    requires
        0 <= k < d.len(),
        all_digits(d.take(k)),
        is_digit(d[k]),
    ensures
        all_digits(d.take(k + 1)),
        digits_value(d.take(k + 1)) == digits_value(d.take(k)) * 10 + (d[k] - 48) as nat,
{
    assert(d.take(k + 1).drop_last() =~= d.take(k));
    assert forall|i: int| 0 <= i < k + 1 implies is_digit(#[trigger] d.take(k + 1)[i]) by {
        if i < k {
            assert(d.take(k + 1)[i] == d.take(k)[i]);
        }
    }
}

/// Reads a `usize` written in decimal, as `str::parse::<usize>` does.
pub fn parse_usize(s: &[u8]) -> (res: Option<usize>)
    ensures
        res == parse_usize_spec(s@),
{
    let n = s.len();
    let mut start: usize = 0;
    if n > 0 && s[0] == 43 {
        start = 1;
    }
    let ghost d = unsigned_digits(s@);
    proof {
        assert(d =~= s@.skip(start as int));
    }
    if start == n {
        return None;
    }
    let mut acc: usize = 0;
    let mut i: usize = start;
    while i < n
        invariant
            n == s@.len(),
            start <= i <= n,
            d == s@.skip(start as int),
            d == unsigned_digits(s@),
            all_digits(d.take(i - start)),
            acc == digits_value(d.take(i - start)),
        decreases n - i,
    {
        let b = s[i];
        let ghost k = i - start;
        proof {
            assert(d[k] == b);
        }
        if b < 48 || b > 57 {
            proof {
                assert(!is_digit(d[k]));
                assert(!all_digits(d));
            }
            return None;
        }
        proof {
            lemma_digits_step(d, k);
        }
        let digit: usize = (b - 48) as usize;
        let m = acc.checked_mul(10);
        if m.is_none() {
            proof {
                if all_digits(d) {
                    lemma_digits_value_prefix(d, k + 1);
                }
            }
            return None;
        }
        let v = m.unwrap().checked_add(digit);
        if v.is_none() {
            proof {
                if all_digits(d) {
                    lemma_digits_value_prefix(d, k + 1);
                }
            }
            return None;
        }
        acc = v.unwrap();
        i += 1;
    }
    proof {
        assert(d.take(n - start) =~= d);
    }
    Some(acc)
}

/// `s` cut at every `sep`; the pieces never hold `sep`, and there is one
/// more piece than there are separators.
pub open spec fn split_on(s: Seq<u8>, sep: u8) -> Seq<Seq<u8>>
    decreases s.len(),
{
    if s.len() == 0 {
        seq![Seq::empty()]
    } else {
        let rest = split_on(s.drop_last(), sep);
        if s.last() == sep {
            rest.push(Seq::empty())
        } else {
            rest.update(rest.len() - 1, rest.last().push(s.last()))
        }
    }
}

/// There is always at least one piece.
pub proof fn lemma_split_on_len(s: Seq<u8>, sep: u8)
    ensures
        split_on(s, sep).len() >= 1,
    decreases s.len(),
{
    if s.len() > 0 {
        lemma_split_on_len(s.drop_last(), sep);
    }
}

/// `s` without one trailing `\r`.
pub open spec fn strip_cr(s: Seq<u8>) -> Seq<u8> {
    if s.len() > 0 && s.last() == CR {
        s.drop_last()
    } else {
        s
    }
}

/// The lines of `text`, as `BufRead::read_line` hands them out one by one
/// with their line ending taken off: a line that ends in `\n` loses it and
/// then one `\r` before it; a last line without `\n` is kept whole, and
/// there is no line after a final `\n`.
pub open spec fn text_lines(text: Seq<u8>) -> Seq<Seq<u8>> {
    let parts = split_on(text, NEWLINE);
    let body = Seq::new((parts.len() - 1) as nat, |i: int| strip_cr(parts[i]));
    if parts.last().len() == 0 {
        body
    } else {
        body.push(parts.last())
    }
}

/// Cuts `s` at every `sep`, as `str::split` does.
pub fn split_bytes(s: &[u8], sep: u8) -> (parts: Vec<Vec<u8>>)
    ensures
        parts@.len() == split_on(s@, sep).len(),
        forall|k: int| 0 <= k < parts@.len() ==> (#[trigger] parts@[k])@ == split_on(s@, sep)[k],
{
    let n = s.len();
    let mut parts: Vec<Vec<u8>> = Vec::new();
    let mut cur: Vec<u8> = Vec::new();
    let mut i: usize = 0;
    while i < n
        invariant
            n == s@.len(),
            i <= n,
            parts@.len() + 1 == split_on(s@.take(i as int), sep).len(),
            forall|k: int| 0 <= k < parts@.len() ==> (#[trigger] parts@[k])@ == split_on(s@.take(i as int), sep)[k],
            cur@ == split_on(s@.take(i as int), sep).last(),
        decreases n - i,
    {
        proof {
            assert(s@.take(i + 1).drop_last() =~= s@.take(i as int));
            lemma_split_on_len(s@.take(i as int), sep);
        }
        let b = s[i];
        if b == sep {
            let ghost before = parts@;
            parts.push(cur);
            cur = Vec::new();
            proof {
                assert forall|k: int| 0 <= k < parts@.len() implies (#[trigger] parts@[k])@ == split_on(s@.take(i + 1), sep)[k] by {
                    if k < before.len() {
                        assert(parts@[k] == before[k]);
                    }
                }
            }
        } else {
            cur.push(b);
        }
        i += 1;
    }
    proof {
        assert(s@.take(n as int) =~= s@);
        lemma_split_on_len(s@, sep);
    }
    let ghost before = parts@;
    parts.push(cur);
    proof {
        assert forall|k: int| 0 <= k < parts@.len() implies (#[trigger] parts@[k])@ == split_on(s@, sep)[k] by {
            if k < before.len() {
                assert(parts@[k] == before[k]);
            }
        }
    }
    parts
}

/// Reads `lines` in turn with `read`: the values read before the first
/// line that `read` refuses, and the error for that line, if there is one.
pub open spec fn read_lines<T>(lines: Seq<Seq<u8>>, read: spec_fn(Seq<u8>) -> Result<T, &'static str>) -> (
    Seq<T>,
    Option<&'static str>,
)
    decreases lines.len(),
{
    if lines.len() == 0 {
        (Seq::empty(), None)
    } else {
        let prev = read_lines(lines.drop_last(), read);
        if prev.1 is Some {
            prev
        } else {
            match read(lines.last()) {
                Ok(v) => (prev.0.push(v), None),
                Err(e) => (prev.0, Some(e)),
            }
        }
    }
}

/// After a refused line, later lines change nothing.
pub proof fn lemma_read_lines_stop<T>(lines: Seq<Seq<u8>>, read: spec_fn(Seq<u8>) -> Result<T, &'static str>, k: int)
    requires
        0 <= k <= lines.len(),
        read_lines(lines.take(k), read).1 is Some,
    ensures
        read_lines(lines, read) == read_lines(lines.take(k), read),
    decreases lines.len() - k,
{
    if k < lines.len() {
        assert(lines.take(k + 1).drop_last() =~= lines.take(k));
        lemma_read_lines_stop(lines, read, k + 1);
    } else {
        assert(lines.take(k) =~= lines);
    }
}

/// Reading more lines reads no fewer values.
pub proof fn lemma_read_lines_grow<T>(lines: Seq<Seq<u8>>, read: spec_fn(Seq<u8>) -> Result<T, &'static str>, k: int)
    requires
        0 <= k <= lines.len(),
    ensures
        read_lines(lines.take(k), read).0.len() <= read_lines(lines, read).0.len(),
    decreases lines.len() - k,
{
    if k < lines.len() {
        assert(lines.take(k + 1).drop_last() =~= lines.take(k));
        lemma_read_lines_grow(lines, read, k + 1);
    } else {
        assert(lines.take(k) =~= lines);
    }
}

/// The result of reading lines: `Ok` unless a line was refused.
pub open spec fn lines_result(err: Option<&'static str>) -> Result<(), &'static str> {
    match err {
        None => Ok(()),
        Some(e) => Err(e),
    }
}

/// A copy of `s`.
fn copy_bytes(s: &[u8]) -> (res: Vec<u8>)
    ensures
        res@ == s@,
{
    let n = s.len();
    let mut res: Vec<u8> = Vec::new();
    let mut i: usize = 0;
    while i < n
        invariant
            n == s@.len(),
            i <= n,
            res@ == s@.take(i as int),
        decreases n - i,
    {
        res.push(s[i]);
        i += 1;
        proof {
            assert(res@ =~= s@.take(i as int));
        }
    }
    proof {
        assert(s@.take(n as int) =~= s@);
    }
    res
}

/// Cuts `text` into its lines, as `text_lines` describes them.
pub fn split_lines(text: &[u8]) -> (lines: Vec<Vec<u8>>)
    ensures
        lines@.len() == text_lines(text@).len(),
        forall|k: int| 0 <= k < lines@.len() ==> (#[trigger] lines@[k])@ == text_lines(text@)[k],
{
    let parts = split_bytes(text, NEWLINE);
    let ghost sp = split_on(text@, NEWLINE);
    let ghost tl = text_lines(text@);
    proof {
        lemma_split_on_len(text@, NEWLINE);
    }
    let np = parts.len();
    let mut lines: Vec<Vec<u8>> = Vec::new();
    let mut i: usize = 0;
    while i + 1 < np
        invariant
            np == parts@.len(),
            np == sp.len(),
            np >= 1,
            sp == split_on(text@, NEWLINE),
            tl == text_lines(text@),
            forall|j: int| 0 <= j < np ==> (#[trigger] parts@[j])@ == sp[j],
            i + 1 <= np,
            lines@.len() == i,
            forall|k: int| 0 <= k < i ==> (#[trigger] lines@[k])@ == tl[k],
        decreases np - i,
    {
        let p = parts[i].as_slice();
        let plen = p.len();
        let len = if plen > 0 && p[plen - 1] == CR {
            plen - 1
        } else {
            plen
        };
        let line = copy_bytes(&p[0..len]);
        proof {
            assert(line@ =~= tl[i as int]);
        }
        lines.push(line);
        i += 1;
    }
    let last = parts[np - 1].as_slice();
    if last.len() > 0 {
        let line = copy_bytes(last);
        lines.push(line);
    }
    lines
}

/// The decimal digits of `n`, most significant first, with no leading zero.
pub open spec fn decimal(n: nat) -> Seq<u8>
    decreases n,
{
    if n < 10 {
        seq![(n + 48) as u8]
    } else {
        decimal(n / 10).push(((n % 10) + 48) as u8)
    }
}

/// Appends the decimal digits of `n` to `out`.
pub fn push_decimal(out: &mut Vec<u8>, n: usize)
    ensures
        final(out)@ == old(out)@ + decimal(n as nat),
    decreases n,
{
    if n < 10 {
        out.push((n as u8) + 48);
        proof {
            assert(final(out)@ =~= old(out)@ + decimal(n as nat));
        }
    } else {
        push_decimal(out, n / 10);
        let d: u8 = (n % 10) as u8;
        out.push(d + 48);
        proof {
            assert(final(out)@ =~= old(out)@ + decimal(n as nat));
        }
    }
}

/// Whether every byte of `s` is ASCII.
pub open spec fn is_ascii_bytes(s: Seq<u8>) -> bool {
    forall|i: int| 0 <= i < s.len() ==> #[trigger] s[i] < 128
}

/// The characters that the ASCII bytes `s` encode.
pub open spec fn ascii_chars(s: Seq<u8>) -> Seq<char> {
    Seq::new(s.len(), |i: int| s[i] as char)
}

/// Turns ASCII bytes into a `String`, through `String::from_utf8`, which
/// accepts every ASCII sequence and keeps each byte as one character.
#[verifier::external_body]
pub(crate) fn string_from_ascii(bytes: Vec<u8>) -> (res: String)
    requires
        is_ascii_bytes(bytes@),
    ensures
        res@ == ascii_chars(bytes@),
{
    match String::from_utf8(bytes) {
        Ok(s) => s,
        Err(_) => String::new(),
    }
}

} // verus!
