use crate::decimal::is_digit;
use vstd::prelude::*;
use vstd::slice::slice_subrange;

verus! {

/// The bytes of a text made of ASCII characters only.
pub open spec fn ascii_bytes(s: Seq<char>) -> Seq<u8> {
    Seq::new(s.len(), |i: int| s[i] as u8)
}

/// `lit` stands in `s` at position `p`.
pub open spec fn has_at(s: Seq<u8>, p: int, lit: Seq<u8>) -> bool {
    &&& 0 <= p
    &&& p + lit.len() <= s.len()
    &&& s.subrange(p, p + lit.len()) == lit
}

/// Where the run of decimal digits that starts at `p` ends: the first position
/// from `p` on that holds no digit, or the end of `s`.
pub open spec fn digits_end(s: Seq<u8>, p: int) -> int
    decreases s.len() - p,
{
    if 0 <= p < s.len() && is_digit(s[p]) {
        digits_end(s, p + 1)
    } else {
        p
    }
}

/// The position of the first line feed in `s`, or the length of `s` if it has none.
pub open spec fn line_end(s: Seq<u8>) -> nat
    decreases s.len(),
{
    if s.len() == 0 || s[0] == 10 {
        0
    } else {
        1 + line_end(s.drop_first())
    }
}

/// The lines of a text: the pieces between line feeds. A line feed at the very
/// end closes the last line and opens no empty one.
pub open spec fn lines_of(s: Seq<u8>) -> Seq<Seq<u8>>
    decreases s.len(),
{
    if s.len() == 0 {
        Seq::empty()
    } else {
        let k = line_end(s);
        if k >= s.len() {
            seq![s]
        } else {
            seq![s.subrange(0, k as int)] + lines_of(s.subrange(k as int + 1, s.len() as int))
        }
    }
}

/// A run of digits ends within the text, holds digits only, and no digit follows it.
pub proof fn lemma_digits_end(s: Seq<u8>, p: int)
    requires
        0 <= p <= s.len(),
    ensures
        p <= digits_end(s, p) <= s.len(),
        forall|i: int| p <= i < digits_end(s, p) ==> is_digit(#[trigger] s[i]),
        digits_end(s, p) < s.len() ==> !is_digit(s[digits_end(s, p)]),
    decreases s.len() - p,
{
    if p < s.len() && is_digit(s[p]) {
        lemma_digits_end(s, p + 1);
    }
}

/// A line ends within the text, holds no line feed, and a line feed follows it if anything.
pub proof fn lemma_line_end(s: Seq<u8>)
    ensures
        line_end(s) <= s.len(),
        forall|i: int| 0 <= i < line_end(s) ==> #[trigger] s[i] != 10,
        line_end(s) < s.len() ==> s[line_end(s) as int] == 10,
    decreases s.len(),
{
    if s.len() == 0 || s[0] == 10 {
    } else {
        let t = s.drop_first();
        lemma_line_end(t);
        assert forall|i: int| 0 <= i < line_end(s) implies #[trigger] s[i] != 10 by {
            if i > 0 {
                assert(t[i - 1] == s[i]);
            }
        }
        if line_end(s) < s.len() {
            assert(t[line_end(t) as int] == s[line_end(s) as int]);
        }
    }
}

/// The bytes of a text that holds ASCII characters only.
pub(crate) fn literal_bytes(lit: &str) -> (r: &[u8])
    requires
        lit.is_ascii(),
    ensures
        r@ == ascii_bytes(lit@),
{
    broadcast use vstd::string::is_ascii_spec_bytes;

    let r = lit.as_bytes();
    assert(r@ =~= ascii_bytes(lit@));
    r
}

/// Tells whether `lit` stands in `s` at position `p`.
pub(crate) fn starts_with_at(s: &[u8], p: usize, lit: &[u8]) -> (r: bool)
    ensures
        r == has_at(s@, p as int, lit@),
{
    let n: usize = lit.len();
    let total: usize = s.len();
    if p > total || n > total - p {
        return false;
    }
    let mut i: usize = 0;
    while i < n
        invariant
            n == lit@.len(),
            total == s@.len(),
            p + n <= total,
            i <= n,
            forall|j: int| 0 <= j < i ==> s@[p + j] == lit@[j],
        decreases n - i,
    {
        if s[p + i] != lit[i] {
            proof {
                assert(s@.subrange(p as int, p + n)[i as int] == s@[p + i]);
            }
            return false;
        }
        i = i + 1;
    }
    proof {
        assert(s@.subrange(p as int, p + n) =~= lit@);
    }
    true
}

/// Finds where the run of decimal digits that starts at `p` ends.
pub(crate) fn scan_digits(s: &[u8], p: usize) -> (r: usize)
    requires
        p <= s@.len(),
    ensures
        r == digits_end(s@, p as int),
        p <= r <= s@.len(),
{
    let mut i: usize = p;
    while i < s.len() && s[i] >= 48 && s[i] <= 57
        invariant
            p <= i <= s@.len(),
            digits_end(s@, p as int) == digits_end(s@, i as int),
        decreases s@.len() - i,
    {
        i = i + 1;
    }
    i
}

/// Finds the end of the line that starts at `p`: the next line feed, or the end of `s`.
pub(crate) fn scan_line(s: &[u8], p: usize) -> (r: usize)
    requires
        p <= s@.len(),
    ensures
        r == p + line_end(s@.subrange(p as int, s@.len() as int)),
        p <= r <= s@.len(),
{
    let mut i: usize = p;
    proof {
        lemma_line_end(s@.subrange(p as int, s@.len() as int));
    }
    while i < s.len() && s[i] != 10
        invariant
            p <= i <= s@.len(),
            p + line_end(s@.subrange(p as int, s@.len() as int)) == i + line_end(
                s@.subrange(i as int, s@.len() as int),
            ),
        decreases s@.len() - i,
    {
        proof {
            let t = s@.subrange(i as int, s@.len() as int);
            assert(t[0] == s@[i as int]);
            assert(t.drop_first() =~= s@.subrange(i + 1, s@.len() as int));
        }
        i = i + 1;
    }
    proof {
        let t = s@.subrange(i as int, s@.len() as int);
        if i < s@.len() {
            assert(t[0] == s@[i as int]);
        }
    }
    i
}

/// The piece `s[from..to]`.
pub(crate) fn piece(s: &[u8], from: usize, to: usize) -> (r: &[u8])
    requires
        from <= to <= s@.len(),
    ensures
        r@ == s@.subrange(from as int, to as int),
{
    slice_subrange(s, from, to)
}

/// The lines of a text that is not empty: its first line, and the lines of
/// what follows the line feed.
pub proof fn lemma_lines_unfold(s: Seq<u8>)
    requires
        s.len() > 0,
    ensures
        line_end(s) <= s.len(),
        lines_of(s).len() > 0,
        lines_of(s)[0] == s.subrange(0, line_end(s) as int),
        line_end(s) < s.len() ==> lines_of(s).drop_first() == lines_of(
            s.subrange(line_end(s) as int + 1, s.len() as int),
        ),
        line_end(s) == s.len() ==> lines_of(s).drop_first() == Seq::<Seq<u8>>::empty(),
{
    lemma_line_end(s);
    let k = line_end(s);
    if k >= s.len() {
        assert(s.subrange(0, k as int) =~= s);
        assert(lines_of(s).drop_first() =~= Seq::<Seq<u8>>::empty());
    } else {
        let rest = lines_of(s.subrange(k as int + 1, s.len() as int));
        assert(lines_of(s) == seq![s.subrange(0, k as int)] + rest);
        assert(lines_of(s).drop_first() =~= rest);
    }
}

/// A line without a line feed, closed by one, ends where the line feed stands.
pub proof fn lemma_line_end_closed(line: Seq<u8>, rest: Seq<u8>)
    requires
        forall|i: int| 0 <= i < line.len() ==> #[trigger] line[i] != 10,
    ensures
        line_end(line + seq![10u8] + rest) == line.len(),
    decreases line.len(),
{
    let text = line + seq![10u8] + rest;
    if line.len() == 0 {
        assert(text[0] == 10);
    } else {
        assert(text[0] == line[0]);
        let shorter = line.drop_first();
        assert(text.drop_first() =~= shorter + seq![10u8] + rest);
        assert forall|i: int| 0 <= i < shorter.len() implies #[trigger] shorter[i] != 10 by {
            assert(shorter[i] == line[i + 1]);
        }
        lemma_line_end_closed(shorter, rest);
    }
}

/// The lines of a text that opens with a closed line: that line, then the
/// lines of what follows.
pub proof fn lemma_lines_cons(line: Seq<u8>, rest: Seq<u8>)
    requires
        forall|i: int| 0 <= i < line.len() ==> #[trigger] line[i] != 10,
    ensures
        lines_of(line + seq![10u8] + rest) == seq![line] + lines_of(rest),
{
    let text = line + seq![10u8] + rest;
    lemma_line_end_closed(line, rest);
    let k = line_end(text);
    assert(text.subrange(0, k as int) =~= line);
    assert(text.subrange(k as int + 1, text.len() as int) =~= rest);
}

/// None of the lines holds a line feed.
pub open spec fn plain_lines(lines: Seq<Seq<u8>>) -> bool {
    forall|k: int, i: int|
        0 <= k < lines.len() && 0 <= i < lines[k].len() ==> (#[trigger] lines[k][i]) != 10
}

/// The text made of the lines, each closed by a line feed.
pub open spec fn joined(lines: Seq<Seq<u8>>) -> Seq<u8>
    decreases lines.len(),
{
    if lines.len() == 0 {
        Seq::empty()
    } else {
        lines[0] + seq![10u8] + joined(lines.drop_first())
    }
}

/// A text made of lines has these lines, and no others.
pub proof fn lemma_lines_of_joined(lines: Seq<Seq<u8>>)
    requires
        plain_lines(lines),
    ensures
        lines_of(joined(lines)) == lines,
    decreases lines.len(),
{
    if lines.len() == 0 {
        assert(lines_of(joined(lines)) =~= lines);
    } else {
        let rest = lines.drop_first();
        assert forall|k: int, i: int|
            0 <= k < rest.len() && 0 <= i < rest[k].len() implies (#[trigger] rest[k][i])
            != 10 by {
            assert(rest[k] == lines[k + 1]);
            assert(lines[k + 1][i] != 10);
        }
        lemma_lines_of_joined(rest);
        assert forall|i: int| 0 <= i < lines[0].len() implies #[trigger] lines[0][i] != 10 by {}
        lemma_lines_cons(lines[0], joined(rest));
        assert(seq![lines[0]] + rest =~= lines);
    }
}

} // verus!
