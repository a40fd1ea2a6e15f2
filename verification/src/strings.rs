use vstd::prelude::*;
use vstd::std_specs::iter::IteratorSpec;
use vstd::string::StrSliceExecFns;

verus! {

/// `s` begins with `prefix`.
pub open spec fn has_prefix(s: Seq<char>, prefix: Seq<char>) -> bool {
    prefix.len() <= s.len() && s.subrange(0, prefix.len() as int) == prefix
}

/// `s` ends in `suffix`.
pub open spec fn has_suffix(s: Seq<char>, suffix: Seq<char>) -> bool {
    suffix.len() <= s.len() && s.subrange(s.len() - suffix.len(), s.len() as int) == suffix
}

/// Tells whether `part` stands in `s` from position `start` on.
fn matches_at(s: &str, start: usize, part: &str) -> (r: bool)
    requires
        start + part@.len() <= s@.len(),
    ensures
        r == (s@.subrange(start as int, start + part@.len()) == part@),
{
    let n: usize = s.unicode_len();
    let m: usize = part.unicode_len();
    let mut i: usize = 0;
    while i < m
        invariant
            n == s@.len(),
            m == part@.len(),
            start + m <= n,
            i <= m,
            forall|j: int| 0 <= j < i ==> s@[start + j] == part@[j],
        decreases m - i,
    {
        if s.get_char(start + i) != part.get_char(i) {
            proof {
                assert(s@.subrange(start as int, start + m)[i as int] == s@[start + i]);
            }
            return false;
        }
        i = i + 1;
    }
    proof {
        assert(s@.subrange(start as int, start + m) =~= part@);
    }
    true
}

/// Tells whether `s` begins with `prefix`.
pub fn starts_with(s: &str, prefix: &str) -> (r: bool)
    ensures
        r == has_prefix(s@, prefix@),
{
    let n: usize = s.unicode_len();
    let m: usize = prefix.unicode_len();
    if n < m {
        return false;
    }
    matches_at(s, 0, prefix)
}

/// Tells whether `s` ends in `suffix`.
pub fn ends_with(s: &str, suffix: &str) -> (r: bool)
    ensures
        r == has_suffix(s@, suffix@),
{
    let n: usize = s.unicode_len();
    let m: usize = suffix.unicode_len();
    if n < m {
        return false;
    }
    matches_at(s, n - m, suffix)
}

/// `s` without its last `count` characters.
pub(crate) fn without_tail(s: &str, count: usize) -> (r: String)
    requires
        count <= s@.len(),
    ensures
        r@ == s@.subrange(0, s@.len() - count),
{
    let n: usize = s.unicode_len();
    s.substring_char(0, n - count).to_owned()
}

/// A character of white space, as Unicode knows it.
pub open spec fn is_white(c: char) -> bool {
    ||| c == ' '
    ||| ('\u{9}' <= c && c <= '\u{d}')
    ||| c == '\u{85}'
    ||| c == '\u{a0}'
    ||| c == '\u{1680}'
    ||| ('\u{2000}' <= c && c <= '\u{200a}')
    ||| c == '\u{2028}'
    ||| c == '\u{2029}'
    ||| c == '\u{202f}'
    ||| c == '\u{205f}'
    ||| c == '\u{3000}'
}

/// How many characters of white space `s` begins with.
pub open spec fn leading_white(s: Seq<char>) -> nat
    decreases s.len(),
{
    if s.len() > 0 && is_white(s[0]) {
        1 + leading_white(s.drop_first())
    } else {
        0
    }
}

/// How many characters of white space `s` ends in.
pub open spec fn trailing_white(s: Seq<char>) -> nat
    decreases s.len(),
{
    if s.len() > 0 && is_white(s.last()) {
        1 + trailing_white(s.drop_last())
    } else {
        0
    }
}

/// `s` without the white space it begins with and ends in.
pub open spec fn trimmed(s: Seq<char>) -> Seq<char> {
    let rest = s.subrange(leading_white(s) as int, s.len() as int);
    rest.subrange(0, rest.len() - trailing_white(rest))
}

/// The position of the first `mark` in `s`, or the length of `s` if it has none.
pub open spec fn first_mark(s: Seq<char>, mark: char) -> nat
    decreases s.len(),
{
    if s.len() == 0 || s[0] == mark {
        0
    } else {
        1 + first_mark(s.drop_first(), mark)
    }
}

/// The first mark stands within the text, or at its end.
pub proof fn lemma_first_mark(s: Seq<char>, mark: char)
    ensures
        first_mark(s, mark) <= s.len(),
    decreases s.len(),
{
    if s.len() == 0 || s[0] == mark {
    } else {
        lemma_first_mark(s.drop_first(), mark);
    }
}

/// Tells whether a character is white space.
pub(crate) fn white(c: char) -> (r: bool)
    ensures
        r == is_white(c),
{
    c == ' ' || ('\u{9}' <= c && c <= '\u{d}') || c == '\u{85}' || c == '\u{a0}' || c
        == '\u{1680}' || ('\u{2000}' <= c && c <= '\u{200a}') || c == '\u{2028}' || c
        == '\u{2029}' || c == '\u{202f}' || c == '\u{205f}' || c == '\u{3000}'
}

/// The characters of a text.
pub(crate) fn chars_of(s: &str) -> (r: Vec<char>)
    ensures
        r@ == s@,
{
    let mut chars = s.chars();
    let mut out: Vec<char> = Vec::new();
    loop
        invariant
            out@.len() <= s@.len(),
            out@ == s@.subrange(0, out@.len() as int),
            chars.remaining() == s@.subrange(out@.len() as int, s@.len() as int),
        decreases s@.len() - out@.len(),
    {
        match chars.next() {
            None => {
                proof {
                    assert(s@.subrange(0, s@.len() as int) =~= s@);
                }
                return out;
            },
            Some(c) => {
                proof {
                    assert(s@.subrange(0, out@.len() as int).push(c) =~= s@.subrange(
                        0,
                        out@.len() as int + 1,
                    ));
                }
                out.push(c);
            },
        }
    }
}

/// The bounds of `v[from..to]` without the white space around it.
pub(crate) fn trim_span(v: &Vec<char>, from: usize, to: usize) -> (r: (usize, usize))
    requires
        from <= to <= v@.len(),
    ensures
        from <= r.0 <= r.1 <= to,
        v@.subrange(r.0 as int, r.1 as int) == trimmed(v@.subrange(from as int, to as int)),
{
    let ghost s = v@.subrange(from as int, to as int);
    let mut a: usize = from;
    while a < to && white(v[a])
        invariant
            from <= a <= to <= v@.len(),
            s == v@.subrange(from as int, to as int),
            a - from + leading_white(v@.subrange(a as int, to as int)) == leading_white(s),
        decreases to - a,
    {
        proof {
            let here = v@.subrange(a as int, to as int);
            assert(here[0] == v@[a as int]);
            assert(here.drop_first() =~= v@.subrange(a + 1, to as int));
        }
        a = a + 1;
    }
    proof {
        let here = v@.subrange(a as int, to as int);
        if a < to {
            assert(here[0] == v@[a as int]);
        }
        assert(leading_white(here) == 0);
        assert(s.subrange(leading_white(s) as int, s.len() as int) =~= here);
    }
    let ghost rest = v@.subrange(a as int, to as int);
    let mut b: usize = to;
    while b > a && white(v[b - 1])
        invariant
            a <= b <= to <= v@.len(),
            rest == v@.subrange(a as int, to as int),
            to - b + trailing_white(v@.subrange(a as int, b as int)) == trailing_white(rest),
        decreases b - a,
    {
        proof {
            let here = v@.subrange(a as int, b as int);
            assert(here.last() == v@[b - 1]);
            assert(here.drop_last() =~= v@.subrange(a as int, b - 1));
        }
        b = b - 1;
    }
    proof {
        let here = v@.subrange(a as int, b as int);
        if b > a {
            assert(here.last() == v@[b - 1]);
        }
        assert(trailing_white(here) == 0);
        assert(rest.subrange(0, rest.len() - trailing_white(rest)) =~= here);
    }
    (a, b)
}

/// Where the first `mark` of `v[from..to]` stands, or `to` if it has none.
pub(crate) fn find_mark(v: &Vec<char>, from: usize, to: usize, mark: char) -> (r: usize)
    requires
        from <= to <= v@.len(),
    ensures
        from <= r <= to,
        r == from + first_mark(v@.subrange(from as int, to as int), mark),
{
    let mut i: usize = from;
    while i < to && v[i] != mark
        invariant
            from <= i <= to <= v@.len(),
            i + first_mark(v@.subrange(i as int, to as int), mark) == from + first_mark(
                v@.subrange(from as int, to as int),
                mark,
            ),
        decreases to - i,
    {
        proof {
            let here = v@.subrange(i as int, to as int);
            assert(here[0] == v@[i as int]);
            assert(here.drop_first() =~= v@.subrange(i + 1, to as int));
        }
        i = i + 1;
    }
    proof {
        let here = v@.subrange(i as int, to as int);
        if i < to {
            assert(here[0] == v@[i as int]);
        }
    }
    i
}

/// The text of `s[from..to]`.
pub(crate) fn cut(s: &str, from: usize, to: usize) -> (r: String)
    requires
        from <= to <= s@.len(),
    ensures
        r@ == s@.subrange(from as int, to as int),
{
    s.substring_char(from, to).to_owned()
}

/// Every character of `s` is white space.
pub open spec fn all_white(s: Seq<char>) -> bool {
    forall|i: int| 0 <= i < s.len() ==> is_white(#[trigger] s[i])
}

/// Tells whether a text holds nothing but white space.
pub fn blank(s: &str) -> (r: bool)
    ensures
        r == all_white(s@),
{
    let mut chars = s.chars();
    let ghost mut seen: int = 0;
    loop
        invariant
            0 <= seen <= s@.len(),
            chars.remaining() == s@.subrange(seen, s@.len() as int),
            forall|i: int| 0 <= i < seen ==> is_white(#[trigger] s@[i]),
        decreases s@.len() - seen,
    {
        match chars.next() {
            None => {
                return true;
            },
            Some(c) => {
                if !white(c) {
                    return false;
                }
                proof {
                    seen = seen + 1;
                }
            },
        }
    }
}

} // verus!
