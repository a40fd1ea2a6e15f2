use vstd::prelude::*;

verus! {

/// An ASCII decimal digit.
pub open spec fn is_digit(b: u8) -> bool {
    48 <= b <= 57
}

/// Every byte of `s` is an ASCII decimal digit.
pub open spec fn all_digits(s: Seq<u8>) -> bool {
    forall|i: int| 0 <= i < s.len() ==> is_digit(#[trigger] s[i])
}

/// The number that a run of decimal digits denotes, most significant digit first.
pub open spec fn decimal_value(s: Seq<u8>) -> nat
    decreases s.len(),
{
    if s.len() == 0 {
        0
    } else {
        decimal_value(s.drop_last()) * 10 + (s.last() - 48) as nat
    }
}

/// The shortest decimal spelling of `n`: no sign, no leading zero but for `0` itself.
pub open spec fn decimal_digits(n: nat) -> Seq<u8>
    decreases n,
{
    if n < 10 {
        seq![(48 + n) as u8]
    } else {
        decimal_digits(n / 10).push((48 + n % 10) as u8)
    }
}

/// Reading the spelling of a number gives the number back.
pub proof fn lemma_decimal_round_trip(n: nat)
    ensures
        decimal_digits(n).len() >= 1,
        all_digits(decimal_digits(n)),
        decimal_value(decimal_digits(n)) == n,
    decreases n,
{
    if n < 10 {
        let s = decimal_digits(n);
        assert(s.len() == 1);
        assert(s[0] == (48 + n) as u8);
        assert(s.drop_last().len() == 0);
        assert(decimal_value(s.drop_last()) == 0);
    } else {
        lemma_decimal_round_trip(n / 10);
        let p = decimal_digits(n / 10);
        let s = decimal_digits(n);
        assert(s == p.push((48 + n % 10) as u8));
        assert(s.drop_last() =~= p);
        assert(s.last() == (48 + n % 10) as u8);
        assert forall|i: int| 0 <= i < s.len() implies is_digit(#[trigger] s[i]) by {
            if i < p.len() {
                assert(s[i] == p[i]);
            }
        }
    }
}

/// A digit run denotes at least what any of its prefixes denotes.
pub proof fn lemma_decimal_prefix_le(s: Seq<u8>, k: int)
    requires
        all_digits(s),
        0 <= k <= s.len(),
    ensures
        decimal_value(s.subrange(0, k)) <= decimal_value(s),
    decreases s.len() - k,
{
    if k == s.len() {
        assert(s.subrange(0, k) =~= s);
    } else {
        lemma_decimal_prefix_le(s, k + 1);
        let t = s.subrange(0, k + 1);
        assert(t.drop_last() =~= s.subrange(0, k));
        assert(is_digit(s[k]));
        assert(t.last() == s[k]);
    }
}

/// Reads the digit run `bytes[start..end]` as a `u64`; `None` when the number
/// does not fit.
pub(crate) fn parse_digits(bytes: &[u8], start: usize, end: usize) -> (r: Option<u64>)
    requires
        start <= end <= bytes@.len(),
        all_digits(bytes@.subrange(start as int, end as int)),
    ensures
        r is Some <==> decimal_value(bytes@.subrange(start as int, end as int)) <= u64::MAX,
        r is Some ==> r->0 == decimal_value(bytes@.subrange(start as int, end as int)),
{
    let ghost run = bytes@.subrange(start as int, end as int);
    let mut acc: u64 = 0;
    let mut i: usize = start;
    proof {
        assert(run.subrange(0, 0).len() == 0);
    }
    while i < end
        invariant
            start <= i <= end <= bytes@.len(),
            run == bytes@.subrange(start as int, end as int),
            all_digits(run),
            acc == decimal_value(run.subrange(0, i - start)),
        decreases end - i,
    {
        let b: u8 = bytes[i];
        proof {
            assert(run[i - start] == b);
            assert(is_digit(run[i - start]));
            let t = run.subrange(0, i - start + 1);
            assert(t.drop_last() =~= run.subrange(0, i - start));
            assert(t.last() == b);
            lemma_decimal_prefix_le(run, i - start + 1);
        }
        let d: u64 = (b - 48) as u64;
        if acc > (u64::MAX - d) / 10 {
            return None;
        }
        acc = acc * 10 + d;
        i = i + 1;
    }
    proof {
        assert(run.subrange(0, end - start) =~= run);
    }
    Some(acc)
}

/// Spells `n` in decimal and appends the digits to `out`.
pub fn push_decimal(out: &mut Vec<u8>, n: u64)
    ensures
        final(out)@ == old(out)@ + decimal_digits(n as nat),
{
    let mut rev: Vec<u8> = Vec::new();
    let mut m: u64 = n;
    // Least significant digit first, down to the leading one.
    while m >= 10
        invariant
            decimal_digits(n as nat) == decimal_digits(m as nat) + rev@.reverse(),
        decreases m,
    {
        let d: u8 = (48 + m % 10) as u8;
        proof {
            let ghost tail = rev@.reverse();
            assert(decimal_digits(m as nat) == decimal_digits((m / 10) as nat).push(d));
            assert(rev@.push(d).reverse() =~= seq![d] + tail);
            assert(decimal_digits((m / 10) as nat).push(d) + tail =~= decimal_digits(
                (m / 10) as nat,
            ) + (seq![d] + tail));
        }
        rev.push(d);
        m = m / 10;
    }
    let lead: u8 = (48 + m) as u8;
    let ghost before = out@;
    out.push(lead);
    let mut k: usize = rev.len();
    proof {
        assert(decimal_digits(m as nat) == seq![lead]);
        assert(rev@.reverse().subrange(0, 0) =~= Seq::<u8>::empty());
        assert(before.push(lead) =~= before + seq![lead] + rev@.reverse().subrange(0, 0));
    }
    while k > 0
        invariant
            k <= rev@.len(),
            out@ == before + seq![lead] + rev@.reverse().subrange(0, rev@.len() - k),
        decreases k,
    {
        k = k - 1;
        let b: u8 = rev[k];
        proof {
            let r = rev@.reverse();
            let j = rev@.len() - 1 - k;
            assert(r[j] == rev@[k as int]);
            assert(r.subrange(0, j + 1) =~= r.subrange(0, j).push(b));
            assert((before + seq![lead] + r.subrange(0, j)).push(b) =~= before + seq![lead]
                + r.subrange(0, j + 1));
        }
        out.push(b);
    }
    proof {
        let r = rev@.reverse();
        assert(r.subrange(0, rev@.len() as int) =~= r);
        assert(before + seq![lead] + r =~= before + (seq![lead] + r));
    }
}

} // verus!
