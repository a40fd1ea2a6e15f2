use crate::types::StatsEntry;
use vstd::prelude::*;

verus! {

/// The samples stand in strictly ascending order of time: sorted, and no time twice.
pub open spec fn strictly_ascending(s: Seq<StatsEntry>) -> bool {
    forall|i: int, j: int|
        0 <= i < j < s.len() ==> (#[trigger] s[i]).time_taken_millis < (
        #[trigger] s[j]).time_taken_millis
}

/// No two samples of `s` were taken at the same time.
pub open spec fn times_differ(s: Seq<StatsEntry>) -> bool {
    forall|i: int, j: int|
        0 <= i < j < s.len() ==> (#[trigger] s[i]).time_taken_millis != (
        #[trigger] s[j]).time_taken_millis
}

/// Some sample of `s` was taken at time `t`.
pub open spec fn has_time(s: Seq<StatsEntry>, t: u64) -> bool {
    exists|i: int| 0 <= i < s.len() && (#[trigger] s[i]).time_taken_millis == t
}

/// `s[j]` is the first sample of `s` with its time.
pub open spec fn is_first_at(s: Seq<StatsEntry>, j: int) -> bool {
    &&& 0 <= j < s.len()
    &&& forall|k: int| 0 <= k < j ==> (#[trigger] s[k]).time_taken_millis != s[j].time_taken_millis
}

/// `e` is, among the samples of `s` with its time, the first.
pub open spec fn is_first_of(s: Seq<StatsEntry>, e: StatsEntry) -> bool {
    exists|j: int| is_first_at(s, j) && #[trigger] s[j] == e
}

/// `out` is the final series of the samples `input`: in ascending order of
/// time, one sample for each time that occurs in `input`, and that one the
/// first of its time in `input`.
pub open spec fn is_finalized(input: Seq<StatsEntry>, out: Seq<StatsEntry>) -> bool {
    &&& strictly_ascending(out)
    &&& forall|i: int| 0 <= i < out.len() ==> is_first_of(input, #[trigger] out[i])
    &&& forall|j: int|
        0 <= j < input.len() ==> has_time(out, (#[trigger] input[j]).time_taken_millis)
}

/// Two samples that are each the first of the same time are one sample.
proof fn lemma_first_of_same_time(s: Seq<StatsEntry>, a: StatsEntry, b: StatsEntry)
    requires
        is_first_of(s, a),
        is_first_of(s, b),
        a.time_taken_millis == b.time_taken_millis,
    ensures
        a == b,
{
    let ja = choose|j: int| is_first_at(s, j) && #[trigger] s[j] == a;
    let jb = choose|j: int| is_first_at(s, j) && #[trigger] s[j] == b;
    if ja < jb {
        assert(s[ja].time_taken_millis != s[jb].time_taken_millis);
    } else if jb < ja {
        assert(s[jb].time_taken_millis != s[ja].time_taken_millis);
    }
}

/// In a final series, every sample before position `n` of the other final
/// series has a time below that of any sample from `n` on: so the two agree
/// up to their common length.
proof fn lemma_finalized_agree(input: Seq<StatsEntry>, a: Seq<StatsEntry>, b: Seq<StatsEntry>, n: int)
    requires
        is_finalized(input, a),
        is_finalized(input, b),
        0 <= n <= a.len(),
        n <= b.len(),
    ensures
        a.subrange(0, n) == b.subrange(0, n),
    decreases n,
{
    if n == 0 {
        assert(a.subrange(0, 0) =~= b.subrange(0, 0));
    } else {
        lemma_finalized_agree(input, a, b, n - 1);
        let m = n - 1;
        assert forall|i: int| 0 <= i < m implies a[i] == b[i] by {
            assert(a.subrange(0, m)[i] == b.subrange(0, m)[i]);
        }
        // The time of a[m] occurs in b, and that of b[m] in a.
        let x = a[m];
        let y = b[m];
        assert(is_first_of(input, x));
        let jx = choose|j: int| is_first_at(input, j) && #[trigger] input[j] == x;
        assert(has_time(b, input[jx].time_taken_millis));
        let ib = choose|i: int| 0 <= i < b.len() && (#[trigger] b[i]).time_taken_millis
            == x.time_taken_millis;
        assert(is_first_of(input, y));
        let jy = choose|j: int| is_first_at(input, j) && #[trigger] input[j] == y;
        assert(has_time(a, input[jy].time_taken_millis));
        let ia = choose|i: int| 0 <= i < a.len() && (#[trigger] a[i]).time_taken_millis
            == y.time_taken_millis;
        // Neither can stand before m: there the two series agree.
        if ib < m {
            assert(a[ib] == b[ib]);
            assert(a[ib].time_taken_millis < a[m].time_taken_millis);
        }
        if ia < m {
            assert(a[ia] == b[ia]);
            assert(b[ia].time_taken_millis < b[m].time_taken_millis);
        }
        if ib > m {
            assert(b[m].time_taken_millis < b[ib].time_taken_millis);
            if ia > m {
                assert(a[m].time_taken_millis < a[ia].time_taken_millis);
            }
        }
        assert(x.time_taken_millis == y.time_taken_millis);
        assert(is_first_of(input, b[m]));
        lemma_first_of_same_time(input, x, y);
        assert(a.subrange(0, n) =~= b.subrange(0, n));
    }
}

/// A final series is no longer than the samples it was made of, and shorter
/// only where two of them share a time.
pub proof fn lemma_finalized_len(input: Seq<StatsEntry>, out: Seq<StatsEntry>)
    requires
        is_finalized(input, out),
    ensures
        out.len() <= input.len(),
        times_differ(input) ==> out.len() == input.len(),
    decreases input.len(),
{
    if out.len() == 0 {
        if input.len() > 0 {
            assert(has_time(out, input[0].time_taken_millis));
        }
    } else {
        // Leave out the last sample of the input and, if it is in the series, its copy.
        assert(is_first_of(input, out[0]));
        let n = input.len() - 1;
        let last = input[n];
        let shorter = input.drop_last();
        assert(has_time(out, last.time_taken_millis));
        let i = choose|i: int| 0 <= i < out.len() && (#[trigger] out[i]).time_taken_millis
            == last.time_taken_millis;
        assert(is_first_of(input, out[i]));
        let j = choose|j: int| is_first_at(input, j) && #[trigger] input[j] == out[i];
        let rest = if j == n {
            out.remove(i)
        } else {
            out
        };
        assert(strictly_ascending(rest)) by {
            assert forall|a: int, b: int| 0 <= a < b < rest.len() implies (
            #[trigger] rest[a]).time_taken_millis < (#[trigger] rest[b]).time_taken_millis by {
                if j == n {
                    let a2 = if a < i {
                        a
                    } else {
                        a + 1
                    };
                    let b2 = if b < i {
                        b
                    } else {
                        b + 1
                    };
                    assert(rest[a] == out[a2] && rest[b] == out[b2]);
                }
            }
        }
        assert forall|k: int| 0 <= k < rest.len() implies is_first_of(
            shorter,
            #[trigger] rest[k],
        ) by {
            let k2 = if j == n && k >= i {
                k + 1
            } else {
                k
            };
            assert(rest[k] == out[k2]);
            assert(is_first_of(input, out[k2]));
            let w = choose|w: int| is_first_at(input, w) && #[trigger] input[w] == out[k2];
            if w == n {
                // Then out[k2] has the last sample's time, so k2 == i and j == n.
                if k2 < i {
                    assert(out[k2].time_taken_millis < out[i].time_taken_millis);
                } else if k2 > i {
                    assert(out[i].time_taken_millis < out[k2].time_taken_millis);
                }
                assert(k2 == i);
                if j < n {
                    assert(input[j].time_taken_millis != input[w].time_taken_millis);
                }
                assert(false);
            }
            assert(is_first_at(shorter, w)) by {
                assert forall|m: int| 0 <= m < w implies (
                #[trigger] shorter[m]).time_taken_millis != shorter[w].time_taken_millis by {
                    assert(input[m].time_taken_millis != input[w].time_taken_millis);
                }
            }
            assert(shorter[w] == rest[k]);
        }
        assert forall|m: int| 0 <= m < shorter.len() implies has_time(
            rest,
            (#[trigger] shorter[m]).time_taken_millis,
        ) by {
            assert(shorter[m] == input[m]);
            assert(has_time(out, input[m].time_taken_millis));
            let c = choose|c: int| 0 <= c < out.len() && (#[trigger] out[c]).time_taken_millis
                == input[m].time_taken_millis;
            if j == n {
                // input[n] is the first of its time, so input[m] has another.
                assert(input[m].time_taken_millis != input[n].time_taken_millis);
                assert(c != i);
                let c2 = if c < i {
                    c
                } else {
                    c - 1
                };
                assert(rest[c2] == out[c]);
            } else {
                assert(rest[c] == out[c]);
            }
        }
        lemma_finalized_len(shorter, rest);
        if times_differ(input) {
            assert(times_differ(shorter)) by {
                assert forall|a: int, b: int| 0 <= a < b < shorter.len() implies (
                #[trigger] shorter[a]).time_taken_millis != (
                #[trigger] shorter[b]).time_taken_millis by {
                    assert(input[a].time_taken_millis != input[b].time_taken_millis);
                }
            }
            if j < n {
                assert(input[j].time_taken_millis != input[n].time_taken_millis);
            }
        }
    }
}

/// Of two final series of the same samples, the second is no longer than the first.
proof fn lemma_finalized_no_longer(input: Seq<StatsEntry>, a: Seq<StatsEntry>, b: Seq<StatsEntry>)
    requires
        is_finalized(input, a),
        is_finalized(input, b),
    ensures
        b.len() <= a.len(),
{
    if a.len() < b.len() {
        // The sample of b that follows the common part has a time that a
        // holds too, in the common part: but there b holds lower times only.
        let n = a.len() as int;
        lemma_finalized_agree(input, a, b, n);
        let y = b[n];
        assert(is_first_of(input, y));
        let jy = choose|j: int| is_first_at(input, j) && #[trigger] input[j] == y;
        assert(has_time(a, input[jy].time_taken_millis));
        let ia = choose|i: int| 0 <= i < a.len() && (#[trigger] a[i]).time_taken_millis
            == y.time_taken_millis;
        assert(a.subrange(0, n)[ia] == b.subrange(0, n)[ia]);
        assert(b[ia].time_taken_millis < b[n].time_taken_millis);
    }
}

/// The samples `input` have one final series and no other.
pub proof fn lemma_finalized_unique(input: Seq<StatsEntry>, a: Seq<StatsEntry>, b: Seq<StatsEntry>)
    requires
        is_finalized(input, a),
        is_finalized(input, b),
    ensures
        a == b,
{
    lemma_finalized_no_longer(input, a, b);
    lemma_finalized_no_longer(input, b, a);
    lemma_finalized_agree(input, a, b, a.len() as int);
    assert(a.subrange(0, a.len() as int) =~= a);
    assert(b.subrange(0, b.len() as int) =~= b);
}

/// Puts one more sample into a final series: at its place in the order of
/// time, unless the series holds a sample of that time already.
fn absorb(out: &mut Vec<StatsEntry>, entry: StatsEntry, Ghost(input): Ghost<Seq<StatsEntry>>)
    requires
        is_finalized(input, old(out)@),
    ensures
        is_finalized(input.push(entry), final(out)@),
        final(out)@.len() <= old(out)@.len() + 1,
{
    let t: u64 = entry.time_taken_millis;
    let ghost before = out@;
    let ghost longer = input.push(entry);
    let mut k: usize = out.len();
    while k > 0 && out[k - 1].time_taken_millis > t
        invariant
            k <= out@.len(),
            out@ == before,
            forall|i: int| k <= i < out@.len() ==> (#[trigger] out@[i]).time_taken_millis > t,
        decreases k,
    {
        k = k - 1;
    }
    assert forall|j: int| is_first_at(input, j) implies is_first_at(longer, j) by {
        assert forall|m: int| 0 <= m < j implies (#[trigger] longer[m]).time_taken_millis
            != longer[j].time_taken_millis by {
            assert(input[m].time_taken_millis != input[j].time_taken_millis);
        }
    }
    assert forall|i: int| 0 <= i < before.len() implies is_first_of(
        longer,
        #[trigger] before[i],
    ) by {
        assert(is_first_of(input, before[i]));
        let j = choose|j: int| is_first_at(input, j) && #[trigger] input[j] == before[i];
        assert(is_first_at(longer, j) && longer[j] == before[i]);
    }
    if k > 0 && out[k - 1].time_taken_millis == t {
        proof {
            assert forall|j: int| 0 <= j < longer.len() implies has_time(
                before,
                (#[trigger] longer[j]).time_taken_millis,
            ) by {
                if j < input.len() {
                    assert(longer[j] == input[j]);
                } else {
                    assert(before[k - 1].time_taken_millis == t);
                }
            }
        }
    } else {
        out.insert(k, entry);
        proof {
            let after = out@;
            assert(after == before.insert(k as int, entry));
            assert forall|i: int| 0 <= i < k implies (#[trigger] before[i]).time_taken_millis
                < t by {
                if i < k - 1 {
                    assert(before[i].time_taken_millis < before[k - 1].time_taken_millis);
                }
            }
            assert forall|a: int, b: int| 0 <= a < b < after.len() implies (
            #[trigger] after[a]).time_taken_millis < (#[trigger] after[b]).time_taken_millis by {
                let a0 = if a < k {
                    a
                } else {
                    a - 1
                };
                let b0 = if b < k {
                    b
                } else {
                    b - 1
                };
                if a != k {
                    assert(after[a] == before[a0]);
                }
                if b != k {
                    assert(after[b] == before[b0]);
                }
            }
            // No sample of the input has the new time: it would stand in the series.
            assert(is_first_at(longer, input.len() as int)) by {
                assert forall|m: int| 0 <= m < input.len() implies (
                #[trigger] longer[m]).time_taken_millis != t by {
                    assert(longer[m] == input[m]);
                    assert(has_time(before, input[m].time_taken_millis));
                    let c = choose|c: int| 0 <= c < before.len() && (
                    #[trigger] before[c]).time_taken_millis == input[m].time_taken_millis;
                    if c < k {
                        assert(before[c].time_taken_millis < t);
                    } else {
                        assert(before[c].time_taken_millis > t);
                    }
                }
            }
            assert forall|i: int| 0 <= i < after.len() implies is_first_of(
                longer,
                #[trigger] after[i],
            ) by {
                if i == k {
                    assert(longer[input.len() as int] == entry);
                } else {
                    let i0 = if i < k {
                        i
                    } else {
                        i - 1
                    };
                    assert(after[i] == before[i0]);
                }
            }
            assert forall|j: int| 0 <= j < longer.len() implies has_time(
                after,
                (#[trigger] longer[j]).time_taken_millis,
            ) by {
                if j < input.len() {
                    assert(longer[j] == input[j]);
                    assert(has_time(before, input[j].time_taken_millis));
                    let c = choose|c: int| 0 <= c < before.len() && (
                    #[trigger] before[c]).time_taken_millis == input[j].time_taken_millis;
                    let c2 = if c < k {
                        c
                    } else {
                        c + 1
                    };
                    assert(after[c2] == before[c]);
                } else {
                    assert(after[k as int] == entry);
                }
            }
        }
    }
}

/// Makes the final series of the samples: sorted by time, and of the samples
/// of one time the first one only.
pub fn finalize(samples: &Vec<StatsEntry>) -> (out: Vec<StatsEntry>)
    ensures
        is_finalized(samples@, out@),
        out@.len() <= samples@.len(),
{
    let mut out: Vec<StatsEntry> = Vec::new();
    let mut n: usize = 0;
    while n < samples.len()
        invariant
            n <= samples@.len(),
            is_finalized(samples@.subrange(0, n as int), out@),
            out@.len() <= n,
        decreases samples@.len() - n,
    {
        proof {
            assert(samples@.subrange(0, n as int).push(samples@[n as int]) =~= samples@.subrange(
                0,
                n + 1,
            ));
        }
        absorb(&mut out, samples[n], Ghost(samples@.subrange(0, n as int)));
        n = n + 1;
    }
    proof {
        assert(samples@.subrange(0, n as int) =~= samples@);
    }
    out
}

} // verus!
