use crate::series::strictly_ascending;
use crate::types::{GlobalPoint, StatsEntry, TargetSeries};
use vstd::prelude::*;

verus! {

/// The time of sample `i` of series `k`.
pub open spec fn sample_time(all: Seq<TargetSeries>, k: int, i: int) -> u64 {
    all[k].samples@[i].time_taken_millis
}

/// `t` is an event time: some sample of some series was taken at `t`.
pub open spec fn occurs(all: Seq<TargetSeries>, t: u64) -> bool {
    exists|k: int, i: int|
        0 <= k < all.len() && 0 <= i < all[k].samples@.len() && #[trigger] sample_time(all, k, i)
            == t
}

/// Sample `i` is the latest observation of `s` at time `t`: taken at or before
/// `t`, and no other sample at or before `t` was taken later; of samples taken
/// at the same time, it is the last in `s`.
pub open spec fn is_latest(s: Seq<StatsEntry>, t: u64, i: int) -> bool {
    &&& 0 <= i < s.len()
    &&& s[i].time_taken_millis <= t
    &&& forall|j: int|
        0 <= j < s.len() && (#[trigger] s[j]).time_taken_millis <= t ==> {
            ||| s[j].time_taken_millis < s[i].time_taken_millis
            ||| (s[j].time_taken_millis == s[i].time_taken_millis && j <= i)
        }
}

/// What one series contributes at time `t`: the instructions covered as of its
/// latest observation at or before `t`, or nothing if it has none by then.
pub open spec fn carried(s: Seq<StatsEntry>, t: u64) -> nat {
    if exists|i: int| is_latest(s, t, i) {
        s[choose|i: int| is_latest(s, t, i)].instructions_covered as nat
    } else {
        0
    }
}

/// What the first `n` series contribute at time `t`, all together.
pub open spec fn total_upto(all: Seq<TargetSeries>, t: u64, n: int) -> nat
    decreases n,
{
    if n <= 0 {
        0
    } else {
        total_upto(all, t, n - 1) + carried(all[n - 1].samples@, t)
    }
}

/// The aggregate at time `t`: what all the series contribute.
pub open spec fn total_at(all: Seq<TargetSeries>, t: u64) -> nat {
    total_upto(all, t, all.len() as int)
}

/// The points stand in strictly ascending order of time.
pub open spec fn ascending_points(out: Seq<GlobalPoint>) -> bool {
    forall|p: int, q: int|
        0 <= p < q < out.len() ==> (#[trigger] out[p]).event_time_millis < (
        #[trigger] out[q]).event_time_millis
}

/// Some point of `out` stands at time `t`.
pub open spec fn has_point(out: Seq<GlobalPoint>, t: u64) -> bool {
    exists|p: int| 0 <= p < out.len() && (#[trigger] out[p]).event_time_millis == t
}

/// `out` is the global series of `all`: one point for each event time, in
/// ascending order, each with the aggregate at its time.
pub open spec fn is_global_series(all: Seq<TargetSeries>, out: Seq<GlobalPoint>) -> bool {
    &&& ascending_points(out)
    &&& forall|p: int|
        0 <= p < out.len() ==> occurs(all, (#[trigger] out[p]).event_time_millis)
            && out[p].aggregate_instructions == total_at(all, out[p].event_time_millis)
    &&& forall|k: int, i: int|
        0 <= k < all.len() && 0 <= i < all[k].samples@.len() ==> has_point(
            out,
            #[trigger] sample_time(all, k, i),
        )
}

/// The times stand in strictly ascending order.
pub open spec fn ascending_times(times: Seq<u64>) -> bool {
    forall|p: int, q: int| 0 <= p < q < times.len() ==> #[trigger] times[p] < #[trigger] times[q]
}

/// Puts `t` at its place among the times, unless it is among them already.
pub fn insert_time(times: &mut Vec<u64>, t: u64)
    requires
        ascending_times(old(times)@),
    ensures
        ascending_times(final(times)@),
        forall|x: u64| final(times)@.contains(x) <==> old(times)@.contains(x) || x == t,
{
    let ghost before = times@;
    let mut k: usize = times.len();
    while k > 0 && times[k - 1] > t
        invariant
            k <= times@.len(),
            times@ == before,
            forall|i: int| k <= i < times@.len() ==> #[trigger] times@[i] > t,
        decreases k,
    {
        k = k - 1;
    }
    if k > 0 && times[k - 1] == t {
        proof {
            assert(before.contains(t)) by {
                assert(before[k - 1] == t);
            }
        }
    } else {
        times.insert(k, t);
        proof {
            let after = times@;
            assert forall|i: int| 0 <= i < k implies #[trigger] before[i] < t by {
                if i < k - 1 {
                    assert(before[i] < before[k - 1]);
                }
            }
            assert forall|p: int, q: int| 0 <= p < q < after.len() implies #[trigger] after[p]
                < #[trigger] after[q] by {
                let p_old = if p < k {
                    p
                } else {
                    p - 1
                };
                let q_old = if q < k {
                    q
                } else {
                    q - 1
                };
                if p != k {
                    assert(after[p] == before[p_old]);
                }
                if q != k {
                    assert(after[q] == before[q_old]);
                }
            }
            assert forall|x: u64| after.contains(x) <==> before.contains(x) || x == t by {
                if after.contains(x) {
                    let p = choose|p: int| 0 <= p < after.len() && after[p] == x;
                    if p < k {
                        assert(before[p] == x);
                    } else if p > k {
                        assert(before[p - 1] == x);
                    }
                }
                if before.contains(x) {
                    let p = choose|p: int| 0 <= p < before.len() && before[p] == x;
                    let p_new = if p < k {
                        p
                    } else {
                        p + 1
                    };
                    assert(after[p_new] == x);
                }
                if x == t {
                    assert(after[k as int] == x);
                }
            }
        }
    }
}

/// `t` is the time of a sample of one of the first `k` series, or of one of
/// the first `i` samples of series `k`.
pub open spec fn occurs_before(all: Seq<TargetSeries>, k: int, i: int, t: u64) -> bool {
    exists|a: int, b: int|
        0 <= a < all.len() && 0 <= b < all[a].samples@.len() && (a < k || (a == k && b < i))
            && #[trigger] sample_time(all, a, b) == t
}

/// The event times of the series, in ascending order, each once.
pub fn event_times(all: &Vec<TargetSeries>) -> (times: Vec<u64>)
    ensures
        ascending_times(times@),
        forall|x: u64| times@.contains(x) <==> occurs(all@, x),
{
    let mut times: Vec<u64> = Vec::new();
    let mut k: usize = 0;
    while k < all.len()
        invariant
            k <= all@.len(),
            ascending_times(times@),
            forall|x: u64| times@.contains(x) <==> occurs_before(all@, k as int, 0, x),
        decreases all@.len() - k,
    {
        let series = &all[k].samples;
        let mut i: usize = 0;
        while i < series.len()
            invariant
                k < all@.len(),
                series@ == all@[k as int].samples@,
                i <= series@.len(),
                ascending_times(times@),
                forall|x: u64| times@.contains(x) <==> occurs_before(all@, k as int, i as int, x),
            decreases series@.len() - i,
        {
            let t: u64 = series[i].time_taken_millis;
            let ghost before = times@;
            insert_time(&mut times, t);
            proof {
                assert(sample_time(all@, k as int, i as int) == t);
                assert forall|x: u64| times@.contains(x) <==> occurs_before(
                    all@,
                    k as int,
                    i + 1,
                    x,
                ) by {
                    if occurs_before(all@, k as int, i + 1, x) {
                        let (a, b) = choose|a: int, b: int|
                            0 <= a < all@.len() && 0 <= b < all@[a].samples@.len() && (a < k || (a
                                == k && b < i + 1)) && #[trigger] sample_time(all@, a, b) == x;
                        if a == k && b == i {
                        } else {
                            assert(sample_time(all@, a, b) == x);
                            assert(occurs_before(all@, k as int, i as int, x));
                        }
                    }
                    if before.contains(x) {
                        assert(occurs_before(all@, k as int, i as int, x));
                        let (a, b) = choose|a: int, b: int|
                            0 <= a < all@.len() && 0 <= b < all@[a].samples@.len() && (a < k || (a
                                == k && b < i)) && #[trigger] sample_time(all@, a, b) == x;
                        assert(sample_time(all@, a, b) == x);
                    }
                }
            }
            i = i + 1;
        }
        proof {
            assert forall|x: u64| times@.contains(x) <==> occurs_before(all@, k + 1, 0, x) by {
                if occurs_before(all@, k + 1, 0, x) {
                    let (a, b) = choose|a: int, b: int|
                        0 <= a < all@.len() && 0 <= b < all@[a].samples@.len() && (a < k + 1 || (a
                            == k + 1 && b < 0)) && #[trigger] sample_time(all@, a, b) == x;
                    assert(sample_time(all@, a, b) == x);
                    assert(occurs_before(all@, k as int, i as int, x));
                }
                if occurs_before(all@, k as int, i as int, x) {
                    let (a, b) = choose|a: int, b: int|
                        0 <= a < all@.len() && 0 <= b < all@[a].samples@.len() && (a < k || (a == k
                            && b < i)) && #[trigger] sample_time(all@, a, b) == x;
                    assert(sample_time(all@, a, b) == x);
                }
            }
        }
        k = k + 1;
    }
    proof {
        assert forall|x: u64| times@.contains(x) <==> occurs(all@, x) by {
            if occurs(all@, x) {
                let (a, b) = choose|a: int, b: int|
                    0 <= a < all@.len() && 0 <= b < all@[a].samples@.len() && #[trigger] sample_time(
                        all@,
                        a,
                        b,
                    ) == x;
                assert(sample_time(all@, a, b) == x);
                assert(occurs_before(all@, k as int, 0, x));
            }
            if occurs_before(all@, k as int, 0, x) {
                let (a, b) = choose|a: int, b: int|
                    0 <= a < all@.len() && 0 <= b < all@[a].samples@.len() && (a < k || (a == k
                        && b < 0)) && #[trigger] sample_time(all@, a, b) == x;
                assert(sample_time(all@, a, b) == x);
            }
        }
    }
    times
}

/// The instructions that one series has covered as of time `t`: last
/// observation carried forward, and nothing before the first.
pub fn carried_forward(series: &Vec<StatsEntry>, t: u64) -> (r: u64)
    ensures
        r == carried(series@, t),
{
    let mut best: Option<usize> = None;
    let mut j: usize = 0;
    while j < series.len()
        invariant
            j <= series@.len(),
            match best {
                None => forall|m: int| 0 <= m < j ==> (#[trigger] series@[m]).time_taken_millis > t,
                Some(b) => is_latest(series@.subrange(0, j as int), t, b as int),
            },
        decreases series@.len() - j,
    {
        let e = series[j];
        let ghost shorter = series@.subrange(0, j as int);
        let ghost longer = series@.subrange(0, j + 1);
        if e.time_taken_millis <= t {
            let better = match best {
                None => true,
                Some(b) => series[b].time_taken_millis <= e.time_taken_millis,
            };
            if better {
                proof {
                    assert forall|m: int|
                        0 <= m < longer.len() && (#[trigger] longer[m]).time_taken_millis
                            <= t implies longer[m].time_taken_millis < longer[j as int].time_taken_millis
                        || (longer[m].time_taken_millis == longer[j as int].time_taken_millis && m
                        <= j) by {
                        if m < j {
                            assert(shorter[m] == longer[m]);
                            if best is Some {
                                assert(shorter[best->0 as int] == series@[best->0 as int]);
                            }
                        }
                    }
                }
                best = Some(j);
            } else {
                proof {
                    let b = best->0 as int;
                    assert(shorter[b] == longer[b]);
                    assert forall|m: int|
                        0 <= m < longer.len() && (#[trigger] longer[m]).time_taken_millis
                            <= t implies longer[m].time_taken_millis < longer[b].time_taken_millis || (
                    longer[m].time_taken_millis == longer[b].time_taken_millis && m <= b) by {
                        if m < j {
                            assert(shorter[m] == longer[m]);
                        }
                    }
                }
            }
        } else {
            proof {
                if best is Some {
                    let b = best->0 as int;
                    assert(shorter[b] == longer[b]);
                    assert forall|m: int|
                        0 <= m < longer.len() && (#[trigger] longer[m]).time_taken_millis
                            <= t implies longer[m].time_taken_millis < longer[b].time_taken_millis || (
                    longer[m].time_taken_millis == longer[b].time_taken_millis && m <= b) by {
                        if m < j {
                            assert(shorter[m] == longer[m]);
                        }
                    }
                }
            }
        }
        j = j + 1;
    }
    proof {
        assert(series@.subrange(0, j as int) =~= series@);
    }
    match best {
        None => {
            proof {
                assert forall|i: int| !is_latest(series@, t, i) by {
                    if 0 <= i < series@.len() {
                        assert(series@[i].time_taken_millis > t);
                    }
                }
            }
            0
        },
        Some(b) => {
            proof {
                let c = choose|c: int| is_latest(series@, t, c);
                assert(is_latest(series@, t, b as int));
                assert(series@[b as int].time_taken_millis <= t);
                assert(series@[c].time_taken_millis <= t);
                assert(c == b);
            }
            series[b].instructions_covered
        },
    }
}

/// In a series sorted by time, the observation carried forward to `t` is the
/// sample that stands last among those taken at or before `t`.
pub proof fn lemma_carried_in_sorted_series(s: Seq<StatsEntry>, t: u64, i: int)
    requires
        strictly_ascending(s),
        0 <= i < s.len(),
        s[i].time_taken_millis <= t,
        i + 1 == s.len() || s[i + 1].time_taken_millis > t,
    ensures
        carried(s, t) == s[i].instructions_covered,
{
    assert forall|j: int|
        0 <= j < s.len() && (#[trigger] s[j]).time_taken_millis <= t implies s[j].time_taken_millis
        < s[i].time_taken_millis || (s[j].time_taken_millis == s[i].time_taken_millis && j
        <= i) by {
        if j > i {
            if j > i + 1 {
                assert(s[i + 1].time_taken_millis < s[j].time_taken_millis);
            }
        } else if j < i {
            assert(s[j].time_taken_millis < s[i].time_taken_millis);
        }
    }
    assert(is_latest(s, t, i));
    let c = choose|c: int| is_latest(s, t, c);
    assert(s[c].time_taken_millis <= t);
    assert(c == i);
}

/// Before its first sample, a series sorted by time contributes nothing.
pub proof fn lemma_nothing_carried_before_first(s: Seq<StatsEntry>, t: u64)
    requires
        strictly_ascending(s),
        s.len() == 0 || s[0].time_taken_millis > t,
    ensures
        carried(s, t) == 0,
{
    assert forall|i: int| !is_latest(s, t, i) by {
        if 0 < i < s.len() {
            assert(s[0].time_taken_millis < s[i].time_taken_millis);
        }
    }
}

/// What the first `n` series contribute stays within `n` times the largest count.
proof fn lemma_total_bound(all: Seq<TargetSeries>, t: u64, n: int)
    requires
        0 <= n,
    ensures
        total_upto(all, t, n) <= n * u64::MAX,
    decreases n,
{
    if n > 0 {
        lemma_total_bound(all, t, n - 1);
    }
}

/// The aggregate at time `t`: the sum over all series of what each has covered
/// as of `t`.
pub fn aggregate_at(all: &Vec<TargetSeries>, t: u64) -> (sum: u128)
    ensures
        sum == total_at(all@, t),
{
    let mut sum: u128 = 0;
    let mut k: usize = 0;
    while k < all.len()
        invariant
            k <= all@.len(),
            sum == total_upto(all@, t, k as int),
        decreases all@.len() - k,
    {
        let c: u64 = carried_forward(&all[k].samples, t);
        proof {
            lemma_total_bound(all@, t, k as int);
            assert(k * u64::MAX + u64::MAX <= usize::MAX * u64::MAX) by (nonlinear_arith)
                requires
                    k < usize::MAX,
            ;
        }
        sum = sum + c as u128;
        k = k + 1;
    }
    sum
}

/// Merges the series of all targets into the global series: for each time at
/// which any target was sampled, in ascending order, the sum over all targets
/// of the instructions covered as of that time.
pub fn aggregate(all: &Vec<TargetSeries>) -> (out: Vec<GlobalPoint>)
    ensures
        is_global_series(all@, out@),
        all@.len() == 0 ==> out@.len() == 0,
{
    let times = event_times(all);
    let mut out: Vec<GlobalPoint> = Vec::new();
    let mut p: usize = 0;
    while p < times.len()
        invariant
            p <= times@.len(),
            out@.len() == p,
            forall|x: u64| times@.contains(x) <==> occurs(all@, x),
            forall|q: int|
                0 <= q < p ==> (#[trigger] out@[q]).event_time_millis == times@[q]
                    && out@[q].aggregate_instructions == total_at(all@, times@[q]),
        decreases times@.len() - p,
    {
        let t: u64 = times[p];
        let sum: u128 = aggregate_at(all, t);
        out.push(GlobalPoint { event_time_millis: t, aggregate_instructions: sum });
        p = p + 1;
    }
    proof {
        assert forall|q: int| 0 <= q < out@.len() implies occurs(
            all@,
            (#[trigger] out@[q]).event_time_millis,
        ) by {
            assert(times@.contains(times@[q]));
        }
        assert forall|k: int, i: int|
            0 <= k < all@.len() && 0 <= i < all@[k].samples@.len() implies has_point(
            out@,
            #[trigger] sample_time(all@, k, i),
        ) by {
            let t = sample_time(all@, k, i);
            assert(occurs(all@, t));
            assert(times@.contains(t));
            let q = choose|q: int| 0 <= q < times@.len() && times@[q] == t;
            assert(out@[q].event_time_millis == t);
        }
        if all@.len() == 0 && out@.len() > 0 {
            assert(occurs(all@, out@[0].event_time_millis));
        }
    }
    out
}

/// Two global series of the same targets agree up to their common length.
proof fn lemma_global_agree(all: Seq<TargetSeries>, a: Seq<GlobalPoint>, b: Seq<GlobalPoint>, n: int)
    requires
        is_global_series(all, a),
        is_global_series(all, b),
        0 <= n <= a.len(),
        n <= b.len(),
    ensures
        a.subrange(0, n) == b.subrange(0, n),
    decreases n,
{
    if n == 0 {
        assert(a.subrange(0, 0) =~= b.subrange(0, 0));
    } else {
        lemma_global_agree(all, a, b, n - 1);
        let m = n - 1;
        assert forall|i: int| 0 <= i < m implies a[i] == b[i] by {
            assert(a.subrange(0, m)[i] == b.subrange(0, m)[i]);
        }
        let x = a[m];
        let y = b[m];
        // The time of a[m] is an event time, so b has a point there; and so the other way.
        assert(occurs(all, x.event_time_millis));
        let (kx, ix) = choose|k: int, i: int|
            0 <= k < all.len() && 0 <= i < all[k].samples@.len() && #[trigger] sample_time(all, k, i)
                == x.event_time_millis;
        assert(has_point(b, sample_time(all, kx, ix)));
        let ib = choose|p: int|
            0 <= p < b.len() && (#[trigger] b[p]).event_time_millis == x.event_time_millis;
        assert(occurs(all, y.event_time_millis));
        let (ky, iy) = choose|k: int, i: int|
            0 <= k < all.len() && 0 <= i < all[k].samples@.len() && #[trigger] sample_time(all, k, i)
                == y.event_time_millis;
        assert(has_point(a, sample_time(all, ky, iy)));
        let ia = choose|p: int|
            0 <= p < a.len() && (#[trigger] a[p]).event_time_millis == y.event_time_millis;
        if ib < m {
            assert(a[ib] == b[ib]);
            assert(a[ib].event_time_millis < a[m].event_time_millis);
        }
        if ia < m {
            assert(a[ia] == b[ia]);
            assert(b[ia].event_time_millis < b[m].event_time_millis);
        }
        if ib > m {
            assert(b[m].event_time_millis < b[ib].event_time_millis);
            if ia > m {
                assert(a[m].event_time_millis < a[ia].event_time_millis);
            }
        }
        assert(x.event_time_millis == y.event_time_millis);
        assert(x.aggregate_instructions == y.aggregate_instructions);
        assert(a.subrange(0, n) =~= b.subrange(0, n));
    }
}

/// Of two global series of the same targets, the second is no longer than the first.
proof fn lemma_global_no_longer(all: Seq<TargetSeries>, a: Seq<GlobalPoint>, b: Seq<GlobalPoint>)
    requires
        is_global_series(all, a),
        is_global_series(all, b),
    ensures
        b.len() <= a.len(),
{
    if a.len() < b.len() {
        let n = a.len() as int;
        lemma_global_agree(all, a, b, n);
        let y = b[n];
        assert(occurs(all, y.event_time_millis));
        let (ky, iy) = choose|k: int, i: int|
            0 <= k < all.len() && 0 <= i < all[k].samples@.len() && #[trigger] sample_time(all, k, i)
                == y.event_time_millis;
        assert(has_point(a, sample_time(all, ky, iy)));
        let ia = choose|p: int|
            0 <= p < a.len() && (#[trigger] a[p]).event_time_millis == y.event_time_millis;
        assert(a.subrange(0, n)[ia] == b.subrange(0, n)[ia]);
        assert(b[ia].event_time_millis < b[n].event_time_millis);
    }
}

/// The targets' series determine the global series: there is one and no
/// other, whatever the way it is computed.
pub proof fn lemma_global_series_unique(
    all: Seq<TargetSeries>,
    a: Seq<GlobalPoint>,
    b: Seq<GlobalPoint>,
)
    requires
        is_global_series(all, a),
        is_global_series(all, b),
    ensures
        a == b,
{
    lemma_global_no_longer(all, a, b);
    lemma_global_no_longer(all, b, a);
    lemma_global_agree(all, a, b, a.len() as int);
    assert(a.subrange(0, a.len() as int) =~= a);
    assert(b.subrange(0, b.len() as int) =~= b);
}

} // verus!
