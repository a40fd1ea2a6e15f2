use crate::aggregate::{aggregate, has_point, is_global_series, occurs, sample_time};
use crate::types::{GlobalPoint, TargetSeries};
use vstd::prelude::*;

verus! {

/// What the reporter gets: the global series, and the largest value on each
/// of its two axes, from which it scales them.
#[derive(Clone, Debug, PartialEq, Eq)]
pub struct Report {
    pub points: Vec<GlobalPoint>,
    pub max_time_millis: u64,
    pub max_instructions: u128,
}

/// `m` is the largest aggregate among the points.
pub open spec fn is_max_aggregate(points: Seq<GlobalPoint>, m: u128) -> bool {
    &&& exists|p: int| 0 <= p < points.len() && (#[trigger] points[p]).aggregate_instructions == m
    &&& forall|p: int| 0 <= p < points.len() ==> (#[trigger] points[p]).aggregate_instructions <= m
}

/// `m` is the largest event time among the points.
pub open spec fn is_max_time(points: Seq<GlobalPoint>, m: u64) -> bool {
    &&& exists|p: int| 0 <= p < points.len() && (#[trigger] points[p]).event_time_millis == m
    &&& forall|p: int| 0 <= p < points.len() ==> (#[trigger] points[p]).event_time_millis <= m
}

/// Aggregates the series of all targets for the reporter; there is nothing
/// to report, and nothing is to be written, where no target has a sample.
pub fn plan_report(all: &Vec<TargetSeries>) -> (r: Option<Report>)
    ensures
        r is None <==> forall|t: u64| !occurs(all@, t),
        all@.len() == 0 ==> r is None,
        r is Some ==> {
            let report = r->0;
            &&& is_global_series(all@, report.points@)
            &&& is_max_time(report.points@, report.max_time_millis)
            &&& is_max_aggregate(report.points@, report.max_instructions)
        },
{
    let points = aggregate(all);
    if points.len() == 0 {
        proof {
            assert forall|t: u64| !occurs(all@, t) by {
                if occurs(all@, t) {
                    let (k, i) = choose|k: int, i: int|
                        0 <= k < all@.len() && 0 <= i < all@[k].samples@.len()
                            && #[trigger] sample_time(all@, k, i) == t;
                    assert(has_point(points@, sample_time(all@, k, i)));
                }
            }
        }
        return None;
    }
    proof {
        assert(occurs(all@, points@[0].event_time_millis));
    }
    let mut max_time: u64 = points[0].event_time_millis;
    let mut max_instructions: u128 = points[0].aggregate_instructions;
    let mut p: usize = 1;
    proof {
        let first = points@.subrange(0, 1);
        assert(first[0] == points@[0]);
    }
    while p < points.len()
        invariant
            1 <= p <= points@.len(),
            is_max_time(points@.subrange(0, p as int), max_time),
            is_max_aggregate(points@.subrange(0, p as int), max_instructions),
        decreases points@.len() - p,
    {
        let point = points[p];
        let ghost shorter = points@.subrange(0, p as int);
        let ghost longer = points@.subrange(0, p + 1);
        proof {
            let wt = choose|w: int|
                0 <= w < shorter.len() && (#[trigger] shorter[w]).event_time_millis == max_time;
            let wa = choose|w: int|
                0 <= w < shorter.len() && (#[trigger] shorter[w]).aggregate_instructions
                    == max_instructions;
            assert(longer[wt] == shorter[wt]);
            assert(longer[wa] == shorter[wa]);
            assert(longer[p as int] == point);
            assert forall|q: int| 0 <= q < p implies longer[q] == shorter[q] by {}
        }
        if point.event_time_millis > max_time {
            max_time = point.event_time_millis;
        }
        if point.aggregate_instructions > max_instructions {
            max_instructions = point.aggregate_instructions;
        }
        proof {
            assert forall|q: int| 0 <= q < longer.len() implies (
            #[trigger] longer[q]).event_time_millis <= max_time by {
                if q < p {
                    assert(longer[q] == shorter[q]);
                }
            }
            assert forall|q: int| 0 <= q < longer.len() implies (
            #[trigger] longer[q]).aggregate_instructions <= max_instructions by {
                if q < p {
                    assert(longer[q] == shorter[q]);
                }
            }
        }
        p = p + 1;
    }
    proof {
        assert(points@.subrange(0, p as int) =~= points@);
        if all@.len() == 0 {
            assert(occurs(all@, points@[0].event_time_millis));
        }
    }
    Some(Report { points, max_time_millis: max_time, max_instructions })
}

} // verus!
