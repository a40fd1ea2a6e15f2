use fuzz_analyzer::aggregate::{aggregate, aggregate_at, carried_forward, event_times, insert_time};
use fuzz_analyzer::report::plan_report;
use fuzz_analyzer::series::finalize;
use fuzz_analyzer::types::{GlobalPoint, StatsEntry, TargetSeries};

fn entry(time: u64, instructions: u64) -> StatsEntry {
    StatsEntry { instructions_covered: instructions, branches_covered: 0, time_taken_millis: time }
}

fn target(id: &str, samples: Vec<StatsEntry>) -> TargetSeries {
    TargetSeries { contract_id: id.to_string(), samples }
}

fn point(time: u64, total: u128) -> GlobalPoint {
    GlobalPoint { event_time_millis: time, aggregate_instructions: total }
}

fn two_targets() -> Vec<TargetSeries> {
    vec![
        target("A", vec![entry(0, 10), entry(5000, 20)]),
        target("B", vec![entry(2000, 5), entry(8000, 15)]),
    ]
}

#[test]
fn two_targets_are_merged_with_the_last_observation_carried_forward() {
    let all = two_targets();
    assert_eq!(event_times(&all), vec![0, 2000, 5000, 8000]);
    assert_eq!(
        aggregate(&all),
        vec![point(0, 10), point(2000, 15), point(5000, 25), point(8000, 35)]
    );
}

#[test]
fn the_order_of_the_targets_does_not_matter() {
    let mut all = two_targets();
    all.reverse();
    assert_eq!(
        aggregate(&all),
        vec![point(0, 10), point(2000, 15), point(5000, 25), point(8000, 35)]
    );
}

#[test]
fn no_targets_give_an_empty_global_series() {
    assert_eq!(aggregate(&vec![]), vec![]);
    assert_eq!(plan_report(&vec![]), None);
}

#[test]
fn targets_without_samples_give_nothing_to_report() {
    let all = vec![target("A", vec![]), target("B", vec![])];
    assert_eq!(aggregate(&all), vec![]);
    assert_eq!(plan_report(&all), None);
}

#[test]
fn a_shared_event_time_gives_one_point() {
    let all = vec![
        target("A", vec![entry(100, 1), entry(200, 2)]),
        target("B", vec![entry(200, 10)]),
    ];
    assert_eq!(aggregate(&all), vec![point(100, 1), point(200, 12)]);
}

#[test]
fn a_count_that_falls_makes_the_aggregate_fall() {
    let all = vec![target("A", vec![entry(1, 10), entry(2, 4)]), target("B", vec![entry(1, 1)])];
    assert_eq!(aggregate(&all), vec![point(1, 11), point(2, 5)]);
}

#[test]
fn the_aggregate_does_not_overflow() {
    let all = vec![
        target("A", vec![entry(7, u64::MAX)]),
        target("B", vec![entry(7, u64::MAX)]),
        target("C", vec![entry(7, u64::MAX)]),
    ];
    assert_eq!(aggregate(&all), vec![point(7, 3 * (u64::MAX as u128))]);
}

#[test]
fn carried_forward_takes_the_latest_sample_at_or_before_the_time() {
    let series = vec![entry(10, 1), entry(20, 2), entry(30, 3)];
    assert_eq!(carried_forward(&series, 9), 0);
    assert_eq!(carried_forward(&series, 10), 1);
    assert_eq!(carried_forward(&series, 29), 2);
    assert_eq!(carried_forward(&series, 1000), 3);
    assert_eq!(carried_forward(&vec![], 5), 0);
    // Out of order, and one time twice: the latest time wins, and of equal times the last sample.
    let series = vec![entry(30, 3), entry(10, 1), entry(30, 4), entry(20, 2)];
    assert_eq!(carried_forward(&series, 30), 4);
    assert_eq!(carried_forward(&series, 25), 2);
}

#[test]
fn aggregate_at_sums_over_the_targets() {
    let all = two_targets();
    assert_eq!(aggregate_at(&all, 1999), 10);
    assert_eq!(aggregate_at(&all, 4999), 15);
    assert_eq!(aggregate_at(&all, 7999), 25);
    assert_eq!(aggregate_at(&all, u64::MAX), 35);
}

#[test]
fn insert_time_keeps_the_times_sorted_and_single() {
    let mut times = vec![];
    for t in [5u64, 1, 9, 5, 0, 9, 3] {
        insert_time(&mut times, t);
    }
    assert_eq!(times, vec![0, 1, 3, 5, 9]);
}

#[test]
fn the_report_carries_the_largest_values_of_both_axes() {
    let report = plan_report(&two_targets()).unwrap();
    assert_eq!(report.points.len(), 4);
    assert_eq!(report.max_time_millis, 8000);
    assert_eq!(report.max_instructions, 35);
    let falling = vec![target("A", vec![entry(1, 10), entry(2, 4)])];
    let report = plan_report(&falling).unwrap();
    assert_eq!(report.max_time_millis, 2);
    assert_eq!(report.max_instructions, 10);
    let zero = vec![target("A", vec![entry(0, 0)])];
    let report = plan_report(&zero).unwrap();
    assert_eq!(report.points, vec![point(0, 0)]);
    assert_eq!(report.max_time_millis, 0);
    assert_eq!(report.max_instructions, 0);
}

#[test]
fn finalize_sorts_and_keeps_the_first_of_each_time() {
    let samples = vec![entry(30, 3), entry(10, 1), entry(30, 4), entry(20, 2), entry(10, 9)];
    assert_eq!(finalize(&samples), vec![entry(10, 1), entry(20, 2), entry(30, 3)]);
    assert_eq!(finalize(&vec![]), vec![]);
}
