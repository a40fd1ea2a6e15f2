use fuzz_analyzer::grammar::{scan_anchor, scan_coverage, CoverageLine, Scan};
use fuzz_analyzer::parser::{parse_log, parse_log_bytes, LogParser, ParseFault};
use fuzz_analyzer::types::StatsEntry;

fn entry(instructions: u64, branches: u64, time: u64) -> StatsEntry {
    StatsEntry {
        instructions_covered: instructions,
        branches_covered: branches,
        time_taken_millis: time,
    }
}

#[test]
fn empty_log_gives_an_empty_series() {
    assert_eq!(parse_log("", "c2"), Ok(vec![]));
}

#[test]
fn anchor_then_coverage_gives_relative_times() {
    let log = "INFO Ityfuzz start at 1749625856722\n\
               \u{1b}[32m INFO\u{1b}[0m Coverage stat: time-millis: 1749625856822 instructions: 957/2248 branches: 49/112\n\
               INFO Coverage stat: time-millis: 1749625857722 instructions: 1200/2248 branches: 60/112\n";
    assert_eq!(
        parse_log(log, "c1"),
        Ok(vec![entry(957, 49, 100), entry(1200, 60, 1000)])
    );
}

#[test]
fn samples_come_out_sorted_by_time() {
    let log = "Ityfuzz start at 100\n\
               Coverage stat: time-millis: 400 instructions: 3/9 branches: 3/9\n\
               Coverage stat: time-millis: 200 instructions: 1/9 branches: 1/9\n\
               Coverage stat: time-millis: 300 instructions: 2/9 branches: 2/9\n";
    assert_eq!(
        parse_log(log, "c1"),
        Ok(vec![entry(1, 1, 100), entry(2, 2, 200), entry(3, 3, 300)])
    );
}

#[test]
fn of_two_samples_with_one_timestamp_the_first_stays() {
    let log = "Ityfuzz start at 1000\n\
               Coverage stat: time-millis: 1500 instructions: 5/10 branches: 2/4\n\
               Coverage stat: time-millis: 1200 instructions: 1/10 branches: 1/4\n\
               Coverage stat: time-millis: 1500 instructions: 9/10 branches: 3/4\n";
    let series = parse_log(log, "c1").unwrap();
    assert_eq!(series, vec![entry(1, 1, 200), entry(5, 2, 500)]);
    assert!(series.len() <= 3);
}

#[test]
fn coverage_before_the_anchor_is_an_ordering_violation() {
    let log = "Ityfuzz start at 1000\n\
               Coverage stat: time-millis: 1500 instructions: 5/10 branches: 2/4\n\
               Coverage stat: time-millis: 999 instructions: 6/10 branches: 2/4\n\
               Coverage stat: time-millis: 998 instructions: 7/10 branches: 2/4\n";
    let error = parse_log(log, "task-7").unwrap_err();
    assert_eq!(error.contract_id, "task-7");
    assert_eq!(
        error.fault,
        ParseFault::OrderingViolation { timestamp_millis: 999, anchor_millis: 1000 }
    );
}

#[test]
fn coverage_that_waits_is_settled_when_the_anchor_comes() {
    let log = "Coverage stat: time-millis: 1500 instructions: 5/10 branches: 2/4\n\
               Ityfuzz start at 1000\n\
               Coverage stat: time-millis: 1600 instructions: 6/10 branches: 3/4\n";
    assert_eq!(parse_log(log, "c1"), Ok(vec![entry(5, 2, 500), entry(6, 3, 600)]));
}

#[test]
fn coverage_that_waits_fails_when_the_anchor_lies_after_it() {
    let log = "Coverage stat: time-millis: 900 instructions: 5/10 branches: 2/4\n\
               Ityfuzz start at 1000\n";
    let error = parse_log(log, "c1").unwrap_err();
    assert_eq!(
        error.fault,
        ParseFault::OrderingViolation { timestamp_millis: 900, anchor_millis: 1000 }
    );
}

#[test]
fn coverage_without_any_anchor_is_an_error() {
    let log = "Coverage stat: time-millis: 1500 instructions: 5/10 branches: 2/4\n";
    let error = parse_log(log, "lonely").unwrap_err();
    assert_eq!(error.fault, ParseFault::AnchorMissing);
    assert_eq!(error.contract_id, "lonely");
}

#[test]
fn text_without_anchor_or_coverage_gives_an_empty_series() {
    assert_eq!(parse_log("warming up\nstill warming up\n", "c1"), Ok(vec![]));
    assert_eq!(parse_log("\n\n", "c1"), Ok(vec![]));
}

#[test]
fn only_the_first_anchor_counts() {
    let log = "Ityfuzz start at 1000\n\
               Ityfuzz start at 2000\n\
               Coverage stat: time-millis: 1500 instructions: 5/10 branches: 2/4\n";
    assert_eq!(parse_log(log, "c1"), Ok(vec![entry(5, 2, 500)]));
}

#[test]
fn a_line_may_carry_anchor_and_coverage() {
    let log = "Ityfuzz start at 1000 Coverage stat: time-millis: 1001 instructions: 5/10 branches: 2/4";
    assert_eq!(parse_log(log, "c1"), Ok(vec![entry(5, 2, 1)]));
}

#[test]
fn a_number_beyond_64_bits_is_an_error() {
    let log = "Ityfuzz start at 18446744073709551616\n";
    assert_eq!(parse_log(log, "c1").unwrap_err().fault, ParseFault::NumberOutOfRange);
    let log = "Ityfuzz start at 1\n\
               Coverage stat: time-millis: 5 instructions: 18446744073709551616/1 branches: 2/4\n";
    assert_eq!(parse_log(log, "c1").unwrap_err().fault, ParseFault::NumberOutOfRange);
}

#[test]
fn the_largest_64_bit_number_is_read() {
    let log = "Ityfuzz start at 0\n\
               Coverage stat: time-millis: 18446744073709551615 instructions: 18446744073709551615/1 branches: 0/4\n";
    assert_eq!(
        parse_log(log, "c1"),
        Ok(vec![entry(18446744073709551615, 0, 18446744073709551615)])
    );
}

#[test]
fn the_last_line_needs_no_line_feed() {
    let log = "Ityfuzz start at 10\nCoverage stat: time-millis: 15 instructions: 5/10 branches: 2/4";
    assert_eq!(parse_log_bytes(log.as_bytes()), Ok(vec![entry(5, 2, 5)]));
}

#[test]
fn carriage_returns_do_no_harm() {
    let log = "Ityfuzz start at 10\r\nCoverage stat: time-millis: 15 instructions: 5/10 branches: 2/4\r\n";
    assert_eq!(parse_log(log, "c1"), Ok(vec![entry(5, 2, 5)]));
}

#[test]
fn scan_anchor_reads_the_last_marker_of_a_line() {
    assert_eq!(scan_anchor(b"Ityfuzz start at 12 and Ityfuzz start at 34!"), Scan::Found(34));
    assert_eq!(scan_anchor(b"INFO Ityfuzz start at 1749625856722"), Scan::Found(1749625856722));
    assert_eq!(scan_anchor(b"Ityfuzz start at x"), Scan::Absent);
    assert_eq!(scan_anchor(b"Ityfuzz start at "), Scan::Absent);
    assert_eq!(scan_anchor(b"start at 1000"), Scan::Found(1000));
    assert_eq!(scan_anchor(b"start at1000"), Scan::Absent);
    assert_eq!(scan_anchor(b"Start at 1000"), Scan::Absent);
    assert_eq!(scan_anchor(b""), Scan::Absent);
    assert_eq!(scan_anchor(b"Ityfuzz start at 99999999999999999999"), Scan::OutOfRange);
    assert_eq!(scan_anchor(b"Ityfuzz start at 007"), Scan::Found(7));
}

#[test]
fn scan_coverage_reads_the_four_numbers() {
    assert_eq!(
        scan_coverage(b"x Coverage stat: time-millis: 10 instructions: 957/2248 branches: 49/112 y"),
        Scan::Found(CoverageLine {
            timestamp_millis: 10,
            instructions_covered: 957,
            total_instructions: 2248,
            branches_covered: 49,
        })
    );
    assert_eq!(
        scan_coverage(b"Coverage stat: time-millis: 10 instructions: 957/2248 branches: 49/"),
        Scan::Absent
    );
    assert_eq!(
        scan_coverage(b"Coverage stat: time-millis: 10 instructions: 957 branches: 49/112"),
        Scan::Absent
    );
    assert_eq!(
        scan_coverage(b"Coverage stat: time-millis: 10 instructions: 1/99999999999999999999 branches: 49/112"),
        Scan::OutOfRange
    );
    assert_eq!(
        scan_coverage(b"Coverage stat: time-millis: 10 instructions: 1/2 branches: 3/99999999999999999999"),
        Scan::Found(CoverageLine {
            timestamp_millis: 10,
            instructions_covered: 1,
            total_instructions: 2,
            branches_covered: 3,
        })
    );
}

#[test]
fn the_parser_can_be_fed_line_by_line() {
    let parser = LogParser::new();
    let parser = parser.feed(b"Ityfuzz start at 5").unwrap();
    let parser = parser
        .feed(b"Coverage stat: time-millis: 9 instructions: 1/2 branches: 3/4")
        .unwrap();
    assert_eq!(parser.finish(), Ok(vec![entry(1, 3, 4)]));
    let parser = LogParser::new();
    let parser = parser
        .feed(b"Coverage stat: time-millis: 9 instructions: 1/2 branches: 3/4")
        .unwrap();
    assert_eq!(parser.finish(), Err(ParseFault::AnchorMissing));
}
