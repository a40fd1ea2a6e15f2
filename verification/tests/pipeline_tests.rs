use fuzz_analyzer::aggregate::aggregate;
use fuzz_analyzer::artifact::artifact_name;
use fuzz_analyzer::compile::{
    binaries_pattern, keeps_output, parse_list_line, solc_binary, CompileArgs, ListEntry, ListLine,
    PTXArgs,
};
use fuzz_analyzer::parser::ParseFault;
use fuzz_analyzer::pipeline::{task_outcome, ResultSet, TaskOutcome};
use fuzz_analyzer::strings::{blank, ends_with, starts_with};
use fuzz_analyzer::report::plan_report;
use fuzz_analyzer::runner::{
    artifact_pattern, benchmark_pattern, classify_exit, plan_task, ExitKind, PlotArgs, RunArgs,
};
use fuzz_analyzer::scheduler::{Action, Scheduler};
use fuzz_analyzer::store::deserialize;
use fuzz_analyzer::types::{GlobalPoint, StatsEntry, TargetSeries};

fn entry(instructions: u64, branches: u64, time: u64) -> StatsEntry {
    StatsEntry {
        instructions_covered: instructions,
        branches_covered: branches,
        time_taken_millis: time,
    }
}

#[test]
fn two_targets_end_to_end() {
    let c1 = "start at 1000\n\
              Coverage stat: time-millis: 1500 instructions: 5/100 branches: 2/10\n";
    let mut results = ResultSet::new();
    let mut written: Vec<(String, Vec<u8>)> = Vec::new();
    for (id, output) in [("c1", c1), ("c2", "")] {
        let outcome = task_outcome(id, Some(output));
        if let TaskOutcome::Stored { series, artifact } = &outcome {
            written.push((artifact_name(&series.contract_id), artifact.clone()));
        }
        results.record(outcome);
    }
    assert_eq!(written.len(), 1);
    assert_eq!(written[0].0, "c1.instructions.stats.csv");
    assert_eq!(
        String::from_utf8(written[0].1.clone()).unwrap(),
        "instructions_covered,branches_covered,time_taken_millis\n5,2,500\n"
    );
    assert_eq!(deserialize(&written[0].1), Ok(vec![entry(5, 2, 500)]));
    assert_eq!(results.len(), 1);
    assert_eq!(
        aggregate(results.series()),
        vec![GlobalPoint { event_time_millis: 500, aggregate_instructions: 5 }]
    );
    let report = plan_report(results.series()).unwrap();
    assert_eq!(report.max_time_millis, 500);
    assert_eq!(report.max_instructions, 5);
}

#[test]
fn each_way_a_task_can_end() {
    assert_eq!(task_outcome("t", None), TaskOutcome::SpawnFailed);
    assert_eq!(task_outcome("t", Some("")), TaskOutcome::NoOutput);
    assert_eq!(task_outcome("t", Some(" \t\r\n\n")), TaskOutcome::NoOutput);
    assert_eq!(task_outcome("t", Some("nothing of interest\n")), TaskOutcome::NoSamples);
    assert_eq!(task_outcome("t", Some("Ityfuzz start at 5\n")), TaskOutcome::NoSamples);
    match task_outcome("t", Some("Coverage stat: time-millis: 1 instructions: 1/1 branches: 1/1")) {
        TaskOutcome::ParseFailed(error) => {
            assert_eq!(error.contract_id, "t");
            assert_eq!(error.fault, ParseFault::AnchorMissing);
        }
        other => panic!("{:?}", other),
    }
    let log = "Ityfuzz start at 5\nCoverage stat: time-millis: 4 instructions: 1/1 branches: 1/1";
    match task_outcome("t", Some(log)) {
        TaskOutcome::ParseFailed(error) => {
            assert_eq!(
                error.fault,
                ParseFault::OrderingViolation { timestamp_millis: 4, anchor_millis: 5 }
            );
        }
        other => panic!("{:?}", other),
    }
}

#[test]
fn blank_knows_white_space() {
    assert!(blank(""));
    assert!(blank(" \t\n\x0b\x0c\r"));
    assert!(blank("\u{85}\u{a0}\u{1680}\u{2000}\u{200a}\u{2028}\u{2029}\u{202f}\u{205f}\u{3000}"));
    assert!(!blank(" x "));
    assert!(!blank("\0"));
    assert!(!blank("\u{200b}"));
    assert!(!blank("\u{1c}"));
}

#[test]
fn a_failed_task_leaves_the_results_as_they_are() {
    let mut results = ResultSet::new();
    results.insert(TargetSeries { contract_id: "a".to_string(), samples: vec![entry(1, 1, 1)] });
    results.record(TaskOutcome::SpawnFailed);
    results.record(TaskOutcome::NoOutput);
    results.record(TaskOutcome::NoSamples);
    results.record(TaskOutcome::StoreFailed);
    results.record(task_outcome("b", Some("Coverage stat: time-millis: 1 instructions: 1/1 branches: 1/1")));
    assert_eq!(results.len(), 1);
    assert_eq!(results.series()[0].contract_id, "a");
}

#[test]
fn a_target_has_one_series_in_the_results() {
    let mut results = ResultSet::new();
    results.insert(TargetSeries { contract_id: "a".to_string(), samples: vec![entry(1, 1, 1)] });
    results.insert(TargetSeries { contract_id: "b".to_string(), samples: vec![entry(2, 2, 2)] });
    results.insert(TargetSeries { contract_id: "a".to_string(), samples: vec![entry(3, 3, 3)] });
    assert_eq!(
        results.series(),
        &vec![
            TargetSeries { contract_id: "a".to_string(), samples: vec![entry(3, 3, 3)] },
            TargetSeries { contract_id: "b".to_string(), samples: vec![entry(2, 2, 2)] },
        ]
    );
}

#[test]
fn the_scheduler_keeps_within_its_budget_and_ends_at_the_barrier() {
    assert_eq!(Scheduler::new(3, 0), None);
    let mut scheduler = Scheduler::new(3, 2).unwrap();
    assert_eq!(scheduler.poll(), Action::Dispatch(0));
    assert_eq!(scheduler.poll(), Action::Dispatch(1));
    assert_eq!(scheduler.running(), 2);
    assert_eq!(scheduler.poll(), Action::Wait);
    scheduler.task_finished();
    assert_eq!(scheduler.poll(), Action::Dispatch(2));
    assert_eq!(scheduler.poll(), Action::Wait);
    scheduler.task_finished();
    assert_eq!(scheduler.poll(), Action::Wait);
    scheduler.task_finished();
    assert_eq!(scheduler.finished(), 3);
    assert_eq!(scheduler.running(), 0);
    assert_eq!(scheduler.poll(), Action::Done);
    assert_eq!(scheduler.poll(), Action::Done);
}

#[test]
fn a_scheduler_without_tasks_is_done_at_once() {
    let mut scheduler = Scheduler::new(0, 4).unwrap();
    assert_eq!(scheduler.poll(), Action::Done);
}

#[test]
fn a_driven_scheduler_runs_every_task_once() {
    let total = 10;
    let budget = 3;
    let mut scheduler = Scheduler::new(total, budget).unwrap();
    let mut running: Vec<usize> = Vec::new();
    let mut seen: Vec<usize> = Vec::new();
    loop {
        match scheduler.poll() {
            Action::Dispatch(index) => {
                running.push(index);
                seen.push(index);
                assert!(running.len() <= budget);
            }
            Action::Wait => {
                assert!(!running.is_empty());
                running.remove(0);
                scheduler.task_finished();
            }
            Action::Done => break,
        }
    }
    assert!(running.is_empty());
    assert_eq!(seen, (0..total).collect::<Vec<usize>>());
}

#[test]
fn exit_statuses_are_told_apart() {
    assert_eq!(classify_exit(true, Some(0)), ExitKind::Completed);
    assert_eq!(classify_exit(false, Some(124)), ExitKind::TimedOut);
    assert_eq!(classify_exit(false, Some(1)), ExitKind::Failed);
    assert_eq!(classify_exit(false, None), ExitKind::Failed);
}

#[test]
fn a_task_is_planned_from_the_arguments() {
    let args = RunArgs {
        fuzzer_path: "ityfuzz".to_string(),
        fuzzer_options: vec!["evm".to_string(), "--run-forever".to_string()],
        benchmark_base_dir: "b1".to_string(),
        output_dir: "analysis_output".to_string(),
        fuzz_timeout_seconds: 15,
        jobs: 4,
    };
    let task = plan_task(&args, "b1/2018-ab", "2018-ab", "2025-06-11_07-10-56");
    assert_eq!(task.contract_id, "2018-ab");
    assert_eq!(task.target, "b1/2018-ab/*");
    assert_eq!(
        task.arguments,
        vec![
            "evm",
            "--run-forever",
            "-t",
            "b1/2018-ab/*",
            "-w",
            ".work-dirs/2025-06-11_07-10-56/2018-ab"
        ]
    );
    assert_eq!(benchmark_pattern(&args), "b1/*");
    let plot = PlotArgs { output_dir: "analysis_output".to_string() };
    assert_eq!(artifact_pattern(&plot), "analysis_output/*.instructions.stats.csv");
}

#[test]
fn the_compiler_is_picked_and_outputs_are_filtered() {
    let mut args = CompileArgs {
        list_file: "B1.list".to_string(),
        solc_input_dir: "sol".to_string(),
        solc_output_dir: "b1".to_string(),
        solc_timeout_seconds: 30,
        solc_binary: None,
        generate_ptx: false,
    };
    assert_eq!(solc_binary(&args, None, "/home/u"), "solc");
    assert_eq!(
        solc_binary(&args, Some("0.4.25"), "/home/u"),
        "/home/u/.solc-select/artifacts/solc-0.4.25/solc-0.4.25"
    );
    args.solc_binary = Some("/opt/solc".to_string());
    assert_eq!(solc_binary(&args, Some("0.4.25"), "/home/u"), "/opt/solc");
    assert!(keeps_output("Token.bin", "Token"));
    assert!(keeps_output("Token.bin-runtime", "Token"));
    assert!(keeps_output("kernel.ptx", "Token"));
    assert!(!keeps_output("TokenSale.abi", "Token"));
    assert!(!keeps_output("SafeMath.bin", "Token"));
    assert!(!keeps_output("Token", "Token"));
    assert_eq!(binaries_pattern(&PTXArgs { solc_output_dir: "b1".to_string() }), "b1/*/*.bin");
}

fn list_entry(base: &str, main: &str, version: Option<&str>) -> ListLine {
    ListLine::Entry(ListEntry {
        sol_filename_base: base.to_string(),
        main_contract_name: main.to_string(),
        compiler_version: version.map(|v| v.to_string()),
    })
}

#[test]
fn lines_of_the_contract_list_are_read() {
    assert_eq!(parse_list_line(""), ListLine::Skipped);
    assert_eq!(parse_list_line("   \t "), ListLine::Skipped);
    assert_eq!(parse_list_line("# a comment, with a comma"), ListLine::Skipped);
    assert_eq!(parse_list_line("  #x,y"), ListLine::Skipped);
    assert_eq!(parse_list_line("Token"), ListLine::Malformed);
    assert_eq!(parse_list_line("Token,"), ListLine::Malformed);
    assert_eq!(parse_list_line(",Token"), ListLine::Malformed);
    assert_eq!(parse_list_line(" , ,0.4.25"), ListLine::Malformed);
    assert_eq!(parse_list_line("2018-1,Token"), list_entry("2018-1", "Token", None));
    assert_eq!(
        parse_list_line("  2018-1 ,\tToken , 0.4.25 \r"),
        list_entry("2018-1", "Token", Some("0.4.25"))
    );
    assert_eq!(parse_list_line("a,b,"), list_entry("a", "b", Some("")));
    assert_eq!(parse_list_line("a,b,c,d,e"), list_entry("a", "b", Some("c")));
    assert_eq!(parse_list_line("a b , c d"), list_entry("a b", "c d", None));
    assert_eq!(parse_list_line("\u{a0}a\u{2003},\u{3000}b"), list_entry("a", "b", None));
}

#[test]
fn prefixes_and_suffixes_are_told() {
    assert!(starts_with("Token.bin", "Token."));
    assert!(starts_with("Token.bin", ""));
    assert!(!starts_with("Tok", "Token"));
    assert!(ends_with("kernel.ptx", ".ptx"));
    assert!(ends_with("", ""));
    assert!(!ends_with("ptx", ".ptx"));
    assert!(!ends_with("kernel.ptx ", ".ptx"));
}
