use vstd::prelude::*;
use vstd::string::StringExecFns;

verus! {

/// What the run of a benchmark is given.
#[derive(Clone, Debug, PartialEq, Eq)]
pub struct RunArgs {
    /// The fuzzer's executable.
    pub fuzzer_path: String,
    /// What the fuzzer is given before the target of a task.
    pub fuzzer_options: Vec<String>,
    /// The directory that holds one directory for each target.
    pub benchmark_base_dir: String,
    /// Where the artifacts go.
    pub output_dir: String,
    /// How long the fuzzer may run on one target, in seconds.
    pub fuzz_timeout_seconds: u64,
    /// How many tasks may run at a time.
    pub jobs: usize,
}

/// What a replay from stored artifacts is given.
#[derive(Clone, Debug, PartialEq, Eq)]
pub struct PlotArgs {
    /// Where the artifacts are, and where the report goes.
    pub output_dir: String,
}

/// One task: a target, where its data is, and what the fuzzer is called with.
#[derive(Clone, Debug, PartialEq, Eq)]
pub struct TargetTask {
    pub contract_id: String,
    pub target: String,
    pub arguments: Vec<String>,
}

/// How a process ended.
#[derive(Clone, Copy, Debug, PartialEq, Eq, Structural)]
pub enum ExitKind {
    /// It ran to its end and reported success.
    Completed,
    /// It was stopped because its time was up.
    TimedOut,
    /// It ended with another status, or by a signal.
    Failed,
}

/// The status with which the timeout guard reports that the time was up.
pub const TIMEOUT_STATUS: i32 = 124;

/// How a process ended, going by its exit status.
pub open spec fn exit_kind(success: bool, code: Option<i32>) -> ExitKind {
    if success {
        ExitKind::Completed
    } else if code == Some(TIMEOUT_STATUS) {
        ExitKind::TimedOut
    } else {
        ExitKind::Failed
    }
}

/// Tells how a process ended. However it ended, what it wrote is parsed.
pub fn classify_exit(success: bool, code: Option<i32>) -> (r: ExitKind)
    ensures
        r == exit_kind(success, code),
{
    if success {
        ExitKind::Completed
    } else {
        match code {
            Some(c) => if c == TIMEOUT_STATUS {
                ExitKind::TimedOut
            } else {
                ExitKind::Failed
            },
            None => ExitKind::Failed,
        }
    }
}

/// The pattern that selects everything directly inside `directory`.
pub open spec fn contents_pattern(directory: Seq<char>) -> Seq<char> {
    directory + "/*"@
}

/// Where the fuzzer keeps its working files for target `id`, in the run
/// that started at `stamp`.
pub open spec fn work_dir_spec(stamp: Seq<char>, id: Seq<char>) -> Seq<char> {
    ".work-dirs/"@ + stamp + "/"@ + id
}

/// What the fuzzer is called with for one target: the options, then the
/// target's data, then the working directory.
pub open spec fn arguments_spec(
    options: Seq<Seq<char>>,
    directory: Seq<char>,
    stamp: Seq<char>,
    id: Seq<char>,
) -> Seq<Seq<char>> {
    options + seq!["-t"@, contents_pattern(directory), "-w"@, work_dir_spec(stamp, id)]
}

/// The texts of a list of strings.
pub open spec fn texts(v: Seq<String>) -> Seq<Seq<char>> {
    Seq::new(v.len(), |i: int| v[i]@)
}

/// Makes the pattern that selects everything directly inside `directory`.
pub fn contents_of(directory: &str) -> (r: String)
    ensures
        r@ == contents_pattern(directory@),
{
    String::from_str(directory).concat("/*")
}

/// Makes the task of target `contract_id`, whose data is in `directory`,
/// for the run that started at `stamp`.
pub fn plan_task(args: &RunArgs, directory: &str, contract_id: &str, stamp: &str) -> (task:
    TargetTask)
    ensures
        task.contract_id@ == contract_id@,
        task.target@ == contents_pattern(directory@),
        texts(task.arguments@) == arguments_spec(
            texts(args.fuzzer_options@),
            directory@,
            stamp@,
            contract_id@,
        ),
{
    let mut arguments: Vec<String> = Vec::new();
    let mut i: usize = 0;
    while i < args.fuzzer_options.len()
        invariant
            i <= args.fuzzer_options@.len(),
            texts(arguments@) == texts(args.fuzzer_options@).subrange(0, i as int),
        decreases args.fuzzer_options@.len() - i,
    {
        let option = args.fuzzer_options[i].clone();
        let ghost before = arguments@;
        arguments.push(option);
        proof {
            assert(texts(arguments@) =~= texts(before).push(option@));
            assert(texts(args.fuzzer_options@).subrange(0, i + 1) =~= texts(
                args.fuzzer_options@,
            ).subrange(0, i as int).push(option@));
        }
        i = i + 1;
    }
    let target = contents_of(directory);
    let work_dir = String::from_str(".work-dirs/").concat(stamp).concat("/").concat(contract_id);
    let ghost options = arguments@;
    arguments.push(String::from_str("-t"));
    arguments.push(target.clone());
    arguments.push(String::from_str("-w"));
    arguments.push(work_dir);
    proof {
        assert(texts(options) =~= texts(args.fuzzer_options@));
        assert(texts(arguments@) =~= arguments_spec(
            texts(args.fuzzer_options@),
            directory@,
            stamp@,
            contract_id@,
        ));
    }
    TargetTask { contract_id: String::from_str(contract_id), target, arguments }
}

/// The pattern that selects the directories of all targets of a run.
pub fn benchmark_pattern(args: &RunArgs) -> (r: String)
    ensures
        r@ == contents_pattern(args.benchmark_base_dir@),
{
    contents_of(args.benchmark_base_dir.as_str())
}

/// The pattern that selects the stored artifacts of a replay.
pub fn artifact_pattern(args: &PlotArgs) -> (r: String)
    ensures
        r@ == args.output_dir@ + "/*"@ + crate::artifact::artifact_suffix(),
{
    contents_of(args.output_dir.as_str()).concat(".instructions.stats.csv")
}

} // verus!
