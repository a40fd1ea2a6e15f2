use crate::parser::{parse_log, parse_spec, ParseError};
use crate::series::{has_time, is_finalized};
use crate::store::{encode_spec, serialize};
use crate::strings::{all_white, blank};
use crate::types::TargetSeries;
use vstd::prelude::*;
use vstd::string::StringSliceAdditionalSpecFns;
use vstd::utf8::encode_utf8;

verus! {

/// How the pipeline of one task ended.
#[derive(Clone, Debug, PartialEq, Eq)]
pub enum TaskOutcome {
    /// The process could not be started.
    SpawnFailed,
    /// The process wrote nothing but white space.
    NoOutput,
    /// The output could not be parsed.
    ParseFailed(ParseError),
    /// The output was parsed and holds no sample.
    NoSamples,
    /// The output gave this series, to be stored as this artifact.
    Stored { series: TargetSeries, artifact: Vec<u8> },
    /// The output gave a series, and its artifact could not be written.
    StoreFailed,
}

/// What the pipeline of task `id` owes for the captured output `output`, or
/// for none where the process did not start. The output is parsed as the
/// bytes that spell it.
pub open spec fn outcome_spec(id: Seq<char>, output: Option<Seq<char>>, r: TaskOutcome) -> bool {
    match output {
        None => r is SpawnFailed,
        Some(text) => if all_white(text) {
            r is NoOutput
        } else {
            match parse_spec(encode_utf8(text)) {
                Err(fault) => r is ParseFailed && r->ParseFailed_0.fault == fault
                    && r->ParseFailed_0.contract_id@ == id,
                Ok(samples) => if samples.len() == 0 {
                    r is NoSamples
                } else {
                    &&& r is Stored
                    &&& r->series.contract_id@ == id
                    &&& r->series.samples@.len() > 0
                    &&& is_finalized(samples, r->series.samples@)
                    &&& r->artifact@ == encode_spec(r->series.samples@)
                },
            }
        },
    }
}

/// Runs the part of a task's pipeline that follows the process: parses the
/// captured output and, where it holds samples, makes the series and its
/// artifact. `captured` is `None` where the process could not be started.
pub fn task_outcome(contract_id: &str, captured: Option<&str>) -> (r: TaskOutcome)
    ensures
        outcome_spec(
            contract_id@,
            match captured {
                None => None,
                Some(text) => Some(text@),
            },
            r,
        ),
{
    let text = match captured {
        None => {
            return TaskOutcome::SpawnFailed;
        },
        Some(text) => text,
    };
    if blank(text) {
        return TaskOutcome::NoOutput;
    }
    match parse_log(text, contract_id) {
        Err(error) => TaskOutcome::ParseFailed(error),
        Ok(samples) => {
            proof {
                let parsed = parse_spec(text.spec_bytes())->Ok_0;
                if parsed.len() > 0 {
                    assert(has_time(samples@, parsed[0].time_taken_millis));
                }
            }
            if samples.len() == 0 {
                TaskOutcome::NoSamples
            } else {
                let artifact = serialize(&samples);
                TaskOutcome::Stored {
                    series: TargetSeries { contract_id: contract_id.to_owned(), samples },
                    artifact,
                }
            }
        },
    }
}

/// The final series of the tasks that succeeded, each under its target's
/// name: series are added and never taken out.
pub struct ResultSet {
    entries: Vec<TargetSeries>,
}

impl View for ResultSet {
    type V = Seq<TargetSeries>;

    closed spec fn view(&self) -> Seq<TargetSeries> {
        self.entries@
    }
}

/// Where the series of target `id` stands in `s`, if it is there.
pub open spec fn holds_at(s: Seq<TargetSeries>, id: Seq<char>, i: int) -> bool {
    0 <= i < s.len() && s[i].contract_id@ == id
}

/// No two series of `s` belong to the same target.
pub open spec fn distinct_ids(s: Seq<TargetSeries>) -> bool {
    forall|i: int, j: int|
        0 <= i < j < s.len() ==> (#[trigger] s[i]).contract_id@ != (#[trigger] s[j]).contract_id@
}

/// `after` is `before` with `series` put in: in place of the series that
/// `before` holds for the same target, or else behind all the others.
pub open spec fn inserted(before: Seq<TargetSeries>, series: TargetSeries, after: Seq<TargetSeries>) -> bool {
    &&& forall|i: int|
        holds_at(before, series.contract_id@, i) ==> after == before.update(i, series)
    &&& (forall|i: int| !holds_at(before, series.contract_id@, i)) ==> after == before.push(
        series,
    )
}

impl ResultSet {
    /// What holds of a result set at all times: one series for a target at most.
    pub open spec fn wf(&self) -> bool {
        distinct_ids(self@)
    }

    /// A result set without series.
    pub fn new() -> (r: ResultSet)
        ensures
            r.wf(),
            r@.len() == 0,
    {
        ResultSet { entries: Vec::new() }
    }

    /// Puts in the series of a target: in place of the one the set holds for
    /// that target, or else behind all the others.
    pub fn insert(&mut self, series: TargetSeries)
        requires
            old(self).wf(),
        ensures
            final(self).wf(),
            inserted(old(self)@, series, final(self)@),
            final(self)@.len() >= old(self)@.len(),
    {
        let ghost before = self.entries@;
        let mut i: usize = 0;
        while i < self.entries.len()
            invariant
                i <= self.entries@.len(),
                self.entries@ == before,
                before == old(self)@,
                distinct_ids(before),
                forall|j: int| 0 <= j < i ==> !holds_at(before, series.contract_id@, j),
            decreases self.entries@.len() - i,
        {
            if self.entries[i].contract_id == series.contract_id {
                self.entries.set(i, series);
                proof {
                    let after = self.entries@;
                    assert forall|a: int, b: int| 0 <= a < b < after.len() implies (
                    #[trigger] after[a]).contract_id@ != (#[trigger] after[b]).contract_id@ by {
                        assert(before[a].contract_id@ != before[b].contract_id@);
                    }
                    assert forall|k: int|
                        holds_at(before, series.contract_id@, k) implies after == before.update(
                        k,
                        series,
                    ) by {
                        if k < i {
                            assert(before[k].contract_id@ != before[i as int].contract_id@);
                        } else if k > i {
                            assert(before[i as int].contract_id@ != before[k].contract_id@);
                        }
                        assert(k == i);
                        assert(after =~= before.update(k, series));
                    }
                    assert(holds_at(before, series.contract_id@, i as int));
                    assert(inserted(before, series, after));
                }
                return ;
            }
            i = i + 1;
        }
        self.entries.push(series);
        proof {
            let after = self.entries@;
            assert forall|a: int, b: int| 0 <= a < b < after.len() implies (
            #[trigger] after[a]).contract_id@ != (#[trigger] after[b]).contract_id@ by {
                if b < before.len() {
                    assert(before[a].contract_id@ != before[b].contract_id@);
                } else {
                    assert(!holds_at(before, series.contract_id@, a));
                }
            }
        }
    }

    /// Takes note of how a task ended: its series joins the set where the
    /// task gave one, and any other outcome leaves the set as it is.
    pub fn record(&mut self, outcome: TaskOutcome)
        requires
            old(self).wf(),
        ensures
            final(self).wf(),
            !(outcome is Stored) ==> final(self)@ == old(self)@,
            outcome is Stored ==> inserted(old(self)@, outcome->series, final(self)@),
            final(self)@.len() >= old(self)@.len(),
    {
        match outcome {
            TaskOutcome::Stored { series, artifact } => {
                self.insert(series);
            },
            _ => {},
        }
    }

    /// How many series the set holds.
    pub fn len(&self) -> (r: usize)
        ensures
            r == self@.len(),
    {
        self.entries.len()
    }

    /// The series of the set, in the order in which their targets came in.
    pub fn series(&self) -> (r: &Vec<TargetSeries>)
        ensures
            r@ == self@,
    {
        &self.entries
    }
}

} // verus!
