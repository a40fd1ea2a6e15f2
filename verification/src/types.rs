use vstd::prelude::*;

verus! {

/// One coverage observation of one target, relative to that target's anchor.
#[derive(Clone, Copy, Debug, PartialEq, Eq, Structural)]
pub struct StatsEntry {
    pub instructions_covered: u64,
    pub branches_covered: u64,
    pub time_taken_millis: u64,
}

/// The final series of one target, under the target's name.
#[derive(Clone, Debug, PartialEq, Eq)]
pub struct TargetSeries {
    pub contract_id: String,
    pub samples: Vec<StatsEntry>,
}

/// One point of the global series: an event time, and what all targets
/// together had covered by then.
#[derive(Clone, Copy, Debug, PartialEq, Eq, Structural)]
pub struct GlobalPoint {
    pub event_time_millis: u64,
    pub aggregate_instructions: u128,
}

} // verus!
