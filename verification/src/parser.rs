use crate::grammar::{line_anchor, line_coverage, scan_anchor, scan_coverage, CoverageLine, Scan};
use crate::series::{finalize, is_finalized, lemma_finalized_len, strictly_ascending, times_differ};
use crate::text::{
    joined, lemma_lines_of_joined, lemma_lines_unfold, line_end, lines_of, piece, plain_lines,
    scan_line,
};
use crate::types::StatsEntry;
use vstd::prelude::*;
use vstd::string::StringSliceAdditionalSpecFns;

verus! {

/// Why the output of one task could not be turned into a series.
#[derive(Clone, Copy, Debug, PartialEq, Eq, Structural)]
pub enum ParseFault {
    /// A coverage line carries a timestamp from before the anchor.
    OrderingViolation { timestamp_millis: u64, anchor_millis: u64 },
    /// There are coverage lines, and no anchor to measure them from.
    AnchorMissing,
    /// A number in an anchor or coverage line does not fit 64 bits.
    NumberOutOfRange,
}

/// A fault, with the task in whose output it was found.
#[derive(Clone, Debug, PartialEq, Eq)]
pub struct ParseError {
    pub contract_id: String,
    pub fault: ParseFault,
}

/// The two states of the parser, as mathematics sees them.
pub enum ParserState {
    /// No anchor yet: the coverage lines met so far wait for it.
    SeekingAnchor { pending: Seq<CoverageLine> },
    /// The anchor is known, and these samples were taken relative to it.
    Streaming { anchor: u64, samples: Seq<StatsEntry> },
}

/// The sample that a coverage line gives, once the anchor is known to lie
/// at or before it.
pub open spec fn relative(anchor: u64, c: CoverageLine) -> StatsEntry {
    StatsEntry {
        instructions_covered: c.instructions_covered,
        branches_covered: c.branches_covered,
        time_taken_millis: (c.timestamp_millis - anchor) as u64,
    }
}

/// What becomes of the waiting coverage lines when the anchor is found: taken
/// in order, each gives a sample, and the first one from before the anchor
/// ends it all.
pub open spec fn settle(anchor: u64, pending: Seq<CoverageLine>) -> Result<
    Seq<StatsEntry>,
    ParseFault,
>
    decreases pending.len(),
{
    if pending.len() == 0 {
        Ok(Seq::empty())
    } else {
        match settle(anchor, pending.drop_last()) {
            Err(fault) => Err(fault),
            Ok(samples) => {
                let c = pending.last();
                if c.timestamp_millis < anchor {
                    Err(
                        ParseFault::OrderingViolation {
                            timestamp_millis: c.timestamp_millis,
                            anchor_millis: anchor,
                        },
                    )
                } else {
                    Ok(samples.push(relative(anchor, c)))
                }
            },
        }
    }
}

/// What a line does once the anchor is known.
pub open spec fn stream(anchor: u64, samples: Seq<StatsEntry>, line: Seq<u8>) -> Result<
    ParserState,
    ParseFault,
> {
    match line_coverage(line) {
        Scan::Absent => Ok(ParserState::Streaming { anchor, samples }),
        Scan::OutOfRange => Err(ParseFault::NumberOutOfRange),
        Scan::Found(c) => if c.timestamp_millis < anchor {
            Err(
                ParseFault::OrderingViolation {
                    timestamp_millis: c.timestamp_millis,
                    anchor_millis: anchor,
                },
            )
        } else {
            Ok(ParserState::Streaming { anchor, samples: samples.push(relative(anchor, c)) })
        },
    }
}

/// What one line does to the parser. While the anchor is sought, a line that
/// carries it settles what waits and is then read for coverage itself; any
/// other line with coverage joins what waits. Once the anchor is known, later
/// anchors count for nothing.
pub open spec fn step(state: ParserState, line: Seq<u8>) -> Result<ParserState, ParseFault> {
    match state {
        ParserState::Streaming { anchor, samples } => stream(anchor, samples, line),
        ParserState::SeekingAnchor { pending } => match line_anchor(line) {
            Scan::OutOfRange => Err(ParseFault::NumberOutOfRange),
            Scan::Found(anchor) => match settle(anchor, pending) {
                Err(fault) => Err(fault),
                Ok(samples) => stream(anchor, samples, line),
            },
            Scan::Absent => match line_coverage(line) {
                Scan::Absent => Ok(state),
                Scan::OutOfRange => Err(ParseFault::NumberOutOfRange),
                Scan::Found(c) => Ok(ParserState::SeekingAnchor { pending: pending.push(c) }),
            },
        },
    }
}

/// What a run of lines does to the parser: the first fault ends it.
pub open spec fn run(state: ParserState, lines: Seq<Seq<u8>>) -> Result<ParserState, ParseFault>
    decreases lines.len(),
{
    if lines.len() == 0 {
        Ok(state)
    } else {
        match step(state, lines[0]) {
            Err(fault) => Err(fault),
            Ok(next) => run(next, lines.drop_first()),
        }
    }
}

/// The state before the first line.
pub open spec fn initial() -> ParserState {
    ParserState::SeekingAnchor { pending: Seq::empty() }
}

/// What the parser holds at the end of the input: its samples, in the order
/// of the lines; coverage that still waits for an anchor is a fault.
pub open spec fn harvest(state: ParserState) -> Result<Seq<StatsEntry>, ParseFault> {
    match state {
        ParserState::Streaming { anchor, samples } => Ok(samples),
        ParserState::SeekingAnchor { pending } => if pending.len() == 0 {
            Ok(Seq::empty())
        } else {
            Err(ParseFault::AnchorMissing)
        },
    }
}

/// The samples of a log given as lines, in the order of the lines.
pub open spec fn parse_lines(lines: Seq<Seq<u8>>) -> Result<Seq<StatsEntry>, ParseFault> {
    match run(initial(), lines) {
        Err(fault) => Err(fault),
        Ok(state) => harvest(state),
    }
}

/// The samples of a log, in the order of its lines.
pub open spec fn parse_spec(text: Seq<u8>) -> Result<Seq<StatsEntry>, ParseFault> {
    parse_lines(lines_of(text))
}

/// `result` is what parsing owes for an input whose lines yield `parsed`: the
/// fault itself, or the final series of the samples.
pub open spec fn parse_outcome(
    parsed: Result<Seq<StatsEntry>, ParseFault>,
    result: Result<Vec<StatsEntry>, ParseFault>,
) -> bool {
    match parsed {
        Err(fault) => result == Err::<Vec<StatsEntry>, ParseFault>(fault),
        Ok(samples) => result is Ok && is_finalized(samples, result->Ok_0@),
    }
}

/// The parser of one task's output, fed line by line.
pub enum LogParser {
    SeekingAnchor { pending: Vec<CoverageLine> },
    Streaming { anchor: u64, samples: Vec<StatsEntry> },
}

impl View for LogParser {
    type V = ParserState;

    open spec fn view(&self) -> ParserState {
        match self {
            LogParser::SeekingAnchor { pending } => ParserState::SeekingAnchor {
                pending: pending@,
            },
            LogParser::Streaming { anchor, samples } => ParserState::Streaming {
                anchor: *anchor,
                samples: samples@,
            },
        }
    }
}

/// Settles the waiting coverage lines against the anchor just found.
fn settle_pending(anchor: u64, pending: &Vec<CoverageLine>) -> (r: Result<
    Vec<StatsEntry>,
    ParseFault,
>)
    ensures
        match settle(anchor, pending@) {
            Err(fault) => r == Err::<Vec<StatsEntry>, ParseFault>(fault),
            Ok(samples) => r is Ok && r->Ok_0@ == samples,
        },
{
    let mut samples: Vec<StatsEntry> = Vec::new();
    let mut i: usize = 0;
    while i < pending.len()
        invariant
            i <= pending@.len(),
            settle(anchor, pending@.subrange(0, i as int)) == Ok::<Seq<StatsEntry>, ParseFault>(
                samples@,
            ),
        decreases pending@.len() - i,
    {
        let c = pending[i];
        proof {
            let next = pending@.subrange(0, i + 1);
            assert(next.drop_last() =~= pending@.subrange(0, i as int));
            assert(next.last() == c);
            lemma_settle_fault_stays(anchor, pending@, i + 1);
        }
        if c.timestamp_millis < anchor {
            return Err(
                ParseFault::OrderingViolation {
                    timestamp_millis: c.timestamp_millis,
                    anchor_millis: anchor,
                },
            );
        }
        samples.push(
            StatsEntry {
                instructions_covered: c.instructions_covered,
                branches_covered: c.branches_covered,
                time_taken_millis: c.timestamp_millis - anchor,
            },
        );
        i = i + 1;
    }
    proof {
        assert(pending@.subrange(0, i as int) =~= pending@);
    }
    Ok(samples)
}

/// A fault among the first `k` waiting lines is the fault of them all.
proof fn lemma_settle_fault_stays(anchor: u64, pending: Seq<CoverageLine>, k: int)
    requires
        0 <= k <= pending.len(),
    ensures
        settle(anchor, pending.subrange(0, k)) is Err ==> settle(anchor, pending) == settle(
            anchor,
            pending.subrange(0, k),
        ),
    decreases pending.len() - k,
{
    if k == pending.len() {
        assert(pending.subrange(0, k) =~= pending);
    } else {
        let next = pending.subrange(0, k + 1);
        assert(next.drop_last() =~= pending.subrange(0, k));
        lemma_settle_fault_stays(anchor, pending, k + 1);
    }
}

impl LogParser {
    /// A parser that has seen nothing yet.
    pub fn new() -> (r: LogParser)
        ensures
            r@ == initial(),
    {
        LogParser::SeekingAnchor { pending: Vec::new() }
    }

    /// Reads one more line.
    pub fn feed(self, line: &[u8]) -> (r: Result<LogParser, ParseFault>)
        ensures
            match step(self@, line@) {
                Err(fault) => r == Err::<LogParser, ParseFault>(fault),
                Ok(next) => r is Ok && r->Ok_0@ == next,
            },
    {
        match self {
            LogParser::Streaming { anchor, samples } => stream_line(anchor, samples, line),
            LogParser::SeekingAnchor { pending } => match scan_anchor(line) {
                Scan::OutOfRange => Err(ParseFault::NumberOutOfRange),
                Scan::Found(anchor) => match settle_pending(anchor, &pending) {
                    Err(fault) => Err(fault),
                    Ok(samples) => stream_line(anchor, samples, line),
                },
                Scan::Absent => match scan_coverage(line) {
                    Scan::Absent => Ok(LogParser::SeekingAnchor { pending }),
                    Scan::OutOfRange => Err(ParseFault::NumberOutOfRange),
                    Scan::Found(c) => {
                        let mut pending = pending;
                        pending.push(c);
                        Ok(LogParser::SeekingAnchor { pending })
                    },
                },
            },
        }
    }

    /// Ends the input: the samples in the order of their lines.
    pub fn finish(self) -> (r: Result<Vec<StatsEntry>, ParseFault>)
        ensures
            match harvest(self@) {
                Err(fault) => r == Err::<Vec<StatsEntry>, ParseFault>(fault),
                Ok(samples) => r is Ok && r->Ok_0@ == samples,
            },
    {
        match self {
            LogParser::Streaming { anchor, samples } => Ok(samples),
            LogParser::SeekingAnchor { pending } => if pending.len() == 0 {
                Ok(Vec::new())
            } else {
                Err(ParseFault::AnchorMissing)
            },
        }
    }
}

/// Reads a line with the anchor known.
fn stream_line(anchor: u64, samples: Vec<StatsEntry>, line: &[u8]) -> (r: Result<
    LogParser,
    ParseFault,
>)
    ensures
        match stream(anchor, samples@, line@) {
            Err(fault) => r == Err::<LogParser, ParseFault>(fault),
            Ok(next) => r is Ok && r->Ok_0@ == next,
        },
{
    match scan_coverage(line) {
        Scan::Absent => Ok(LogParser::Streaming { anchor, samples }),
        Scan::OutOfRange => Err(ParseFault::NumberOutOfRange),
        Scan::Found(c) => {
            if c.timestamp_millis < anchor {
                Err(
                    ParseFault::OrderingViolation {
                        timestamp_millis: c.timestamp_millis,
                        anchor_millis: anchor,
                    },
                )
            } else {
                let mut samples = samples;
                samples.push(
                    StatsEntry {
                        instructions_covered: c.instructions_covered,
                        branches_covered: c.branches_covered,
                        time_taken_millis: c.timestamp_millis - anchor,
                    },
                );
                Ok(LogParser::Streaming { anchor, samples })
            }
        },
    }
}

/// Parses the output of one task, given as bytes: the final series of its
/// samples, or the first fault.
pub fn parse_log_bytes(log: &[u8]) -> (r: Result<Vec<StatsEntry>, ParseFault>)
    ensures
        parse_outcome(parse_spec(log@), r),
        r is Ok ==> strictly_ascending(r->Ok_0@),
        log@.len() == 0 ==> r is Ok && r->Ok_0@.len() == 0,
{
    let total: usize = log.len();
    if total == 0 {
        return Ok(Vec::new());
    }
    let mut parser = LogParser::new();
    let mut pos: usize = 0;
    proof {
        assert(log@.subrange(0, total as int) =~= log@);
    }
    while pos < total
        invariant
            total == log@.len(),
            pos <= total,
            run(parser@, lines_of(log@.subrange(pos as int, total as int))) == run(
                initial(),
                lines_of(log@),
            ),
        decreases total - pos,
    {
        let ghost rest = log@.subrange(pos as int, total as int);
        let end: usize = scan_line(log, pos);
        let line = piece(log, pos, end);
        proof {
            lemma_lines_unfold(rest);
            assert(line@ =~= rest.subrange(0, line_end(rest) as int));
            if end < total {
                assert(rest.subrange(line_end(rest) as int + 1, rest.len() as int)
                    =~= log@.subrange(end + 1, total as int));
            } else {
                assert(log@.subrange(total as int, total as int) =~= Seq::<u8>::empty());
            }
        }
        match parser.feed(line) {
            Err(fault) => {
                return Err(fault);
            },
            Ok(next) => {
                parser = next;
            },
        }
        pos = if end < total {
            end + 1
        } else {
            end
        };
    }
    proof {
        assert(log@.subrange(total as int, total as int) =~= Seq::<u8>::empty());
    }
    match parser.finish() {
        Err(fault) => Err(fault),
        Ok(samples) => {
            let out = finalize(&samples);
            Ok(out)
        },
    }
}

/// Lines read one run after another do what the two runs do in turn.
pub proof fn lemma_run_concat(state: ParserState, first: Seq<Seq<u8>>, second: Seq<Seq<u8>>)
    ensures
        run(state, first + second) == match run(state, first) {
            Err(fault) => Err(fault),
            Ok(next) => run(next, second),
        },
    decreases first.len(),
{
    if first.len() == 0 {
        assert(first + second =~= second);
    } else {
        let all = first + second;
        assert(all[0] == first[0]);
        assert(all.drop_first() =~= first.drop_first() + second);
        match step(state, first[0]) {
            Err(fault) => {},
            Ok(next) => {
                lemma_run_concat(next, first.drop_first(), second);
            },
        }
    }
}

/// The coverage that line `i` of `lines` carries, where it carries some.
pub open spec fn coverage_of(lines: Seq<Seq<u8>>, i: int) -> CoverageLine {
    line_coverage(lines[i])->Found_0
}

/// Every line carries coverage, with a timestamp at or after `anchor`.
pub open spec fn all_coverage_from(lines: Seq<Seq<u8>>, anchor: u64) -> bool {
    forall|i: int|
        0 <= i < lines.len() ==> line_coverage(#[trigger] lines[i]) is Found && coverage_of(
            lines,
            i,
        ).timestamp_millis >= anchor
}

/// The samples of coverage lines, each relative to `anchor`.
pub open spec fn samples_of(lines: Seq<Seq<u8>>, anchor: u64) -> Seq<StatsEntry> {
    Seq::new(lines.len(), |i: int| relative(anchor, coverage_of(lines, i)))
}

/// With the anchor known, coverage lines at or after it give one sample each.
proof fn lemma_stream_coverage(anchor: u64, samples: Seq<StatsEntry>, lines: Seq<Seq<u8>>)
    requires
        all_coverage_from(lines, anchor),
    ensures
        run(ParserState::Streaming { anchor, samples }, lines) == Ok::<ParserState, ParseFault>(
            ParserState::Streaming { anchor, samples: samples + samples_of(lines, anchor) },
        ),
    decreases lines.len(),
{
    if lines.len() == 0 {
        assert(samples + samples_of(lines, anchor) =~= samples);
    } else {
        let rest = lines.drop_first();
        assert(line_coverage(lines[0]) is Found);
        let c = coverage_of(lines, 0);
        assert forall|i: int| 0 <= i < rest.len() implies line_coverage(#[trigger] rest[i])
            is Found && coverage_of(rest, i).timestamp_millis >= anchor by {
            assert(rest[i] == lines[i + 1]);
        }
        lemma_stream_coverage(anchor, samples.push(relative(anchor, c)), rest);
        assert(samples.push(relative(anchor, c)) + samples_of(rest, anchor) =~= samples
            + samples_of(lines, anchor)) by {
            assert forall|i: int| 0 <= i < rest.len() implies samples_of(rest, anchor)[i]
                == samples_of(lines, anchor)[i + 1] by {
                assert(rest[i] == lines[i + 1]);
            }
        }
    }
}

/// A log that opens with its anchor line and goes on with coverage lines, each
/// at or after the anchor, gives one sample for each of them, in their order.
/// Its final series is therefore in strictly ascending order of time and holds
/// at most as many samples as there are coverage lines: as many, unless two of
/// them carry the same timestamp.
pub proof fn lemma_anchor_then_coverage(
    anchor_line: Seq<u8>,
    coverage_lines: Seq<Seq<u8>>,
    anchor: u64,
    out: Seq<StatsEntry>,
)
    requires
        plain_lines(seq![anchor_line] + coverage_lines),
        line_anchor(anchor_line) == Scan::Found(anchor),
        line_coverage(anchor_line) is Absent,
        all_coverage_from(coverage_lines, anchor),
    ensures
        parse_spec(joined(seq![anchor_line] + coverage_lines)) == Ok::<
            Seq<StatsEntry>,
            ParseFault,
        >(samples_of(coverage_lines, anchor)),
        is_finalized(samples_of(coverage_lines, anchor), out) ==> {
            &&& strictly_ascending(out)
            &&& out.len() <= coverage_lines.len()
            &&& times_differ(samples_of(coverage_lines, anchor)) ==> out.len()
                == coverage_lines.len()
        },
{
    let first = seq![anchor_line];
    lemma_lines_of_joined(first + coverage_lines);
    let streaming = ParserState::Streaming { anchor, samples: Seq::empty() };
    assert(settle(anchor, Seq::empty()) == Ok::<Seq<StatsEntry>, ParseFault>(Seq::empty()));
    assert(step(initial(), anchor_line) == Ok::<ParserState, ParseFault>(streaming));
    assert(run(initial(), first) == Ok::<ParserState, ParseFault>(streaming)) by {
        assert(first[0] == anchor_line);
        assert(first.drop_first() =~= Seq::<Seq<u8>>::empty());
        assert(run(streaming, first.drop_first()) == Ok::<ParserState, ParseFault>(streaming));
    }
    lemma_run_concat(initial(), first, coverage_lines);
    lemma_stream_coverage(anchor, Seq::empty(), coverage_lines);
    assert(Seq::<StatsEntry>::empty() + samples_of(coverage_lines, anchor) =~= samples_of(
        coverage_lines,
        anchor,
    ));
    if is_finalized(samples_of(coverage_lines, anchor), out) {
        lemma_finalized_len(samples_of(coverage_lines, anchor), out);
    }
}

/// Once the anchor is known, a coverage line with a timestamp from before it
/// makes the whole parse fail with an ordering violation that names this
/// timestamp and the anchor, whatever follows the line.
pub proof fn lemma_coverage_before_anchor_fails(
    before: Seq<Seq<u8>>,
    line: Seq<u8>,
    after: Seq<Seq<u8>>,
    anchor: u64,
    samples: Seq<StatsEntry>,
)
    requires
        plain_lines(before + seq![line] + after),
        run(initial(), before) == Ok::<ParserState, ParseFault>(
            ParserState::Streaming { anchor, samples },
        ),
        line_coverage(line) is Found,
        line_coverage(line)->Found_0.timestamp_millis < anchor,
    ensures
        parse_spec(joined(before + seq![line] + after)) == Err::<Seq<StatsEntry>, ParseFault>(
            ParseFault::OrderingViolation {
                timestamp_millis: line_coverage(line)->Found_0.timestamp_millis,
                anchor_millis: anchor,
            },
        ),
{
    let one = seq![line];
    lemma_lines_of_joined(before + one + after);
    let state = ParserState::Streaming { anchor, samples };
    assert(one[0] == line);
    assert(run(state, one) is Err);
    lemma_run_concat(initial(), before, one);
    lemma_run_concat(initial(), before + one, after);
}

/// Coverage lines that wait for the anchor fail the parse as soon as the
/// anchor found lies after one of them.
pub proof fn lemma_waiting_coverage_before_anchor_fails(
    pending: Seq<CoverageLine>,
    line: Seq<u8>,
    anchor: u64,
    k: int,
)
    requires
        line_anchor(line) == Scan::Found(anchor),
        0 <= k < pending.len(),
        pending[k].timestamp_millis < anchor,
    ensures
        step(ParserState::SeekingAnchor { pending }, line) is Err,
        step(ParserState::SeekingAnchor { pending }, line)->Err_0 is OrderingViolation,
{
    lemma_settle_fails(anchor, pending, k);
}

/// A waiting line from before the anchor makes settling fail with an ordering violation.
proof fn lemma_settle_fails(anchor: u64, pending: Seq<CoverageLine>, k: int)
    requires
        0 <= k < pending.len(),
        pending[k].timestamp_millis < anchor,
    ensures
        settle(anchor, pending) is Err,
        settle(anchor, pending)->Err_0 is OrderingViolation,
    decreases pending.len(),
{
    if k < pending.len() - 1 {
        assert(pending.drop_last()[k] == pending[k]);
        lemma_settle_fails(anchor, pending.drop_last(), k);
    } else {
        lemma_settle_only_ordering(anchor, pending.drop_last());
    }
}

/// Settling fails with an ordering violation or not at all.
proof fn lemma_settle_only_ordering(anchor: u64, pending: Seq<CoverageLine>)
    ensures
        settle(anchor, pending) is Err ==> settle(anchor, pending)->Err_0 is OrderingViolation,
    decreases pending.len(),
{
    if pending.len() > 0 {
        lemma_settle_only_ordering(anchor, pending.drop_last());
    }
}

/// Parses the captured output of the task `contract_id`: the final series of
/// its samples, or the first fault together with the task's name.
pub fn parse_log(log_content: &str, contract_id: &str) -> (r: Result<Vec<StatsEntry>, ParseError>)
    ensures
        match parse_spec(log_content.spec_bytes()) {
            Err(fault) => r is Err && r->Err_0.fault == fault && r->Err_0.contract_id@
                == contract_id@,
            Ok(samples) => r is Ok && is_finalized(samples, r->Ok_0@),
        },
        r is Ok ==> strictly_ascending(r->Ok_0@),
        log_content.spec_bytes().len() == 0 ==> r is Ok && r->Ok_0@.len() == 0,
{
    match parse_log_bytes(log_content.as_bytes()) {
        Ok(samples) => Ok(samples),
        Err(fault) => Err(ParseError { contract_id: contract_id.to_owned(), fault }),
    }
}

} // verus!
