use crate::decimal::{decimal_value, parse_digits};
use crate::text::{ascii_bytes, digits_end, has_at, lemma_digits_end, literal_bytes, scan_digits,
    starts_with_at};
use vstd::prelude::*;

verus! {

/// What a line yields for one of the two patterns.
#[derive(Clone, Copy, Debug, PartialEq, Eq, Structural)]
pub enum Scan<T> {
    /// The pattern stands nowhere in the line.
    Absent,
    /// The pattern stands in the line, with a number that a `u64` cannot hold.
    OutOfRange,
    /// The pattern stands in the line, and these are its numbers.
    Found(T),
}

/// The numbers of a coverage line, as the fuzzer printed them.
#[derive(Clone, Copy, Debug, PartialEq, Eq, Structural)]
pub struct CoverageLine {
    pub timestamp_millis: u64,
    pub instructions_covered: u64,
    pub total_instructions: u64,
    pub branches_covered: u64,
}

/// What introduces the anchor: the words before the epoch-millisecond
/// number. The fuzzer writes its name before them, which counts for nothing.
pub open spec fn anchor_marker() -> Seq<u8> {
    ascii_bytes("start at "@)
}

/// What introduces a coverage line: the text before its timestamp.
pub open spec fn coverage_marker() -> Seq<u8> {
    ascii_bytes("Coverage stat: time-millis: "@)
}

/// What stands between the timestamp and the count of instructions covered.
pub open spec fn instructions_label() -> Seq<u8> {
    ascii_bytes(" instructions: "@)
}

/// What stands between the total of instructions and the count of branches covered.
pub open spec fn branches_label() -> Seq<u8> {
    ascii_bytes(" branches: "@)
}

/// What parts a covered count from its total.
pub open spec fn slash() -> Seq<u8> {
    ascii_bytes("/"@)
}

/// The anchor pattern stands at `p`: the marker, then at least one digit.
pub open spec fn anchor_at(line: Seq<u8>, p: int) -> bool {
    &&& has_at(line, p, anchor_marker())
    &&& digits_end(line, p + anchor_marker().len()) > p + anchor_marker().len()
}

/// The anchor's digits, for the pattern at `p`: the whole run after the marker.
pub open spec fn anchor_digits(line: Seq<u8>, p: int) -> Seq<u8> {
    let a = p + anchor_marker().len();
    line.subrange(a, digits_end(line, a))
}

/// A piece of a line: from `start` up to `end`, which is left out.
#[derive(Clone, Copy, Debug, PartialEq, Eq, Structural)]
pub struct Span {
    pub start: usize,
    pub end: usize,
}

/// Where the four numbers of a coverage pattern start and end.
#[derive(Clone, Copy, Debug, PartialEq, Eq, Structural)]
pub struct CoverageSpans {
    pub timestamp: Span,
    pub instructions: Span,
    pub total: Span,
    pub branches: Span,
}

/// The spans that a coverage pattern at `p` must have: each number is a whole
/// run of digits, and the labels stand between them.
pub open spec fn coverage_spans(line: Seq<u8>, p: int) -> (int, int, int, int, int, int, int, int, int) {
    let t0 = p + coverage_marker().len();
    let t1 = digits_end(line, t0);
    let i0 = t1 + instructions_label().len();
    let i1 = digits_end(line, i0);
    let n0 = i1 + slash().len();
    let n1 = digits_end(line, n0);
    let b0 = n1 + branches_label().len();
    let b1 = digits_end(line, b0);
    let c0 = b1 + slash().len();
    (t0, t1, i0, i1, n0, n1, b0, b1, c0)
}

/// The coverage pattern stands at `p`: marker, timestamp, label, instructions
/// covered, slash, total, label, branches covered, slash, and at least one
/// digit of the branch total.
pub open spec fn coverage_at(line: Seq<u8>, p: int) -> bool {
    let (t0, t1, i0, i1, n0, n1, b0, b1, c0) = coverage_spans(line, p);
    &&& has_at(line, p, coverage_marker())
    &&& t1 > t0
    &&& has_at(line, t1, instructions_label())
    &&& i1 > i0
    &&& has_at(line, i1, slash())
    &&& n1 > n0
    &&& has_at(line, n1, branches_label())
    &&& b1 > b0
    &&& has_at(line, b1, slash())
    &&& digits_end(line, c0) > c0
}

/// `p` is the last position of `line` at which the anchor pattern stands.
pub open spec fn is_last_anchor(line: Seq<u8>, p: int) -> bool {
    &&& anchor_at(line, p)
    &&& forall|q: int| p < q ==> !#[trigger] anchor_at(line, q)
}

/// `p` is the last position of `line` at which the coverage pattern stands.
pub open spec fn is_last_coverage(line: Seq<u8>, p: int) -> bool {
    &&& coverage_at(line, p)
    &&& forall|q: int| p < q ==> !#[trigger] coverage_at(line, q)
}

/// The anchor that a line carries: the number of the last anchor pattern in it.
pub open spec fn line_anchor(line: Seq<u8>) -> Scan<u64> {
    if exists|p: int| is_last_anchor(line, p) {
        let p = choose|p: int| is_last_anchor(line, p);
        let v = decimal_value(anchor_digits(line, p));
        if v <= u64::MAX {
            Scan::Found(v as u64)
        } else {
            Scan::OutOfRange
        }
    } else {
        Scan::Absent
    }
}

/// The numbers of the coverage pattern at `p`, where all four fit a `u64`.
pub open spec fn coverage_numbers(line: Seq<u8>, p: int) -> Scan<CoverageLine> {
    let (t0, t1, i0, i1, n0, n1, b0, b1, c0) = coverage_spans(line, p);
    let t = decimal_value(line.subrange(t0, t1));
    let i = decimal_value(line.subrange(i0, i1));
    let n = decimal_value(line.subrange(n0, n1));
    let b = decimal_value(line.subrange(b0, b1));
    if t <= u64::MAX && i <= u64::MAX && n <= u64::MAX && b <= u64::MAX {
        Scan::Found(
            CoverageLine {
                timestamp_millis: t as u64,
                instructions_covered: i as u64,
                total_instructions: n as u64,
                branches_covered: b as u64,
            },
        )
    } else {
        Scan::OutOfRange
    }
}

/// The coverage that a line carries: the numbers of the last coverage pattern in it.
pub open spec fn line_coverage(line: Seq<u8>) -> Scan<CoverageLine> {
    if exists|p: int| is_last_coverage(line, p) {
        coverage_numbers(line, choose|p: int| is_last_coverage(line, p))
    } else {
        Scan::Absent
    }
}

/// The anchor's marker, as bytes.
fn anchor_marker_bytes() -> (r: &'static [u8])
    ensures
        r@ == anchor_marker(),
        r@.len() == 9,
{
    proof {
        reveal_strlit("start at ");
    }
    literal_bytes("start at ")
}

/// The coverage marker, as bytes.
fn coverage_marker_bytes() -> (r: &'static [u8])
    ensures
        r@ == coverage_marker(),
        r@.len() == 28,
{
    proof {
        reveal_strlit("Coverage stat: time-millis: ");
    }
    literal_bytes("Coverage stat: time-millis: ")
}

/// The label of the instructions, as bytes.
fn instructions_label_bytes() -> (r: &'static [u8])
    ensures
        r@ == instructions_label(),
        r@.len() == 15,
{
    proof {
        reveal_strlit(" instructions: ");
    }
    literal_bytes(" instructions: ")
}

/// The label of the branches, as bytes.
fn branches_label_bytes() -> (r: &'static [u8])
    ensures
        r@ == branches_label(),
        r@.len() == 11,
{
    proof {
        reveal_strlit(" branches: ");
    }
    literal_bytes(" branches: ")
}

/// The slash, as a byte.
fn slash_bytes() -> (r: &'static [u8])
    ensures
        r@ == slash(),
        r@.len() == 1,
{
    proof {
        reveal_strlit("/");
    }
    literal_bytes("/")
}

/// Tests the anchor pattern at `p`, and gives the span of its digits.
pub(crate) fn anchor_here(line: &[u8], p: usize) -> (r: Option<Span>)
    ensures
        r is Some <==> anchor_at(line@, p as int),
        r is Some ==> {
            let span = r->0;
            &&& span.start == p + anchor_marker().len()
            &&& span.end == digits_end(line@, span.start as int)
            &&& span.start < span.end <= line@.len()
        },
{
    labelled_number(line, p, anchor_marker_bytes())
}

/// A label stands at `at`, and a number follows it: the number's span.
fn labelled_number(line: &[u8], at: usize, label: &[u8]) -> (r: Option<Span>)
    ensures
        r is Some <==> has_at(line@, at as int, label@) && digits_end(
            line@,
            at + label@.len(),
        ) > at + label@.len(),
        r is Some ==> {
            let span = r->0;
            &&& span.start == at + label@.len()
            &&& span.end == digits_end(line@, span.start as int)
            &&& span.start < span.end <= line@.len()
        },
{
    let total: usize = line.len();
    if !starts_with_at(line, at, label) {
        return None;
    }
    assert(at + label@.len() <= total);
    let a: usize = at + label.len();
    let e: usize = scan_digits(line, a);
    if e > a {
        Some(Span { start: a, end: e })
    } else {
        None
    }
}

/// Tests the coverage pattern at `p`, and gives the spans of its four numbers.
pub(crate) fn coverage_here(line: &[u8], p: usize) -> (r: Option<CoverageSpans>)
    ensures
        r is Some <==> coverage_at(line@, p as int),
        r is Some ==> {
            let (t0, t1, i0, i1, n0, n1, b0, b1, c0) = coverage_spans(line@, p as int);
            let s = r->0;
            &&& s.timestamp.start == t0 && s.timestamp.end == t1
            &&& s.instructions.start == i0 && s.instructions.end == i1
            &&& s.total.start == n0 && s.total.end == n1
            &&& s.branches.start == b0 && s.branches.end == b1
            &&& t0 < t1 <= i0 < i1 <= n0 < n1 <= b0 < b1 <= line@.len()
        },
{
    let timestamp = match labelled_number(line, p, coverage_marker_bytes()) {
        Some(span) => span,
        None => {
            return None;
        },
    };
    let instructions = match labelled_number(line, timestamp.end, instructions_label_bytes()) {
        Some(span) => span,
        None => {
            return None;
        },
    };
    let total = match labelled_number(line, instructions.end, slash_bytes()) {
        Some(span) => span,
        None => {
            return None;
        },
    };
    let branches = match labelled_number(line, total.end, branches_label_bytes()) {
        Some(span) => span,
        None => {
            return None;
        },
    };
    match labelled_number(line, branches.end, slash_bytes()) {
        Some(_) => Some(CoverageSpans { timestamp, instructions, total, branches }),
        None => None,
    }
}

/// Reads the number in the span, a whole run of digits.
fn read_span(line: &[u8], span: Span) -> (r: Option<u64>)
    requires
        span.start <= span.end <= line@.len(),
        span.end == digits_end(line@, span.start as int),
    ensures
        r is Some <==> decimal_value(line@.subrange(span.start as int, span.end as int))
            <= u64::MAX,
        r is Some ==> r->0 == decimal_value(line@.subrange(span.start as int, span.end as int)),
{
    proof {
        lemma_digits_end(line@, span.start as int);
    }
    parse_digits(line, span.start, span.end)
}

/// Looks for the anchor in one line.
pub fn scan_anchor(line: &[u8]) -> (r: Scan<u64>)
    ensures
        r == line_anchor(line@),
{
    let mut p: usize = line.len();
    loop
        invariant
            p <= line@.len(),
            forall|q: int| p < q ==> !#[trigger] anchor_at(line@, q),
        decreases p,
    {
        match anchor_here(line, p) {
            Some(span) => {
                proof {
                    assert(is_last_anchor(line@, p as int));
                    let c = choose|c: int| is_last_anchor(line@, c);
                    assert(c == p);
                }
                return match read_span(line, span) {
                    Some(v) => Scan::Found(v),
                    None => Scan::OutOfRange,
                };
            },
            None => {},
        }
        if p == 0 {
            proof {
                assert forall|c: int| !is_last_anchor(line@, c) by {
                    if c < 0 {
                        assert(!has_at(line@, c, anchor_marker()));
                    }
                }
            }
            return Scan::Absent;
        }
        p = p - 1;
    }
}

/// Looks for coverage numbers in one line.
pub fn scan_coverage(line: &[u8]) -> (r: Scan<CoverageLine>)
    ensures
        r == line_coverage(line@),
{
    let mut p: usize = line.len();
    loop
        invariant
            p <= line@.len(),
            forall|q: int| p < q ==> !#[trigger] coverage_at(line@, q),
        decreases p,
    {
        match coverage_here(line, p) {
            Some(spans) => {
                proof {
                    assert(is_last_coverage(line@, p as int));
                    let c = choose|c: int| is_last_coverage(line@, c);
                    assert(c == p);
                }
                let t = read_span(line, spans.timestamp);
                let i = read_span(line, spans.instructions);
                let n = read_span(line, spans.total);
                let b = read_span(line, spans.branches);
                return match (t, i, n, b) {
                    (Some(t), Some(i), Some(n), Some(b)) => Scan::Found(
                        CoverageLine {
                            timestamp_millis: t,
                            instructions_covered: i,
                            total_instructions: n,
                            branches_covered: b,
                        },
                    ),
                    _ => Scan::OutOfRange,
                };
            },
            None => {},
        }
        if p == 0 {
            proof {
                assert forall|c: int| !is_last_coverage(line@, c) by {
                    if c < 0 {
                        assert(!has_at(line@, c, coverage_marker()));
                    }
                }
            }
            return Scan::Absent;
        }
        p = p - 1;
    }
}

} // verus!
