use crate::decimal::{
    decimal_digits, decimal_value, is_digit, lemma_decimal_round_trip, parse_digits, push_decimal,
};
use crate::text::{
    ascii_bytes, digits_end, lemma_digits_end, lemma_lines_cons, lemma_lines_unfold, line_end,
    lines_of, literal_bytes, piece, scan_digits, scan_line, starts_with_at,
};
use crate::types::StatsEntry;
use vstd::prelude::*;

verus! {

/// Why an artifact could not be read back.
#[derive(Clone, Copy, Debug, PartialEq, Eq, Structural)]
pub enum StoreError {
    /// The first line does not name the three columns.
    BadHeader,
    /// The line with this number, counted from 1, is no record of three numbers.
    BadRecord { line: usize },
}

/// The first line of an artifact: the names of the columns, in their order.
pub open spec fn header() -> Seq<u8> {
    ascii_bytes("instructions_covered,branches_covered,time_taken_millis"@)
}

/// The record of one sample: its three numbers in decimal, parted by commas.
pub open spec fn row_bytes(e: StatsEntry) -> Seq<u8> {
    decimal_digits(e.instructions_covered as nat) + seq![44u8] + decimal_digits(
        e.branches_covered as nat,
    ) + seq![44u8] + decimal_digits(e.time_taken_millis as nat)
}

/// The records of the samples, each closed by a line feed.
pub open spec fn rows_bytes(s: Seq<StatsEntry>) -> Seq<u8>
    decreases s.len(),
{
    if s.len() == 0 {
        Seq::empty()
    } else {
        row_bytes(s[0]) + seq![10u8] + rows_bytes(s.drop_first())
    }
}

/// The artifact of a series: the header and one record for each sample, in
/// the order of the series. A series without samples has an empty artifact.
pub open spec fn encode_spec(s: Seq<StatsEntry>) -> Seq<u8> {
    if s.len() == 0 {
        Seq::empty()
    } else {
        header() + seq![10u8] + rows_bytes(s)
    }
}

/// Where the three numbers of a record must end, if the line is one.
pub open spec fn row_spans(line: Seq<u8>) -> (int, int, int, int, int) {
    let a1 = digits_end(line, 0);
    let b0 = a1 + 1;
    let b1 = digits_end(line, b0);
    let c0 = b1 + 1;
    let c1 = digits_end(line, c0);
    (a1, b0, b1, c0, c1)
}

/// The sample that a line records: three runs of digits parted by two commas
/// and nothing else, each number within 64 bits.
pub open spec fn row_of(line: Seq<u8>) -> Option<StatsEntry> {
    let (a1, b0, b1, c0, c1) = row_spans(line);
    let a = decimal_value(line.subrange(0, a1));
    let b = decimal_value(line.subrange(b0, b1));
    let c = decimal_value(line.subrange(c0, c1));
    if 0 < a1 < line.len() && line[a1] == 44 && b0 < b1 < line.len() && line[b1] == 44 && c0 < c1
        && c1 == line.len() && a <= u64::MAX && b <= u64::MAX && c <= u64::MAX {
        Some(
            StatsEntry {
                instructions_covered: a as u64,
                branches_covered: b as u64,
                time_taken_millis: c as u64,
            },
        )
    } else {
        None
    }
}

/// The samples that the lines record, the first of them being line number
/// `number` of its artifact: the first line that is no record ends it all.
pub open spec fn decode_rows(lines: Seq<Seq<u8>>, number: nat) -> Result<
    Seq<StatsEntry>,
    StoreError,
>
    decreases lines.len(),
{
    if lines.len() == 0 {
        Ok(Seq::empty())
    } else {
        match row_of(lines[0]) {
            None => Err(StoreError::BadRecord { line: number as usize }),
            Some(e) => match decode_rows(lines.drop_first(), number + 1) {
                Err(error) => Err(error),
                Ok(rest) => Ok(seq![e] + rest),
            },
        }
    }
}

/// The series that an artifact holds: nothing if it is empty; else its first
/// line must be the header, and each line after it a record.
pub open spec fn decode_spec(bytes: Seq<u8>) -> Result<Seq<StatsEntry>, StoreError> {
    let lines = lines_of(bytes);
    if lines.len() == 0 {
        Ok(Seq::empty())
    } else if lines[0] != header() {
        Err(StoreError::BadHeader)
    } else {
        decode_rows(lines.drop_first(), 2)
    }
}

/// The samples read so far, followed by what the lines still to come give.
pub open spec fn read_on(done: Seq<StatsEntry>, rest: Result<Seq<StatsEntry>, StoreError>) -> Result<
    Seq<StatsEntry>,
    StoreError,
> {
    match rest {
        Err(error) => Err(error),
        Ok(more) => Ok(done + more),
    }
}

/// The header, as bytes.
fn header_bytes() -> (r: &'static [u8])
    ensures
        r@ == header(),
        r@.len() == 55,
        forall|i: int| 0 <= i < r@.len() ==> #[trigger] r@[i] != 10,
{
    proof {
        reveal_strlit("instructions_covered,branches_covered,time_taken_millis");
    }
    literal_bytes("instructions_covered,branches_covered,time_taken_millis")
}

/// The records of a series that grew by one sample: the records so far, then
/// that of the new sample.
proof fn lemma_rows_push(s: Seq<StatsEntry>, e: StatsEntry)
    ensures
        rows_bytes(s.push(e)) == rows_bytes(s) + row_bytes(e) + seq![10u8],
    decreases s.len(),
{
    let longer = s.push(e);
    if s.len() == 0 {
        assert(longer.drop_first() =~= Seq::<StatsEntry>::empty());
        assert(longer[0] == e);
        assert(rows_bytes(longer.drop_first()) =~= Seq::<u8>::empty());
        assert(rows_bytes(longer) =~= rows_bytes(s) + row_bytes(e) + seq![10u8]);
    } else {
        lemma_rows_push(s.drop_first(), e);
        assert(longer.drop_first() =~= s.drop_first().push(e));
        assert(longer[0] == s[0]);
        assert(rows_bytes(longer) =~= rows_bytes(s) + row_bytes(e) + seq![10u8]);
    }
}

/// Writes a series as an artifact, from which the series can be read back.
pub fn serialize(entries: &Vec<StatsEntry>) -> (out: Vec<u8>)
    ensures
        out@ == encode_spec(entries@),
        decode_spec(out@) == Ok::<Seq<StatsEntry>, StoreError>(entries@),
{
    proof {
        lemma_store_round_trip(entries@);
    }
    let mut out: Vec<u8> = Vec::new();
    if entries.len() == 0 {
        return out;
    }
    out.extend_from_slice(header_bytes());
    out.push(10);
    let mut i: usize = 0;
    proof {
        assert(entries@.subrange(0, 0) =~= Seq::<StatsEntry>::empty());
        assert(out@ =~= header() + seq![10u8] + rows_bytes(entries@.subrange(0, 0)));
    }
    while i < entries.len()
        invariant
            i <= entries@.len(),
            out@ == header() + seq![10u8] + rows_bytes(entries@.subrange(0, i as int)),
        decreases entries@.len() - i,
    {
        let e = entries[i];
        let ghost before = out@;
        push_decimal(&mut out, e.instructions_covered);
        out.push(44);
        push_decimal(&mut out, e.branches_covered);
        out.push(44);
        push_decimal(&mut out, e.time_taken_millis);
        out.push(10);
        proof {
            let done = entries@.subrange(0, i as int);
            lemma_rows_push(done, e);
            assert(done.push(e) =~= entries@.subrange(0, i + 1));
            assert(out@ =~= before + (row_bytes(e) + seq![10u8]));
            assert(out@ =~= header() + seq![10u8] + (rows_bytes(done) + row_bytes(e) + seq![10u8]));
        }
        i = i + 1;
    }
    proof {
        assert(entries@.subrange(0, i as int) =~= entries@);
    }
    out
}

/// Reads one line as a record.
pub fn read_row(line: &[u8]) -> (r: Option<StatsEntry>)
    ensures
        r == row_of(line@),
{
    let n: usize = line.len();
    let a1: usize = scan_digits(line, 0);
    if a1 == 0 || a1 >= n || line[a1] != 44 {
        return None;
    }
    let b0: usize = a1 + 1;
    let b1: usize = scan_digits(line, b0);
    if b1 == b0 || b1 >= n || line[b1] != 44 {
        return None;
    }
    let c0: usize = b1 + 1;
    let c1: usize = scan_digits(line, c0);
    if c1 == c0 || c1 != n {
        return None;
    }
    proof {
        lemma_digits_end(line@, 0);
        lemma_digits_end(line@, b0 as int);
        lemma_digits_end(line@, c0 as int);
    }
    let a = parse_digits(line, 0, a1);
    let b = parse_digits(line, b0, b1);
    let c = parse_digits(line, c0, c1);
    match (a, b, c) {
        (Some(a), Some(b), Some(c)) => Some(
            StatsEntry { instructions_covered: a, branches_covered: b, time_taken_millis: c },
        ),
        _ => None,
    }
}

/// Reading on after one more record.
proof fn lemma_read_on_step(done: Seq<StatsEntry>, lines: Seq<Seq<u8>>, number: nat)
    requires
        lines.len() > 0,
    ensures
        row_of(lines[0]) is None ==> read_on(done, decode_rows(lines, number)) == Err::<
            Seq<StatsEntry>,
            StoreError,
        >(StoreError::BadRecord { line: number as usize }),
        row_of(lines[0]) is Some ==> read_on(done, decode_rows(lines, number)) == read_on(
            done.push(row_of(lines[0])->0),
            decode_rows(lines.drop_first(), number + 1),
        ),
{
    if row_of(lines[0]) is Some {
        let e = row_of(lines[0])->0;
        match decode_rows(lines.drop_first(), number + 1) {
            Ok(more) => {
                assert(done.push(e) + more =~= done + (seq![e] + more));
            },
            Err(_) => {},
        }
    }
}

/// Reads an artifact back into the series it holds.
pub fn deserialize(bytes: &[u8]) -> (r: Result<Vec<StatsEntry>, StoreError>)
    ensures
        match decode_spec(bytes@) {
            Err(error) => r == Err::<Vec<StatsEntry>, StoreError>(error),
            Ok(samples) => r is Ok && r->Ok_0@ == samples,
        },
{
    let total: usize = bytes.len();
    let mut out: Vec<StatsEntry> = Vec::new();
    if total == 0 {
        return Ok(out);
    }
    let first_end: usize = scan_line(bytes, 0);
    let first = piece(bytes, 0, first_end);
    let head = header_bytes();
    proof {
        assert(bytes@.subrange(0, total as int) =~= bytes@);
        lemma_lines_unfold(bytes@);
    }
    if first.len() != head.len() || !starts_with_at(first, 0, head) {
        proof {
            if first@.len() == head@.len() {
                assert(first@.subrange(0, head@.len() as int) =~= first@);
            }
        }
        return Err(StoreError::BadHeader);
    }
    proof {
        assert(first@.subrange(0, head@.len() as int) =~= first@);
    }
    let mut pos: usize = if first_end < total {
        first_end + 1
    } else {
        first_end
    };
    let mut number: usize = 2;
    proof {
        if first_end >= total {
            assert(bytes@.subrange(total as int, total as int) =~= Seq::<u8>::empty());
        }
        assert(Seq::<StatsEntry>::empty() + Seq::<StatsEntry>::empty() =~= Seq::<
            StatsEntry,
        >::empty());
        let rest = decode_rows(lines_of(bytes@.subrange(pos as int, total as int)), 2);
        match rest {
            Ok(more) => {
                assert(Seq::<StatsEntry>::empty() + more =~= more);
            },
            Err(_) => {},
        }
    }
    while pos < total
        invariant
            total == bytes@.len(),
            pos <= total,
            2 <= number <= pos,
            read_on(
                out@,
                decode_rows(lines_of(bytes@.subrange(pos as int, total as int)), number as nat),
            ) == decode_spec(bytes@),
        decreases total - pos,
    {
        let ghost rest = bytes@.subrange(pos as int, total as int);
        let end: usize = scan_line(bytes, pos);
        let line = piece(bytes, pos, end);
        proof {
            lemma_lines_unfold(rest);
            assert(line@ =~= rest.subrange(0, line_end(rest) as int));
            if end < total {
                assert(rest.subrange(line_end(rest) as int + 1, rest.len() as int)
                    =~= bytes@.subrange(end + 1, total as int));
            } else {
                assert(bytes@.subrange(total as int, total as int) =~= Seq::<u8>::empty());
            }
        }
        proof {
            lemma_read_on_step(out@, lines_of(rest), number as nat);
        }
        match read_row(line) {
            None => {
                return Err(StoreError::BadRecord { line: number });
            },
            Some(e) => {
                out.push(e);
            },
        }
        if end < total {
            pos = end + 1;
            number = number + 1;
        } else {
            pos = end;
        }
    }
    proof {
        assert(bytes@.subrange(total as int, total as int) =~= Seq::<u8>::empty());
        assert(out@ + Seq::<StatsEntry>::empty() =~= out@);
    }
    Ok(out)
}

/// A run of digits that something else follows, or nothing, ends where they end.
proof fn lemma_digits_run(s: Seq<u8>, p: int, n: int)
    requires
        0 <= p,
        0 <= n,
        p + n <= s.len(),
        forall|i: int| p <= i < p + n ==> is_digit(#[trigger] s[i]),
        p + n == s.len() || !is_digit(s[p + n]),
    ensures
        digits_end(s, p) == p + n,
    decreases n,
{
    if n > 0 {
        assert(is_digit(s[p]));
        lemma_digits_run(s, p + 1, n - 1);
    }
}

/// The record of a sample holds no line feed, and reads back as the sample.
proof fn lemma_row_round_trip(e: StatsEntry)
    ensures
        row_of(row_bytes(e)) == Some(e),
        forall|i: int| 0 <= i < row_bytes(e).len() ==> #[trigger] row_bytes(e)[i] != 10,
{
    let a = decimal_digits(e.instructions_covered as nat);
    let b = decimal_digits(e.branches_covered as nat);
    let c = decimal_digits(e.time_taken_millis as nat);
    lemma_decimal_round_trip(e.instructions_covered as nat);
    lemma_decimal_round_trip(e.branches_covered as nat);
    lemma_decimal_round_trip(e.time_taken_millis as nat);
    let line = row_bytes(e);
    let a1 = a.len() as int;
    let b0 = a1 + 1;
    let b1 = b0 + b.len();
    let c0 = b1 + 1;
    let c1 = c0 + c.len();
    assert(line.len() == c1);
    assert forall|i: int| 0 <= i < a1 implies line[i] == a[i] by {}
    assert(line[a1] == 44);
    assert forall|i: int| b0 <= i < b1 implies line[i] == b[i - b0] by {}
    assert(line[b1] == 44);
    assert forall|i: int| c0 <= i < c1 implies line[i] == c[i - c0] by {}
    assert forall|i: int| 0 <= i < a1 implies is_digit(#[trigger] line[i]) by {
        assert(is_digit(a[i]));
    }
    assert forall|i: int| b0 <= i < b1 implies is_digit(#[trigger] line[i]) by {
        assert(is_digit(b[i - b0]));
    }
    assert forall|i: int| c0 <= i < c1 implies is_digit(#[trigger] line[i]) by {
        assert(is_digit(c[i - c0]));
    }
    lemma_digits_run(line, 0, a1);
    lemma_digits_run(line, b0, b.len() as int);
    lemma_digits_run(line, c0, c.len() as int);
    assert(line.subrange(0, a1) =~= a);
    assert(line.subrange(b0, b1) =~= b);
    assert(line.subrange(c0, c1) =~= c);
    assert forall|i: int| 0 <= i < line.len() implies #[trigger] line[i] != 10 by {
        if i < a1 {
            assert(is_digit(line[i]));
        } else if i == a1 {
        } else if i < b1 {
            assert(is_digit(line[i]));
        } else if i == b1 {
        } else {
            assert(is_digit(line[i]));
        }
    }
}

/// The records of a series read back as the series.
proof fn lemma_rows_round_trip(s: Seq<StatsEntry>, number: nat)
    ensures
        decode_rows(lines_of(rows_bytes(s)), number) == Ok::<Seq<StatsEntry>, StoreError>(s),
    decreases s.len(),
{
    if s.len() == 0 {
        assert(s =~= Seq::<StatsEntry>::empty());
    } else {
        let rest = s.drop_first();
        lemma_row_round_trip(s[0]);
        lemma_lines_cons(row_bytes(s[0]), rows_bytes(rest));
        let lines = lines_of(rows_bytes(s));
        assert(lines[0] == row_bytes(s[0]));
        assert(lines.drop_first() =~= lines_of(rows_bytes(rest)));
        lemma_rows_round_trip(rest, number + 1);
        assert(seq![s[0]] + rest =~= s);
    }
}

/// The header holds no line feed.
proof fn lemma_header_plain()
    ensures
        forall|i: int| 0 <= i < header().len() ==> #[trigger] header()[i] != 10,
{
    reveal_strlit("instructions_covered,branches_covered,time_taken_millis");
}

/// Round trip: the artifact of a series, read back, is that series, sample
/// for sample and in the same order.
pub proof fn lemma_store_round_trip(s: Seq<StatsEntry>)
    ensures
        decode_spec(encode_spec(s)) == Ok::<Seq<StatsEntry>, StoreError>(s),
{
    if s.len() == 0 {
        assert(s =~= Seq::<StatsEntry>::empty());
        assert(lines_of(Seq::<u8>::empty()).len() == 0);
    } else {
        lemma_header_plain();
        lemma_lines_cons(header(), rows_bytes(s));
        let lines = lines_of(encode_spec(s));
        assert(lines[0] == header());
        assert(lines.drop_first() =~= lines_of(rows_bytes(s)));
        lemma_rows_round_trip(s, 2);
    }
}

} // verus!
