//! The records of a memory-access trace.

use vstd::prelude::*;
use vstd::slice::slice_subrange;

verus! {

/// The kind of a data access.
#[derive(Clone, Copy, Debug, PartialEq, Eq)]
pub enum AccessKind {
    Load,
    Store,
    /// A load followed by a store to the same address.
    Modify,
}

/// One data access of a trace.
#[derive(Clone, Copy, Debug, PartialEq, Eq)]
pub struct AccessRecord {
    pub kind: AccessKind,
    pub address: u64,
}

/// What one line of a trace turned out to be.
#[derive(Clone, Copy, Debug, PartialEq, Eq)]
pub enum TraceLine {
    /// An instruction fetch, which the cache model never sees.
    Instruction,
    /// A data access.
    Access(AccessRecord),
    /// A line whose kind is none of the known ones; it is skipped.
    Unrecognized,
}

/// Why a trace line could not be read.
#[derive(Clone, Copy, Debug, PartialEq, Eq)]
pub enum TraceError {
    /// The line is blank, or nothing follows its kind after a space.
    MissingAddress,
    /// The address field is not a hexadecimal number that fits in 64 bits.
    InvalidAddress,
}

/// ASCII white space, which is insignificant at the start of a line.
pub open spec fn is_space(b: u8) -> bool {
    b == 0x20 || (0x09 <= b <= 0x0d)
}

/// The index of the first byte at or after `from` that is not white space.
pub open spec fn skip_spaces(line: Seq<u8>, from: int) -> int
    decreases line.len() - from,
{
    if 0 <= from < line.len() && is_space(line[from]) {
        skip_spaces(line, from + 1)
    } else {
        from
    }
}

/// The index of the first blank at or after `from`, or, with `comma` set, of
/// the first blank or comma; the length of the line where there is none.
pub open spec fn next_delimiter(line: Seq<u8>, from: int, comma: bool) -> int
    decreases line.len() - from,
{
    if 0 <= from < line.len() && !(line[from] == 0x20 || (comma && line[from] == 0x2c)) {
        next_delimiter(line, from + 1, comma)
    } else {
        from
    }
}

/// The byte is one of `0-9`, `a-f`, `A-F`.
pub open spec fn is_hex_digit(b: u8) -> bool {
    (0x30 <= b <= 0x39) || (0x61 <= b <= 0x66) || (0x41 <= b <= 0x46)
}

/// The value of a hexadecimal digit.
pub open spec fn digit_value(b: u8) -> nat {
    if 0x30 <= b <= 0x39 {
        (b - 0x30) as nat
    } else if 0x61 <= b <= 0x66 {
        (b - 0x61 + 10) as nat
    } else if 0x41 <= b <= 0x46 {
        (b - 0x41 + 10) as nat
    } else {
        0
    }
}

/// Every byte is a hexadecimal digit.
pub open spec fn all_hex(digits: Seq<u8>) -> bool {
    forall|i: int| 0 <= i < digits.len() ==> is_hex_digit(#[trigger] digits[i])
}

/// The number that a row of hexadecimal digits writes, most significant first.
pub open spec fn hex_value(digits: Seq<u8>) -> nat
    decreases digits.len(),
{
    if digits.len() == 0 {
        0
    } else {
        16 * hex_value(digits.drop_last()) + digit_value(digits.last())
    }
}

/// The address that one or more hexadecimal digits write, if it fits in 64 bits.
pub open spec fn digits_address(digits: Seq<u8>) -> Option<u64> {
    if digits.len() > 0 && all_hex(digits) && hex_value(digits) <= u64::MAX {
        Some(hex_value(digits) as u64)
    } else {
        None
    }
}

/// The address that a field writes: an optional `+`, then one or more
/// hexadecimal digits whose value fits in 64 bits.
pub open spec fn hex_address(field: Seq<u8>) -> Option<u64> {
    if field.len() > 0 && field[0] == 0x2b {
        digits_address(field.drop_first())
    } else {
        digits_address(field)
    }
}

/// The kind that a letter stands for.
pub open spec fn kind_of(letter: u8) -> Option<AccessKind> {
    if letter == 0x4c {
        Some(AccessKind::Load)
    } else if letter == 0x53 {
        Some(AccessKind::Store)
    } else if letter == 0x4d {
        Some(AccessKind::Modify)
    } else {
        None
    }
}

/// What a line of a trace says.
///
/// White space at its start is dropped. The first byte then gives the kind:
/// `I` is an instruction fetch, `L`, `S` and `M` are data accesses, anything
/// else is unrecognized. The address of a data access stands after the first
/// blank and ends before the next blank or comma.
pub open spec fn parsed_line(line: Seq<u8>) -> Result<TraceLine, TraceError> {
    let start = skip_spaces(line, 0);
    if start >= line.len() {
        Err(TraceError::MissingAddress)
    } else if line[start] == 0x49 {
        Ok(TraceLine::Instruction)
    } else {
        match kind_of(line[start]) {
            None => Ok(TraceLine::Unrecognized),
            Some(kind) => {
                let blank = next_delimiter(line, start, false);
                if blank >= line.len() {
                    Err(TraceError::MissingAddress)
                } else {
                    let end = next_delimiter(line, blank + 1, true);
                    match hex_address(line.subrange(blank + 1, end)) {
                        Some(address) => Ok(TraceLine::Access(AccessRecord { kind, address })),
                        None => Err(TraceError::InvalidAddress),
                    }
                }
            },
        }
    }
}

/// Appending digits never makes the number written smaller.
pub proof fn lemma_hex_value_grows(line: Seq<u8>, from: int, mid: int, to: int)
    requires
        0 <= from <= mid <= to <= line.len(),
    ensures
        hex_value(line.subrange(from, mid)) <= hex_value(line.subrange(from, to)),
    decreases to - mid,
{
    if mid < to {
        lemma_hex_value_grows(line, from, mid, to - 1);
        assert(line.subrange(from, to).drop_last() =~= line.subrange(from, to - 1));
    }
}

/// The value of a hexadecimal digit, if the byte is one.
pub fn hex_digit(b: u8) -> (value: Option<u8>)
    ensures
        value.is_some() == is_hex_digit(b),
        value matches Some(v) ==> v == digit_value(b) && v < 16,
{
    if 0x30 <= b && b <= 0x39 {
        Some(b - 0x30)
    } else if 0x61 <= b && b <= 0x66 {
        Some(b - 0x61 + 10)
    } else if 0x41 <= b && b <= 0x46 {
        Some(b - 0x41 + 10)
    } else {
        None
    }
}

/// Reads the bytes of `line` from `from` up to `to` as a hexadecimal address.
pub fn parse_hex(line: &[u8], from: usize, to: usize) -> (address: Option<u64>)
    requires
        from <= to <= line@.len(),
    ensures
        address == hex_address(line@.subrange(from as int, to as int)),
{
    let ghost field = line@.subrange(from as int, to as int);
    let mut start: usize = from;
    if from < to && line[from] == 0x2b {
        start = from + 1;
    }
    let ghost digits = line@.subrange(start as int, to as int);
    proof {
        if start > from {
            assert(field[0] == line@[from as int]);
            assert(field.drop_first() =~= digits);
        } else {
            if field.len() > 0 {
                assert(field[0] == line@[from as int]);
            }
            assert(field =~= digits);
        }
    }
    assert(hex_address(field) == digits_address(digits));
    if start == to {
        return None;
    }
    let mut value: u64 = 0;
    let mut i: usize = start;
    while i < to
        invariant
            start <= i <= to <= line@.len(),
            digits == line@.subrange(start as int, to as int),
            hex_address(line@.subrange(from as int, to as int)) == digits_address(digits),
            value == hex_value(line@.subrange(start as int, i as int)),
            all_hex(line@.subrange(start as int, i as int)),
        decreases to - i,
    {
        let ghost seen = line@.subrange(start as int, i as int);
        let ghost more = line@.subrange(start as int, i as int + 1);
        proof {
            assert(more.drop_last() =~= seen);
            assert(more.last() == line@[i as int]);
            assert(digits[i - start] == line@[i as int]);
            lemma_hex_value_grows(line@, start as int, i as int + 1, to as int);
        }
        match hex_digit(line[i]) {
            None => {
                return None;
            },
            Some(d) => {
                if value > (u64::MAX - d as u64) / 16 {
                    return None;
                }
                value = value * 16 + d as u64;
                proof {
                    assert forall|k: int| 0 <= k < more.len() implies is_hex_digit(
                        #[trigger] more[k],
                    ) by {
                        if k < seen.len() {
                            assert(more[k] == seen[k]);
                        }
                    }
                }
            },
        }
        i += 1;
    }
    Some(value)
}

/// The index of the first byte at or after `from` that is not white space.
pub fn find_non_space(line: &[u8], from: usize) -> (at: usize)
    requires
        from <= line@.len(),
    ensures
        at == skip_spaces(line@, from as int),
        from <= at <= line@.len(),
{
    let mut i: usize = from;
    while i < line.len() && (line[i] == 0x20 || (0x09 <= line[i] && line[i] <= 0x0d))
        invariant
            from <= i <= line@.len(),
            skip_spaces(line@, i as int) == skip_spaces(line@, from as int),
        decreases line@.len() - i,
    {
        i += 1;
    }
    i
}

/// The index of the first blank (or, with `comma` set, blank or comma) at or
/// after `from`; the length of the line where there is none.
pub fn find_delimiter(line: &[u8], from: usize, comma: bool) -> (at: usize)
    requires
        from <= line@.len(),
    ensures
        at == next_delimiter(line@, from as int, comma),
        from <= at <= line@.len(),
{
    let mut i: usize = from;
    while i < line.len() && !(line[i] == 0x20 || (comma && line[i] == 0x2c))
        invariant
            from <= i <= line@.len(),
            next_delimiter(line@, i as int, comma) == next_delimiter(line@, from as int, comma),
        decreases line@.len() - i,
    {
        i += 1;
    }
    i
}

/// Reads one line of a trace.
pub fn parse_line(line: &[u8]) -> (parsed: Result<TraceLine, TraceError>)
    ensures
        parsed == parsed_line(line@),
{
    let start: usize = find_non_space(line, 0);
    if start >= line.len() {
        return Err(TraceError::MissingAddress);
    }
    let letter: u8 = line[start];
    if letter == 0x49 {
        return Ok(TraceLine::Instruction);
    }
    let kind = if letter == 0x4c {
        AccessKind::Load
    } else if letter == 0x53 {
        AccessKind::Store
    } else if letter == 0x4d {
        AccessKind::Modify
    } else {
        return Ok(TraceLine::Unrecognized);
    };
    let blank: usize = find_delimiter(line, start, false);
    if blank >= line.len() {
        return Err(TraceError::MissingAddress);
    }
    let end: usize = find_delimiter(line, blank + 1, true);
    match parse_hex(line, blank + 1, end) {
        Some(address) => Ok(TraceLine::Access(AccessRecord { kind, address })),
        None => Err(TraceError::InvalidAddress),
    }
}

/// The first line of a trace that could not be read, and why.
#[derive(Clone, Copy, Debug, PartialEq, Eq)]
pub struct TraceFault {
    /// The index of the line, counted from zero.
    pub line: usize,
    pub error: TraceError,
}

/// The index of the first line feed at or after `from`; the length of the
/// text where there is none.
pub open spec fn next_line_feed(text: Seq<u8>, from: int) -> int
    decreases text.len() - from,
{
    if 0 <= from < text.len() && text[from] != 0x0a {
        next_line_feed(text, from + 1)
    } else {
        from
    }
}

/// The first line of a text, without the line feed that ends it and without
/// a carriage return just before that line feed.
pub open spec fn first_line(text: Seq<u8>) -> Seq<u8> {
    let end = next_line_feed(text, 0);
    if 0 < end < text.len() && text[end - 1] == 0x0d {
        text.subrange(0, end - 1)
    } else {
        text.subrange(0, end)
    }
}

/// The lines of a text. A line ends at a line feed or at the end of the
/// text; the text after the last line feed is a line only if it is not empty.
pub open spec fn text_lines(text: Seq<u8>) -> Seq<Seq<u8>>
    decreases text.len(),
{
    let end = next_line_feed(text, 0);
    if text.len() == 0 {
        Seq::empty()
    } else if 0 <= end < text.len() {
        seq![first_line(text)] + text_lines(text.skip(end + 1))
    } else {
        seq![first_line(text)]
    }
}

/// Looking for a line feed in the rest of a text is looking for it in the
/// whole, from where the rest starts.
pub proof fn lemma_line_feed_in_rest(text: Seq<u8>, start: int, from: int)
    requires
        0 <= start <= from <= text.len(),
    ensures
        next_line_feed(text.skip(start), from - start) == next_line_feed(text, from) - start,
        from <= next_line_feed(text, from) <= text.len(),
    decreases text.len() - from,
{
    if from < text.len() {
        assert(text.skip(start)[from - start] == text[from]);
        if text[from] != 0x0a {
            lemma_line_feed_in_rest(text, start, from + 1);
        }
    }
}

/// The index of the first line feed at or after `from`; the length of the
/// text where there is none.
pub fn find_line_feed(text: &[u8], from: usize) -> (at: usize)
    requires
        from <= text@.len(),
    ensures
        at == next_line_feed(text@, from as int),
        from <= at <= text@.len(),
{
    let mut i: usize = from;
    while i < text.len() && text[i] != 0x0a
        invariant
            from <= i <= text@.len(),
            next_line_feed(text@, i as int) == next_line_feed(text@, from as int),
        decreases text@.len() - i,
    {
        i += 1;
    }
    i
}

/// Reads a whole trace, line by line. The result holds one entry for every
/// line, in order; it is an error at the first line that cannot be read.
pub fn parse_trace(text: &[u8]) -> (parsed: Result<Vec<TraceLine>, TraceFault>)
    ensures
        match parsed {
            Ok(trace) => {
                &&& trace@.len() == text_lines(text@).len()
                &&& forall|i: int|
                    0 <= i < trace@.len() ==> parsed_line(#[trigger] text_lines(text@)[i]) == Ok::<
                        TraceLine,
                        TraceError,
                    >(trace@[i])
            },
            Err(fault) => {
                &&& fault.line < text_lines(text@).len()
                &&& parsed_line(text_lines(text@)[fault.line as int]) == Err::<
                    TraceLine,
                    TraceError,
                >(fault.error)
                &&& forall|i: int|
                    0 <= i < fault.line ==> parsed_line(#[trigger] text_lines(text@)[i]).is_ok()
            },
        },
{
    let n: usize = text.len();
    let mut trace: Vec<TraceLine> = Vec::new();
    let mut pos: usize = 0;
    let ghost mut done: Seq<Seq<u8>> = Seq::empty();
    proof {
        assert(text@.skip(0) =~= text@);
        assert(done + text_lines(text@) =~= text_lines(text@));
    }
    while pos < n
        invariant
            pos <= n,
            n == text@.len(),
            text_lines(text@) == done + text_lines(text@.skip(pos as int)),
            trace@.len() == done.len(),
            forall|i: int|
                0 <= i < done.len() ==> parsed_line(#[trigger] done[i]) == Ok::<
                    TraceLine,
                    TraceError,
                >(trace@[i]),
        decreases n - pos,
    {
        let ghost rest = text@.skip(pos as int);
        let end: usize = find_line_feed(text, pos);
        let stop: usize = if end < n && pos < end && text[end - 1] == 0x0d {
            end - 1
        } else {
            end
        };
        let next: usize = if end < n {
            end + 1
        } else {
            end
        };
        let line = slice_subrange(text, pos, stop);
        proof {
            lemma_line_feed_in_rest(text@, pos as int, pos as int);
            if pos < end {
                assert(rest[end - 1 - pos] == text@[end - 1]);
            }
            assert(first_line(rest) =~= line@);
            if end < n {
                assert(rest.skip(end - pos + 1) =~= text@.skip(next as int));
            } else {
                assert(text_lines(text@.skip(next as int)) =~= Seq::<Seq<u8>>::empty());
            }
            assert(text_lines(rest) =~= seq![line@] + text_lines(text@.skip(next as int)));
            assert(text_lines(text@) =~= done.push(line@) + text_lines(text@.skip(next as int)));
            assert(text_lines(text@)[done.len() as int] == line@);
        }
        match parse_line(line) {
            Ok(entry) => {
                trace.push(entry);
            },
            Err(error) => {
                let fault = TraceFault { line: trace.len(), error };
                proof {
                    assert forall|i: int| 0 <= i < fault.line implies parsed_line(
                        #[trigger] text_lines(text@)[i],
                    ).is_ok() by {
                        assert(text_lines(text@)[i] == done[i]);
                    }
                }
                return Err(fault);
            },
        }
        proof {
            done = done.push(line@);
        }
        pos = next;
    }
    proof {
        assert(text_lines(text@.skip(pos as int)) =~= Seq::<Seq<u8>>::empty());
        assert(text_lines(text@) =~= done);
    }
    Ok(trace)
}

} // verus!
