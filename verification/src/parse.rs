//! The text form of a point cloud: one point to a line, written as three
//! numbers `x y z` with blanks between them. A line ends with a line feed;
//! the last line may go without. A point takes the number of its line,
//! counted from zero, as its identity.

use crate::number::{first_of, lemma_first_of, lemma_first_of_is, number_of, parse_number};
use crate::pairs::distinct_ids;
use crate::point::{Point, MAX_POINTS};
use vstd::prelude::*;

verus! {

/// Why a text is not a point cloud.
#[derive(Clone, Copy, Debug, PartialEq, Eq)]
pub enum ParseError {
    /// The line of this number does not hold three fields.
    FieldCount(usize),
    /// A field of the line of this number is not a number, or one that no
    /// coordinate can hold.
    Number(usize),
    /// The text holds more lines than a cloud may hold points.
    TooManyPoints,
}

/// The byte separates fields: a space, a tab, a form feed or a carriage
/// return.
pub open spec fn is_blank(b: u8) -> bool {
    b == 32 || b == 9 || b == 12 || b == 13
}

/// The first line of a text, without its line feed.
pub open spec fn first_line(text: Seq<u8>) -> Seq<u8> {
    text.take(first_of(text, 10))
}

/// What follows the first line of a text and its line feed.
pub open spec fn after_first_line(text: Seq<u8>) -> Seq<u8> {
    let end = first_of(text, 10);
    if end < text.len() {
        text.skip(end + 1)
    } else {
        Seq::empty()
    }
}

/// The lines of a text.
pub open spec fn lines_of(text: Seq<u8>) -> Seq<Seq<u8>>
    decreases text.len(),
{
    if text.len() == 0 {
        Seq::empty()
    } else {
        proof {
            lemma_first_of(text, 10);
        }
        seq![first_line(text)] + lines_of(after_first_line(text))
    }
}

/// How many bytes at the start of a text are blanks, where `blank` is set,
/// or how many are not.
pub open spec fn run_length(s: Seq<u8>, blank: bool) -> int
    decreases s.len(),
{
    if s.len() == 0 || is_blank(s[0]) != blank {
        0
    } else {
        1 + run_length(s.skip(1), blank)
    }
}

/// The fields of a line: its runs of bytes that are not blanks.
pub open spec fn fields_of(line: Seq<u8>) -> Seq<Seq<u8>>
    decreases line.len(),
{
    let rest = line.skip(run_length(line, true));
    if rest.len() == 0 {
        Seq::empty()
    } else {
        proof {
            lemma_run_length(line, true);
            lemma_run_length(rest, false);
        }
        seq![rest.take(run_length(rest, false))] + fields_of(rest.skip(run_length(rest, false)))
    }
}

/// The point that a line writes, given the number of the line.
pub open spec fn line_point(line: Seq<u8>, index: int) -> Result<Point, ParseError> {
    let fields = fields_of(line);
    if fields.len() != 3 {
        Err(ParseError::FieldCount(index as usize))
    } else {
        match (number_of(fields[0]), number_of(fields[1]), number_of(fields[2])) {
            (Some(x), Some(y), Some(z)) => Ok((x, y, z, index as u16)),
            _ => Err(ParseError::Number(index as usize)),
        }
    }
}

/// A run ends within the text, at the first byte of the other sort.
pub proof fn lemma_run_length(s: Seq<u8>, blank: bool)
    ensures
        0 <= run_length(s, blank) <= s.len(),
        run_length(s, blank) < s.len() ==> is_blank(s[run_length(s, blank)]) != blank,
        forall|k: int| 0 <= k < run_length(s, blank) ==> is_blank(#[trigger] s[k]) == blank,
    decreases s.len(),
{
    if s.len() > 0 && is_blank(s[0]) == blank {
        lemma_run_length(s.skip(1), blank);
        assert forall|k: int| 0 <= k < run_length(s, blank) implies is_blank(#[trigger] s[k])
            == blank by {
            if k > 0 {
                assert(s.skip(1)[k - 1] == s[k]);
            }
        }
    }
}

/// A position before which every byte is of one sort, and which holds a
/// byte of the other sort or ends the text, is where the run ends.
pub proof fn lemma_run_length_is(s: Seq<u8>, blank: bool, at: int)
    requires
        0 <= at <= s.len(),
        at < s.len() ==> is_blank(s[at]) != blank,
        forall|k: int| 0 <= k < at ==> is_blank(#[trigger] s[k]) == blank,
    ensures
        run_length(s, blank) == at,
{
    lemma_run_length(s, blank);
    let r = run_length(s, blank);
    if r < at {
        assert(is_blank(s[r]) == blank);
    } else if at < r {
        assert(is_blank(s[at]) == blank);
    }
}

/// The fields of the bytes `from..to`, given where the first field begins
/// and ends: none where only blanks are left, and otherwise the first
/// field, followed by the fields of what comes after it.
pub proof fn lemma_fields_unfold(text: Seq<u8>, from: int, to: int, begin: int, end: int)
    requires
        0 <= from <= begin <= to <= text.len(),
        begin - from == run_length(text.subrange(from, to), true),
        begin < to ==> begin <= end <= to && end - begin == run_length(
            text.subrange(begin, to),
            false,
        ),
    ensures
        begin == to ==> fields_of(text.subrange(from, to)) == Seq::<Seq<u8>>::empty(),
        begin < to ==> begin < end && fields_of(text.subrange(from, to)) == seq![
            text.subrange(begin, end),
        ] + fields_of(text.subrange(end, to)),
{
    let line = text.subrange(from, to);
    let rest = line.skip(begin - from);
    assert(rest =~= text.subrange(begin, to));
    if begin < to {
        lemma_run_length(line, true);
        lemma_run_length(rest, false);
        assert(!is_blank(rest[0]));
        assert(rest.take(end - begin) =~= text.subrange(begin, end));
        assert(rest.skip(end - begin) =~= text.subrange(end, to));
    }
}

/// What is wrong with line `k`, if anything: it lies beyond the capacity of
/// a cloud, or it does not write a point.
pub open spec fn fault_at(lines: Seq<Seq<u8>>, k: int) -> Option<ParseError> {
    if k >= MAX_POINTS {
        Some(ParseError::TooManyPoints)
    } else {
        match line_point(lines[k], k) {
            Ok(_) => None,
            Err(e) => Some(e),
        }
    }
}

/// Finds the first occurrence of `b` in the bytes `from..to`; gives `to`
/// where there is none.
pub fn find_byte(source: &[u8], from: usize, to: usize, b: u8) -> (at: usize)
    requires
        from <= to <= source@.len(),
    ensures
        from <= at <= to,
        at - from == first_of(source@.subrange(from as int, to as int), b),
{
    let ghost part = source@.subrange(from as int, to as int);
    let mut at: usize = from;
    while at < to && source[at] != b
        invariant
            from <= at <= to <= source@.len(),
            part == source@.subrange(from as int, to as int),
            forall|k: int| 0 <= k < at - from ==> #[trigger] part[k] != b,
        decreases to - at,
    {
        at += 1;
    }
    proof {
        lemma_first_of_is(part, b, at - from);
    }
    at
}

/// Finds where the run of blanks that begins at `from` ends, where `blank`
/// is set, or else the run of bytes that are not blanks; gives `to` where
/// the run reaches it.
pub fn scan_run(source: &[u8], from: usize, to: usize, blank: bool) -> (at: usize)
    requires
        from <= to <= source@.len(),
    ensures
        from <= at <= to,
        at - from == run_length(source@.subrange(from as int, to as int), blank),
{
    let ghost part = source@.subrange(from as int, to as int);
    let mut at: usize = from;
    while at < to && (source[at] == 32 || source[at] == 9 || source[at] == 12 || source[at] == 13)
        == blank
        invariant
            from <= at <= to <= source@.len(),
            part == source@.subrange(from as int, to as int),
            forall|k: int| 0 <= k < at - from ==> is_blank(#[trigger] part[k]) == blank,
        decreases to - at,
    {
        at += 1;
    }
    proof {
        lemma_run_length_is(part, blank, at - from);
    }
    at
}

/// Reads the bytes `from..to` as the line of number `index`.
pub fn parse_line(
    source: &[u8],
    from: usize,
    to: usize,
    index: usize,
) -> (r: Result<Point, ParseError>)
    requires
        from <= to <= source@.len(),
        index <= u16::MAX,
    ensures
        r == line_point(source@.subrange(from as int, to as int), index as int),
{
    let ghost text = source@;
    let ghost line = text.subrange(from as int, to as int);
    let x_from: usize = scan_run(source, from, to, true);
    let x_to: usize = scan_run(source, x_from, to, false);
    let y_from: usize = scan_run(source, x_to, to, true);
    let y_to: usize = scan_run(source, y_from, to, false);
    let z_from: usize = scan_run(source, y_to, to, true);
    let z_to: usize = scan_run(source, z_from, to, false);
    let rest: usize = scan_run(source, z_to, to, true);
    let rest_to: usize = scan_run(source, rest, to, false);
    proof {
        lemma_fields_unfold(text, from as int, to as int, x_from as int, x_to as int);
        lemma_fields_unfold(text, x_to as int, to as int, y_from as int, y_to as int);
        lemma_fields_unfold(text, y_to as int, to as int, z_from as int, z_to as int);
        lemma_fields_unfold(text, z_to as int, to as int, rest as int, rest_to as int);
    }
    if x_from == to || y_from == to || z_from == to || rest != to {
        return Err(ParseError::FieldCount(index));
    }
    proof {
        let fields = fields_of(line);
        assert(fields =~= seq![
            text.subrange(x_from as int, x_to as int),
            text.subrange(y_from as int, y_to as int),
            text.subrange(z_from as int, z_to as int),
        ]);
    }
    let x: Option<i64> = parse_number(source, x_from, x_to);
    let y: Option<i64> = parse_number(source, y_from, y_to);
    let z: Option<i64> = parse_number(source, z_from, z_to);
    match (x, y, z) {
        (Some(x), Some(y), Some(z)) => Ok((x, y, z, index as u16)),
        _ => Err(ParseError::Number(index)),
    }
}

/// Reads a text as a point cloud.
///
/// Succeeds where the text holds no more lines than a cloud may hold points
/// and every line writes a point; the cloud then holds the point of each
/// line, in the order of the lines. Fails otherwise with what is wrong with
/// the first line that is at fault.
pub fn parse_input(source: &[u8]) -> (r: Result<Vec<Point>, ParseError>)
    ensures
        r matches Ok(points) ==> {
            &&& points@.len() == lines_of(source@).len()
            &&& points@.len() <= MAX_POINTS
            &&& forall|k: int|
                0 <= k < points@.len() ==> line_point(#[trigger] lines_of(source@)[k], k) == Ok::<
                    Point,
                    ParseError,
                >(points@[k])
            &&& forall|k: int| 0 <= k < points@.len() ==> (#[trigger] points@[k]).3 == k
            &&& distinct_ids(points@)
        },
        r matches Err(e) ==> exists|k: int|
            {
                &&& 0 <= k < lines_of(source@).len()
                &&& #[trigger] fault_at(lines_of(source@), k) == Some(e)
                &&& forall|j: int| 0 <= j < k ==> #[trigger] fault_at(lines_of(source@), j) is None
            },
{
    let ghost lines = lines_of(source@);
    let mut ret: Vec<Point> = Vec::new();
    let n: usize = source.len();
    let mut pos: usize = 0;
    let ghost mut done: Seq<Seq<u8>> = Seq::empty();
    proof {
        assert(source@.skip(0) =~= source@);
        assert(done + lines_of(source@.skip(0)) =~= lines);
    }
    while pos < n
        invariant
            pos <= n == source@.len(),
            lines == lines_of(source@),
            done + lines_of(source@.skip(pos as int)) == lines,
            ret@.len() == done.len(),
            ret@.len() <= MAX_POINTS,
            forall|k: int| 0 <= k < ret@.len() ==> #[trigger] fault_at(lines, k) is None,
            forall|k: int|
                0 <= k < ret@.len() ==> line_point(#[trigger] lines[k], k) == Ok::<
                    Point,
                    ParseError,
                >(ret@[k]),
            forall|k: int| 0 <= k < ret@.len() ==> (#[trigger] ret@[k]).3 == k,
        decreases n - pos,
    {
        let ghost text = source@.skip(pos as int);
        let end: usize = find_byte(source, pos, n, 10);
        let next: usize = if end < n {
            end + 1
        } else {
            n
        };
        let index: usize = ret.len();
        proof {
            assert(text =~= source@.subrange(pos as int, n as int));
            assert(first_line(text) =~= source@.subrange(pos as int, end as int));
            assert(after_first_line(text) =~= source@.skip(next as int));
            assert(lines[index as int] == first_line(text));
            assert(done.push(first_line(text)) + lines_of(source@.skip(next as int)) =~= lines);
        }
        if index >= MAX_POINTS {
            proof {
                assert(fault_at(lines, index as int) == Some(ParseError::TooManyPoints));
            }
            return Err(ParseError::TooManyPoints);
        }
        match parse_line(source, pos, end, index) {
            Err(e) => {
                proof {
                    assert(fault_at(lines, index as int) == Some(e));
                }
                return Err(e);
            },
            Ok(p) => {
                ret.push(p);
            },
        }
        proof {
            done = done.push(first_line(text));
            assert(fault_at(lines, index as int) is None);
        }
        pos = next;
    }
    proof {
        assert(source@.skip(n as int) =~= Seq::<u8>::empty());
        assert(done =~= lines);
    }
    Ok(ret)
}

} // verus!
