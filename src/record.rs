//! Records and the line-oriented record parser.
use vstd::prelude::*;

verus! {

/// Byte that ends a line.
pub const NEWLINE: u8 = 10;

/// Byte that may precede the line end and is stripped with it.
pub const CARRIAGE_RETURN: u8 = 13;

/// Number of lines that make up one record.
pub const LINES_PER_RECORD: usize = 4;

/// Mathematical value of a record: its symbols and its quality codes.
pub struct RecordModel {
    pub seq: Seq<u8>,
    pub qual: Seq<u8>,
}

/// One record: the symbol sequence and one quality code per symbol.
#[derive(Debug, Clone, PartialEq, Eq)]
pub struct FastqRecord {
    seq: Vec<u8>,
    qual: Vec<u8>,
}

impl View for FastqRecord {
    type V = RecordModel;

    closed spec fn view(&self) -> RecordModel {
        RecordModel { seq: self.seq@, qual: self.qual@ }
    }
}

impl Default for FastqRecord {
    fn default() -> (r: FastqRecord)
        ensures
            r@.seq.len() == 0,
            r@.qual.len() == 0,
    {
        FastqRecord { seq: Vec::new(), qual: Vec::new() }
    }
}

impl FastqRecord {
    /// Builds a record from its symbols and quality codes.
    pub fn new(seq: Vec<u8>, qual: Vec<u8>) -> (r: FastqRecord)
        ensures
            r@.seq == seq@,
            r@.qual == qual@,
    {
        FastqRecord { seq, qual }
    }

    /// Overwrites the record's symbols and quality codes.
    pub fn set(&mut self, seq: Vec<u8>, qual: Vec<u8>)
        ensures
            final(self)@.seq == seq@,
            final(self)@.qual == qual@,
    {
        self.seq = seq;
        self.qual = qual;
    }

    /// The symbol sequence.
    pub fn seq(&self) -> (r: &[u8])
        ensures
            r@ == self@.seq,
    {
        self.seq.as_slice()
    }

    /// The quality codes.
    pub fn qual(&self) -> (r: &[u8])
        ensures
            r@ == self@.qual,
    {
        self.qual.as_slice()
    }
}

/// Index just past the line that starts at `pos`: past its newline, or the
/// end of the data for a last line without one.
pub open spec fn line_end(data: Seq<u8>, pos: int) -> int
    decreases data.len() - pos,
{
    if pos >= data.len() {
        data.len() as int
    } else if data[pos] == NEWLINE {
        pos + 1
    } else {
        line_end(data, pos + 1)
    }
}

/// The lines of `data` from `pos` on, each with its terminator.
pub open spec fn lines_from(data: Seq<u8>, pos: int) -> Seq<Seq<u8>>
    decreases data.len() - pos,
{
    let e = line_end(data, pos);
    if pos < 0 || pos >= data.len() || e <= pos || e > data.len() {
        Seq::empty()
    } else {
        seq![data.subrange(pos, e)] + lines_from(data, e)
    }
}

/// The lines of `data`, each with its terminator.
pub open spec fn lines(data: Seq<u8>) -> Seq<Seq<u8>> {
    lines_from(data, 0)
}

/// A line without its trailing newline and, before that, carriage return.
pub open spec fn strip_terminator(line: Seq<u8>) -> Seq<u8> {
    let l = if line.len() > 0 && line.last() == NEWLINE {
        line.drop_last()
    } else {
        line
    };
    if l.len() > 0 && l.last() == CARRIAGE_RETURN {
        l.drop_last()
    } else {
        l
    }
}

/// The record that four consecutive lines hold: the second line gives the
/// symbols, the fourth the quality codes; the first and third are ignored.
pub open spec fn record_of_lines(ls: Seq<Seq<u8>>) -> RecordModel {
    RecordModel { seq: strip_terminator(ls[1]), qual: strip_terminator(ls[3]) }
}

/// The complete records that a sequence of lines holds, four lines each.
pub open spec fn records_of_lines(ls: Seq<Seq<u8>>) -> Seq<RecordModel>
    decreases ls.len(),
{
    if ls.len() < 4 {
        Seq::empty()
    } else {
        seq![record_of_lines(ls)] + records_of_lines(ls.subrange(4, ls.len() as int))
    }
}

/// The complete records of a byte stream.
pub open spec fn records_of(data: Seq<u8>) -> Seq<RecordModel> {
    records_of_lines(lines(data))
}

/// Whether a byte stream ends inside a record.
pub open spec fn is_truncated(data: Seq<u8>) -> bool {
    lines(data).len() % 4 != 0
}

/// A line that starts inside the data ends past its start and within the data.
pub proof fn lemma_line_end_bounds(data: Seq<u8>, pos: int)
    requires
        0 <= pos <= data.len(),
    ensures
        pos <= line_end(data, pos) <= data.len(),
        pos < data.len() ==> pos < line_end(data, pos),
    decreases data.len() - pos,
{
    if pos < data.len() && data[pos] != NEWLINE {
        lemma_line_end_bounds(data, pos + 1);
    }
}

/// Outcome of reading one record.
#[derive(Debug, Clone, Copy, PartialEq, Eq)]
pub enum ParseStatus {
    /// A record was read; the next one starts at the given index.
    Parsed(usize),
    /// The data ended before the first line of a record: a clean end.
    EndOfInput,
    /// The data ended after the given number of lines of a record.
    Truncated(usize),
}

pub(crate) fn find_line_end(data: &[u8], pos: usize) -> (e: usize)
    requires
        pos <= data@.len(),
    ensures
        e == line_end(data@, pos as int),
{
    let mut i: usize = pos;
    while i < data.len()
        invariant
            pos <= i <= data@.len(),
            line_end(data@, pos as int) == line_end(data@, i as int),
        decreases data@.len() - i,
    {
        if data[i] == NEWLINE {
            return i + 1;
        }
        i = i + 1;
    }
    i
}

pub(crate) fn stripped_copy(data: &[u8], start: usize, end: usize) -> (r: Vec<u8>)
    requires
        start <= end <= data@.len(),
    ensures
        r@ == strip_terminator(data@.subrange(start as int, end as int)),
{
    let ghost line = data@.subrange(start as int, end as int);
    let mut e: usize = end;
    if e > start && data[e - 1] == NEWLINE {
        e = e - 1;
    }
    let ghost l = data@.subrange(start as int, e as int);
    assert(l =~= (if line.len() > 0 && line.last() == NEWLINE {
        line.drop_last()
    } else {
        line
    }));
    let ghost e1 = e;
    if e > start && data[e - 1] == CARRIAGE_RETURN {
        e = e - 1;
    }
    assert(data@.subrange(start as int, e as int) =~= strip_terminator(line));
    let mut r: Vec<u8> = Vec::new();
    let mut i: usize = start;
    while i < e
        invariant
            start <= i <= e <= data@.len(),
            r@ =~= data@.subrange(start as int, i as int),
        decreases e - i,
    {
        r.push(data[i]);
        i = i + 1;
    }
    r
}

/// Unfolds `lines_from` once at a position within the data.
pub proof fn lemma_lines_from_step(data: Seq<u8>, pos: int)
    requires
        0 <= pos <= data.len(),
    ensures
        pos <= line_end(data, pos) <= data.len(),
        pos == data.len() ==> lines_from(data, pos).len() == 0,
        pos < data.len() ==> pos < line_end(data, pos) && lines_from(data, pos) == seq![
            data.subrange(pos, line_end(data, pos)),
        ] + lines_from(data, line_end(data, pos)),
{
    lemma_line_end_bounds(data, pos);
}


/// Each line holds at least one byte, so there are no more lines than bytes.
pub proof fn lemma_lines_from_len(data: Seq<u8>, pos: int)
    requires
        0 <= pos <= data.len(),
    ensures
        lines_from(data, pos).len() <= data.len() - pos,
    decreases data.len() - pos,
{
    lemma_lines_from_step(data, pos);
    if pos < data.len() {
        lemma_lines_from_len(data, line_end(data, pos));
    }
}

/// Four lines make one record; a shorter tail makes none.
pub proof fn lemma_records_of_lines_len(ls: Seq<Seq<u8>>)
    ensures
        records_of_lines(ls).len() == ls.len() / 4,
    decreases ls.len(),
{
    if ls.len() >= 4 {
        lemma_records_of_lines_len(ls.subrange(4, ls.len() as int));
    }
}

/// A line of `b` ends at the same place when `a` stands before it.
pub proof fn lemma_line_end_shift(a: Seq<u8>, b: Seq<u8>, k: int)
    requires
        0 <= k <= b.len(),
    ensures
        line_end(a + b, a.len() + k) == a.len() + line_end(b, k),
    decreases b.len() - k,
{
    if k < b.len() {
        assert((a + b)[a.len() + k] == b[k]);
        if b[k] != NEWLINE {
            lemma_line_end_shift(a, b, k + 1);
        }
    }
}

/// The lines of `b` do not change when `a` stands before it.
pub proof fn lemma_lines_from_shift(a: Seq<u8>, b: Seq<u8>, k: int)
    requires
        0 <= k <= b.len(),
    ensures
        lines_from(a + b, a.len() + k) == lines_from(b, k),
    decreases b.len() - k,
{
    lemma_lines_from_step(b, k);
    lemma_lines_from_step(a + b, a.len() + k);
    lemma_line_end_shift(a, b, k);
    if k < b.len() {
        let e = line_end(b, k);
        lemma_lines_from_shift(a, b, e);
        assert((a + b).subrange(a.len() + k, a.len() + e) =~= b.subrange(k, e));
        assert(lines_from(a + b, a.len() + k) =~= lines_from(b, k));
    }
}

/// A line that starts in `a`, which ends with a newline, ends in `a`.
pub proof fn lemma_line_end_prefix(a: Seq<u8>, b: Seq<u8>, pos: int)
    requires
        0 <= pos < a.len(),
        a.last() == NEWLINE,
    ensures
        line_end(a + b, pos) == line_end(a, pos),
    decreases a.len() - pos,
{
    assert((a + b)[pos] == a[pos]);
    if a[pos] != NEWLINE {
        lemma_line_end_prefix(a, b, pos + 1);
    }
}

/// The lines of `a` followed by `b` are those of `a`, then those of `b`,
/// when `a` ends with a newline.
pub proof fn lemma_lines_from_append(a: Seq<u8>, b: Seq<u8>, pos: int)
    requires
        0 <= pos <= a.len(),
        a.len() == 0 || a.last() == NEWLINE,
    ensures
        lines_from(a + b, pos) == lines_from(a, pos) + lines_from(b, 0),
    decreases a.len() - pos,
{
    lemma_lines_from_step(a, pos);
    if pos == a.len() {
        lemma_lines_from_shift(a, b, 0);
        assert(lines_from(a + b, pos) =~= lines_from(a, pos) + lines_from(b, 0));
    } else {
        lemma_lines_from_step(a + b, pos);
        lemma_line_end_prefix(a, b, pos);
        let e = line_end(a, pos);
        lemma_lines_from_append(a, b, e);
        assert((a + b).subrange(pos, e) =~= a.subrange(pos, e));
        assert(lines_from(a + b, pos) =~= lines_from(a, pos) + lines_from(b, 0));
    }
}

/// Records of lines that come in whole records, then of more lines, are the
/// records of each part in turn.
pub proof fn lemma_records_of_lines_append(x: Seq<Seq<u8>>, y: Seq<Seq<u8>>)
    requires
        x.len() % 4 == 0,
    ensures
        records_of_lines(x + y) == records_of_lines(x) + records_of_lines(y),
    decreases x.len(),
{
    if x.len() == 0 {
        assert(x + y =~= y);
        assert(records_of_lines(x) =~= Seq::<RecordModel>::empty());
        assert(records_of_lines(x + y) =~= records_of_lines(x) + records_of_lines(y));
    } else {
        let xs = x.subrange(4, x.len() as int);
        lemma_records_of_lines_append(xs, y);
        assert((x + y).subrange(4, (x + y).len() as int) =~= xs + y);
        assert(record_of_lines(x + y) == record_of_lines(x));
        assert(records_of_lines(x + y) =~= records_of_lines(x) + records_of_lines(y));
    }
}

/// Two streams read one after the other give the records of both in turn,
/// and end as the second does, when the first ends with a complete record.
pub proof fn lemma_records_of_append(a: Seq<u8>, b: Seq<u8>)
    requires
        a.len() == 0 || a.last() == NEWLINE,
        !is_truncated(a),
    ensures
        records_of(a + b) == records_of(a) + records_of(b),
        is_truncated(a + b) == is_truncated(b),
        lines(a + b).len() % 4 == lines(b).len() % 4,
{
    lemma_lines_from_append(a, b, 0);
    lemma_records_of_lines_append(lines(a), lines(b));
}

} // verus!
