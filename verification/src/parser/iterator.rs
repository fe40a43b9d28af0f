//! Reading a log line by line: which lines start a record, and gathering
//! the lines of each record before it is parsed.

use vstd::prelude::*;
use crate::error::{ParseError, ParseErrorSpec};
use crate::parser::encoding::FileEncodingHint;
use crate::parser::{parse_record_with_hint, spec_parse_record_with_hint};
use crate::record::{Sqllog, SqllogSpec};
use crate::scan::{first_byte, find_byte};
use crate::tools::{spec_is_record_start, spec_is_ts_millis};
use crate::realtime::{record_end, record_end_from, lemma_record_end_from};

verus! {

broadcast use crate::scan::group_scan;

/// `b` begins with a timestamp of this century: `20` then the separators of
/// `YYYY-MM-DD HH:MM:SS.mmm` (digits other than the first two are not looked at).
pub open spec fn spec_timestamp_start(b: Seq<u8>) -> bool {
    &&& b[0] == 50u8 && b[1] == 48u8
    &&& b[4] == 45u8 && b[7] == 45u8 && b[10] == 32u8
    &&& b[13] == 58u8 && b[16] == 58u8 && b[19] == 46u8
}

/// Whether the first 23 bytes of `bytes` look like a timestamp (see
/// [`spec_timestamp_start`]).
pub fn is_timestamp_start(bytes: &[u8]) -> (r: bool)
    requires
        bytes@.len() >= 23,
    ensures
        r == spec_timestamp_start(bytes@),
{
    bytes[0] == 50 && bytes[1] == 48 && bytes[4] == 45 && bytes[7] == 45 && bytes[10] == 32
        && bytes[13] == 58 && bytes[16] == 58 && bytes[19] == 46
}

/// A full millisecond timestamp starting with `20` starts a record.
pub proof fn lemma_ts_millis_starts_record(b: Seq<u8>)
    requires
        b.len() >= 23,
        spec_is_ts_millis(b.subrange(0, 23)),
        b[0] == 50u8,
        b[1] == 48u8,
    ensures
        spec_timestamp_start(b),
{
    let t = b.subrange(0, 23);
    assert(t[4] == b[4] && t[7] == b[7] && t[10] == b[10] && t[13] == b[13] && t[16] == b[16] && t[19] == b[19]);
}

/// A record start line of this century (see [`spec_is_record_start`]) also
/// begins a record when a log is read line by line.
pub proof fn lemma_record_start_line_starts_record(b: Seq<u8>)
    requires
        spec_is_record_start(b),
        b[0] == 50u8,
        b[1] == 48u8,
    ensures
        starts_record(b),
{
    lemma_ts_millis_starts_record(b);
}

/// Length of the line break at the end of `s`: 2 for `\r\n`, 1 for `\n`, else 0.
pub open spec fn spec_trailing_newline_len(s: Seq<u8>) -> int {
    if s.len() >= 2 && s[s.len() - 2] == 13u8 && s[s.len() - 1] == 10u8 {
        2
    } else if s.len() >= 1 && s[s.len() - 1] == 10u8 {
        1
    } else {
        0
    }
}

/// Length of the line break at the end of `s`.
pub fn trailing_newline_len(s: &[u8]) -> (r: usize)
    ensures
        r == spec_trailing_newline_len(s@),
{
    let n = s.len();
    if n >= 2 && s[n - 2] == 13 && s[n - 1] == 10 {
        2
    } else if n >= 1 && s[n - 1] == 10 {
        1
    } else {
        0
    }
}

/// A line starts a new record: at least 23 bytes, beginning with a timestamp.
pub open spec fn starts_record(line: Seq<u8>) -> bool {
    line.len() >= 23 && spec_timestamp_start(line)
}

/// The gathered lines of a record without their final line break.
pub open spec fn record_text(p: Seq<u8>) -> Seq<u8> {
    p.subrange(0, p.len() - spec_trailing_newline_len(p))
}

/// The state of a [`RecordAssembler`].
pub struct AssemblerState {
    pub encoding: FileEncodingHint,
    pub pending: Seq<u8>,
    pub pending_line: u64,
    pub next_line: u64,
    pub done: bool,
}

/// Gathers the lines of a log into records and parses each one complete
/// record: a line that starts with a timestamp begins a new record, any other
/// line continues the current one (or, before the first record, begins a
/// record that will not parse). Blank records are skipped.
pub struct RecordAssembler {
    encoding: FileEncodingHint,
    pending: Vec<u8>,
    pending_line_number: u64,
    next_line_number: u64,
    done: bool,
}

impl View for RecordAssembler {
    type V = AssemblerState;

    closed spec fn view(&self) -> AssemblerState {
        AssemblerState {
            encoding: self.encoding,
            pending: self.pending@,
            pending_line: self.pending_line_number,
            next_line: self.next_line_number,
            done: self.done,
        }
    }
}

/// The record parsed from the gathered bytes `pending` of state `s`.
pub open spec fn finished(s: AssemblerState) -> Result<SqllogSpec, ParseErrorSpec> {
    parse_chunk(s.pending, s.encoding, s.pending_line)
}

/// The parse of the gathered lines `c` of a record, without their final line
/// break, as a record whose first line is line `line`.
#[verifier::opaque]
pub open spec fn parse_chunk(c: Seq<u8>, encoding: FileEncodingHint, line: u64) -> Result<SqllogSpec, ParseErrorSpec> {
    spec_parse_record_with_hint(record_text(c), encoding, line)
}

/// One line read in state `s`: the next state, and the record the line
/// completes, if any.
pub open spec fn spec_push_line(s: AssemblerState, line: Seq<u8>) -> (AssemblerState, Option<
    Result<SqllogSpec, ParseErrorSpec>,
>) {
    if s.done {
        (s, None)
    } else {
        let current = s.next_line;
        let s1 = AssemblerState { next_line: (s.next_line + 1) as u64, ..s };
        if starts_record(line) && s.pending.len() > 0 {
            let s2 = AssemblerState { pending: line, pending_line: current, ..s1 };
            if record_text(s.pending).len() == 0 {
                (s2, None)
            } else {
                (s2, Some(finished(s)))
            }
        } else if starts_record(line) || s.pending.len() == 0 {
            (AssemblerState { pending: line, pending_line: current, ..s1 }, None)
        } else {
            (AssemblerState { pending: s.pending + line, ..s1 }, None)
        }
    }
}

/// The end of the input in state `s`: the next state, and the last record,
/// if any.
pub open spec fn spec_finish(s: AssemblerState) -> (AssemblerState, Option<
    Result<SqllogSpec, ParseErrorSpec>,
>) {
    if s.done {
        (s, None)
    } else {
        let s1 = AssemblerState { done: true, ..s };
        if record_text(s.pending).len() == 0 {
            (s1, None)
        } else {
            (s1, Some(finished(s)))
        }
    }
}

/// The view of an optional parse result.
pub open spec fn opt_result_view(r: Option<Result<Sqllog, ParseError>>) -> Option<Result<SqllogSpec, ParseErrorSpec>> {
    match r {
        Some(x) => Some(result_view(x)),
        None => None,
    }
}

/// The view of a parse result.
pub open spec fn result_view(r: Result<Sqllog, ParseError>) -> Result<SqllogSpec, ParseErrorSpec> {
    match r {
        Ok(x) => Ok(x@),
        Err(e) => Err(e@),
    }
}

/// Parses the gathered record text of the assembler.
fn parse_pending(pending: &Vec<u8>, encoding: FileEncodingHint, line: u64) -> (r: Result<Sqllog, ParseError>)
    ensures
        result_view(r) == parse_chunk(pending@, encoding, line),
{
    let trim = trailing_newline_len(pending.as_slice());
    let end = pending.len() - trim;
    let r = parse_record_with_hint(&pending.as_slice()[0..end], encoding, line);
    assert(pending@.subrange(0, end as int) == record_text(pending@));
    proof {
        reveal(parse_chunk);
    }
    r
}

/// `v` followed by the bytes of `b`.
fn extend_bytes(v: &mut Vec<u8>, b: &[u8])
    ensures
        final(v)@ == old(v)@ + b@,
{
    let mut i: usize = 0;
    while i < b.len()
        invariant
            i <= b@.len(),
            v@ == old(v)@ + b@.subrange(0, i as int),
        decreases b@.len() - i,
    {
        v.push(b[i]);
        i = i + 1;
        assert(v@ =~= old(v)@ + b@.subrange(0, i as int));
    }
    assert(b@.subrange(0, b@.len() as int) =~= b@);
}

/// The bytes of `b` as a vector.
fn bytes_vec(b: &[u8]) -> (r: Vec<u8>)
    ensures
        r@ == b@,
{
    let mut v: Vec<u8> = Vec::new();
    extend_bytes(&mut v, b);
    assert(v@ =~= b@);
    v
}

impl RecordAssembler {
    /// An assembler for a log in `encoding`, before its first line.
    pub fn new(encoding: FileEncodingHint) -> (r: RecordAssembler)
        ensures
            r@ == (AssemblerState { encoding, pending: Seq::empty(), pending_line: 1, next_line: 1, done: false }),
    {
        let r = RecordAssembler {
            encoding,
            pending: Vec::new(),
            pending_line_number: 1,
            next_line_number: 1,
            done: false,
        };
        assert(r@.pending =~= Seq::<u8>::empty());
        r
    }

    /// Whether the input has ended (or failed).
    pub fn is_done(&self) -> (r: bool)
        ensures
            r == self@.done,
    {
        self.done
    }

    /// The number of the next line to be read (the first line is 1).
    pub fn next_line_number(&self) -> (r: u64)
        ensures
            r == self@.next_line,
    {
        self.next_line_number
    }

    /// Takes the next line of the input, with its line break; returns the
    /// record that this line completes, if any (see [`spec_push_line`]).
    pub fn push_line(&mut self, line: &[u8]) -> (r: Option<Result<Sqllog, ParseError>>)
        requires
            old(self)@.done || old(self)@.next_line < u64::MAX,
        ensures
            (final(self)@, opt_result_view(r)) == spec_push_line(old(self)@, line@),
    {
        if self.done {
            return None;
        }
        let current = self.next_line_number;
        self.next_line_number = self.next_line_number + 1;
        let is_new = line.len() >= 23 && is_timestamp_start(line);
        if is_new && self.pending.len() > 0 {
            let trim = trailing_newline_len(self.pending.as_slice());
            let end = self.pending.len() - trim;
            if end == 0 {
                self.pending = bytes_vec(line);
                self.pending_line_number = current;
                return None;
            }
            let result = parse_pending(&self.pending, self.encoding, self.pending_line_number);
            self.pending = bytes_vec(line);
            self.pending_line_number = current;
            return Some(result);
        }
        if is_new || self.pending.len() == 0 {
            self.pending = bytes_vec(line);
            self.pending_line_number = current;
        } else {
            extend_bytes(&mut self.pending, line);
        }
        None
    }

    /// Ends the input; returns the last record, if any (see [`spec_finish`]).
    pub fn finish(&mut self) -> (r: Option<Result<Sqllog, ParseError>>)
        ensures
            (final(self)@, opt_result_view(r)) == spec_finish(old(self)@),
    {
        if self.done {
            return None;
        }
        self.done = true;
        let trim = trailing_newline_len(self.pending.as_slice());
        let end = self.pending.len() - trim;
        if end == 0 {
            return None;
        }
        Some(parse_pending(&self.pending, self.encoding, self.pending_line_number))
    }

    /// Ends the input on a read error, which is returned as an `IoError`.
    pub fn fail(&mut self, message: String) -> (r: ParseError)
        ensures
            final(self)@ == (AssemblerState { done: true, ..old(self)@ }),
            r@ == ParseErrorSpec::IoError(message@),
    {
        self.done = true;
        ParseError::IoError(message)
    }
}

/// The end of the line of `data` that starts at `pos`: just after its `\n`,
/// or the end of `data`.
pub open spec fn line_end(data: Seq<u8>, pos: int) -> int {
    match first_byte(data.subrange(pos, data.len() as int), 10u8) {
        Some(k) => pos + k + 1,
        None => data.len() as int,
    }
}

/// An optional value as a sequence of at most one.
pub open spec fn opt_seq<T>(o: Option<T>) -> Seq<T> {
    match o {
        Some(x) => seq![x],
        None => Seq::empty(),
    }
}

/// The records completed while reading `data[pos..]` line by line in state
/// `s`, then the end of the input.
pub open spec fn spec_run(s: AssemblerState, data: Seq<u8>, pos: int) -> Seq<Result<SqllogSpec, ParseErrorSpec>>
    decreases data.len() - pos,
{
    if pos < 0 || pos >= data.len() {
        opt_seq(spec_finish(s).1)
    } else {
        let e = line_end(data, pos);
        proof {
            crate::record::lemma_first_byte_bound(data.subrange(pos, data.len() as int), 10u8);
        }
        let step = spec_push_line(s, data.subrange(pos, e));
        opt_seq(step.1) + spec_run(step.0, data, e)
    }
}

/// The state of a new assembler.
pub open spec fn initial_state(encoding: FileEncodingHint) -> AssemblerState {
    AssemblerState { encoding, pending: Seq::empty(), pending_line: 1, next_line: 1, done: false }
}

/// The views of parse results.
pub open spec fn results_view(v: Seq<Result<Sqllog, ParseError>>) -> Seq<Result<SqllogSpec, ParseErrorSpec>> {
    Seq::new(v.len(), |i: int| result_view(v[i]))
}

/// Parses a whole log held in memory, record by record, in order: the lines
/// are gathered into records as [`RecordAssembler`] does.
#[verifier::spinoff_prover]
pub fn parse_log_bytes(data: &[u8], encoding: FileEncodingHint) -> (r: Vec<Result<Sqllog, ParseError>>)
    requires
        data@.len() < u64::MAX,
    ensures
        results_view(r@) == spec_run(initial_state(encoding), data@, 0),
        results_view(r@) == chunk_parses(data@, 0, encoding),
{
    proof {
        lemma_log_is_its_chunks(data@, encoding);
    }
    let mut gatherer = RecordAssembler::new(encoding);
    let mut out: Vec<Result<Sqllog, ParseError>> = Vec::new();
    let mut pos: usize = 0;
    assert(results_view(out@) =~= Seq::<Result<SqllogSpec, ParseErrorSpec>>::empty());
    while pos < data.len()
        invariant
            pos <= data@.len(),
            data@.len() < u64::MAX,
            !gatherer@.done,
            gatherer@.next_line <= pos + 1,
            results_view(out@) + spec_run(gatherer@, data@, pos as int) == spec_run(initial_state(encoding), data@, 0),
        decreases data@.len() - pos,
    {
        let rest = &data[pos..data.len()];
        let e = match find_byte(10, rest) {
            Some(k) => pos + k + 1,
            None => data.len(),
        };
        assert(e as int == line_end(data@, pos as int));
        let line = &data[pos..e];
        let ghost before = gatherer@;
        let ghost out_before = results_view(out@);
        let got = gatherer.push_line(line);
        let ghost step = spec_push_line(before, data@.subrange(pos as int, e as int));
        assert(spec_run(before, data@, pos as int) == opt_seq(step.1) + spec_run(step.0, data@, e as int));
        match got {
            Some(x) => {
                out.push(x);
            },
            None => {},
        }
        assert(results_view(out@) =~= out_before + opt_seq(step.1));
        pos = e;
    }
    let ghost before = gatherer@;
    let ghost out_before = results_view(out@);
    match gatherer.finish() {
        Some(x) => {
            out.push(x);
        },
        None => {},
    }
    assert(results_view(out@) =~= out_before + opt_seq(spec_finish(before).1));
    out
}

/// Number of `\n` bytes in `t`.
pub open spec fn newlines(t: Seq<u8>) -> nat
    decreases t.len(),
{
    if t.len() == 0 {
        0
    } else {
        newlines(t.drop_last()) + if t.last() == 10u8 { 1nat } else { 0nat }
    }
}

/// The number of the line of `data` that begins at byte `p` (from 1).
pub open spec fn line_number_at(data: Seq<u8>, p: int) -> int {
    1 + newlines(data.subrange(0, p)) as int
}

/// The parses of the records of `data` from byte `s` on, read chunk by
/// chunk: a chunk runs from a line start to the next line, after its first,
/// that starts a record (see [`record_end`]); each chunk that is not blank is
/// parsed without its final line break, with the number of its first line.
pub open spec fn chunk_parses(data: Seq<u8>, s: int, encoding: FileEncodingHint) -> Seq<
    Result<SqllogSpec, ParseErrorSpec>,
>
    decreases data.len() - s,
{
    if s < 0 || s >= data.len() {
        Seq::empty()
    } else {
        let e = record_end(data, s);
        proof {
            crate::realtime::lemma_record_end(data, s);
        }
        let c = data.subrange(s, e);
        (if record_text(c).len() == 0 {
            Seq::empty()
        } else {
            seq![parse_chunk(c, encoding, line_number_at(data, s) as u64)]
        }) + chunk_parses(data, e, encoding)
    }
}

proof fn lemma_newlines_concat(a: Seq<u8>, b: Seq<u8>)
    ensures
        newlines(a + b) == newlines(a) + newlines(b),
    decreases b.len(),
{
    if b.len() == 0 {
        assert(a + b =~= a);
    } else {
        assert((a + b).drop_last() =~= a + b.drop_last());
        lemma_newlines_concat(a, b.drop_last());
    }
}

proof fn lemma_newlines_le(t: Seq<u8>)
    ensures
        newlines(t) <= t.len(),
    decreases t.len(),
{
    if t.len() > 0 {
        lemma_newlines_le(t.drop_last());
    }
}

proof fn lemma_newlines_none(t: Seq<u8>)
    requires
        forall|i: int| 0 <= i < t.len() ==> t[i] != 10u8,
    ensures
        newlines(t) == 0,
    decreases t.len(),
{
    if t.len() > 0 {
        lemma_newlines_none(t.drop_last());
    }
}

/// A full line (not the last one) holds exactly one line break.
proof fn lemma_line_newlines(data: Seq<u8>, pos: int)
    requires
        0 <= pos < data.len(),
        line_end(data, pos) < data.len(),
    ensures
        newlines(data.subrange(0, line_end(data, pos))) == newlines(data.subrange(0, pos)) + 1,
        pos < line_end(data, pos),
{
    let rest = data.subrange(pos, data.len() as int);
    crate::scan::lemma_first_byte(rest, 10u8);
    let k = first_byte(rest, 10u8)->0;
    let e = line_end(data, pos);
    let body = data.subrange(pos, pos + k);
    assert forall|i: int| 0 <= i < body.len() implies body[i] != 10u8 by {
        assert(body[i] == rest[i]);
    }
    lemma_newlines_none(body);
    assert(data.subrange(pos, e) =~= body.push(10u8));
    assert(data.subrange(pos, e).drop_last() =~= body);
    assert(data.subrange(0, e) =~= data.subrange(0, pos) + data.subrange(pos, e));
    lemma_newlines_concat(data.subrange(0, pos), data.subrange(pos, e));
}

proof fn lemma_run_chunks(s: AssemblerState, data: Seq<u8>, cs: int, pos: int)
    requires
        data.len() < u64::MAX,
        0 <= cs <= pos <= data.len(),
        !s.done,
        cs == pos ==> (pos == 0 && s.pending.len() == 0),
        cs < pos ==> s.pending == data.subrange(cs, pos) && record_end(data, cs) == record_end_from(data, pos),
        cs < pos ==> s.pending_line == line_number_at(data, cs),
        pos < data.len() ==> s.next_line == line_number_at(data, pos),
        s.next_line <= pos + 1,
    ensures
        spec_run(s, data, pos) == chunk_parses(data, cs, s.encoding),
    decreases data.len() - pos,
{
    if pos >= data.len() {
        if cs < pos {
            lemma_record_end_from(data, pos);
            assert(chunk_parses(data, data.len() as int, s.encoding) =~= Seq::<Result<SqllogSpec, ParseErrorSpec>>::empty());
            if record_text(data.subrange(cs, pos)).len() == 0 {
                assert(chunk_parses(data, cs, s.encoding) =~= Seq::<Result<SqllogSpec, ParseErrorSpec>>::empty());
            } else {
                assert(chunk_parses(data, cs, s.encoding) =~= seq![finished(s)]);
            }
        }
    } else {
        let e = line_end(data, pos);
        crate::record::lemma_first_byte_bound(data.subrange(pos, data.len() as int), 10u8);
        assert(pos < e <= data.len());
        let line = data.subrange(pos, e);
        let step = spec_push_line(s, line);
        lemma_newlines_le(data.subrange(0, pos));
        if e < data.len() {
            lemma_line_newlines(data, pos);
        }
        if cs == pos {
            lemma_run_chunks(step.0, data, cs, e);
        } else if starts_record(line) {
            assert(record_end_from(data, pos) == pos);
            assert(record_end(data, cs) == pos);
            lemma_run_chunks(step.0, data, pos, e);
            let c = data.subrange(cs, pos);
            if record_text(c).len() == 0 {
                assert(chunk_parses(data, cs, s.encoding) =~= chunk_parses(data, pos, s.encoding));
            } else {
                assert(chunk_parses(data, cs, s.encoding) =~= seq![finished(s)] + chunk_parses(data, pos, s.encoding));
            }
        } else {
            assert(record_end_from(data, pos) == record_end_from(data, e));
            assert(s.pending + line =~= data.subrange(cs, e));
            lemma_run_chunks(step.0, data, cs, e);
        }
    }
}

/// Reading a log line by line yields, in order, the parses of its chunks
/// (see [`chunk_parses`]): each record runs from a line to the next line that
/// starts a record, blank records are skipped, and each parse, an error
/// included, carries the number of its record's first line.
pub proof fn lemma_log_is_its_chunks(data: Seq<u8>, encoding: FileEncodingHint)
    requires
        data.len() < u64::MAX,
    ensures
        spec_run(initial_state(encoding), data, 0) == chunk_parses(data, 0, encoding),
{
    if data.len() > 0 {
        assert(data.subrange(0, 0) =~= Seq::<u8>::empty());
    }
    lemma_run_chunks(initial_state(encoding), data, 0, 0);
}

} // verus!
