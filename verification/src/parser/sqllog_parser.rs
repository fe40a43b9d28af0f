//! Gathering the lines of a log into records and parsing each record.

use vstd::prelude::*;
use crate::chars::first_idx;
use crate::error::{ParseError, ParseErrorSpec};
use crate::parser::parse_functions::{start_line_ok, spec_parse_lines, record_head};
use crate::parser::record_parser::{RecordParser, spec_push, spec_records, trim_line_breaks, is_start,
    trim_line, parse_records_from_string};
use crate::sqllog::{SqllogEntry, EntrySpec};
use crate::text::str_chars;

verus! {

broadcast use crate::chars::group_chars;

/// A line whose record can be parsed without cutting a character: when it
/// is a record start line whose timestamp and meta fields parse, the
/// character after its first `)` is ASCII (see [`start_line_ok`]).
pub open spec fn line_ok(line: Seq<char>) -> bool {
    start_line_ok(trim_line_breaks(line))
}

/// Whether `line` satisfies [`line_ok`].
pub fn line_start_ok(line: &str) -> (r: bool)
    ensures
        r == line_ok(line@),
{
    let t = trim_line(line);
    if record_head(t.as_str()).is_err() {
        return true;
    }
    let c = str_chars(t.as_str());
    assert(c@.subrange(0, c@.len() as int) =~= c@);
    match crate::chars::find_char(c.as_slice(), 0, c.len(), ')') {
        None => true,
        Some(cc) => {
            if c.len() - cc > 1 {
                (c[cc + 1] as u32) < 128
            } else {
                true
            }
        },
    }
}

/// The view of a parse result.
pub open spec fn entry_result_view(r: Result<SqllogEntry, ParseError>) -> Result<EntrySpec, ParseErrorSpec> {
    match r {
        Ok(x) => Ok(x@),
        Err(e) => Err(e@),
    }
}

/// Parses the records of the lines it is given, one by one.
pub struct SqllogParser {
    record_parser: RecordParser,
}

impl SqllogParser {
    /// The record gathered so far, if any.
    pub closed spec fn pending(&self) -> Option<Seq<Seq<char>>> {
        self.record_parser@
    }

    /// The record gathered so far can be parsed.
    pub open spec fn wf(&self) -> bool {
        self.pending() matches Some(r) ==> r.len() > 0 && start_line_ok(r[0])
    }

    /// A parser before its first line.
    pub fn new() -> (r: SqllogParser)
        ensures
            r.wf(),
            r.pending() is None,
    {
        SqllogParser { record_parser: RecordParser::new() }
    }

    /// Takes the next line; returns the parse of the record it completes, if
    /// any.
    pub fn push_line(&mut self, line: &str) -> (r: Option<Result<SqllogEntry, ParseError>>)
        requires
            old(self).wf(),
            line_ok(line@),
        ensures
            final(self).wf(),
            final(self).pending() == spec_push(old(self).pending(), line@).0,
            match spec_push(old(self).pending(), line@).1 {
                Some(rec) => r matches Some(x) && entry_result_view(x) == spec_parse_lines(rec),
                None => r is None,
            },
    {
        match self.record_parser.push_line(line) {
            Some(rec) => Some(rec.parse_to_sqllog()),
            None => None,
        }
    }

    /// Ends the input; returns the parse of the last record, if any.
    pub fn finish(&mut self) -> (r: Option<Result<SqllogEntry, ParseError>>)
        requires
            old(self).wf(),
        ensures
            final(self).wf(),
            final(self).pending() is None,
            match old(self).pending() {
                Some(rec) => r matches Some(x) && entry_result_view(x) == spec_parse_lines(rec),
                None => r is None,
            },
    {
        match self.record_parser.finish() {
            Some(rec) => Some(rec.parse_to_sqllog()),
            None => None,
        }
    }
}

/// The parses of the records of the text `c`.
pub open spec fn spec_sqllogs(c: Seq<char>) -> Seq<Result<EntrySpec, ParseErrorSpec>> {
    Seq::new(spec_records(c).len(), |i: int| spec_parse_lines(spec_records(c)[i]))
}

/// Every record of the text `c` can be parsed without cutting a character.
pub open spec fn records_ok(c: Seq<char>) -> bool {
    forall|i: int| 0 <= i < spec_records(c).len() && (#[trigger] spec_records(c)[i]).len() > 0
        ==> start_line_ok(spec_records(c)[i][0])
}

/// Splits `input` into records and parses each.
pub fn parse_sqllogs_from_string(input: &str) -> (r: Vec<Result<SqllogEntry, ParseError>>)
    requires
        records_ok(input@),
    ensures
        Seq::new(r@.len(), |i: int| entry_result_view(r@[i])) == spec_sqllogs(input@),
{
    let records = parse_records_from_string(input);
    let ghost recs = spec_records(input@);
    let mut out: Vec<Result<SqllogEntry, ParseError>> = Vec::new();
    let mut i: usize = 0;
    while i < records.len()
        invariant
            recs == spec_records(input@),
            records_ok(input@),
            Seq::new(records@.len(), |k: int| records@[k]@) == recs,
            i <= records@.len(),
            out@.len() == i,
            forall|k: int| 0 <= k < i ==> entry_result_view(#[trigger] out@[k]) == spec_parse_lines(recs[k]),
        decreases records@.len() - i,
    {
        assert(records@[i as int]@ == recs[i as int]);
        let x = records[i].parse_to_sqllog();
        out.push(x);
        i = i + 1;
    }
    assert(Seq::new(out@.len(), |k: int| entry_result_view(out@[k])) =~= spec_sqllogs(input@));
    out
}

} // verus!
