//! A raw record of the log: its start line and its continuation lines.

use vstd::prelude::*;
use crate::error::{ParseError, ParseErrorSpec};
use crate::parser::parse_functions::{join_lines, parse_record, spec_parse_lines, str_views, start_line_ok};
use crate::sqllog::{SqllogEntry, EntrySpec};

verus! {

/// A record as lines of text: the start line (timestamp and meta part)
/// first, then the lines that continue its SQL body.
#[derive(Debug, Clone, PartialEq)]
pub struct Record {
    /// The lines, the start line first.
    pub lines: Vec<String>,
}

/// The texts of strings.
pub open spec fn string_views(v: Seq<String>) -> Seq<Seq<char>> {
    Seq::new(v.len(), |i: int| v[i]@)
}

impl View for Record {
    type V = Seq<Seq<char>>;

    open spec fn view(&self) -> Seq<Seq<char>> {
        string_views(self.lines@)
    }
}

impl Record {
    /// A record of one start line.
    pub fn new(start_line: String) -> (r: Record)
        ensures
            r@ == seq![start_line@],
    {
        let r = Record { lines: vec![start_line] };
        assert(r@ =~= seq![start_line@]);
        r
    }

    /// Appends a continuation line.
    pub fn add_line(&mut self, line: String)
        ensures
            final(self)@ == old(self)@.push(line@),
    {
        self.lines.push(line);
        assert(self@ =~= old(self)@.push(line@));
    }

    /// The start line.
    pub fn start_line(&self) -> (r: &str)
        requires
            self@.len() > 0,
        ensures
            r@ == self@[0],
    {
        self.lines[0].as_str()
    }

    /// All lines, the start line first.
    pub fn all_lines(&self) -> (r: &[String])
        ensures
            r@ == self.lines@,
    {
        self.lines.as_slice()
    }

    /// The lines joined with `\n`.
    pub fn full_content(&self) -> (r: String)
        ensures
            r@ == join_lines(self@),
    {
        let n = self.lines.len();
        if n == 0 {
            return String::new();
        }
        let mut out = self.lines[0].clone();
        let mut i: usize = 1;
        proof {
            reveal_strlit("\n");
            assert(self@.subrange(0, 1) =~= seq![self@[0]]);
        }
        while i < n
            invariant
                n == self@.len(),
                1 <= i <= n,
                out@ == join_lines(self@.subrange(0, i as int)),
            decreases n - i,
        {
            proof {
                reveal_strlit("\n");
            }
            out.append("\n");
            out.append(self.lines[i].as_str());
            assert(self@.subrange(0, i + 1).drop_last() =~= self@.subrange(0, i as int));
            assert(self@.subrange(0, i + 1).last() == self@[i as int]);
            i = i + 1;
        }
        assert(self@.subrange(0, n as int) =~= self@);
        out
    }

    /// Whether the record has continuation lines.
    pub fn has_continuation_lines(&self) -> (r: bool)
        ensures
            r == (self@.len() > 1),
    {
        self.lines.len() > 1
    }

    /// Parses the record (see [`parse_record`]).
    pub fn parse_to_sqllog(&self) -> (r: Result<SqllogEntry, ParseError>)
        requires
            self@.len() > 0 ==> start_line_ok(self@[0]),
        ensures
            match spec_parse_lines(self@) {
                Ok(v) => r matches Ok(p) && p@ == v,
                Err(e) => r matches Err(x) && x@ == e,
            },
    {
        let mut v: Vec<&str> = Vec::new();
        let mut i: usize = 0;
        while i < self.lines.len()
            invariant
                i <= self@.len(),
                v@.len() == i,
                str_views(v@) == self@.subrange(0, i as int),
            decreases self@.len() - i,
        {
            let s = self.lines[i].as_str();
            assert(s@ == self@[i as int]);
            let ghost before = v@;
            v.push(s);
            assert(v@ == before.push(s));
            assert forall|k: int| 0 <= k <= i implies str_views(v@)[k] == self@.subrange(0, i + 1)[k] by {
                if k < i {
                    assert(str_views(before)[k] == self@.subrange(0, i as int)[k]);
                    assert(v@[k] == before[k]);
                } else {
                    assert(v@[k] == s);
                }
            }
            i = i + 1;
            assert(str_views(v@) =~= self@.subrange(0, i as int));
        }
        assert(self@.subrange(0, self@.len() as int) =~= self@);
        assert(str_views(v@) =~= self@);
        parse_record(v.as_slice())
    }
}

} // verus!
