//! Gathering the lines of a log into raw records: a record start line
//! begins a record, the lines after it continue it, and lines before the
//! first record start line are skipped.

use vstd::prelude::*;
use vstd::utf8::encode_utf8;
use crate::chars::first_idx;
use crate::parser::record::Record;
use crate::text::{str_chars, chars_to_string};
use crate::tools::{is_record_start_line, spec_is_record_start};

verus! {

broadcast use crate::chars::group_chars;

/// `c` without its trailing `\n` and `\r` characters.
pub open spec fn trim_line_breaks(c: Seq<char>) -> Seq<char>
    decreases c.len(),
{
    if c.len() > 0 && (c.last() == '\n' || c.last() == '\r') {
        trim_line_breaks(c.drop_last())
    } else {
        c
    }
}

/// The end of the line of `c` that starts at `pos`: just after its `\n`, or
/// the end of `c`.
pub open spec fn text_line_end(c: Seq<char>, pos: int) -> int {
    match first_idx(c.subrange(pos, c.len() as int), '\n') {
        Some(k) => pos + k + 1,
        None => c.len() as int,
    }
}

/// The trimmed line `t` is a record start line.
pub open spec fn is_start(t: Seq<char>) -> bool {
    spec_is_record_start(encode_utf8(t))
}

/// One line read while the record `cur` (if any) is gathered: the record
/// gathered next, and the record completed by this line, if any.
pub open spec fn spec_push(cur: Option<Seq<Seq<char>>>, line: Seq<char>) -> (Option<Seq<Seq<char>>>, Option<
    Seq<Seq<char>>,
>) {
    let t = trim_line_breaks(line);
    if is_start(t) {
        (Some(seq![t]), cur)
    } else {
        match cur {
            Some(r) => (Some(r.push(t)), None),
            None => (None, None),
        }
    }
}

/// An optional value as a sequence of at most one.
pub open spec fn opt_seq<T>(o: Option<T>) -> Seq<T> {
    match o {
        Some(x) => seq![x],
        None => Seq::empty(),
    }
}

/// The records of the text `c` from index `pos` on, with `cur` gathered so far.
pub open spec fn spec_records_from(cur: Option<Seq<Seq<char>>>, c: Seq<char>, pos: int) -> Seq<Seq<Seq<char>>>
    decreases c.len() - pos,
{
    if pos < 0 || pos >= c.len() {
        opt_seq(cur)
    } else {
        let e = text_line_end(c, pos);
        proof {
            crate::chars::lemma_first_idx(c.subrange(pos, c.len() as int), '\n');
        }
        let step = spec_push(cur, c.subrange(pos, e));
        opt_seq(step.1) + spec_records_from(step.0, c, e)
    }
}

/// The records of the text `c`.
pub open spec fn spec_records(c: Seq<char>) -> Seq<Seq<Seq<char>>> {
    spec_records_from(None, c, 0)
}

/// The lines of `c` from index `pos` on, each without its line break.
pub open spec fn trimmed_lines_from(c: Seq<char>, pos: int) -> Seq<Seq<char>>
    decreases c.len() - pos,
{
    if pos < 0 || pos >= c.len() {
        Seq::empty()
    } else {
        let e = text_line_end(c, pos);
        proof {
            crate::chars::lemma_first_idx(c.subrange(pos, c.len() as int), '\n');
        }
        seq![trim_line_breaks(c.subrange(pos, e))] + trimmed_lines_from(c, e)
    }
}

/// `ls` from its first record start line on (empty when there is none).
pub open spec fn from_first_start(ls: Seq<Seq<char>>) -> Seq<Seq<char>>
    decreases ls.len(),
{
    if ls.len() == 0 || is_start(ls[0]) {
        ls
    } else {
        from_first_start(ls.drop_first())
    }
}

/// A raw record: a record start line, then lines none of which starts a record.
pub open spec fn record_shape(r: Seq<Seq<char>>) -> bool {
    &&& r.len() > 0
    &&& is_start(r[0])
    &&& forall|j: int| 1 <= j < r.len() ==> !is_start(#[trigger] r[j])
}

proof fn lemma_records_from_partition(cur: Option<Seq<Seq<char>>>, c: Seq<char>, pos: int)
    requires
        0 <= pos <= c.len(),
        cur matches Some(r) ==> record_shape(r),
    ensures
        spec_records_from(cur, c, pos).flatten() == match cur {
            Some(r) => r + trimmed_lines_from(c, pos),
            None => from_first_start(trimmed_lines_from(c, pos)),
        },
        forall|i: int|
            0 <= i < spec_records_from(cur, c, pos).len() ==> record_shape(
                #[trigger] spec_records_from(cur, c, pos)[i],
            ),
    decreases c.len() - pos,
{
    broadcast use vstd::seq_lib::group_seq_properties;

    if pos >= c.len() {
        match cur {
            Some(r) => {
                assert(seq![r].flatten() =~= r) by {
                    seq![r].lemma_flatten_one_element();
                }
                assert(r + Seq::<Seq<char>>::empty() =~= r);
            },
            None => {},
        }
    } else {
        let e = text_line_end(c, pos);
        crate::chars::lemma_first_idx(c.subrange(pos, c.len() as int), '\n');
        let t = trim_line_breaks(c.subrange(pos, e));
        let step = spec_push(cur, c.subrange(pos, e));
        let rest = spec_records_from(step.0, c, e);
        let tl = trimmed_lines_from(c, pos);
        assert(tl == seq![t] + trimmed_lines_from(c, e));
        assert(tl[0] == t);
        assert(tl.drop_first() =~= trimmed_lines_from(c, e));
        if is_start(t) {
            assert(record_shape(seq![t]));
        } else {
            match cur {
                Some(r) => {
                    assert forall|j: int| 1 <= j < r.push(t).len() implies !is_start(#[trigger] r.push(t)[j]) by {
                        if j < r.len() {
                            assert(r.push(t)[j] == r[j]);
                        }
                    }
                    assert(r.push(t)[0] == r[0]);
                },
                None => {},
            }
        }
        lemma_records_from_partition(step.0, c, e);
        vstd::seq_lib::lemma_flatten_concat(opt_seq(step.1), rest);
        match step.1 {
            Some(x) => {
                seq![x].lemma_flatten_one_element();
            },
            None => {},
        }
        assert(spec_records_from(cur, c, pos) == opt_seq(step.1) + rest);
        if is_start(t) {
            match cur {
                Some(r) => {
                    assert(opt_seq(step.1).flatten() =~= r);
                    assert(rest.flatten() == seq![t] + trimmed_lines_from(c, e));
                    assert(r + (seq![t] + trimmed_lines_from(c, e)) =~= r + tl);
                },
                None => {
                    assert(opt_seq(step.1).flatten() =~= Seq::<Seq<char>>::empty());
                    assert(from_first_start(tl) == tl);
                },
            }
        } else {
            match cur {
                Some(r) => {
                    assert(opt_seq(step.1).flatten() =~= Seq::<Seq<char>>::empty());
                    assert(r.push(t) + trimmed_lines_from(c, e) =~= r + tl);
                },
                None => {
                    assert(opt_seq(step.1).flatten() =~= Seq::<Seq<char>>::empty());
                    assert(from_first_start(tl) == from_first_start(tl.drop_first()));
                },
            }
        }
        let all = spec_records_from(cur, c, pos);
        assert forall|i: int| 0 <= i < all.len() implies record_shape(#[trigger] all[i]) by {
            if i < opt_seq(step.1).len() {
                assert(all[i] == opt_seq(step.1)[i]);
            } else {
                assert(all[i] == rest[i - opt_seq(step.1).len()]);
            }
        }
    }
}

/// Splitting a text into raw records loses and repeats no line: the records,
/// read one after another, are the lines of the text (without their line
/// breaks) from its first record start line on. Each record begins with a
/// record start line and holds no other.
pub proof fn lemma_records_partition(c: Seq<char>)
    ensures
        spec_records(c).flatten() == from_first_start(trimmed_lines_from(c, 0)),
        forall|i: int| 0 <= i < spec_records(c).len() ==> record_shape(#[trigger] spec_records(c)[i]),
{
    lemma_records_from_partition(None, c, 0);
}

/// Gathers lines into records.
pub struct RecordParser {
    current: Option<Record>,
}

/// The view of an optional record.
pub open spec fn opt_record_view(r: Option<Record>) -> Option<Seq<Seq<char>>> {
    match r {
        Some(x) => Some(x@),
        None => None,
    }
}

impl View for RecordParser {
    type V = Option<Seq<Seq<char>>>;

    closed spec fn view(&self) -> Option<Seq<Seq<char>>> {
        opt_record_view(self.current)
    }
}

/// `line` without its trailing `\n` and `\r` characters.
pub fn trim_line(line: &str) -> (r: String)
    ensures
        r@ == trim_line_breaks(line@),
{
    let c = str_chars(line);
    let mut k = c.len();
    assert(c@.subrange(0, k as int) =~= c@);
    while k > 0 && (c[k - 1] == '\n' || c[k - 1] == '\r')
        invariant
            k <= c@.len(),
            c@ == line@,
            trim_line_breaks(line@) == trim_line_breaks(c@.subrange(0, k as int)),
        decreases k,
    {
        assert(c@.subrange(0, k as int).drop_last() =~= c@.subrange(0, k - 1));
        k = k - 1;
    }
    chars_to_string(c.as_slice(), 0, k)
}

impl RecordParser {
    /// A parser before its first line.
    pub fn new() -> (r: RecordParser)
        ensures
            r@ is None,
    {
        RecordParser { current: None }
    }

    /// Takes the next line (with or without its line break); returns the
    /// record it completes, if any (see [`spec_push`]).
    pub fn push_line(&mut self, line: &str) -> (r: Option<Record>)
        ensures
            (final(self)@, opt_record_view(r)) == spec_push(old(self)@, line@),
    {
        let t = trim_line(line);
        if is_record_start_line(t.as_str()) {
            let done = self.current.take();
            self.current = Some(Record::new(t));
            done
        } else {
            match self.current.take() {
                Some(mut rec) => {
                    rec.add_line(t);
                    self.current = Some(rec);
                    None
                },
                None => None,
            }
        }
    }

    /// Ends the input; returns the last record, if any.
    pub fn finish(&mut self) -> (r: Option<Record>)
        ensures
            final(self)@ is None,
            opt_record_view(r) == old(self)@,
    {
        self.current.take()
    }
}

/// Splits `input` into its raw records (see [`spec_records`]).
pub fn parse_records_from_string(input: &str) -> (r: Vec<Record>)
    ensures
        Seq::new(r@.len(), |i: int| r@[i]@) == spec_records(input@),
{
    let c = str_chars(input);
    let mut p = RecordParser::new();
    let mut out: Vec<Record> = Vec::new();
    let mut pos: usize = 0;
    while pos < c.len()
        invariant
            pos <= c@.len(),
            c@ == input@,
            Seq::new(out@.len(), |i: int| out@[i]@) + spec_records_from(p@, c@, pos as int)
                == spec_records(input@),
        decreases c@.len() - pos,
    {
        let e = match crate::chars::find_char(c.as_slice(), pos, c.len(), '\n') {
            Some(k) => pos + k + 1,
            None => c.len(),
        };
        assert(e as int == text_line_end(c@, pos as int));
        let line = chars_to_string(c.as_slice(), pos, e);
        let ghost before = p@;
        let ghost out_before = Seq::new(out@.len(), |i: int| out@[i]@);
        let got = p.push_line(line.as_str());
        let ghost step = spec_push(before, c@.subrange(pos as int, e as int));
        assert(spec_records_from(before, c@, pos as int) == opt_seq(step.1) + spec_records_from(step.0, c@, e as int));
        match got {
            Some(x) => {
                out.push(x);
            },
            None => {},
        }
        assert(Seq::new(out@.len(), |i: int| out@[i]@) =~= out_before + opt_seq(step.1));
        pos = e;
    }
    let ghost before = p@;
    let ghost out_before = Seq::new(out@.len(), |i: int| out@[i]@);
    match p.finish() {
        Some(x) => {
            out.push(x);
        },
        None => {},
    }
    assert(Seq::new(out@.len(), |i: int| out@[i]@) =~= out_before + opt_seq(before));
    out
}

} // verus!
