//! Parsing a log file that keeps growing: each call takes what was appended
//! since the last one, parses the records that are complete, and keeps the
//! rest for the next call.

use vstd::prelude::*;
use crate::error::{ParseError, ParseErrorSpec};
use crate::parser::encoding::FileEncodingHint;
use crate::parser::iterator::{starts_record, record_text, line_end, is_timestamp_start,
    trailing_newline_len, results_view, result_view};
use crate::parser::{parse_record_with_hint, spec_parse_record_with_hint};
use crate::record::{Sqllog, SqllogSpec};
use crate::scan::{first_byte, find_byte};

verus! {

broadcast use crate::scan::group_scan;

/// Settings of a [`RealtimeParser`].
#[derive(Debug, Clone)]
pub struct ParserConfig {
    /// The log file.
    pub file_path: String,
    /// How long to wait between polls of the file, in milliseconds.
    pub poll_interval_ms: u64,
    /// Size of the read buffer, in bytes.
    pub buffer_size: usize,
}

impl Default for ParserConfig {
    fn default() -> (r: ParserConfig)
        ensures
            r.file_path@ == seq!['s', 'q', 'l', 'l', 'o', 'g', '.', 'l', 'o', 'g'],
            r.poll_interval_ms == 1000,
            r.buffer_size == 8192,
    {
        proof {
            reveal_strlit("sqllog.log");
        }
        ParserConfig { file_path: String::from_str("sqllog.log"), poll_interval_ms: 1000, buffer_size: 8192 }
    }
}

/// The end of the record of `t` that starts at `s`: the start of the next
/// line, after the first line of the record, that starts a record; or the end.
pub open spec fn record_end_from(t: Seq<u8>, q: int) -> int
    decreases t.len() - q,
{
    if q < 0 || q >= t.len() {
        t.len() as int
    } else {
        let e = line_end(t, q);
        proof {
            crate::record::lemma_first_byte_bound(t.subrange(q, t.len() as int), 10u8);
        }
        if starts_record(t.subrange(q, e)) {
            q
        } else {
            record_end_from(t, e)
        }
    }
}

/// The end of the record of `t` that starts at `s`.
pub open spec fn record_end(t: Seq<u8>, s: int) -> int {
    record_end_from(t, line_end(t, s))
}

/// A piece of text ends with a line break.
pub open spec fn ends_with_break(r: Seq<u8>) -> bool {
    r.len() > 0 && (r.last() == 10u8 || r.last() == 13u8)
}

/// The bounds of the complete records of `t` from `s` on, in order: a record
/// is complete when it ends with a line break, or when it is the last one and
/// the new text ended with one (`trailing`); the first incomplete record
/// stops the list.
pub open spec fn complete_records(t: Seq<u8>, s: int, trailing: bool) -> Seq<(int, int)>
    decreases t.len() - s,
{
    if s < 0 || s >= t.len() {
        Seq::empty()
    } else {
        let e = record_end(t, s);
        proof {
            lemma_record_end(t, s);
        }
        if ends_with_break(t.subrange(s, e)) || (e == t.len() && trailing) {
            seq![(s, e)] + complete_records(t, e, trailing)
        } else {
            Seq::empty()
        }
    }
}

pub proof fn lemma_record_end_from(t: Seq<u8>, q: int)
    requires
        0 <= q <= t.len(),
    ensures
        q <= record_end_from(t, q) <= t.len(),
    decreases t.len() - q,
{
    if q < t.len() {
        crate::record::lemma_first_byte_bound(t.subrange(q, t.len() as int), 10u8);
        let e = line_end(t, q);
        if !starts_record(t.subrange(q, e)) {
            lemma_record_end_from(t, e);
        }
    }
}

pub proof fn lemma_record_end(t: Seq<u8>, s: int)
    requires
        0 <= s < t.len(),
    ensures
        s < record_end(t, s) <= t.len(),
{
    crate::record::lemma_first_byte_bound(t.subrange(s, t.len() as int), 10u8);
    lemma_record_end_from(t, line_end(t, s));
}

proof fn lemma_complete_records_from(t: Seq<u8>, s: int, trailing: bool)
    requires
        0 <= s <= t.len(),
    ensures
        ({
            let recs = complete_records(t, s, trailing);
            &&& recs.len() > 0 ==> recs[0].0 == s
            &&& forall|i: int| 0 <= i < recs.len() ==> s <= (#[trigger] recs[i]).0 < recs[i].1 <= t.len()
            &&& forall|i: int| 0 <= i < recs.len() - 1 ==> (#[trigger] recs[i]).1 == recs[i + 1].0
        }),
    decreases t.len() - s,
{
    if s < t.len() {
        let e = record_end(t, s);
        lemma_record_end(t, s);
        if ends_with_break(t.subrange(s, e)) || (e == t.len() && trailing) {
            lemma_complete_records_from(t, e, trailing);
            let rest = complete_records(t, e, trailing);
            let recs = complete_records(t, s, trailing);
            assert(recs == seq![(s, e)] + rest);
            assert forall|i: int| 0 <= i < recs.len() implies s <= (#[trigger] recs[i]).0 < recs[i].1 <= t.len() by {
                if i > 0 {
                    assert(recs[i] == rest[i - 1]);
                }
            }
            assert forall|i: int| 0 <= i < recs.len() - 1 implies (#[trigger] recs[i]).1 == recs[i + 1].0 by {
                assert(recs[i + 1] == rest[i]);
                if i > 0 {
                    assert(recs[i] == rest[i - 1]);
                }
            }
        }
    }
}

/// The complete records of a text tile its beginning: the first starts at
/// byte 0, each ends where the next starts, none is empty, and the text kept
/// after the last one is the rest of the text. No byte is parsed twice or
/// skipped.
pub proof fn lemma_complete_records_tile(t: Seq<u8>, trailing: bool)
    ensures
        ({
            let recs = complete_records(t, 0, trailing);
            &&& recs.len() > 0 ==> recs[0].0 == 0
            &&& forall|i: int| 0 <= i < recs.len() ==> 0 <= (#[trigger] recs[i]).0 < recs[i].1 <= t.len()
            &&& forall|i: int| 0 <= i < recs.len() - 1 ==> (#[trigger] recs[i]).1 == recs[i + 1].0
            &&& 0 <= complete_end(recs) <= t.len()
            &&& t == t.subrange(0, complete_end(recs)) + t.subrange(complete_end(recs), t.len() as int)
        }),
{
    lemma_complete_records_from(t, 0, trailing);
    let recs = complete_records(t, 0, trailing);
    if recs.len() > 0 {
        assert(0 <= recs[recs.len() - 1].1 <= t.len());
    }
    assert(t =~= t.subrange(0, complete_end(recs)) + t.subrange(complete_end(recs), t.len() as int));
}

/// The texts of the records of `t` with bounds `recs`.
pub open spec fn record_texts(t: Seq<u8>, recs: Seq<(int, int)>) -> Seq<Seq<u8>> {
    Seq::new(recs.len(), |i: int| t.subrange(recs[i].0, recs[i].1))
}

proof fn lemma_tiles_flatten(t: Seq<u8>, recs: Seq<(int, int)>)
    requires
        recs.len() > 0 ==> recs[0].0 == 0,
        forall|i: int| 0 <= i < recs.len() ==> 0 <= (#[trigger] recs[i]).0 < recs[i].1 <= t.len(),
        forall|i: int| 0 <= i < recs.len() - 1 ==> (#[trigger] recs[i]).1 == recs[i + 1].0,
    ensures
        record_texts(t, recs).flatten() == t.subrange(0, complete_end(recs)),
    decreases recs.len(),
{
    if recs.len() == 0 {
        assert(record_texts(t, recs) =~= Seq::<Seq<u8>>::empty());
        assert(t.subrange(0, 0) =~= Seq::<u8>::empty());
    } else {
        let r1 = recs.drop_last();
        assert forall|i: int| 0 <= i < r1.len() - 1 implies (#[trigger] r1[i]).1 == r1[i + 1].0 by {
            assert(r1[i] == recs[i] && r1[i + 1] == recs[i + 1]);
        }
        lemma_tiles_flatten(t, r1);
        let last = recs.last();
        assert(record_texts(t, recs) =~= record_texts(t, r1).push(t.subrange(last.0, last.1)));
        record_texts(t, r1).lemma_flatten_push(t.subrange(last.0, last.1));
        if r1.len() > 0 {
            assert(recs[r1.len() - 1].1 == recs[r1.len() as int].0);
            assert(complete_end(r1) == r1.last().1);
        }
        assert(t.subrange(0, complete_end(r1)) + t.subrange(last.0, last.1) =~= t.subrange(0, last.1));
    }
}

proof fn lemma_join(p1: Seq<u8>, kept: Seq<u8>, p2: Seq<u8>, k2: Seq<u8>, t1: Seq<u8>, b: Seq<u8>)
    requires
        p1 + kept == t1,
        p2 + k2 == kept + b,
    ensures
        p1 + p2 + k2 == t1 + b,
{
    assert(p1 + p2 + k2 =~= p1 + (p2 + k2));
    assert(p1 + (kept + b) =~= (p1 + kept) + b);
}

/// The texts of the complete records of `t`, read one after another, and
/// the text kept after them are `t`.
proof fn lemma_records_and_rest(t: Seq<u8>, trailing: bool)
    ensures
        ({
            let recs = complete_records(t, 0, trailing);
            record_texts(t, recs).flatten() + t.subrange(complete_end(recs), t.len() as int) == t
        }),
{
    let recs = complete_records(t, 0, trailing);
    lemma_complete_records_tile(t, trailing);
    lemma_tiles_flatten(t, recs);
}

/// Two increments in a row lose and repeat no byte: the records returned by
/// the first (from the kept text `buf` and the new text `a`), then those
/// returned by the second (from what the first kept and the new text `b`),
/// then what the second keeps, are `buf`, `a` and `b` in order.
pub proof fn lemma_two_increments(buf: Seq<u8>, a: Seq<u8>, b: Seq<u8>)
    ensures
        ({
            let t1 = buf + a;
            let recs1 = complete_records(t1, 0, ends_with_break(a));
            let kept = t1.subrange(complete_end(recs1), t1.len() as int);
            let t2 = kept + b;
            let recs2 = complete_records(t2, 0, ends_with_break(b));
            record_texts(t1, recs1).flatten() + record_texts(t2, recs2).flatten()
                + t2.subrange(complete_end(recs2), t2.len() as int) == buf + a + b
        }),
{
    let t1 = buf + a;
    let recs1 = complete_records(t1, 0, ends_with_break(a));
    let kept = t1.subrange(complete_end(recs1), t1.len() as int);
    let t2 = kept + b;
    let recs2 = complete_records(t2, 0, ends_with_break(b));
    lemma_records_and_rest(t1, ends_with_break(a));
    lemma_records_and_rest(t2, ends_with_break(b));
    lemma_join(
        record_texts(t1, recs1).flatten(),
        kept,
        record_texts(t2, recs2).flatten(),
        t2.subrange(complete_end(recs2), t2.len() as int),
        t1,
        b,
    );
}

/// Where the complete records of `t` end: after the last one, or 0.
pub open spec fn complete_end(recs: Seq<(int, int)>) -> int {
    if recs.len() == 0 {
        0
    } else {
        recs.last().1
    }
}

/// The parses of the records of `t` with bounds `recs`, each without its
/// final line break.
pub open spec fn parse_bounds(t: Seq<u8>, recs: Seq<(int, int)>) -> Seq<Result<SqllogSpec, ParseErrorSpec>> {
    Seq::new(recs.len(), |i: int| parse_text(t.subrange(recs[i].0, recs[i].1)))
}

/// The parse of one record text without its final line break.
#[verifier::opaque]
pub open spec fn parse_text(b: Seq<u8>) -> Result<SqllogSpec, ParseErrorSpec> {
    spec_parse_record_with_hint(record_text(b), FileEncodingHint::Auto, 0)
}

/// Parses one record text without its final line break.
fn parse_text_exec(rec: &[u8]) -> (r: Result<Sqllog, ParseError>)
    ensures
        result_view(r) == parse_text(rec@),
{
    let trim = trailing_newline_len(rec);
    let r = parse_record_with_hint(&rec[0..rec.len() - trim], FileEncodingHint::Auto, 0);
    assert(rec@.subrange(0, rec@.len() - trim) == record_text(rec@));
    proof {
        reveal(parse_text);
    }
    r
}

/// Parses a growing log file in increments.
pub struct RealtimeParser {
    config: ParserConfig,
    file_position: u64,
    incomplete_buffer: Vec<u8>,
}

impl RealtimeParser {
    pub closed spec fn spec_position(&self) -> u64 {
        self.file_position
    }

    /// The text kept from the last increment: an incomplete record.
    pub closed spec fn spec_buffer(&self) -> Seq<u8> {
        self.incomplete_buffer@
    }

    pub closed spec fn spec_config(&self) -> ParserConfig {
        self.config
    }

    /// A parser at the start of the file of `config`; `FileNotFound` when the
    /// file does not exist (`file_exists` is false).
    pub fn new(config: ParserConfig, file_exists: bool) -> (r: Result<RealtimeParser, ParseError>)
        ensures
            file_exists ==> (r matches Ok(p) && p.spec_position() == 0 && p.spec_buffer().len() == 0
                && p.spec_config() == config),
            !file_exists ==> (r matches Err(e) && e@ == (ParseErrorSpec::FileNotFound { path: config.file_path@ })),
    {
        if !file_exists {
            return Err(ParseError::FileNotFound { path: config.file_path });
        }
        Ok(RealtimeParser { config, file_position: 0, incomplete_buffer: Vec::new() })
    }

    /// The settings.
    pub fn config(&self) -> (r: &ParserConfig)
        ensures
            *r == self.spec_config(),
    {
        &self.config
    }

    /// Continues from byte `position` of the file, dropping the kept text.
    pub fn seek_to(&mut self, position: u64)
        ensures
            final(self).spec_position() == position,
            final(self).spec_buffer().len() == 0,
            final(self).spec_config() == old(self).spec_config(),
    {
        self.file_position = position;
        self.incomplete_buffer = Vec::new();
    }

    /// The byte of the file to continue from.
    pub fn position(&self) -> (r: u64)
        ensures
            r == self.spec_position(),
    {
        self.file_position
    }

    /// Goes back to the start of the file, dropping the kept text.
    pub fn reset(&mut self)
        ensures
            final(self).spec_position() == 0,
            final(self).spec_buffer().len() == 0,
            final(self).spec_config() == old(self).spec_config(),
    {
        self.file_position = 0;
        self.incomplete_buffer = Vec::new();
    }

    /// Takes the text appended to the file since the last call (`new_content`,
    /// `bytes_read` bytes of the file) and returns the parses of the records
    /// that are now complete (see [`complete_records`]), in order; the text
    /// after them is kept for the next call.
    pub fn parse_new_content(&mut self, new_content: &[u8], bytes_read: u64) -> (r: Vec<Result<Sqllog, ParseError>>)
        requires
            old(self).spec_position() + bytes_read <= u64::MAX,
        ensures
            final(self).spec_position() == old(self).spec_position() + bytes_read,
            final(self).spec_config() == old(self).spec_config(),
            ({
                let t = old(self).spec_buffer() + new_content@;
                let trailing = ends_with_break(new_content@);
                let recs = complete_records(t, 0, trailing);
                &&& results_view(r@) == parse_bounds(t, recs)
                &&& final(self).spec_buffer() == t.subrange(complete_end(recs), t.len() as int)
            }),
    {
        self.file_position = self.file_position + bytes_read;
        let n = new_content.len();
        let trailing = n > 0 && (new_content[n - 1] == 10 || new_content[n - 1] == 13);
        let t = concat_bytes(self.incomplete_buffer.as_slice(), new_content);
        let (out, end) = complete_parses(t.as_slice(), trailing);
        self.incomplete_buffer = copy_range(t.as_slice(), end);
        out
    }

    /// Parses the whole file from its start: `content` is all of it. The
    /// records complete in it are returned and the rest is kept, as
    /// [`parse_new_content`](RealtimeParser::parse_new_content) does after a
    /// [`reset`](RealtimeParser::reset).
    pub fn parse_all(&mut self, content: &[u8]) -> (r: Vec<Result<Sqllog, ParseError>>)
        ensures
            final(self).spec_position() == content@.len(),
            final(self).spec_config() == old(self).spec_config(),
            ({
                let recs = complete_records(content@, 0, ends_with_break(content@));
                &&& results_view(r@) == parse_bounds(content@, recs)
                &&& final(self).spec_buffer() == content@.subrange(complete_end(recs), content@.len() as int)
            }),
    {
        self.reset();
        let r = self.parse_new_content(content, content.len() as u64);
        assert(Seq::<u8>::empty() + content@ =~= content@);
        r
    }
}

/// `a` followed by `b`.
fn concat_bytes(a: &[u8], b: &[u8]) -> (r: Vec<u8>)
    ensures
        r@ == a@ + b@,
{
    let mut t: Vec<u8> = Vec::new();
    let mut i: usize = 0;
    while i < a.len()
        invariant
            i <= a@.len(),
            t@ == a@.subrange(0, i as int),
        decreases a@.len() - i,
    {
        t.push(a[i]);
        i = i + 1;
        assert(t@ =~= a@.subrange(0, i as int));
    }
    let mut j: usize = 0;
    while j < b.len()
        invariant
            j <= b@.len(),
            t@ == a@ + b@.subrange(0, j as int),
        decreases b@.len() - j,
    {
        t.push(b[j]);
        j = j + 1;
        assert(t@ =~= a@ + b@.subrange(0, j as int));
    }
    assert(b@.subrange(0, b@.len() as int) =~= b@);
    t
}

/// `t[s..]` as a vector.
fn copy_range(t: &[u8], s: usize) -> (r: Vec<u8>)
    requires
        s <= t@.len(),
    ensures
        r@ == t@.subrange(s as int, t@.len() as int),
{
    let mut rest: Vec<u8> = Vec::new();
    let mut k: usize = s;
    while k < t.len()
        invariant
            s <= k <= t@.len(),
            rest@ == t@.subrange(s as int, k as int),
        decreases t@.len() - k,
    {
        rest.push(t[k]);
        k = k + 1;
        assert(rest@ =~= t@.subrange(s as int, k as int));
    }
    rest
}

/// The parses of the complete records of `t`, and where they end.
fn complete_parses(t: &[u8], trailing: bool) -> (r: (Vec<Result<Sqllog, ParseError>>, usize))
    ensures
        results_view(r.0@) == parse_bounds(t@, complete_records(t@, 0, trailing)),
        r.1 == complete_end(complete_records(t@, 0, trailing)),
        r.1 <= t@.len(),
{
    let ghost all = complete_records(t@, 0, trailing);
    let mut out: Vec<Result<Sqllog, ParseError>> = Vec::new();
    let mut s: usize = 0;
    let mut go = true;
    assert(results_view(out@) =~= Seq::<Result<SqllogSpec, ParseErrorSpec>>::empty());
    assert(all.subrange(0, 0) =~= Seq::<(int, int)>::empty());
    while go && s < t.len()
        invariant
            s <= t@.len(),
            all == complete_records(t@, 0, trailing),
            out@.len() <= all.len(),
            all == all.subrange(0, out@.len() as int) + complete_records(t@, s as int, trailing),
            results_view(out@) == parse_bounds(t@, all.subrange(0, out@.len() as int)),
            s == complete_end(all.subrange(0, out@.len() as int)),
            !go ==> complete_records(t@, s as int, trailing) == Seq::<(int, int)>::empty(),
        decreases t@.len() - s + (if go { 1int } else { 0int }),
    {
        let e = next_record_end(t, s);
        proof {
            lemma_record_end(t@, s as int);
        }
        let rec = &t[s..e];
        let el = e - s;
        let complete = (rec[el - 1] == 10 || rec[el - 1] == 13) || (e == t.len() && trailing);
        if !complete {
            go = false;
        } else {
            let ghost k = out@.len() as int;
            let parsed = parse_text_exec(rec);
            let ghost before = out@;
            out.push(parsed);
            assert forall|i: int| 0 <= i < k + 1 implies results_view(out@)[i] == parse_bounds(t@, all.subrange(0, k + 1))[i] by {
                if i < k {
                    assert(out@[i] == before[i]);
                    assert(results_view(before)[i] == parse_bounds(t@, all.subrange(0, k))[i]);
                } else {
                    assert(out@[i] == parsed);
                }
            }
            assert(complete_records(t@, s as int, trailing) == seq![(s as int, e as int)] + complete_records(t@, e as int, trailing));
            assert(all[k] == (s as int, e as int));
            assert(all.subrange(0, k + 1) =~= all.subrange(0, k).push((s as int, e as int)));
            assert(all.subrange(0, k + 1) + complete_records(t@, e as int, trailing) =~= all);
            assert(results_view(out@) =~= parse_bounds(t@, all.subrange(0, k + 1)));
            s = e;
        }
    }
    assert(complete_records(t@, s as int, trailing) =~= Seq::<(int, int)>::empty());
    assert(all.subrange(0, out@.len() as int) =~= all);
    (out, s)
}

/// The end of the record of `t` starting at `s` (see [`record_end`]).
fn next_record_end(t: &[u8], s: usize) -> (r: usize)
    requires
        s < t@.len(),
    ensures
        r == record_end(t@, s as int),
{
    let mut q = line_end_of(t, s);
    while q < t.len()
        invariant
            s < q <= t@.len(),
            record_end(t@, s as int) == record_end_from(t@, q as int),
        decreases t@.len() - q,
    {
        let e = line_end_of(t, q);
        let line = &t[q..e];
        if line.len() >= 23 && is_timestamp_start(line) {
            return q;
        }
        q = e;
    }
    q
}

/// The end of the line of `t` starting at `pos` (see [`line_end`]).
fn line_end_of(t: &[u8], pos: usize) -> (r: usize)
    requires
        pos < t@.len(),
    ensures
        r == line_end(t@, pos as int),
        pos < r <= t@.len(),
{
    let rest = &t[pos..t.len()];
    match find_byte(10, rest) {
        Some(k) => pos + k + 1,
        None => t.len(),
    }
}

} // verus!
