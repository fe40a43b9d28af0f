//! Parsing records of the log: one pass over the raw bytes of a record
//! (this module), parsing from lines of text (`parse_functions`), and the
//! pieces around them.

pub mod builder;
pub mod constants;
pub mod encoding;
pub mod iterator;
pub mod parse_functions;
pub mod record;
pub mod record_parser;
pub mod sqllog_parser;

use vstd::prelude::*;
use vstd::utf8::{valid_utf8, decode_utf8};
use crate::error::{ParseError, ParseErrorSpec};
use crate::parser::encoding::{FileEncodingHint, decode_text, decode_tag, meta_input,
    decode_with_hint, decode_tag_with_hint};
use crate::record::{Sqllog, SqllogSpec, parse_meta_from_bytes, meta_scan, find_indicators_split,
    spec_split, parse_indicators_from_bytes, spec_exectime, spec_rowcount, spec_exec_id};
use crate::scan::{first_byte, find_byte, last_byte, rfind_byte, first_occurrence, find_bytes,
    occurs_at, leading_ws, ascii_ws, to_usize};
use crate::sqllog::{MetaSpec, empty_meta};
use crate::text::{gb18030_decode, lossy_utf8, lossy_string, utf8_str, ascii_chars, str_chars, chars_to_string};

verus! {

broadcast use crate::scan::group_scan;

/// The first line of a record: up to the first `\n`, without a trailing `\r`.
pub open spec fn first_line(rb: Seq<u8>) -> Seq<u8> {
    let l = match first_byte(rb, 10u8) {
        Some(i) => rb.subrange(0, i),
        None => rb,
    };
    if l.len() > 0 && l.last() == 13u8 {
        l.drop_last()
    } else {
        l
    }
}

/// End of the meta part of the first line `fl` whose `(` is at `ms`: the
/// first `) ` after it, else the last `)`.
pub open spec fn meta_end(fl: Seq<u8>, ms: int) -> Option<int> {
    let t = fl.subrange(ms, fl.len() as int);
    match first_occurrence(t, seq![41u8, 32u8]) {
        Some(i) => Some(ms + i),
        None => match last_byte(t, 41u8) {
            Some(i) => Some(ms + i),
            None => None,
        },
    }
}

/// The error for a record whose first line `fl` is malformed.
pub open spec fn invalid_format(fl: Seq<u8>, line: u64) -> ParseErrorSpec {
    ParseErrorSpec::InvalidFormat { raw: lossy_utf8(fl), line_number: line }
}

/// The timestamp, the meta fields, and where the content begins, for a
/// record whose first line is well formed: 23 bytes of UTF-8 timestamp, then
/// a `(`, then the meta part up to its end (see [`meta_end`]); the content
/// begins after the `)` and one space.
pub open spec fn record_head(rb: Seq<u8>, hint: FileEncodingHint) -> Option<(Seq<char>, MetaSpec, int)> {
    let fl = first_line(rb);
    if fl.len() < 23 || !valid_utf8(fl.subrange(0, 23)) {
        None
    } else {
        match first_byte(fl.subrange(23, fl.len() as int), 40u8) {
            None => None,
            Some(k) => {
                let ms = 23 + k;
                match meta_end(fl, ms) {
                    None => None,
                    Some(me) => {
                        let meta = meta_scan(meta_input(hint, fl.subrange(ms + 1, me)), 0, empty_meta());
                        let bs = me + 1;
                        let cs = if bs < fl.len() && fl[bs] == 32u8 { bs + 1 } else { bs };
                        Some((decode_utf8(fl.subrange(0, 23)), meta, cs))
                    },
                }
            },
        }
    }
}

/// The tag at the start of the content `c` of a record and where the text
/// after it begins: `[T]`, with `T` of at most 32 bytes and no space, is a
/// tag (decoded by `hint`, `None` when it does not decode), and the ASCII
/// whitespace after it is skipped.
pub open spec fn tag_split(hint: FileEncodingHint, c: Seq<u8>) -> (Option<Seq<char>>, int) {
    if c.len() > 0 && c[0] == 91u8 {
        match first_byte(c, 93u8) {
            Some(e) => {
                let inner = c.subrange(1, e);
                if e >= 1 && first_byte(inner, 32u8) is None && inner.len() <= 32 {
                    (decode_tag(hint, inner), e + 1 + leading_ws(c.subrange(e + 1, c.len() as int)))
                } else {
                    (None, 0)
                }
            },
            None => (None, 0),
        }
    } else {
        (None, 0)
    }
}

/// `ORA`
pub open spec fn tag_ora() -> Seq<char> {
    seq!['O', 'R', 'A']
}

/// The SQL text of an `ORA` record loses a leading `": "`.
pub open spec fn ora_strip(tag: Option<Seq<char>>, sql: Seq<char>) -> Seq<char> {
    if tag == Some(tag_ora()) && sql.len() >= 2 && sql[0] == ':' && sql[1] == ' ' {
        sql.subrange(2, sql.len() as int)
    } else {
        sql
    }
}

/// The content of a record after the meta part, from index `cs`.
pub open spec fn content_from(rb: Seq<u8>, cs: int) -> Seq<u8> {
    if cs < rb.len() {
        rb.subrange(cs, rb.len() as int)
    } else {
        Seq::empty()
    }
}

/// A record from its raw bytes `rb`: see [`record_head`] for the first line
/// (an `InvalidFormat` error with `line` when it is malformed), [`tag_split`]
/// for the tag, [`spec_split`] for splitting body and indicators; the body
/// is decoded by `hint`, and an `ORA` body loses a leading `": "`.
pub open spec fn spec_parse_record_with_hint(rb: Seq<u8>, hint: FileEncodingHint, line: u64) -> Result<
    SqllogSpec,
    ParseErrorSpec,
> {
    match record_head(rb, hint) {
        None => Err(invalid_format(first_line(rb), line)),
        Some((ts, meta, cs)) => {
            let c = content_from(rb, cs);
            let (tag, off) = tag_split(hint, c);
            let content = c.subrange(off, c.len() as int);
            let split = spec_split(content);
            let ind = content.subrange(split, content.len() as int);
            Ok(SqllogSpec {
                ts,
                tag,
                meta,
                sql: ora_strip(tag, decode_text(hint, content.subrange(0, split))),
                exectime: ascii_chars(spec_exectime(ind)),
                rowcount: spec_rowcount(ind),
                exec_id: spec_exec_id(ind),
                lock_event: None,
            })
        },
    }
}

/// The bytes of the SQL text of a record: its content after the tag, up to
/// the indicators (empty when its first line is malformed).
pub open spec fn sql_bytes(rb: Seq<u8>, hint: FileEncodingHint) -> Seq<u8> {
    match record_head(rb, hint) {
        None => Seq::empty(),
        Some((_, _, cs)) => {
            let c = content_from(rb, cs);
            let content = c.subrange(tag_split(hint, c).1, c.len() as int);
            content.subrange(0, spec_split(content))
        },
    }
}

/// The SQL text of a record is its SQL bytes decoded by the hint: GB18030
/// bytes under `Gb18030` (and under `Auto` when they are not UTF-8), UTF-8
/// under `Auto` when they are; an `ORA` record then loses a leading `": "`.
pub proof fn lemma_record_sql_is_decoded(rb: Seq<u8>, hint: FileEncodingHint, line: u64, t: Seq<char>)
    ensures
        spec_parse_record_with_hint(rb, hint, line) matches Ok(x) ==> {
            &&& hint == FileEncodingHint::Gb18030 && gb18030_decode(sql_bytes(rb, hint)) == Some(t)
                ==> x.sql == ora_strip(x.tag, t)
            &&& hint == FileEncodingHint::Auto && !valid_utf8(sql_bytes(rb, hint)) && gb18030_decode(
                sql_bytes(rb, hint),
            ) == Some(t) ==> x.sql == ora_strip(x.tag, t)
            &&& hint == FileEncodingHint::Auto && valid_utf8(sql_bytes(rb, hint)) ==> x.sql == ora_strip(
                x.tag,
                decode_utf8(sql_bytes(rb, hint)),
            )
        },
{
    crate::parser::encoding::lemma_hints_decode_what_they_name(sql_bytes(rb, hint), t);
}

/// A record either parses, or fails with an `InvalidFormat` error that
/// carries the line number it was given and the text of its first line.
pub proof fn lemma_error_carries_line_and_text(rb: Seq<u8>, hint: FileEncodingHint, line: u64)
    ensures
        spec_parse_record_with_hint(rb, hint, line) matches Err(e) ==> e == (ParseErrorSpec::InvalidFormat {
            raw: lossy_utf8(first_line(rb)),
            line_number: line,
        }),
        spec_parse_record_with_hint(rb, hint, line) is Err <==> record_head(rb, hint) is None,
{
}

/// The first line of a record.
fn first_line_of(rb: &[u8]) -> (r: &[u8])
    ensures
        r@ == first_line(rb@),
        r@.len() <= rb@.len(),
        r@ == rb@.subrange(0, r@.len() as int),
{
    let ghost ls = match first_byte(rb@, 10u8) {
        Some(i) => rb@.subrange(0, i),
        None => rb@,
    };
    let l = match find_byte(10, rb) {
        Some(i) => {
            assert(rb@.len() == rb.len());
            assert(first_byte(rb@, 10u8) == Some(i as int));
            &rb[0..i]
        },
        None => rb,
    };
    assert(l@ == ls);
    assert(l@ =~= rb@.subrange(0, l@.len() as int));
    if l.len() > 0 && l[l.len() - 1] == 13 {
        let r = &l[0..l.len() - 1];
        assert(r@ =~= l@.drop_last());
        assert(r@ =~= rb@.subrange(0, r@.len() as int));
        r
    } else {
        l
    }
}

/// End of the meta part (see [`meta_end`]).
fn meta_end_of(fl: &[u8], ms: usize) -> (r: Option<usize>)
    requires
        ms < fl@.len(),
    ensures
        to_int(r) == meta_end(fl@, ms as int),
        r matches Some(me) ==> ms <= me < fl@.len(),
{
    let t = &fl[ms..fl.len()];
    let close: Vec<u8> = vec![41u8, 32];
    assert(close@ =~= seq![41u8, 32u8]);
    match find_bytes(t, close.as_slice()) {
        Some(i) => {
            proof {
                let j = first_occurrence(t@, close@)->0;
                assert(occurs_at(t@, close@, j));
                assert(t@.len() == t.len());
            }
            Some(ms + i)
        },
        None => match rfind_byte(41, t) {
            Some(i) => Some(ms + i),
            None => None,
        },
    }
}

/// An optional `usize` as an optional integer.
pub open spec fn to_int(o: Option<usize>) -> Option<int> {
    match o {
        Some(x) => Some(x as int),
        None => None,
    }
}

/// The error for a record whose first line is malformed.
pub fn make_invalid_format_error(raw_bytes: &[u8], line_number: u64) -> (r: ParseError)
    ensures
        r@ == invalid_format(raw_bytes@, line_number),
{
    ParseError::InvalidFormat { raw: lossy_string(raw_bytes), line_number }
}

/// Timestamp, meta fields and content start (see [`record_head`]).
fn record_head_of(rb: &[u8], hint: FileEncodingHint) -> (r: Option<(String, crate::sqllog::MetaParts, usize)>)
    ensures
        match record_head(rb@, hint) {
            Some((ts, meta, cs)) => r matches Some((a, b, c)) && a@ == ts && b@ == meta && c == cs,
            None => r is None,
        },
        r matches Some((a, b, c)) ==> c <= rb@.len() + 1,
{
    let fl = first_line_of(rb);
    if fl.len() < 23 {
        return None;
    }
    let ts = match utf8_str(&fl[0..23]) {
        Some(s) => s.to_owned(),
        None => return None,
    };
    let k = match find_byte(40, &fl[23..fl.len()]) {
        Some(k) => k,
        None => return None,
    };
    let ms = 23 + k;
    let me = match meta_end_of(fl, ms) {
        Some(me) => me,
        None => return None,
    };
    proof {
        if me == ms {
            assert(fl@[ms as int] == 40u8);
            let t = fl@.subrange(ms as int, fl@.len() as int);
            if first_occurrence(t, seq![41u8, 32u8]) is Some {
                assert(occurs_at(t, seq![41u8, 32u8], 0));
                assert(t.subrange(0, 2)[0] == t[0]);
            }
        }
    }
    let mb = &fl[ms + 1..me];
    let meta = match hint {
        FileEncodingHint::Utf8 => parse_meta_from_bytes(mb),
        _ => {
            let as_utf8 = hint == FileEncodingHint::Auto && utf8_str(mb).is_some();
            if as_utf8 {
                parse_meta_from_bytes(mb)
            } else {
                match crate::text::gb18030_strict(mb) {
                    Some(t) => parse_meta_from_bytes(t.as_str().as_bytes()),
                    None => {
                        let lossy = lossy_string(mb);
                        parse_meta_from_bytes(lossy.as_str().as_bytes())
                    },
                }
            }
        },
    };
    let bs = me + 1;
    let cs = if bs < fl.len() && fl[bs] == 32 { bs + 1 } else { bs };
    Some((ts, meta, cs))
}

/// Tag and text start (see [`tag_split`]).
fn tag_split_of(hint: FileEncodingHint, c: &[u8]) -> (r: (Option<String>, usize))
    ensures
        ({
            let (t, off) = tag_split(hint, c@);
            &&& r.1 == off
            &&& match t {
                Some(x) => r.0 matches Some(y) && y@ == x,
                None => r.0 is None,
            }
        }),
        r.1 <= c@.len(),
{
    if c.len() > 0 && c[0] == 91 {
        match find_byte(93, c) {
            Some(e) => {
                if e >= 1 {
                    let inner = &c[1..e];
                    assert(inner@ == c@.subrange(1, e as int));
                    if find_byte(32, inner).is_none() && inner.len() <= 32 {
                        let tag = decode_tag_with_hint(hint, inner);
                        let rest = &c[e + 1..c.len()];
                        let mut skip: usize = 0;
                        assert(rest@.subrange(0, rest@.len() as int) =~= rest@);
                        while skip < rest.len() && ascii_ws(rest[skip])
                            invariant
                                skip <= rest@.len(),
                                leading_ws(rest@) == skip + leading_ws(rest@.subrange(skip as int, rest@.len() as int)),
                            decreases rest@.len() - skip,
                        {
                            assert(rest@.subrange(skip as int, rest@.len() as int).drop_first() =~= rest@.subrange(skip + 1, rest@.len() as int));
                            skip = skip + 1;
                        }
                        proof {
                            assert(rest@.subrange(0, rest@.len() as int) =~= rest@);
                        }
                        return (tag, e + 1 + skip);
                    }
                }
                (None, 0)
            },
            None => (None, 0),
        }
    } else {
        (None, 0)
    }
}

/// Whether `tag` is `ORA`.
pub fn is_ora(tag: &Option<String>) -> (r: bool)
    ensures
        r == (match tag {
            Some(t) => t@ == tag_ora(),
            None => false,
        }),
{
    match tag {
        Some(t) => {
            let c = str_chars(t.as_str());
            let r = c.len() == 3 && c[0] == 'O' && c[1] == 'R' && c[2] == 'A';
            proof {
                if r {
                    assert(c@ =~= tag_ora());
                }
            }
            r
        },
        None => false,
    }
}

/// `sql` without a leading `": "` when the tag is `ORA`.
pub fn strip_ora(tag: &Option<String>, sql: String) -> (r: String)
    ensures
        r@ == ora_strip(match tag {
            Some(t) => Some(t@),
            None => None,
        }, sql@),
{
    if is_ora(tag) {
        let c = str_chars(sql.as_str());
        if c.len() >= 2 && c[0] == ':' && c[1] == ' ' {
            return chars_to_string(c.as_slice(), 2, c.len());
        }
    }
    sql
}

/// Parses one record from its raw bytes (the first line, then any
/// continuation lines), decoding text by `encoding_hint`; `line_number` is
/// reported in the error for a malformed first line.
pub fn parse_record_with_hint(record_bytes: &[u8], encoding_hint: FileEncodingHint, line_number: u64) -> (r: Result<
    Sqllog,
    ParseError,
>)
    ensures
        match spec_parse_record_with_hint(record_bytes@, encoding_hint, line_number) {
            Ok(v) => r matches Ok(x) && x@ == v,
            Err(e) => r matches Err(x) && x@ == e,
        },
{
    let (ts, meta, cs) = match record_head_of(record_bytes, encoding_hint) {
        Some(h) => h,
        None => return Err(make_invalid_format_error(first_line_of(record_bytes), line_number)),
    };
    let c = if cs < record_bytes.len() { &record_bytes[cs..record_bytes.len()] } else { &record_bytes[0..0] };
    assert(c@ =~= content_from(record_bytes@, cs as int));
    let (tag, off) = tag_split_of(encoding_hint, c);
    let content = &c[off..c.len()];
    let split = find_indicators_split(content);
    let body_bytes = &content[0..split];
    let ind_bytes = &content[split..content.len()];
    let sql_raw = decode_with_hint(encoding_hint, body_bytes);
    let sql = strip_ora(&tag, sql_raw);
    let (exectime, rowcount, exec_id) = parse_indicators_from_bytes(ind_bytes);
    Ok(Sqllog {
        ts,
        tag,
        ep: meta.ep,
        sess_id: meta.sess_id,
        thrd_id: meta.thrd_id,
        username: meta.username,
        trxid: meta.trxid,
        statement: meta.statement,
        appname: meta.appname,
        client_ip: meta.client_ip,
        sql,
        exectime,
        rowcount,
        exec_id,
        lock_event: None,
    })
}

/// Parses one record from its raw bytes, detecting the encoding of its text.
pub fn parse_record(record_bytes: &[u8]) -> (r: Result<Sqllog, ParseError>)
    ensures
        match spec_parse_record_with_hint(record_bytes@, FileEncodingHint::Auto, 0) {
            Ok(v) => r matches Ok(x) && x@ == v,
            Err(e) => r matches Err(x) && x@ == e,
        },
{
    parse_record_with_hint(record_bytes, FileEncodingHint::Auto, 0)
}

} // verus!
