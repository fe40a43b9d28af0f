//! Parsing a record given as lines of text: the first line carries the
//! timestamp and the meta fields, the following lines continue the SQL body,
//! and the body may end with performance indicators.

use vstd::prelude::*;
use vstd::string::{StrSliceExecFns, StringSliceAdditionalSpecFns};
use vstd::utf8::{decode_utf8, is_char_boundary, encode_utf8, encode_utf8_decode_utf8};
use crate::chars::{
    first_idx, first_sub, seq_has_prefix, find_char, find_chars, prefix_at, lemma_first_idx,
    lemma_first_sub, seq_occurs_at,
};
use crate::error::{ParseError, ParseErrorSpec};
use crate::number::{std_unsigned, std_signed, float_literal, parse_u8_text, parse_u32_text,
    parse_i64_text, is_float_literal};
use crate::parser::constants::{
    SESS_PREFIX, THRD_PREFIX, USER_PREFIX, TRXID_PREFIX, STMT_PREFIX, APPNAME_PREFIX, IP_PREFIX,
    EXECTIME_PREFIX, EXECTIME_SUFFIX, ROWCOUNT_PREFIX, ROWCOUNT_SUFFIX, EXEC_ID_PREFIX,
    EXEC_ID_SUFFIX,
};
use crate::sqllog::{MetaParts, MetaSpec, IndicatorsParts, IndicatorsSpec, SqllogEntry, EntrySpec};
use crate::text::{str_chars, chars_to_string, lemma_ascii_prefix};
use crate::tools::{spec_is_record_start, is_record_start_line, spec_is_ts_millis};

verus! {

broadcast use crate::chars::group_chars;

/// The bytes that integer and float syntax sees in `s`: ASCII characters as
/// themselves, any other character as `0xFF` (which no number syntax accepts,
/// just as it accepts none of the bytes of a multi-byte character).
pub open spec fn narrow(s: Seq<char>) -> Seq<u8> {
    Seq::new(s.len(), |i: int| if (s[i] as u32) < 128 { (s[i] as u32) as u8 } else { 255u8 })
}

fn narrow_range(c: &[char], a: usize, b: usize) -> (r: Vec<u8>)
    requires
        a <= b <= c@.len(),
    ensures
        r@ =~= narrow(c@.subrange(a as int, b as int)),
{
    let mut r: Vec<u8> = Vec::new();
    let mut i = a;
    while i < b
        invariant
            a <= i <= b <= c@.len(),
            r@ =~= narrow(c@.subrange(a as int, i as int)),
        decreases b - i,
    {
        let ch = c[i];
        let v: u32 = ch as u32;
        if v < 128 {
            r.push(v as u8);
            assert(r@ =~= narrow(c@.subrange(a as int, i + 1))) by {
                assert(c@.subrange(a as int, i + 1)[i - a] == ch);
            }
        } else {
            r.push(255u8);
            assert(r@ =~= narrow(c@.subrange(a as int, i + 1))) by {
                assert(c@.subrange(a as int, i + 1)[i - a] == ch);
            }
        }
        i = i + 1;
    }
    r
}

// ── extract_field_value ─────────────────────────────────────────────────────

/// The value of `field` after `prefix`, or `InvalidFieldFormat` when `field`
/// does not begin with `prefix`.
pub open spec fn spec_extract_field(field: Seq<char>, prefix: Seq<char>, raw: Seq<char>) -> Result<Seq<char>, ParseErrorSpec> {
    if seq_has_prefix(field, prefix) {
        Ok(field.subrange(prefix.len() as int, field.len() as int))
    } else {
        Err(ParseErrorSpec::InvalidFieldFormat { expected: prefix, actual: field, raw })
    }
}

fn field_value(c: &[char], a: usize, b: usize, prefix: &str, raw: &String) -> (r: Result<String, ParseError>)
    requires
        a <= b <= c@.len(),
    ensures
        match spec_extract_field(c@.subrange(a as int, b as int), prefix@, raw@) {
            Ok(v) => r matches Ok(s) && s@ == v,
            Err(e) => r matches Err(x) && x@ == e,
        },
{
    let p = str_chars(prefix);
    if prefix_at(c, a, b, p.as_slice()) {
        Ok(chars_to_string(c, a + p.len(), b))
    } else {
        Err(ParseError::InvalidFieldFormat {
            expected: prefix.to_owned(),
            actual: chars_to_string(c, a, b),
            raw: raw.clone(),
        })
    }
}

/// Extracts the value of `field` after `prefix`.
///
/// Returns `InvalidFieldFormat` (with `prefix`, `field` and `raw`) when
/// `field` does not begin with `prefix`.
pub fn extract_field_value(field: &str, prefix: &str, raw: &str) -> (r: Result<String, ParseError>)
    requires
        prefix.spec_bytes().len() <= field.spec_bytes().len() ==> is_char_boundary(
            field.spec_bytes(),
            prefix.spec_bytes().len() as int,
        ),
    ensures
        match spec_extract_field(field@, prefix@, raw@) {
            Ok(v) => r matches Ok(s) && s@ == v,
            Err(e) => r matches Err(x) && x@ == e,
        },
{
    let c = str_chars(field);
    let raw_s = raw.to_owned();
    assert(c@.subrange(0, c@.len() as int) =~= c@);
    field_value(c.as_slice(), 0, c.len(), prefix, &raw_s)
}

// ── parse_ep_field ──────────────────────────────────────────────────────────

/// `EP[n]` with `n` a `u8` in the syntax of `str::parse`.
pub open spec fn spec_parse_ep(e: Seq<char>, raw: Seq<char>) -> Result<u8, ParseErrorSpec> {
    if e.len() < 4 || e[0] != 'E' || e[1] != 'P' || e[2] != '[' || e.last() != ']' {
        Err(ParseErrorSpec::InvalidEpFormat { value: e, raw })
    } else {
        let num = e.subrange(3, e.len() - 1);
        match std_unsigned(narrow(num), 255) {
            Some(v) => Ok(v as u8),
            None => Err(ParseErrorSpec::EpParseError { value: num, raw }),
        }
    }
}

fn ep_field(c: &[char], a: usize, b: usize, raw: &String) -> (r: Result<u8, ParseError>)
    requires
        a <= b <= c@.len(),
    ensures
        match spec_parse_ep(c@.subrange(a as int, b as int), raw@) {
            Ok(v) => r == Ok::<u8, ParseError>(v),
            Err(e) => r matches Err(x) && x@ == e,
        },
{
    let ghost e = c@.subrange(a as int, b as int);
    if b - a < 4 || c[a] != 'E' || c[a + 1] != 'P' || c[a + 2] != '[' || c[b - 1] != ']' {
        return Err(ParseError::InvalidEpFormat { value: chars_to_string(c, a, b), raw: raw.clone() });
    }
    let digits = narrow_range(c, a + 3, b - 1);
    assert(e.subrange(3, e.len() - 1) =~= c@.subrange(a + 3, b - 1));
    match parse_u8_text(digits.as_slice()) {
        Some(v) => Ok(v),
        None => Err(ParseError::EpParseError { value: chars_to_string(c, a + 3, b - 1), raw: raw.clone() }),
    }
}

/// Parses an `EP[n]` field into `n`.
///
/// `InvalidEpFormat` when the text is not `EP[...]`; `EpParseError` when the
/// part in brackets is not a `u8`.
pub fn parse_ep_field(ep_str: &str, raw: &str) -> (r: Result<u8, ParseError>)
    ensures
        match spec_parse_ep(ep_str@, raw@) {
            Ok(v) => r == Ok::<u8, ParseError>(v),
            Err(e) => r matches Err(x) && x@ == e,
        },
{
    let c = str_chars(ep_str);
    let raw_s = raw.to_owned();
    assert(c@.subrange(0, c@.len() as int) =~= c@);
    ep_field(c.as_slice(), 0, c.len(), &raw_s)
}

// ── parse_meta ──────────────────────────────────────────────────────────────

/// A field that must be followed by a space: its value and the position after the space.
pub open spec fn req_field(m: Seq<char>, start: int, prefix: Seq<char>, count: usize) -> Result<(Seq<char>, int), ParseErrorSpec> {
    match first_idx(m.subrange(start, m.len() as int), ' ') {
        None => Err(ParseErrorSpec::InsufficientMetaFields { count, raw: m }),
        Some(k) => match spec_extract_field(m.subrange(start, start + k), prefix, m) {
            Ok(v) => Ok((v, start + k + 1)),
            Err(e) => Err(e),
        },
    }
}

/// A field that may be the last one: its value and the position after it.
pub open spec fn opt_field(m: Seq<char>, start: int, prefix: Seq<char>) -> Result<(Seq<char>, int), ParseErrorSpec> {
    match first_idx(m.subrange(start, m.len() as int), ' ') {
        Some(k) => match spec_extract_field(m.subrange(start, start + k), prefix, m) {
            Ok(v) => Ok((v, start + k + 1)),
            Err(e) => Err(e),
        },
        None => match spec_extract_field(m.subrange(start, m.len() as int), prefix, m) {
            Ok(v) => Ok((v, m.len() as int)),
            Err(e) => Err(e),
        },
    }
}

/// The application name and the client IP, from position `a` of the meta text.
pub open spec fn spec_app_ip(m: Seq<char>, a: int) -> (Seq<char>, Seq<char>) {
    if seq_has_prefix(m.subrange(a, m.len() as int), APPNAME_PREFIX@) {
        let v0 = a + APPNAME_PREFIX@.len();
        match first_sub(m.subrange(v0, m.len() as int), " ip:::ffff:"@) {
            Some(p) => (m.subrange(v0, v0 + p), m.subrange(v0 + p + 1 + IP_PREFIX@.len(), m.len() as int)),
            None => (m.subrange(v0, m.len() as int), Seq::empty()),
        }
    } else {
        (Seq::empty(), Seq::empty())
    }
}

pub open spec fn meta_of(ep: u8, sess: Seq<char>, thrd: Seq<char>, user: Seq<char>, trx: Seq<char>,
    stmt: Seq<char>, app: Seq<char>, ip: Seq<char>) -> MetaSpec {
    MetaSpec {
        ep,
        sess_id: sess,
        thrd_id: thrd,
        username: user,
        trxid: trx,
        statement: stmt,
        appname: app,
        client_ip: ip,
    }
}

/// The meta fields in the order `EP[n] sess: thrd: user: trxid: [stmt: [appname:...]]`.
pub open spec fn spec_parse_meta(m: Seq<char>) -> Result<MetaSpec, ParseErrorSpec> {
    match first_idx(m, ' ') {
        None => Err(ParseErrorSpec::InsufficientMetaFields { count: 0, raw: m }),
        Some(e) => match spec_parse_ep(m.subrange(0, e), m) {
            Err(x) => Err(x),
            Ok(ep) => match req_field(m, e + 1, SESS_PREFIX@, 1) {
                Err(x) => Err(x),
                Ok((sess, p1)) => match req_field(m, p1, THRD_PREFIX@, 2) {
                    Err(x) => Err(x),
                    Ok((thrd, p2)) => match req_field(m, p2, USER_PREFIX@, 3) {
                        Err(x) => Err(x),
                        Ok((user, p3)) => match opt_field(m, p3, TRXID_PREFIX@) {
                            Err(x) => Err(x),
                            Ok((trx, p4)) => if p4 >= m.len() {
                                Ok(meta_of(ep, sess, thrd, user, trx, Seq::empty(), Seq::empty(), Seq::empty()))
                            } else {
                                match opt_field(m, p4, STMT_PREFIX@) {
                                    Err(x) => Err(x),
                                    Ok((stmt, p5)) => if p5 >= m.len() {
                                        Ok(meta_of(ep, sess, thrd, user, trx, stmt, Seq::empty(), Seq::empty()))
                                    } else {
                                        let (app, ip) = spec_app_ip(m, p5);
                                        Ok(meta_of(ep, sess, thrd, user, trx, stmt, app, ip))
                                    },
                                }
                            },
                        },
                    },
                },
            },
        },
    }
}

fn next_req_field(m: &[char], start: usize, prefix: &str, count: usize, raw: &String) -> (r: Result<(String, usize), ParseError>)
    requires
        start <= m@.len(),
        raw@ == m@,
    ensures
        match req_field(m@, start as int, prefix@, count) {
            Ok((v, p)) => r matches Ok((s, q)) && s@ == v && q == p && q <= m@.len(),
            Err(e) => r matches Err(x) && x@ == e,
        },
{
    match find_char(m, start, m.len(), ' ') {
        None => Err(ParseError::InsufficientMetaFields { count, raw: raw.clone() }),
        Some(k) => {
            assert(m@.subrange(start as int, start + k) =~= m@.subrange(start as int, m@.len() as int).subrange(0, k as int));
            match field_value(m, start, start + k, prefix, raw) {
                Ok(v) => Ok((v, start + k + 1)),
                Err(e) => Err(e),
            }
        },
    }
}

fn next_opt_field(m: &[char], start: usize, prefix: &str, raw: &String) -> (r: Result<(String, usize), ParseError>)
    requires
        start <= m@.len(),
        raw@ == m@,
    ensures
        match opt_field(m@, start as int, prefix@) {
            Ok((v, p)) => r matches Ok((s, q)) && s@ == v && q == p && q <= m@.len(),
            Err(e) => r matches Err(x) && x@ == e,
        },
{
    match find_char(m, start, m.len(), ' ') {
        Some(k) => match field_value(m, start, start + k, prefix, raw) {
            Ok(v) => Ok((v, start + k + 1)),
            Err(e) => Err(e),
        },
        None => match field_value(m, start, m.len(), prefix, raw) {
            Ok(v) => Ok((v, m.len())),
            Err(e) => Err(e),
        },
    }
}

fn app_and_ip(m: &[char], a: usize) -> (r: (String, String))
    requires
        a <= m@.len(),
    ensures
        r.0@ == spec_app_ip(m@, a as int).0,
        r.1@ == spec_app_ip(m@, a as int).1,
{
    let app_p = str_chars(APPNAME_PREFIX);
    if prefix_at(m, a, m.len(), app_p.as_slice()) {
        let v0 = a + app_p.len();
        let marker = str_chars(" ip:::ffff:");
        proof {
            reveal_strlit(" ip:::ffff:");
            reveal_strlit("ip:::ffff:");
        }
        let ip_p = str_chars(IP_PREFIX);
        match find_chars(m, v0, m.len(), marker.as_slice()) {
            Some(p) => {
                proof {
                    lemma_first_sub(m@.subrange(v0 as int, m@.len() as int), marker@);
                }
                (chars_to_string(m, v0, v0 + p), chars_to_string(m, v0 + p + 1 + ip_p.len(), m.len()))
            },
            None => (chars_to_string(m, v0, m.len()), String::new()),
        }
    } else {
        (String::new(), String::new())
    }
}

fn meta_parts(ep: u8, sess: String, thrd: String, user: String, trx: String, stmt: String, app: String, ip: String) -> (r: MetaParts)
    ensures
        r@ == meta_of(ep, sess@, thrd@, user@, trx@, stmt@, app@, ip@),
{
    MetaParts {
        ep,
        sess_id: sess,
        thrd_id: thrd,
        username: user,
        trxid: trx,
        statement: stmt,
        appname: app,
        client_ip: ip,
    }
}

fn meta_from_chars(m: &[char]) -> (r: Result<MetaParts, ParseError>)
    ensures
        match spec_parse_meta(m@) {
            Ok(v) => r matches Ok(p) && p@ == v,
            Err(e) => r matches Err(x) && x@ == e,
        },
{
    let raw = chars_to_string(m, 0, m.len());
    assert(m@.subrange(0, m@.len() as int) =~= m@);
    let e = match find_char(m, 0, m.len(), ' ') {
        None => return Err(ParseError::InsufficientMetaFields { count: 0, raw }),
        Some(e) => e,
    };
    let ep = match ep_field(m, 0, e, &raw) {
        Ok(v) => v,
        Err(x) => return Err(x),
    };
    let (sess, p1) = match next_req_field(m, e + 1, SESS_PREFIX, 1, &raw) {
        Ok(v) => v,
        Err(x) => return Err(x),
    };
    let (thrd, p2) = match next_req_field(m, p1, THRD_PREFIX, 2, &raw) {
        Ok(v) => v,
        Err(x) => return Err(x),
    };
    let (user, p3) = match next_req_field(m, p2, USER_PREFIX, 3, &raw) {
        Ok(v) => v,
        Err(x) => return Err(x),
    };
    let (trx, p4) = match next_opt_field(m, p3, TRXID_PREFIX, &raw) {
        Ok(v) => v,
        Err(x) => return Err(x),
    };
    if p4 >= m.len() {
        return Ok(meta_parts(ep, sess, thrd, user, trx, String::new(), String::new(), String::new()));
    }
    let (stmt, p5) = match next_opt_field(m, p4, STMT_PREFIX, &raw) {
        Ok(v) => v,
        Err(x) => return Err(x),
    };
    if p5 >= m.len() {
        return Ok(meta_parts(ep, sess, thrd, user, trx, stmt, String::new(), String::new()));
    }
    let (app, ip) = app_and_ip(m, p5);
    Ok(meta_parts(ep, sess, thrd, user, trx, stmt, app, ip))
}

/// Parses the meta text `EP[n] sess:.. thrd:.. user:.. trxid:.. [stmt:.. [appname:.. [ip:::ffff:..]]]`.
///
/// `InsufficientMetaFields` (with the number of fields read) when a required
/// field is missing; the errors of [`parse_ep_field`] and
/// [`extract_field_value`] when a field is malformed.
pub fn parse_meta(meta_str: &str) -> (r: Result<MetaParts, ParseError>)
    ensures
        match spec_parse_meta(meta_str@) {
            Ok(v) => r matches Ok(p) && p@ == v,
            Err(e) => r matches Err(x) && x@ == e,
        },
{
    let c = str_chars(meta_str);
    meta_from_chars(c.as_slice())
}


// ── trimming ────────────────────────────────────────────────────────────────

/// White space as `char::is_whitespace` defines it (the Unicode `White_Space` property).
pub open spec fn is_unicode_ws(c: char) -> bool {
    let v = c as u32;
    (0x09 <= v <= 0x0D) || v == 0x20 || v == 0x85 || v == 0xA0 || v == 0x1680 || (0x2000 <= v <= 0x200A)
        || v == 0x2028 || v == 0x2029 || v == 0x202F || v == 0x205F || v == 0x3000
}

fn unicode_ws(c: char) -> (r: bool)
    ensures
        r == is_unicode_ws(c),
{
    let v = c as u32;
    (0x09 <= v && v <= 0x0D) || v == 0x20 || v == 0x85 || v == 0xA0 || v == 0x1680 || (0x2000 <= v && v <= 0x200A)
        || v == 0x2028 || v == 0x2029 || v == 0x202F || v == 0x205F || v == 0x3000
}

/// Number of trailing white-space characters of `s`.
pub open spec fn trailing_unicode_ws(s: Seq<char>) -> nat
    decreases s.len(),
{
    if s.len() > 0 && is_unicode_ws(s.last()) {
        1 + trailing_unicode_ws(s.drop_last())
    } else {
        0
    }
}

/// `s` without trailing white space (`str::trim_end`).
pub open spec fn trim_end_spec(s: Seq<char>) -> Seq<char> {
    s.subrange(0, s.len() - trailing_unicode_ws(s))
}

proof fn lemma_trailing_unicode_ws(s: Seq<char>, k: int)
    requires
        0 <= k <= s.len(),
        forall|j: int| s.len() - k <= j < s.len() ==> is_unicode_ws(s[j]),
        k == s.len() || !is_unicode_ws(s[s.len() - k - 1]),
    ensures
        trailing_unicode_ws(s) == k,
    decreases k,
{
    if k > 0 {
        lemma_trailing_unicode_ws(s.drop_last(), k - 1);
    }
}

/// End of `c[a..b]` without trailing white space.
fn trim_end_at(c: &[char], a: usize, b: usize) -> (r: usize)
    requires
        a <= b <= c@.len(),
    ensures
        a <= r <= b,
        c@.subrange(a as int, r as int) =~= trim_end_spec(c@.subrange(a as int, b as int)),
{
    let ghost t = c@.subrange(a as int, b as int);
    let mut e = b;
    while e > a && unicode_ws(c[e - 1])
        invariant
            a <= e <= b <= c@.len(),
            t == c@.subrange(a as int, b as int),
            forall|j: int| e - a <= j < t.len() ==> is_unicode_ws(t[j]),
        decreases e,
    {
        e = e - 1;
    }
    proof {
        lemma_trailing_unicode_ws(t, (b - e) as int);
    }
    e
}

/// Number of leading spaces of `s`.
pub open spec fn leading_spaces(s: Seq<char>) -> nat
    decreases s.len(),
{
    if s.len() > 0 && s[0] == ' ' {
        1 + leading_spaces(s.drop_first())
    } else {
        0
    }
}

/// Number of trailing spaces of `s`.
pub open spec fn trailing_spaces(s: Seq<char>) -> nat
    decreases s.len(),
{
    if s.len() > 0 && s.last() == ' ' {
        1 + trailing_spaces(s.drop_last())
    } else {
        0
    }
}

/// `s` without leading and trailing spaces.
pub open spec fn trim_spaces(s: Seq<char>) -> Seq<char> {
    if leading_spaces(s) == s.len() {
        Seq::empty()
    } else {
        s.subrange(leading_spaces(s) as int, s.len() - trailing_spaces(s))
    }
}

proof fn lemma_leading_spaces(s: Seq<char>, k: int)
    requires
        0 <= k <= s.len(),
        forall|j: int| 0 <= j < k ==> s[j] == ' ',
        k == s.len() || s[k] != ' ',
    ensures
        leading_spaces(s) == k,
    decreases k,
{
    if k > 0 {
        lemma_leading_spaces(s.drop_first(), k - 1);
    }
}

proof fn lemma_trailing_spaces(s: Seq<char>, k: int)
    requires
        0 <= k <= s.len(),
        forall|j: int| s.len() - k <= j < s.len() ==> s[j] == ' ',
        k == s.len() || s[s.len() - k - 1] != ' ',
    ensures
        trailing_spaces(s) == k,
    decreases k,
{
    if k > 0 {
        lemma_trailing_spaces(s.drop_last(), k - 1);
    }
}

/// Bounds of `c[a..b]` without surrounding spaces.
fn trim_spaces_at(c: &[char], a: usize, b: usize) -> (r: (usize, usize))
    requires
        a <= b <= c@.len(),
    ensures
        a <= r.0 <= r.1 <= b,
        c@.subrange(r.0 as int, r.1 as int) =~= trim_spaces(c@.subrange(a as int, b as int)),
{
    let ghost t = c@.subrange(a as int, b as int);
    let mut x = a;
    while x < b && c[x] == ' '
        invariant
            a <= x <= b <= c@.len(),
            t == c@.subrange(a as int, b as int),
            forall|j: int| 0 <= j < x - a ==> t[j] == ' ',
        decreases b - x,
    {
        x = x + 1;
    }
    proof {
        lemma_leading_spaces(t, (x - a) as int);
    }
    if x == b {
        return (a, a);
    }
    let mut y = b;
    while y > x && c[y - 1] == ' '
        invariant
            a <= x < b,
            x < y <= b <= c@.len(),
            t == c@.subrange(a as int, b as int),
            c@[x as int] != ' ',
            forall|j: int| y - a <= j < t.len() ==> t[j] == ' ',
        decreases y,
    {
        y = y - 1;
    }
    proof {
        assert(t[y - a - 1] == c@[y - 1]);
        lemma_trailing_spaces(t, (b - y) as int);
    }
    (x, y)
}

// ── extract_sql_body ────────────────────────────────────────────────────────

/// The body before the earliest indicator keyword (` EXECTIME:`,
/// `ROWCOUNT:` or `EXEC_ID:`), without trailing white space; the whole text
/// when no keyword occurs.
pub open spec fn spec_extract_sql_body(full: Seq<char>) -> Seq<char> {
    match earlier(earlier(first_sub(full, " EXECTIME:"@), first_sub(full, "ROWCOUNT:"@)), first_sub(full, "EXEC_ID:"@)) {
        Some(p) => trim_end_spec(full.subrange(0, p)),
        None => full,
    }
}

/// The smaller of two optional positions.
pub open spec fn earlier(a: Option<int>, b: Option<int>) -> Option<int> {
    match a {
        Some(x) => match b {
            Some(y) => Some(if x <= y { x } else { y }),
            None => Some(x),
        },
        None => b,
    }
}

proof fn lemma_no_keyword_before(f: Seq<char>, kw: Seq<char>, p: int, m: int)
    requires
        kw.len() > 0,
        0 <= m <= p <= f.len(),
        first_sub(f, kw) matches Some(j) ==> p <= j,
    ensures
        first_sub(f.subrange(0, m), kw) is None,
{
    let g = f.subrange(0, m);
    lemma_first_sub(g, kw);
    lemma_first_sub(f, kw);
    if let Some(q) = first_sub(g, kw) {
        assert(f.subrange(q, q + kw.len()) =~= g.subrange(q, q + kw.len()));
        assert(seq_occurs_at(f, kw, q));
    }
}

/// The SQL part of a body holds no indicator keyword and is a prefix of the
/// body, so taking the SQL part of it again changes nothing.
pub proof fn lemma_sql_body_idempotent(full: Seq<char>)
    ensures
        spec_extract_sql_body(full).len() <= full.len(),
        full.subrange(0, spec_extract_sql_body(full).len() as int) == spec_extract_sql_body(full),
        spec_extract_sql_body(spec_extract_sql_body(full)) == spec_extract_sql_body(full),
{
    reveal_strlit(" EXECTIME:");
    reveal_strlit("ROWCOUNT:");
    reveal_strlit("EXEC_ID:");
    let a = first_sub(full, " EXECTIME:"@);
    let b = first_sub(full, "ROWCOUNT:"@);
    let x = first_sub(full, "EXEC_ID:"@);
    lemma_first_sub(full, " EXECTIME:"@);
    lemma_first_sub(full, "ROWCOUNT:"@);
    lemma_first_sub(full, "EXEC_ID:"@);
    match earlier(earlier(a, b), x) {
        Some(p) => {
            assert(0 <= p <= full.len()) by {
                if let Some(j) = a { assert(seq_occurs_at(full, " EXECTIME:"@, j)); }
                if let Some(j) = b { assert(seq_occurs_at(full, "ROWCOUNT:"@, j)); }
                if let Some(j) = x { assert(seq_occurs_at(full, "EXEC_ID:"@, j)); }
            }
            let head = full.subrange(0, p);
            let m = head.len() - trailing_unicode_ws(head);
            assert(trailing_unicode_ws(head) <= head.len()) by {
                lemma_trailing_le(head);
            }
            let res = spec_extract_sql_body(full);
            assert(res =~= full.subrange(0, m));
            lemma_no_keyword_before(full, " EXECTIME:"@, p, m);
            lemma_no_keyword_before(full, "ROWCOUNT:"@, p, m);
            lemma_no_keyword_before(full, "EXEC_ID:"@, p, m);
        },
        None => {},
    }
}

proof fn lemma_trailing_le(s: Seq<char>)
    ensures
        trailing_unicode_ws(s) <= s.len(),
    decreases s.len(),
{
    if s.len() > 0 && is_unicode_ws(s.last()) {
        lemma_trailing_le(s.drop_last());
    }
}

fn earlier_pos(a: Option<usize>, b: Option<usize>) -> (r: Option<usize>)
    ensures
        crate::record::to_int_opt(r) == earlier(crate::record::to_int_opt(a), crate::record::to_int_opt(b)),
{
    match a {
        Some(x) => match b {
            Some(y) => Some(if x <= y { x } else { y }),
            None => Some(x),
        },
        None => b,
    }
}

fn sql_body_of(c: &[char]) -> (r: String)
    ensures
        r@ == spec_extract_sql_body(c@),
{
    assert(c@.subrange(0, c@.len() as int) =~= c@);
    proof {
        reveal_strlit(" EXECTIME:");
        reveal_strlit("ROWCOUNT:");
        reveal_strlit("EXEC_ID:");
    }
    let k1 = str_chars(" EXECTIME:");
    let k2 = str_chars("ROWCOUNT:");
    let k3 = str_chars("EXEC_ID:");
    let a = find_chars(c, 0, c.len(), k1.as_slice());
    let b = find_chars(c, 0, c.len(), k2.as_slice());
    let x = find_chars(c, 0, c.len(), k3.as_slice());
    proof {
        lemma_first_sub(c@, k1@);
        lemma_first_sub(c@, k2@);
        lemma_first_sub(c@, k3@);
    }
    assert(crate::record::to_int_opt(a) == first_sub(c@, " EXECTIME:"@));
    assert(crate::record::to_int_opt(b) == first_sub(c@, "ROWCOUNT:"@));
    assert(crate::record::to_int_opt(x) == first_sub(c@, "EXEC_ID:"@));
    match earlier_pos(earlier_pos(a, b), x) {
        Some(pos) => {
            let e = trim_end_at(c, 0, pos);
            chars_to_string(c, 0, e)
        },
        None => chars_to_string(c, 0, c.len()),
    }
}

/// The SQL part of a body: everything before the indicators, without
/// trailing white space.
pub fn extract_sql_body(full_body: &str) -> (r: String)
    ensures
        r@ == spec_extract_sql_body(full_body@),
{
    let c = str_chars(full_body);
    sql_body_of(c.as_slice())
}

// ── extract_indicator / parse_indicators ────────────────────────────────────

/// The text between `prefix` and the next `suffix`, without surrounding spaces.
pub open spec fn spec_extract_indicator(t: Seq<char>, prefix: Seq<char>, suffix: Seq<char>) -> Result<Seq<char>, ParseErrorSpec> {
    match first_sub(t, prefix) {
        None => Err(ParseErrorSpec::IndicatorsParseError { reason: "未找到 "@ + prefix, raw: t }),
        Some(s0) => {
            let rem = t.subrange(s0 + prefix.len(), t.len() as int);
            match first_sub(rem, suffix) {
                None => Err(ParseErrorSpec::IndicatorsParseError { reason: "未找到 "@ + suffix, raw: t }),
                Some(e) => Ok(trim_spaces(rem.subrange(0, e))),
            }
        },
    }
}

/// First occurrence of `p` (possibly empty) in `c[a..b]`, relative to `a`.
fn find_any(c: &[char], a: usize, b: usize, p: &[char]) -> (r: Option<usize>)
    requires
        a <= b <= c@.len(),
    ensures
        r == crate::scan::to_usize(first_sub(c@.subrange(a as int, b as int), p@)),
{
    if p.len() == 0 {
        let ghost t = c@.subrange(a as int, b as int);
        assert(crate::chars::seq_occurs_at(t, p@, 0));
        proof {
            lemma_first_sub(t, p@);
        }
        return Some(0);
    }
    find_chars(c, a, b, p)
}

fn concat_str(a: &str, b: &str) -> (r: String)
    ensures
        r@ == a@ + b@,
{
    let mut s = a.to_owned();
    s.append(b);
    s
}

/// Bounds (absolute in `t`) of the indicator value, or the error.
fn indicator_bounds(t: &[char], raw: &str, prefix: &str, suffix: &str) -> (r: Result<(usize, usize), ParseError>)
    requires
        raw@ == t@,
    ensures
        match spec_extract_indicator(t@, prefix@, suffix@) {
            Ok(v) => r matches Ok((x, y)) && x <= y <= t@.len() && t@.subrange(x as int, y as int) == v,
            Err(e) => r matches Err(x) && x@ == e,
        },
{
    assert(t@.subrange(0, t@.len() as int) =~= t@);
    let p = str_chars(prefix);
    let sfx = str_chars(suffix);
    let s0 = match find_any(t, 0, t.len(), p.as_slice()) {
        None => {
            return Err(ParseError::IndicatorsParseError { reason: concat_str("未找到 ", prefix), raw: raw.to_owned() });
        },
        Some(s0) => s0,
    };
    proof {
        lemma_first_sub(t@, p@);
    }
    let sp = s0 + p.len();
    let e = match find_any(t, sp, t.len(), sfx.as_slice()) {
        None => {
            return Err(ParseError::IndicatorsParseError { reason: concat_str("未找到 ", suffix), raw: raw.to_owned() });
        },
        Some(e) => e,
    };
    proof {
        lemma_first_sub(t@.subrange(sp as int, t@.len() as int), sfx@);
    }
    let (x, y) = trim_spaces_at(t, sp, sp + e);
    assert(t@.subrange(sp as int, t@.len() as int).subrange(0, e as int) =~= t@.subrange(sp as int, sp + e));
    Ok((x, y))
}

/// Extracts the value between `prefix` and the next `suffix`, trimmed of spaces.
///
/// `IndicatorsParseError` ("未找到 <prefix>" / "未找到 <suffix>") when
/// either is missing.
pub fn extract_indicator<'a>(text: &'a str, prefix: &str, suffix: &str) -> (r: Result<&'a str, ParseError>)
    ensures
        match spec_extract_indicator(text@, prefix@, suffix@) {
            Ok(v) => r matches Ok(s) && s@ == v,
            Err(e) => r matches Err(x) && x@ == e,
        },
{
    let t = str_chars(text);
    match indicator_bounds(t.as_slice(), text, prefix, suffix) {
        Ok((x, y)) => Ok(text.substring_char(x, y)),
        Err(e) => Err(e),
    }
}

/// All three indicators, parsed: the execution time as a float literal, the
/// row count as a `u32`, the execution id as an `i64`.
pub open spec fn spec_parse_indicators(body: Seq<char>) -> Result<IndicatorsSpec, ParseErrorSpec> {
    match spec_extract_indicator(body, EXECTIME_PREFIX@, EXECTIME_SUFFIX@) {
        Err(e) => Err(e),
        Ok(et) => match spec_extract_indicator(body, ROWCOUNT_PREFIX@, ROWCOUNT_SUFFIX@) {
            Err(e) => Err(e),
            Ok(rc) => match spec_extract_indicator(body, EXEC_ID_PREFIX@, EXEC_ID_SUFFIX@) {
                Err(e) => Err(e),
                Ok(ei) => if !float_literal(narrow(et)) {
                    Err(ParseErrorSpec::IndicatorsParseError { reason: "执行时间解析失败: "@ + et, raw: body })
                } else {
                    match std_unsigned(narrow(rc), u32::MAX as int) {
                        None => Err(ParseErrorSpec::IndicatorsParseError { reason: "行数解析失败: "@ + rc, raw: body }),
                        Some(r) => match std_signed(narrow(ei), i64::MIN as int, i64::MAX as int) {
                            None => Err(ParseErrorSpec::IndicatorsParseError { reason: "执行 ID 解析失败: "@ + ei, raw: body }),
                            Some(i) => Ok(IndicatorsSpec { execute_time: et, row_count: r as u32, execute_id: i as i64 }),
                        },
                    }
                },
            },
        },
    }
}

fn reason(head: &str, c: &[char], x: usize, y: usize) -> (r: String)
    requires
        x <= y <= c@.len(),
    ensures
        r@ == head@ + c@.subrange(x as int, y as int),
{
    let mut s = head.to_owned();
    let v = chars_to_string(c, x, y);
    s.append(v.as_str());
    s
}

fn indicators_of(t: &[char], raw: &str) -> (r: Result<IndicatorsParts, ParseError>)
    requires
        raw@ == t@,
    ensures
        match spec_parse_indicators(t@) {
            Ok(v) => r matches Ok(p) && p@ == v,
            Err(e) => r matches Err(x) && x@ == e,
        },
{
    let (a1, b1) = match indicator_bounds(t, raw, EXECTIME_PREFIX, EXECTIME_SUFFIX) {
        Ok(v) => v,
        Err(e) => return Err(e),
    };
    let (a2, b2) = match indicator_bounds(t, raw, ROWCOUNT_PREFIX, ROWCOUNT_SUFFIX) {
        Ok(v) => v,
        Err(e) => return Err(e),
    };
    let (a3, b3) = match indicator_bounds(t, raw, EXEC_ID_PREFIX, EXEC_ID_SUFFIX) {
        Ok(v) => v,
        Err(e) => return Err(e),
    };
    let n1 = narrow_range(t, a1, b1);
    if !is_float_literal(n1.as_slice()) {
        return Err(ParseError::IndicatorsParseError { reason: reason("执行时间解析失败: ", t, a1, b1), raw: raw.to_owned() });
    }
    let n2 = narrow_range(t, a2, b2);
    let rows = match parse_u32_text(n2.as_slice()) {
        Some(v) => v,
        None => {
            return Err(ParseError::IndicatorsParseError { reason: reason("行数解析失败: ", t, a2, b2), raw: raw.to_owned() });
        },
    };
    let n3 = narrow_range(t, a3, b3);
    let id = match parse_i64_text(n3.as_slice()) {
        Some(v) => v,
        None => {
            return Err(ParseError::IndicatorsParseError { reason: reason("执行 ID 解析失败: ", t, a3, b3), raw: raw.to_owned() });
        },
    };
    Ok(IndicatorsParts { execute_time: chars_to_string(t, a1, b1), row_count: rows, execute_id: id })
}

/// Parses the indicators `EXECTIME: t(ms)`, `ROWCOUNT: n(rows)` and
/// `EXEC_ID: id.` out of a body; all three must be present.
///
/// `IndicatorsParseError` when one is missing or its value does not parse.
pub fn parse_indicators(body: &str) -> (r: Result<IndicatorsParts, ParseError>)
    ensures
        match spec_parse_indicators(body@) {
            Ok(v) => r matches Ok(p) && p@ == v,
            Err(e) => r matches Err(x) && x@ == e,
        },
{
    let t = str_chars(body);
    indicators_of(t.as_slice(), body)
}


// ── build_body ──────────────────────────────────────────────────────────────

/// Lines joined with `\n`.
pub open spec fn join_lines(ls: Seq<Seq<char>>) -> Seq<char>
    decreases ls.len(),
{
    if ls.len() == 0 {
        Seq::empty()
    } else if ls.len() == 1 {
        ls[0]
    } else {
        join_lines(ls.drop_last()) + seq!['\n'] + ls.last()
    }
}

/// The texts of `ls`.
pub open spec fn str_views(ls: Seq<&str>) -> Seq<Seq<char>> {
    Seq::new(ls.len(), |i: int| ls[i]@)
}

pub open spec fn opt_line(h: Option<Seq<char>>) -> Seq<Seq<char>> {
    match h {
        Some(l) => seq![l],
        None => Seq::empty(),
    }
}

/// The part of `first` from byte `body_start` on, if that part is not empty.
pub open spec fn first_part(first: &str, body_start: int) -> Option<Seq<char>> {
    if body_start < first.spec_bytes().len() {
        Some(decode_utf8(first.spec_bytes().subrange(body_start, first.spec_bytes().len() as int)))
    } else {
        None
    }
}

/// The body: the rest of the first line (when not empty) and the continuation
/// lines, joined with `\n`.
pub open spec fn spec_build_body(first: &str, body_start: int, cont: Seq<&str>) -> Seq<char> {
    join_lines(opt_line(first_part(first, body_start)) + str_views(cont))
}

/// The text of an optional string.
pub open spec fn opt_view(h: Option<String>) -> Option<Seq<char>> {
    match h {
        Some(s) => Some(s@),
        None => None,
    }
}

/// `head` (when present) and `lines[start..]`, joined with `\n`.
fn join_from(head: Option<String>, lines: &[&str], start: usize) -> (r: String)
    requires
        start <= lines@.len(),
    ensures
        r@ == join_lines(opt_line(opt_view(head)) + str_views(lines@.subrange(start as int, lines@.len() as int))),
{
    let ghost hv = opt_view(head);
    let ghost all = opt_line(hv) + str_views(lines@.subrange(start as int, lines@.len() as int));
    let ghost off = opt_line(hv).len() as int;
    let mut next = start;
    let mut result = match head {
        Some(h) => h,
        None => {
            if start < lines.len() {
                next = start + 1;
                lines[start].to_owned()
            } else {
                return String::new();
            }
        },
    };
    assert(all.subrange(0, 1) =~= seq![all[0]]);
    proof {
        reveal_strlit("\n");
    }
    while next < lines.len()
        invariant
            start < next <= lines@.len() || (start == next && off == 1),
            next <= lines@.len(),
            all == opt_line(hv) + str_views(lines@.subrange(start as int, lines@.len() as int)),
            off == opt_line(hv).len(),
            off + next - start >= 1,
            result@ == join_lines(all.subrange(0, off + next - start)),
        decreases lines@.len() - next,
    {
        let ghost k = off + next - start;
        proof {
            reveal_strlit("\n");
        }
        result.append("\n");
        result.append(lines[next]);
        assert(all.subrange(0, k + 1).drop_last() =~= all.subrange(0, k));
        assert(all[k] == lines@[next as int]@);
        next = next + 1;
    }
    assert(all.subrange(0, off + next - start) =~= all);
    result
}

/// Builds the SQL body from the first line (from byte `body_start` on) and the
/// continuation lines, joined with `\n`.
pub fn build_body(first_line: &str, body_start: usize, continuation_lines: &[&str]) -> (r: String)
    requires
        body_start < first_line.spec_bytes().len() ==> is_char_boundary(first_line.spec_bytes(), body_start as int),
    ensures
        r@ == spec_build_body(first_line, body_start as int, continuation_lines@),
{
    let n = first_line.as_bytes().len();
    let head = if body_start < n {
        let (_, tail) = first_line.split_at(body_start);
        proof {
            encode_utf8_decode_utf8(tail@);
            assert(tail.spec_bytes() == first_line.spec_bytes().subrange(body_start as int, n as int));
        }
        Some(tail.to_owned())
    } else {
        None
    };
    assert(opt_view(head) == first_part(first_line, body_start as int));
    let r = join_from(head, continuation_lines, 0);
    assert(continuation_lines@.subrange(0, continuation_lines@.len() as int) =~= continuation_lines@);
    r
}

// ── parse_record ────────────────────────────────────────────────────────────

/// The character after the first `)` of a line, if any, is ASCII, so that the
/// body starts on a character boundary two bytes after the `)`.
pub open spec fn body_start_ok(c: Seq<char>) -> bool {
    match first_idx(c, ')') {
        Some(cc) => cc + 1 < c.len() ==> (c[cc + 1] as u32) < 128,
        None => true,
    }
}

/// A first line that the record parser can take: when its timestamp and
/// meta fields parse (see [`spec_record_head`]), the body begins on a
/// character boundary (see [`body_start_ok`]).
pub open spec fn start_line_ok(c: Seq<char>) -> bool {
    spec_record_head(c, encode_utf8(c)) is Ok ==> body_start_ok(c)
}

/// What the first line of a record (characters `c`, bytes `b`) gives: the
/// timestamp, the meta fields, and the rest of the line after `) ` when it is
/// not empty.
pub open spec fn spec_record_head(c: Seq<char>, b: Seq<u8>) -> Result<
    (Seq<char>, MetaSpec, Option<Seq<char>>),
    ParseErrorSpec,
> {
    if !spec_is_record_start(b) {
        Err(ParseErrorSpec::InvalidRecordStartLine { raw: c })
    } else if b.len() < 25 {
        Err(ParseErrorSpec::LineTooShort { length: b.len() as usize, raw: c })
    } else {
        match first_idx(c, ')') {
            None => Err(ParseErrorSpec::MissingClosingParen { raw: c }),
            Some(cc) => spec_record_head_tail(c, cc),
        }
    }
}

/// The part of [`spec_record_head`] after the first `)`, found at `cc`.
pub open spec fn spec_record_head_tail(c: Seq<char>, cc: int) -> Result<
    (Seq<char>, MetaSpec, Option<Seq<char>>),
    ParseErrorSpec,
> {
    if cc <= 25 {
        Err(ParseErrorSpec::InsufficientMetaFields { count: 0, raw: c.subrange(25, c.len() as int) })
    } else {
        match spec_parse_meta(c.subrange(25, cc)) {
            Err(e) => Err(e),
            Ok(meta) => Ok((
                c.subrange(0, 23),
                meta,
                if cc + 2 < c.len() { Some(c.subrange(cc + 2, c.len() as int)) } else { None },
            )),
        }
    }
}

/// A record from its timestamp, meta fields and full body text: when the
/// text carries all three indicators they are split off the body.
pub open spec fn spec_entry(ts: Seq<char>, meta: MetaSpec, full: Seq<char>) -> EntrySpec {
    let ind = spec_parse_indicators(full);
    EntrySpec {
        ts,
        meta,
        body: if ind is Ok { spec_extract_sql_body(full) } else { full },
        indicators: match ind {
            Ok(i) => Some(i),
            Err(_) => None,
        },
    }
}

/// A record from its lines: timestamp and meta fields from the first line, the
/// body from the rest of the first line and the continuation lines, and the
/// indicators when the body has all three.
pub open spec fn spec_parse_record(lines: Seq<&str>) -> Result<EntrySpec, ParseErrorSpec> {
    spec_parse_lines(str_views(lines))
}

/// [`spec_parse_record`] over the texts of the lines.
pub open spec fn spec_parse_lines(ls: Seq<Seq<char>>) -> Result<EntrySpec, ParseErrorSpec> {
    if ls.len() == 0 {
        Err(ParseErrorSpec::EmptyInput)
    } else {
        match spec_record_head(ls[0], encode_utf8(ls[0])) {
            Err(e) => Err(e),
            Ok((ts, meta, head)) => Ok(spec_entry(
                ts,
                meta,
                join_lines(opt_line(head) + ls.subrange(1, ls.len() as int)),
            )),
        }
    }
}

/// The first 25 bytes of a record start line are ASCII characters.
proof fn lemma_start_line_ascii(f: &str)
    requires
        spec_is_record_start(f.spec_bytes()),
    ensures
        f@.len() >= 25,
        forall|i: int| 0 <= i < 25 ==> f@[i] as u32 == f.spec_bytes()[i] as u32,
        forall|i: int| 0 <= i < 25 ==> f@[i] != ')',
{
    let b = f.spec_bytes();
    assert forall|i: int| 0 <= i < 25 implies b[i] < 128 by {
        if i < 23 {
            assert(b.subrange(0, 23)[i] == b[i]);
            if i != 4 && i != 7 && i != 10 && i != 13 && i != 16 && i != 19 {
                assert(crate::tools::is_digit(b.subrange(0, 23)[i]));
            }
        }
    }
    lemma_ascii_prefix(f@, 25);
    assert forall|i: int| 0 <= i < 25 implies f@[i] != ')' by {
        if i < 23 {
            assert(b.subrange(0, 23)[i] == b[i]);
            if i != 4 && i != 7 && i != 10 && i != 13 && i != 16 && i != 19 {
                assert(crate::tools::is_digit(b.subrange(0, 23)[i]));
            }
        }
        if f@[i] == ')' {
            assert((')' as u32) == 41);
        }
    }
}

pub(crate) fn record_head(first: &str) -> (r: Result<(String, MetaParts, Option<String>), ParseError>)
    ensures
        match spec_record_head(first@, first.spec_bytes()) {
            Ok((ts, m, h)) => r matches Ok((a, b, c)) && a@ == ts && b@ == m && opt_view(c) == h,
            Err(e) => r matches Err(x) && x@ == e,
        },
{
    if !is_record_start_line(first) {
        return Err(ParseError::InvalidRecordStartLine { raw: first.to_owned() });
    }
    let n = first.as_bytes().len();
    if n < 25 {
        return Err(ParseError::LineTooShort { length: n, raw: first.to_owned() });
    }
    proof {
        lemma_start_line_ascii(first);
    }
    let c = str_chars(first);
    assert(c@.subrange(0, c@.len() as int) =~= c@);
    let cc = match find_char(c.as_slice(), 0, c.len(), ')') {
        None => return Err(ParseError::MissingClosingParen { raw: first.to_owned() }),
        Some(cc) => cc,
    };
    head_after_paren(c.as_slice(), cc)
}

/// The part of [`record_head`] after the first `)` was found at `cc`.
fn head_after_paren(c: &[char], cc: usize) -> (r: Result<(String, MetaParts, Option<String>), ParseError>)
    requires
        first_idx(c@, ')') == Some(cc as int),
        cc < c@.len(),
        c@.len() >= 25,
    ensures
        match spec_record_head_tail(c@, cc as int) {
            Ok((ts, m, h)) => r matches Ok((a, b, x)) && a@ == ts && b@ == m && opt_view(x) == h,
            Err(e) => r matches Err(x) && x@ == e,
        },
{
    if cc <= 25 {
        return Err(ParseError::InsufficientMetaFields { count: 0, raw: chars_to_string(c, 25, c.len()) });
    }
    let meta_chars = &c[25..cc];
    let meta = match meta_from_chars(meta_chars) {
        Ok(m) => m,
        Err(e) => return Err(e),
    };
    let head = if c.len() - cc > 2 { Some(chars_to_string(c, cc + 2, c.len())) } else { None };
    Ok((chars_to_string(c, 0, 23), meta, head))
}

fn entry_of(ts: String, meta: MetaParts, full: String) -> (r: SqllogEntry)
    ensures
        r@ == spec_entry(ts@, meta@, full@),
{
    let full_chars = str_chars(full.as_str());
    let ind = indicators_of(full_chars.as_slice(), full.as_str());
    let body = if ind.is_ok() { sql_body_of(full_chars.as_slice()) } else { full };
    let indicators = match ind {
        Ok(i) => Some(i),
        Err(_) => None,
    };
    SqllogEntry { ts, meta, body, indicators }
}

fn entry_from_lines(lines: &[&str]) -> (r: Result<SqllogEntry, ParseError>)
    ensures
        match spec_parse_record(lines@) {
            Ok(v) => r matches Ok(p) && p@ == v,
            Err(e) => r matches Err(x) && x@ == e,
        },
{
    if lines.len() == 0 {
        return Err(ParseError::EmptyInput);
    }
    match record_head(lines[0]) {
        Err(e) => Err(e),
        Ok((ts, meta, head)) => {
            let full = join_from(head, lines, 1);
            assert(str_views(lines@.subrange(1, lines@.len() as int)) =~= str_views(lines@).subrange(1, lines@.len() as int));
            Ok(entry_of(ts, meta, full))
        },
    }
}

/// Parses a record from its lines (the start line, then continuation lines).
///
/// Errors: `EmptyInput` for no lines; `InvalidRecordStartLine` when the first
/// line is not a record start line; the errors of [`parse_meta`]. The
/// indicators are optional: when they do not parse, the whole text is the body.
pub fn parse_record(lines: &[&str]) -> (r: Result<SqllogEntry, ParseError>)
    requires
        lines@.len() > 0 ==> start_line_ok(lines@[0]@),
    ensures
        match spec_parse_record(lines@) {
            Ok(v) => r matches Ok(p) && p@ == v,
            Err(e) => r matches Err(x) && x@ == e,
        },
{
    entry_from_lines(lines)
}

} // verus!
