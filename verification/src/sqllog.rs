//! The parsed shapes of a log record: meta fields, performance indicators,
//! and a record split into timestamp, meta, body and indicators.

use vstd::prelude::*;
use crate::number::{atoi_spec, atoi_u32, atoi_i64, float_literal, is_float_literal, is_digit, leading_digits,
    lemma_float_literal_ascii};
use crate::parser::encoding::{FileEncodingHint, decode_content, decode_content_bytes};
use crate::parser::{is_ora, ora_strip, tag_ora};
use crate::record::{paren_value, dot_value, kw_exectime, kw_rowcount, kw_exec_id, last_meaningful,
    window_start, min_opt, to_int_opt, parse_meta_from_bytes, meta_scan};
use crate::scan::{last_occurrence, rfind_bytes, occurs_at, find_bytes, find_byte, first_occurrence,
    trim_ascii_bounds, to_usize, first_byte, trim_ascii_spec, leading_ws, trailing_ws, is_ascii_ws};
use crate::text::{ascii_chars, ascii_to_string, str_chars, chars_to_string};

verus! {

broadcast use crate::scan::group_scan;

/// The meta fields of a record (the part in parentheses after the timestamp).
#[derive(Debug, Clone, PartialEq, Eq)]
pub struct MetaParts {
    /// EP (execution point) number, 0-255.
    pub ep: u8,
    /// Session id.
    pub sess_id: String,
    /// Thread id.
    pub thrd_id: String,
    /// User name.
    pub username: String,
    /// Transaction id.
    pub trxid: String,
    /// Statement id.
    pub statement: String,
    /// Application name.
    pub appname: String,
    /// Client IP address (may be empty).
    pub client_ip: String,
}

/// The content of a [`MetaParts`].
pub struct MetaSpec {
    pub ep: u8,
    pub sess_id: Seq<char>,
    pub thrd_id: Seq<char>,
    pub username: Seq<char>,
    pub trxid: Seq<char>,
    pub statement: Seq<char>,
    pub appname: Seq<char>,
    pub client_ip: Seq<char>,
}

impl View for MetaParts {
    type V = MetaSpec;

    open spec fn view(&self) -> MetaSpec {
        MetaSpec {
            ep: self.ep,
            sess_id: self.sess_id@,
            thrd_id: self.thrd_id@,
            username: self.username@,
            trxid: self.trxid@,
            statement: self.statement@,
            appname: self.appname@,
            client_ip: self.client_ip@,
        }
    }
}

/// Meta fields with every text empty and EP 0.
pub open spec fn empty_meta() -> MetaSpec {
    MetaSpec {
        ep: 0,
        sess_id: Seq::empty(),
        thrd_id: Seq::empty(),
        username: Seq::empty(),
        trxid: Seq::empty(),
        statement: Seq::empty(),
        appname: Seq::empty(),
        client_ip: Seq::empty(),
    }
}

impl Default for MetaParts {
    fn default() -> (r: MetaParts)
        ensures
            r@ == empty_meta(),
    {
        MetaParts {
            ep: 0,
            sess_id: String::new(),
            thrd_id: String::new(),
            username: String::new(),
            trxid: String::new(),
            statement: String::new(),
            appname: String::new(),
            client_ip: String::new(),
        }
    }
}

/// The performance indicators of a record: `EXECTIME: t(ms) ROWCOUNT: n(rows) EXEC_ID: id.`
///
/// The execution time is kept as the decimal literal of the log, which is a
/// valid `f32` literal; converting it to a number is left to the caller.
#[derive(Debug, Clone, PartialEq, Eq)]
pub struct IndicatorsParts {
    /// Execution time in milliseconds, as written in the log.
    pub execute_time: String,
    /// Number of rows affected.
    pub row_count: u32,
    /// Execution id.
    pub execute_id: i64,
}

/// The content of an [`IndicatorsParts`].
pub struct IndicatorsSpec {
    pub execute_time: Seq<char>,
    pub row_count: u32,
    pub execute_id: i64,
}

impl View for IndicatorsParts {
    type V = IndicatorsSpec;

    open spec fn view(&self) -> IndicatorsSpec {
        IndicatorsSpec { execute_time: self.execute_time@, row_count: self.row_count, execute_id: self.execute_id }
    }
}

/// A record parsed from its lines: timestamp, meta fields, SQL body and the
/// optional performance indicators.
#[derive(Debug, Clone, PartialEq, Eq)]
pub struct SqllogEntry {
    /// Timestamp `YYYY-MM-DD HH:MM:SS.mmm`.
    pub ts: String,
    /// Meta fields.
    pub meta: MetaParts,
    /// SQL body, without the indicators.
    pub body: String,
    /// Performance indicators, when the record has all three.
    pub indicators: Option<IndicatorsParts>,
}

/// The content of a [`SqllogEntry`].
pub struct EntrySpec {
    pub ts: Seq<char>,
    pub meta: MetaSpec,
    pub body: Seq<char>,
    pub indicators: Option<IndicatorsSpec>,
}

impl View for SqllogEntry {
    type V = EntrySpec;

    open spec fn view(&self) -> EntrySpec {
        EntrySpec {
            ts: self.ts@,
            meta: self.meta@,
            body: self.body@,
            indicators: match self.indicators {
                Some(i) => Some(i@),
                None => None,
            },
        }
    }
}

impl SqllogEntry {
    /// Whether the record has performance indicators.
    pub fn has_indicators(&self) -> (r: bool)
        ensures
            r == self.indicators.is_some(),
    {
        self.indicators.is_some()
    }

    /// The execution time literal, if the record has indicators.
    pub fn execute_time(&self) -> (r: Option<String>)
        ensures
            match self.indicators {
                Some(i) => r matches Some(t) && t@ == i.execute_time@,
                None => r is None,
            },
    {
        match &self.indicators {
            Some(i) => Some(i.execute_time.clone()),
            None => None,
        }
    }

    /// The row count, if the record has indicators.
    pub fn row_count(&self) -> (r: Option<u32>)
        ensures
            match self.indicators {
                Some(i) => r == Some(i.row_count),
                None => r is None,
            },
    {
        match &self.indicators {
            Some(i) => Some(i.row_count),
            None => None,
        }
    }

    /// The execution id, if the record has indicators.
    pub fn execute_id(&self) -> (r: Option<i64>)
        ensures
            match self.indicators {
                Some(i) => r == Some(i.execute_id),
                None => r is None,
            },
    {
        match &self.indicators {
            Some(i) => Some(i.execute_id),
            None => None,
        }
    }
}

// ── Records parsed lazily ───────────────────────────────────────────────────

/// A record whose parts are parsed when asked for: the timestamp, the raw
/// meta part, and the raw content (SQL body and indicators) in the file's
/// encoding.
#[derive(Debug, Clone, PartialEq, Default)]
pub struct Sqllog {
    /// Timestamp `YYYY-MM-DD HH:MM:SS.mmm`.
    pub ts: String,
    /// The meta part, unparsed.
    pub meta_raw: String,
    /// Body and indicators, unsplit and undecoded.
    pub content_raw: Vec<u8>,
    /// The bracketed tag (`SEL`, `ORA`, ...), if any.
    pub tag: Option<String>,
    /// The encoding of the file, for decoding the content.
    pub encoding: FileEncodingHint,
}

/// Performance indicators and SQL text of a record. The execution time is
/// the literal of the log, or empty when there is none.
#[derive(Debug, Clone, PartialEq, Default)]
pub struct PerformanceMetrics {
    /// Execution time in milliseconds as written in the log; empty when absent.
    pub exectime: String,
    /// Rows affected.
    pub rowcount: u32,
    /// Execution id.
    pub exec_id: i64,
    /// The SQL text.
    pub sql: String,
}

/// The content of a [`PerformanceMetrics`].
pub struct MetricsSpec {
    pub exectime: Seq<char>,
    pub rowcount: u32,
    pub exec_id: i64,
    pub sql: Seq<char>,
}

impl View for PerformanceMetrics {
    type V = MetricsSpec;

    open spec fn view(&self) -> MetricsSpec {
        MetricsSpec { exectime: self.exectime@, rowcount: self.rowcount, exec_id: self.exec_id, sql: self.sql@ }
    }
}

/// The indicators of `ind`, each found by its first keyword and read with the
/// prefix syntax of `atoi` (the execution time as a float literal); `None`
/// when none of the three is read.
pub open spec fn lazy_indicators(ind: Seq<u8>) -> Option<MetricsSpec> {
    let t = match paren_value(ind, kw_exectime()) {
        Some(v) => if float_literal(v) { Some(v) } else { None },
        None => None,
    };
    let r = match paren_value(ind, kw_rowcount()) {
        Some(v) => atoi_spec(v, 0, u32::MAX as int),
        None => None,
    };
    let x = match dot_value(ind, kw_exec_id()) {
        Some(v) => atoi_spec(v, i64::MIN as int, i64::MAX as int),
        None => None,
    };
    if t is None && r is None && x is None {
        None
    } else {
        Some(MetricsSpec {
            exectime: match t {
                Some(v) => ascii_chars(v),
                None => Seq::empty(),
            },
            rowcount: match r {
                Some(n) => n as u32,
                None => 0,
            },
            exec_id: match x {
                Some(n) => n as i64,
                None => 0,
            },
            sql: Seq::empty(),
        })
    }
}

/// Reads the indicators of `ind` (see [`lazy_indicators`]).
fn lazy_indicators_exec(ind: &[u8]) -> (r: Option<PerformanceMetrics>)
    ensures
        match lazy_indicators(ind@) {
            Some(m) => r matches Some(p) && p@ == m,
            None => r is None,
        },
{
    let k_exectime: Vec<u8> = vec![69u8, 88, 69, 67, 84, 73, 77, 69, 58];
    let k_rowcount: Vec<u8> = vec![82u8, 79, 87, 67, 79, 85, 78, 84, 58];
    let k_exec_id: Vec<u8> = vec![69u8, 88, 69, 67, 95, 73, 68, 58];
    assert(k_exectime@ =~= kw_exectime());
    assert(k_rowcount@ =~= kw_rowcount());
    assert(k_exec_id@ =~= kw_exec_id());
    let mut found = false;
    let mut out = PerformanceMetrics { exectime: String::new(), rowcount: 0, exec_id: 0, sql: String::new() };
    match crate::record::paren_value_bounds(ind, k_exectime.as_slice()) {
        Some((a, b)) => {
            let v = &ind[a..b];
            if is_float_literal(v) {
                proof {
                    lemma_float_literal_ascii(v@);
                }
                out.exectime = ascii_to_string(v);
                found = true;
            }
        },
        None => {},
    }
    match crate::record::paren_value_bounds(ind, k_rowcount.as_slice()) {
        Some((a, b)) => match atoi_u32(&ind[a..b]) {
            Some(n) => {
                out.rowcount = n;
                found = true;
            },
            None => {},
        },
        None => {},
    }
    match crate::record::dot_value_bounds(ind, k_exec_id.as_slice()) {
        Some((a, b)) => match atoi_i64(&ind[a..b]) {
            Some(n) => {
                out.exec_id = n;
                found = true;
            },
            None => {},
        },
        None => {},
    }
    proof {
        assert(out.sql@ =~= Seq::<char>::empty());
        if out.exectime@.len() == 0 {
            assert(out.exectime@ =~= Seq::<char>::empty());
        }
    }
    if found {
        Some(out)
    } else {
        None
    }
}

/// `EXECTIME: ` (with its space).
pub open spec fn kw_exectime_sp() -> Seq<u8> {
    kw_exectime().push(32u8)
}

/// `ROWCOUNT: ` (with its space).
pub open spec fn kw_rowcount_sp() -> Seq<u8> {
    kw_rowcount().push(32u8)
}

/// `EXEC_ID: ` (with its space).
pub open spec fn kw_exec_id_sp() -> Seq<u8> {
    kw_exec_id().push(32u8)
}

/// Length of the body in the content `d` of a lazily parsed record: when `d`
/// ends (before line breaks) with `.` or `)`, the body ends at the leftmost of
/// the last `EXECTIME: `, `ROWCOUNT: ` and `EXEC_ID: ` in the last 256 bytes,
/// provided indicators can be read from there; otherwise the body is all of `d`.
pub open spec fn lazy_split(d: Seq<u8>) -> int {
    let lm = last_meaningful(d);
    if lm != Some(46u8) && lm != Some(41u8) {
        d.len() as int
    } else {
        let ws = window_start(d.len() as int);
        let w = d.subrange(ws, d.len() as int);
        let found = min_opt(
            min_opt(last_occurrence(w, kw_exectime_sp()), last_occurrence(w, kw_rowcount_sp())),
            last_occurrence(w, kw_exec_id_sp()),
        );
        match found {
            None => d.len() as int,
            Some(p) => if lazy_indicators(d.subrange(ws + p, d.len() as int)) is None {
                d.len() as int
            } else {
                ws + p
            },
        }
    }
}

/// The content of a lazily parsed record splits into its body and its
/// indicators text, which together are the whole content; an indicators text
/// is split off only when the indicators can be read from it.
pub proof fn lemma_lazy_split_parts(d: Seq<u8>)
    ensures
        0 <= lazy_split(d) <= d.len(),
        d.subrange(0, lazy_split(d)) + d.subrange(lazy_split(d), d.len() as int) == d,
        lazy_split(d) < d.len() ==> lazy_indicators(d.subrange(lazy_split(d), d.len() as int)) is Some,
{
    broadcast use crate::scan::group_scan;

    let lm = last_meaningful(d);
    if lm == Some(46u8) || lm == Some(41u8) {
        let ws = window_start(d.len() as int);
        let w = d.subrange(ws, d.len() as int);
        let a = last_occurrence(w, kw_exectime_sp());
        let b = last_occurrence(w, kw_rowcount_sp());
        let c = last_occurrence(w, kw_exec_id_sp());
        assert(a matches Some(i) ==> 0 <= i <= w.len());
        assert(b matches Some(i) ==> 0 <= i <= w.len());
        assert(c matches Some(i) ==> 0 <= i <= w.len());
    }
    let k = lazy_split(d);
    assert(d =~= d.subrange(0, k) + d.subrange(k, d.len() as int));
}

/// `a` and `b` have one length and differ at most at index `m`.
pub open spec fn same_but(a: Seq<u8>, b: Seq<u8>, m: int) -> bool {
    &&& a.len() == b.len()
    &&& forall|j: int| 0 <= j < a.len() && j != m ==> a[j] == b[j]
}

/// Every byte of `a` after index `m` is a line break.
pub open spec fn breaks_after(a: Seq<u8>, m: int) -> bool {
    forall|j: int| 0 <= j < a.len() && m < j ==> a[j] == 10u8 || a[j] == 13u8
}

proof fn lemma_same_but_subrange(a: Seq<u8>, b: Seq<u8>, m: int, lo: int, hi: int)
    requires
        same_but(a, b, m),
        0 <= lo <= hi <= a.len(),
    ensures
        same_but(a.subrange(lo, hi), b.subrange(lo, hi), m - lo),
        breaks_after(a, m) ==> breaks_after(a.subrange(lo, hi), m - lo),
        breaks_after(b, m) ==> breaks_after(b.subrange(lo, hi), m - lo),
{
    if breaks_after(a, m) {
        assert forall|j: int| 0 <= j < hi - lo && m - lo < j implies a.subrange(lo, hi)[j] == 10u8 || a.subrange(lo, hi)[j]
            == 13u8 by {
            assert(a.subrange(lo, hi)[j] == a[j + lo]);
        }
    }
    if breaks_after(b, m) {
        assert forall|j: int| 0 <= j < hi - lo && m - lo < j implies b.subrange(lo, hi)[j] == 10u8 || b.subrange(lo, hi)[j]
            == 13u8 by {
            assert(b.subrange(lo, hi)[j] == b[j + lo]);
        }
    }
}

proof fn lemma_same_occurrences(a: Seq<u8>, b: Seq<u8>, m: int, n: Seq<u8>)
    requires
        same_but(a, b, m),
        0 <= m < a.len() ==> forall|j: int| 0 <= j < n.len() ==> n[j] != a[m] && n[j] != b[m],
    ensures
        first_occurrence(a, n) == first_occurrence(b, n),
        last_occurrence(a, n) == last_occurrence(b, n),
{
    broadcast use crate::scan::group_scan;

    assert forall|i: int| occurs_at(a, n, i) == occurs_at(b, n, i) by {
        if 0 <= i && i + n.len() <= a.len() {
            if occurs_at(a, n, i) {
                assert forall|j: int| 0 <= j < n.len() implies b.subrange(i, i + n.len())[j] == n[j] by {
                    assert(a.subrange(i, i + n.len())[j] == n[j]);
                    assert(a[i + j] == n[j]);
                }
                assert(b.subrange(i, i + n.len()) =~= n);
            }
            if occurs_at(b, n, i) {
                assert forall|j: int| 0 <= j < n.len() implies a.subrange(i, i + n.len())[j] == n[j] by {
                    assert(b.subrange(i, i + n.len())[j] == n[j]);
                    assert(b[i + j] == n[j]);
                }
                assert(a.subrange(i, i + n.len()) =~= n);
            }
        }
    }
    match first_occurrence(a, n) {
        Some(x) => match first_occurrence(b, n) {
            Some(y) => {
                if x < y {
                    assert(occurs_at(b, n, x));
                } else if y < x {
                    assert(occurs_at(a, n, y));
                }
            },
            None => {
                assert(occurs_at(b, n, x));
            },
        },
        None => {
            if let Some(y) = first_occurrence(b, n) {
                assert(occurs_at(a, n, y));
            }
        },
    }
    match last_occurrence(a, n) {
        Some(x) => match last_occurrence(b, n) {
            Some(y) => {
                if x < y {
                    assert(occurs_at(a, n, y));
                } else if y < x {
                    assert(occurs_at(b, n, x));
                }
            },
            None => {
                assert(occurs_at(b, n, x));
            },
        },
        None => {
            if let Some(y) = last_occurrence(b, n) {
                assert(occurs_at(a, n, y));
            }
        },
    }
}

proof fn lemma_same_first_byte(a: Seq<u8>, b: Seq<u8>, m: int, c: u8)
    requires
        same_but(a, b, m),
        0 <= m < a.len() ==> a[m] != c && b[m] != c,
    ensures
        first_byte(a, c) == first_byte(b, c),
{
    broadcast use crate::scan::group_scan;

    match first_byte(a, c) {
        Some(x) => match first_byte(b, c) {
            Some(y) => {
                if x < y {
                    assert(b[x] == a[x]);
                } else if y < x {
                    assert(a[y] == b[y]);
                }
            },
            None => {
                assert(b[x] == a[x]);
            },
        },
        None => {
            if let Some(y) = first_byte(b, c) {
                assert(a[y] == b[y]);
            }
        },
    }
}

proof fn lemma_leading_digits_prefix(p: Seq<u8>, q: Seq<u8>)
    requires
        q.len() == 0 || !is_digit(q[0]),
    ensures
        leading_digits(p + q) == leading_digits(p),
    decreases p.len(),
{
    if p.len() == 0 {
        assert(p + q =~= q);
    } else {
        assert((p + q)[0] == p[0]);
        assert((p + q).drop_first() =~= p.drop_first() + q);
        lemma_leading_digits_prefix(p.drop_first(), q);
    }
}

/// `atoi` reads the same from a trimmed value as from that value followed by
/// `)` and line breaks.
proof fn lemma_atoi_trim_paren(x: Seq<u8>, nl: Seq<u8>, lo: int, hi: int)
    requires
        forall|j: int| 0 <= j < nl.len() ==> nl[j] == 10u8 || nl[j] == 13u8,
    ensures
        atoi_spec(trim_ascii_spec(x), lo, hi) == atoi_spec(trim_ascii_spec(x + seq![41u8] + nl), lo, hi),
{
    let y = x + seq![41u8] + nl;
    lemma_trailing_ws_breaks(x + seq![41u8], nl);
    lemma_leading_ws_prefix(x, seq![41u8] + nl);
    assert(y =~= x + (seq![41u8] + nl));
    let a = leading_ws(x) as int;
    let ty = trim_ascii_spec(y);
    let tx = trim_ascii_spec(x);
    if a == x.len() {
        assert(leading_ws(y) == x.len());
        assert(ty =~= seq![41u8]);
        assert(tx =~= Seq::<u8>::empty());
        assert(leading_digits(seq![41u8]) == 0);
        assert(seq![41u8].subrange(0, 1) =~= seq![41u8]);
        assert(leading_digits(seq![41u8].subrange(0, 1)) == 0);
        assert(leading_digits(Seq::<u8>::empty()) == 0);
        assert(Seq::<u8>::empty().subrange(0, 0) =~= Seq::<u8>::empty());
    } else {
        lemma_leading_ws_bound(x);
        lemma_trailing_ws_bound(x);
        let tw = trailing_ws(x) as int;
        assert(!is_ascii_ws(x[a]));
        lemma_trailing_ws_stops(x, a);
        assert(a < x.len() - tw);
        assert(tx =~= x.subrange(a, x.len() - tw));
        assert(ty =~= x.subrange(a, x.len() as int) + seq![41u8]);
        let rest = x.subrange(x.len() - tw, x.len() as int) + seq![41u8];
        assert(ty =~= tx + rest);
        assert(rest.len() > 0);
        if tw > 0 {
            lemma_trailing_ws_all(x);
            assert(is_ascii_ws(x[x.len() - tw]));
            assert(rest[0] == x[x.len() - tw]);
        }
        assert(!is_digit(rest[0]));
        let off: int = if tx.len() > 0 && (tx[0] == 43u8 || tx[0] == 45u8) { 1 } else { 0 };
        assert(ty[0] == tx[0]);
        assert(ty.subrange(off, ty.len() as int) =~= tx.subrange(off, tx.len() as int) + rest);
        lemma_leading_digits_prefix(tx.subrange(off, tx.len() as int), rest);
        let n = leading_digits(tx.subrange(off, tx.len() as int)) as int;
        lemma_leading_digits_le(tx.subrange(off, tx.len() as int));
        assert(ty.subrange(off, off + n) =~= tx.subrange(off, off + n));
    }
}

proof fn lemma_leading_digits_le(p: Seq<u8>)
    ensures
        leading_digits(p) <= p.len(),
    decreases p.len(),
{
    if p.len() > 0 && is_digit(p[0]) {
        lemma_leading_digits_le(p.drop_first());
    }
}

proof fn lemma_leading_ws_bound(x: Seq<u8>)
    ensures
        leading_ws(x) <= x.len(),
        leading_ws(x) < x.len() ==> !is_ascii_ws(x[leading_ws(x) as int]),
        forall|j: int| 0 <= j < leading_ws(x) ==> is_ascii_ws(#[trigger] x[j]),
    decreases x.len(),
{
    if x.len() > 0 && is_ascii_ws(x[0]) {
        lemma_leading_ws_bound(x.drop_first());
        assert forall|j: int| 0 <= j < leading_ws(x) implies is_ascii_ws(#[trigger] x[j]) by {
            if j > 0 {
                assert(x[j] == x.drop_first()[j - 1]);
            }
        }
    }
}

proof fn lemma_trailing_ws_bound(x: Seq<u8>)
    ensures
        trailing_ws(x) <= x.len(),
    decreases x.len(),
{
    if x.len() > 0 && is_ascii_ws(x.last()) {
        lemma_trailing_ws_bound(x.drop_last());
    }
}

proof fn lemma_trailing_ws_all(x: Seq<u8>)
    ensures
        forall|j: int| x.len() - trailing_ws(x) <= j < x.len() ==> is_ascii_ws(#[trigger] x[j]),
    decreases x.len(),
{
    lemma_trailing_ws_bound(x);
    if x.len() > 0 && is_ascii_ws(x.last()) {
        lemma_trailing_ws_bound(x.drop_last());
        lemma_trailing_ws_all(x.drop_last());
        assert forall|j: int| x.len() - trailing_ws(x) <= j < x.len() implies is_ascii_ws(#[trigger] x[j]) by {
            if j < x.len() - 1 {
                assert(x[j] == x.drop_last()[j]);
            }
        }
    }
}

/// Trailing whitespace stops before a byte that is not whitespace.
proof fn lemma_trailing_ws_stops(x: Seq<u8>, a: int)
    requires
        0 <= a < x.len(),
        !is_ascii_ws(x[a]),
    ensures
        trailing_ws(x) < x.len() - a,
    decreases x.len(),
{
    if x.len() - 1 > a && is_ascii_ws(x.last()) {
        lemma_trailing_ws_stops(x.drop_last(), a);
    }
}

proof fn lemma_trailing_ws_breaks(p: Seq<u8>, nl: Seq<u8>)
    requires
        forall|j: int| 0 <= j < nl.len() ==> nl[j] == 10u8 || nl[j] == 13u8,
        p.len() > 0 && !is_ascii_ws(p.last()),
    ensures
        trailing_ws(p + nl) == nl.len(),
    decreases nl.len(),
{
    if nl.len() == 0 {
        assert(p + nl =~= p);
    } else {
        assert((p + nl).drop_last() =~= p + nl.drop_last());
        lemma_trailing_ws_breaks(p, nl.drop_last());
    }
}

proof fn lemma_leading_ws_prefix(x: Seq<u8>, q: Seq<u8>)
    requires
        q.len() > 0 && !is_ascii_ws(q[0]),
    ensures
        leading_ws(x + q) == (if leading_ws(x) == x.len() { x.len() } else { leading_ws(x) }),
    decreases x.len(),
{
    if x.len() == 0 {
        assert(x + q =~= q);
    } else {
        assert((x + q)[0] == x[0]);
        assert((x + q).drop_first() =~= x.drop_first() + q);
        lemma_leading_ws_prefix(x.drop_first(), q);
    }
}

/// A byte sequence holds neither `.` nor `)`.
pub open spec fn no_dot_or_paren(kw: Seq<u8>) -> bool {
    forall|j: int| 0 <= j < kw.len() ==> kw[j] != 46u8 && kw[j] != 41u8
}

proof fn lemma_paren_value_same(x1: Seq<u8>, x2: Seq<u8>, m: int, kw: Seq<u8>)
    requires
        same_but(x1, x2, m),
        0 <= m < x1.len(),
        x1[m] == 46u8 || x1[m] == 41u8,
        x2[m] == 46u8 || x2[m] == 41u8,
        breaks_after(x1, m),
        no_dot_or_paren(kw),
    ensures
        paren_value(x1, kw) == paren_value(x2, kw),
{
    broadcast use crate::scan::group_scan;

    lemma_same_occurrences(x1, x2, m, kw);
    if let Some(p) = first_occurrence(x1, kw) {
        let lo = p + kw.len();
        let r1 = x1.subrange(lo, x1.len() as int);
        let r2 = x2.subrange(lo, x2.len() as int);
        lemma_same_but_subrange(x1, x2, m, lo, x1.len() as int);
        let mm = m - lo;
        lemma_same_first_byte(r1, r2, mm, 40u8);
        if let Some(k) = first_byte(r1, 40u8) {
            if mm >= 0 {
                assert(k != mm);
                if k > mm {
                    assert(r1[k] == 10u8 || r1[k] == 13u8);
                }
                assert(k < mm);
            }
            assert(r1.subrange(0, k) =~= r2.subrange(0, k));
        }
    }
}

proof fn lemma_dot_value_atoi_same(x1: Seq<u8>, x2: Seq<u8>, m: int, kw: Seq<u8>, lo: int, hi: int)
    requires
        same_but(x1, x2, m),
        0 <= m < x1.len(),
        x1[m] == 46u8,
        x2[m] == 41u8,
        breaks_after(x1, m),
        no_dot_or_paren(kw),
    ensures
        (match dot_value(x1, kw) {
            Some(v) => atoi_spec(v, lo, hi),
            None => None,
        }) == (match dot_value(x2, kw) {
            Some(v) => atoi_spec(v, lo, hi),
            None => None,
        }),
{
    broadcast use crate::scan::group_scan;

    lemma_same_occurrences(x1, x2, m, kw);
    if let Some(p) = first_occurrence(x1, kw) {
        let st = p + kw.len();
        let r1 = x1.subrange(st, x1.len() as int);
        let r2 = x2.subrange(st, x2.len() as int);
        lemma_same_but_subrange(x1, x2, m, st, x1.len() as int);
        let mm = m - st;
        if mm < 0 {
            assert(r1 =~= r2);
        } else {
            assert(r1[mm] == 46u8);
            let j = first_byte(r1, 46u8)->0;
            assert(first_byte(r1, 46u8) is Some);
            assert(j <= mm);
            if j < mm {
                lemma_same_first_byte(r1.subrange(0, mm), r2.subrange(0, mm), -1, 46u8);
                assert(r1.subrange(0, mm) =~= r2.subrange(0, mm));
                assert(r2[j] == 46u8);
                assert(first_byte(r2, 46u8) == Some(j)) by {
                    if let Some(j2) = first_byte(r2, 46u8) {
                        if j2 < j {
                            assert(r1[j2] == r2[j2]);
                        }
                    }
                }
                assert(r1.subrange(0, j) =~= r2.subrange(0, j));
            } else {
                assert(first_byte(r2, 46u8) is None) by {
                    if let Some(j2) = first_byte(r2, 46u8) {
                        if j2 < mm {
                            assert(r1[j2] == r2[j2]);
                        } else if j2 > mm {
                            assert(r2[j2] == 10u8 || r2[j2] == 13u8);
                        }
                    }
                }
                let nl = r1.subrange(mm + 1, r1.len() as int);
                assert forall|i: int| 0 <= i < nl.len() implies nl[i] == 10u8 || nl[i] == 13u8 by {
                    assert(nl[i] == r1[mm + 1 + i]);
                }
                assert(r2 =~= r1.subrange(0, mm) + seq![41u8] + nl);
                assert(r2.subrange(0, r2.len() as int) =~= r2);
                lemma_atoi_trim_paren(r1.subrange(0, mm), nl, lo, hi);
            }
        }
    }
}

proof fn lemma_lazy_indicators_same(x1: Seq<u8>, x2: Seq<u8>, m: int)
    requires
        same_but(x1, x2, m),
        0 <= m < x1.len(),
        x1[m] == 46u8,
        x2[m] == 41u8,
        breaks_after(x1, m),
    ensures
        (lazy_indicators(x1) is None) == (lazy_indicators(x2) is None),
{
    assert(no_dot_or_paren(kw_exectime()));
    assert(no_dot_or_paren(kw_rowcount()));
    assert(no_dot_or_paren(kw_exec_id()));
    lemma_paren_value_same(x1, x2, m, kw_exectime());
    lemma_paren_value_same(x1, x2, m, kw_rowcount());
    lemma_dot_value_atoi_same(x1, x2, m, kw_exec_id(), i64::MIN as int, i64::MAX as int);
}

proof fn lemma_last_meaningful_at(d: Seq<u8>, k: int)
    requires
        0 <= k < d.len(),
        d[k] != 10u8 && d[k] != 13u8,
        breaks_after(d, k),
    ensures
        last_meaningful(d) == Some(d[k]),
    decreases d.len(),
{
    if d.len() - 1 > k {
        assert(d.last() == 10u8 || d.last() == 13u8);
        let d1 = d.drop_last();
        assert forall|j: int| 0 <= j < d1.len() && k < j implies d1[j] == 10u8 || d1[j] == 13u8 by {
            assert(d1[j] == d[j]);
        }
        lemma_last_meaningful_at(d1, k);
    }
}

/// A lazily parsed record whose content ends in `)` (before line breaks),
/// as indicators without `EXEC_ID` do, is split exactly where the same
/// content ending in `.` is: the closing byte does not decide whether, or
/// where, the indicators are split off.
pub proof fn lemma_paren_end_splits_like_dot(d: Seq<u8>, k: int)
    requires
        0 <= k < d.len(),
        breaks_after(d, k),
    ensures
        lazy_split(d.update(k, 41u8)) == lazy_split(d.update(k, 46u8)),
{
    let d1 = d.update(k, 46u8);
    let d2 = d.update(k, 41u8);
    assert(breaks_after(d1, k));
    assert(breaks_after(d2, k));
    assert(same_but(d1, d2, k));
    lemma_last_meaningful_at(d1, k);
    lemma_last_meaningful_at(d2, k);
    let ws = window_start(d.len() as int);
    let w1 = d1.subrange(ws, d.len() as int);
    let w2 = d2.subrange(ws, d.len() as int);
    lemma_same_but_subrange(d1, d2, k, ws, d.len() as int);
    assert(no_dot_or_paren(kw_exectime_sp()));
    assert(no_dot_or_paren(kw_rowcount_sp()));
    assert(no_dot_or_paren(kw_exec_id_sp()));
    if 0 <= k - ws {
        assert(w1[k - ws] == 46u8 && w2[k - ws] == 41u8);
    }
    lemma_same_occurrences(w1, w2, k - ws, kw_exectime_sp());
    lemma_same_occurrences(w1, w2, k - ws, kw_rowcount_sp());
    lemma_same_occurrences(w1, w2, k - ws, kw_exec_id_sp());
    let found = min_opt(
        min_opt(last_occurrence(w1, kw_exectime_sp()), last_occurrence(w1, kw_rowcount_sp())),
        last_occurrence(w1, kw_exec_id_sp()),
    );
    if let Some(p) = found {
        let q = ws + p;
        if 0 <= q <= d.len() {
            let x1 = d1.subrange(q, d.len() as int);
            let x2 = d2.subrange(q, d.len() as int);
            lemma_same_but_subrange(d1, d2, k, q, d.len() as int);
            if k - q < 0 {
                assert(x1 =~= x2);
            } else {
                lemma_lazy_indicators_same(x1, x2, k - q);
            }
        }
    }
}

/// The content of a [`Sqllog`].
pub struct LazySpec {
    pub ts: Seq<char>,
    pub meta_raw: Seq<char>,
    pub content: Seq<u8>,
    pub tag: Option<Seq<char>>,
    pub encoding: FileEncodingHint,
}

impl View for Sqllog {
    type V = LazySpec;

    open spec fn view(&self) -> LazySpec {
        LazySpec {
            ts: self.ts@,
            meta_raw: self.meta_raw@,
            content: self.content_raw@,
            tag: match self.tag {
                Some(t) => Some(t@),
                None => None,
            },
            encoding: self.encoding,
        }
    }
}

/// `s` without a leading `": "`.
pub fn strip_ora_prefix(s: String) -> (r: String)
    ensures
        r@ == (if s@.len() >= 2 && s@[0] == ':' && s@[1] == ' ' { s@.subrange(2, s@.len() as int) } else { s@ }),
{
    let c = str_chars(s.as_str());
    if c.len() >= 2 && c[0] == ':' && c[1] == ' ' {
        chars_to_string(c.as_slice(), 2, c.len())
    } else {
        s
    }
}

impl Sqllog {
    /// Where the body ends in the content (see [`lazy_split`]).
    fn find_indicators_split(&self) -> (r: usize)
        ensures
            r == lazy_split(self.content_raw@),
            r <= self.content_raw@.len(),
    {
        let data = self.content_raw.as_slice();
        let len = data.len();
        let lm = crate::record::last_meaningful_byte(data);
        if lm != Some(46u8) && lm != Some(41u8) {
            return len;
        }
        let ws = if len > 256 { len - 256 } else { 0 };
        let w = &data[ws..len];
        let k1: Vec<u8> = vec![69u8, 88, 69, 67, 84, 73, 77, 69, 58, 32];
        let k2: Vec<u8> = vec![82u8, 79, 87, 67, 79, 85, 78, 84, 58, 32];
        let k3: Vec<u8> = vec![69u8, 88, 69, 67, 95, 73, 68, 58, 32];
        assert(k1@ =~= kw_exectime_sp());
        assert(k2@ =~= kw_rowcount_sp());
        assert(k3@ =~= kw_exec_id_sp());
        let a = crate::record::last_in_window(w, k1.as_slice());
        let b = crate::record::last_in_window(w, k2.as_slice());
        let c = crate::record::last_in_window(w, k3.as_slice());
        assert(to_int_opt(a) == last_occurrence(w@, kw_exectime_sp()));
        assert(to_int_opt(b) == last_occurrence(w@, kw_rowcount_sp()));
        assert(to_int_opt(c) == last_occurrence(w@, kw_exec_id_sp()));
        assert(w@ == data@.subrange(ws as int, len as int));
        let found = crate::record::min_pos(crate::record::min_pos(a, b), c);
        match found {
            None => len,
            Some(p) => {
                let split = ws + p;
                if lazy_indicators_exec(&data[split..len]).is_none() {
                    len
                } else {
                    split
                }
            },
        }
    }

    /// The SQL body, decoded by the file's encoding.
    pub fn body(&self) -> (r: String)
        ensures
            r@ == decode_content(self.encoding, self.content_raw@.subrange(0, lazy_split(self.content_raw@))),
    {
        let split = self.find_indicators_split();
        decode_content_bytes(&self.content_raw.as_slice()[0..split], self.encoding)
    }

    /// The length in bytes of the SQL body.
    pub fn body_len(&self) -> (r: usize)
        ensures
            r == lazy_split(self.content_raw@),
    {
        self.find_indicators_split()
    }

    /// The bytes of the SQL body.
    pub fn body_bytes(&self) -> (r: &[u8])
        ensures
            r@ == self.content_raw@.subrange(0, lazy_split(self.content_raw@)),
    {
        let split = self.find_indicators_split();
        &self.content_raw.as_slice()[0..split]
    }

    /// The indicators text, decoded; `None` when there is none.
    pub fn indicators_raw(&self) -> (r: Option<String>)
        ensures
            ({
                let d = self.content_raw@;
                let ind = d.subrange(lazy_split(d), d.len() as int);
                match r {
                    Some(s) => ind.len() > 0 && s@ == decode_content(self.encoding, ind),
                    None => ind.len() == 0,
                }
            }),
    {
        let split = self.find_indicators_split();
        let data = self.content_raw.as_slice();
        let ind = &data[split..data.len()];
        if ind.len() == 0 {
            return None;
        }
        Some(decode_content_bytes(ind, self.encoding))
    }

    /// The indicators (with an empty SQL text); `None` when there are none.
    pub fn parse_indicators(&self) -> (r: Option<PerformanceMetrics>)
        ensures
            ({
                let d = self.content_raw@;
                let ind = d.subrange(lazy_split(d), d.len() as int);
                if ind.len() == 0 {
                    r is None
                } else {
                    match lazy_indicators(ind) {
                        Some(m) => r matches Some(p) && p@ == m,
                        None => r is None,
                    }
                }
            }),
    {
        let split = self.find_indicators_split();
        let data = self.content_raw.as_slice();
        let ind = &data[split..data.len()];
        if ind.len() == 0 {
            return None;
        }
        lazy_indicators_exec(ind)
    }

    /// The indicators (zero when there are none) and the SQL body, which
    /// loses a leading `": "` when the tag is `ORA`.
    pub fn parse_performance_metrics(&self) -> (r: PerformanceMetrics)
        ensures
            ({
                let d = self.content_raw@;
                let split = lazy_split(d);
                let m = lazy_indicators(d.subrange(split, d.len() as int));
                let sql = ora_strip(self@.tag, decode_content(self.encoding, d.subrange(0, split)));
                &&& r.sql@ == sql
                &&& match m {
                    Some(x) => r.exectime@ == x.exectime && r.rowcount == x.rowcount && r.exec_id == x.exec_id,
                    None => r.exectime@.len() == 0 && r.rowcount == 0 && r.exec_id == 0,
                }
            }),
    {
        let split = self.find_indicators_split();
        let data = self.content_raw.as_slice();
        let sql_raw = decode_content_bytes(&data[0..split], self.encoding);
        let sql = crate::parser::strip_ora(&self.tag, sql_raw);
        let mut pm = match lazy_indicators_exec(&data[split..data.len()]) {
            Some(p) => p,
            None => PerformanceMetrics { exectime: String::new(), rowcount: 0, exec_id: 0, sql: String::new() },
        };
        pm.sql = sql;
        pm
    }

    /// The meta fields, read from the meta part (as
    /// [`parse_meta_from_bytes`] reads them).
    pub fn parse_meta(&self) -> (r: MetaParts)
        ensures
            r@ == meta_scan(vstd::utf8::encode_utf8(self.meta_raw@), 0, empty_meta()),
    {
        parse_meta_from_bytes(self.meta_raw.as_str().as_bytes())
    }
}

} // verus!
