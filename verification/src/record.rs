//! Records of the streaming parser: every field is filled in one pass over
//! the raw bytes of a record. This module holds the record types and the
//! pieces of that pass: meta fields, indicators, the body/indicators split,
//! and transaction lock events.

use vstd::prelude::*;
use crate::number::{atoi_spec, atoi_u8, atoi_u64, float_literal,
    is_float_literal, std_signed, std_unsigned, parse_u32_text, parse_i64_text, leading_digits,
    is_digit};
use crate::scan::{occurs_at, first_byte, find_byte, first_byte2, find_byte2, last_occurrence, rfind_bytes,
    first_occurrence, find_bytes, trim_ascii_spec, trim_ascii_bounds, starts_with, bytes_eq,
    to_usize};
use crate::rounding::float_literal_is_zero;
use crate::sqllog::{MetaParts, MetaSpec, empty_meta};
use crate::text::{lossy_utf8, lossy_string, ascii_chars, ascii_to_string};
use crate::tools::has_prefix;

verus! {

broadcast use crate::scan::group_scan;

/// A SQL log record with every field parsed.
///
/// The execution time is kept as the literal written in the log (a valid
/// `f32` literal, such as `10.5`), or empty when the record has none; the
/// number itself is `0.0` then.
#[derive(Debug, Clone, PartialEq, Default)]
pub struct Sqllog {
    /// Timestamp `YYYY-MM-DD HH:MM:SS.mmm`.
    pub ts: String,
    /// The bracketed tag after the meta part (`SEL`, `ORA`, ...), if any.
    pub tag: Option<String>,
    /// EP (execution point) number, 0-255.
    pub ep: u8,
    /// Session id.
    pub sess_id: String,
    /// Thread id.
    pub thrd_id: String,
    /// User name.
    pub username: String,
    /// Transaction id.
    pub trxid: String,
    /// Statement id.
    pub statement: String,
    /// Application name.
    pub appname: String,
    /// Client IP address.
    pub client_ip: String,
    /// SQL body.
    pub sql: String,
    /// Execution time in milliseconds as written in the log; empty when absent.
    pub exectime: String,
    /// Rows affected; 0 when absent.
    pub rowcount: u32,
    /// Execution id; 0 when absent.
    pub exec_id: i64,
    /// Transaction lock event, for `LOCK_TID` lines.
    pub lock_event: Option<LockEvent>,
}

/// The content of a [`Sqllog`], with the meta fields gathered in a [`MetaSpec`].
pub struct SqllogSpec {
    pub ts: Seq<char>,
    pub tag: Option<Seq<char>>,
    pub meta: MetaSpec,
    pub sql: Seq<char>,
    pub exectime: Seq<char>,
    pub rowcount: u32,
    pub exec_id: i64,
    pub lock_event: Option<LockSpec>,
}

impl View for Sqllog {
    type V = SqllogSpec;

    open spec fn view(&self) -> SqllogSpec {
        SqllogSpec {
            ts: self.ts@,
            tag: match self.tag {
                Some(t) => Some(t@),
                None => None,
            },
            meta: MetaSpec {
                ep: self.ep,
                sess_id: self.sess_id@,
                thrd_id: self.thrd_id@,
                username: self.username@,
                trxid: self.trxid@,
                statement: self.statement@,
                appname: self.appname@,
                client_ip: self.client_ip@,
            },
            sql: self.sql@,
            exectime: self.exectime@,
            rowcount: self.rowcount,
            exec_id: self.exec_id,
            lock_event: match self.lock_event {
                Some(e) => Some(e@),
                None => None,
            },
        }
    }
}

/// A transaction lock wait (`LOCK_TID` entries of the log), in one of three
/// forms:
/// - single blocker: `trx[N] LOCK_TID (mode:M, table id:T, tid[K]) wait used time:X(ms|us)`
/// - several blockers: `trx[N] LOCK_TID (mode:M, table id:T) wait for K trxs, trx[a, b, ...more] used time:X(ms|us)`
/// - legacy: `trx[N] wait for LOCK_TID (mode:M, table id:T, tid[a, b]) used time:X(ms|us)`
#[derive(Debug, Clone, PartialEq, Default)]
pub struct LockEvent {
    /// The waiting transaction (`N` of `trx[N]`).
    pub waiting_trx_id: u64,
    /// The blocking transactions.
    pub blocking_trx_ids: Vec<u64>,
    /// Lock mode (`S`, `X`, ...).
    pub lock_mode: String,
    /// Locked table id.
    pub table_id: u64,
    /// Wait time in microseconds (`(ms)` values times 1000).
    pub wait_time_us: u64,
    /// Whether the list of blockers was cut short by `...more`.
    pub has_more_blocking: bool,
}

/// The content of a [`LockEvent`].
pub struct LockSpec {
    pub waiting_trx_id: u64,
    pub blocking_trx_ids: Seq<u64>,
    pub lock_mode: Seq<char>,
    pub table_id: u64,
    pub wait_time_us: int,
    pub has_more_blocking: bool,
}

impl View for LockEvent {
    type V = LockSpec;

    open spec fn view(&self) -> LockSpec {
        LockSpec {
            waiting_trx_id: self.waiting_trx_id,
            blocking_trx_ids: self.blocking_trx_ids@,
            lock_mode: self.lock_mode@,
            table_id: self.table_id,
            wait_time_us: self.wait_time_us as int,
            has_more_blocking: self.has_more_blocking,
        }
    }
}

// ── Meta fields ──────────────────────────────────────────────────────────────

/// The first index at or after `i` that is not a space (or the end).
pub open spec fn skip_sp(b: Seq<u8>, i: int) -> int
    decreases b.len() - i,
{
    if i < 0 || i >= b.len() || b[i] != 32u8 {
        i
    } else {
        skip_sp(b, i + 1)
    }
}

/// The first index at or after `i` that holds a space (or the end).
pub open spec fn tok_end(b: Seq<u8>, i: int) -> int
    decreases b.len() - i,
{
    if i < 0 || i >= b.len() || b[i] == 32u8 {
        i
    } else {
        tok_end(b, i + 1)
    }
}

pub proof fn lemma_skip_sp(b: Seq<u8>, i: int)
    requires
        0 <= i <= b.len(),
    ensures
        i <= skip_sp(b, i) <= b.len(),
        skip_sp(b, i) < b.len() ==> b[skip_sp(b, i)] != 32u8,
    decreases b.len() - i,
{
    if i < b.len() && b[i] == 32u8 {
        lemma_skip_sp(b, i + 1);
    }
}

pub proof fn lemma_tok_end(b: Seq<u8>, i: int)
    requires
        0 <= i <= b.len(),
    ensures
        i <= tok_end(b, i) <= b.len(),
        i < b.len() && b[i] != 32u8 ==> tok_end(b, i) > i,
        forall|j: int| i <= j < tok_end(b, i) ==> b[j] != 32u8,
    decreases b.len() - i,
{
    if i < b.len() && b[i] != 32u8 {
        lemma_tok_end(b, i + 1);
    }
}

/// `EP[n]`: more than four bytes, `EP[` first and `]` last.
pub open spec fn is_ep_tok(p: Seq<u8>) -> bool {
    p.len() > 4 && p[0] == 69u8 && p[1] == 80u8 && p[2] == 91u8 && p[p.len() - 1] == 93u8
}

pub open spec fn key_sess() -> Seq<u8> {
    seq![115u8, 101, 115, 115]
}

pub open spec fn key_thrd() -> Seq<u8> {
    seq![116u8, 104, 114, 100]
}

pub open spec fn key_user() -> Seq<u8> {
    seq![117u8, 115, 101, 114]
}

pub open spec fn key_trxid() -> Seq<u8> {
    seq![116u8, 114, 120, 105, 100]
}

pub open spec fn key_stmt() -> Seq<u8> {
    seq![115u8, 116, 109, 116]
}

pub open spec fn key_ip() -> Seq<u8> {
    seq![105u8, 112]
}

pub open spec fn key_appname() -> Seq<u8> {
    seq![97u8, 112, 112, 110, 97, 109, 101]
}

/// `ip:`
pub open spec fn ip_colon() -> Seq<u8> {
    seq![105u8, 112, 58]
}

/// `m` with the field named `key` set to `val`; unknown keys change nothing.
pub open spec fn meta_set(m: MetaSpec, key: Seq<u8>, val: Seq<char>) -> MetaSpec {
    if key == key_sess() {
        MetaSpec { sess_id: val, ..m }
    } else if key == key_thrd() {
        MetaSpec { thrd_id: val, ..m }
    } else if key == key_user() {
        MetaSpec { username: val, ..m }
    } else if key == key_trxid() {
        MetaSpec { trxid: val, ..m }
    } else if key == key_stmt() {
        MetaSpec { statement: val, ..m }
    } else if key == key_ip() {
        MetaSpec { client_ip: val, ..m }
    } else if key == key_appname() {
        MetaSpec { appname: val, ..m }
    } else {
        m
    }
}

/// The meta fields read from the space-separated tokens of `b` from index
/// `i` on, starting from `m`: `EP[n]` sets the EP number (when `n` reads as a
/// `u8`), `key:value` sets the field named `key` (values decoded lossily),
/// and an empty `appname:` takes the next token as the application name
/// unless that token starts with `ip:`.
pub open spec fn meta_scan(b: Seq<u8>, i: int, m: MetaSpec) -> MetaSpec
    decreases b.len() - i,
{
    if i < 0 || i > b.len() {
        m
    } else {
        let s = skip_sp(b, i);
        proof {
            lemma_skip_sp(b, i);
        }
        if s >= b.len() {
            m
        } else {
            let e = tok_end(b, s);
            proof {
                lemma_tok_end(b, s);
            }
            let part = b.subrange(s, e);
            if is_ep_tok(part) {
                let m2 = match atoi_spec(part.subrange(3, part.len() - 1), 0, 255) {
                    Some(v) => MetaSpec { ep: v as u8, ..m },
                    None => m,
                };
                meta_scan(b, e, m2)
            } else {
                match first_byte(part, 58u8) {
                    None => meta_scan(b, e, m),
                    Some(sep) => {
                        let key = part.subrange(0, sep);
                        let vb = part.subrange(sep + 1, part.len() as int);
                        if key == key_appname() && vb.len() == 0 {
                            let p = skip_sp(b, e);
                            proof {
                                lemma_skip_sp(b, e);
                            }
                            if p < b.len() {
                                let q = tok_end(b, p);
                                proof {
                                    lemma_tok_end(b, p);
                                }
                                let next = b.subrange(p, q);
                                if !has_prefix(next, ip_colon()) {
                                    meta_scan(b, q, MetaSpec { appname: lossy_utf8(next), ..m })
                                } else {
                                    meta_scan(b, e, m)
                                }
                            } else {
                                meta_scan(b, e, m)
                            }
                        } else {
                            meta_scan(b, e, meta_set(m, key, lossy_utf8(vb)))
                        }
                    },
                }
            }
        }
    }
}

fn key_eq(k: &[u8], w: &[u8]) -> (r: bool)
    ensures
        r == (k@ == w@),
{
    let r = bytes_eq(k, w);
    proof {
        if r {
            assert(k@ =~= w@);
        }
    }
    r
}

/// Sets the field of `m` named `key` to `val`.
fn set_meta_field(m: &mut MetaParts, key: &[u8], val: String)
    ensures
        final(m)@ == meta_set(old(m)@, key@, val@),
{
    let sess: Vec<u8> = vec![115u8, 101, 115, 115];
    let thrd: Vec<u8> = vec![116u8, 104, 114, 100];
    let user: Vec<u8> = vec![117u8, 115, 101, 114];
    let trxid: Vec<u8> = vec![116u8, 114, 120, 105, 100];
    let stmt: Vec<u8> = vec![115u8, 116, 109, 116];
    let ip: Vec<u8> = vec![105u8, 112];
    let appname: Vec<u8> = vec![97u8, 112, 112, 110, 97, 109, 101];
    assert(sess@ =~= key_sess());
    assert(thrd@ =~= key_thrd());
    assert(user@ =~= key_user());
    assert(trxid@ =~= key_trxid());
    assert(stmt@ =~= key_stmt());
    assert(ip@ =~= key_ip());
    assert(appname@ =~= key_appname());
    if key_eq(key, sess.as_slice()) {
        m.sess_id = val;
    } else if key_eq(key, thrd.as_slice()) {
        m.thrd_id = val;
    } else if key_eq(key, user.as_slice()) {
        m.username = val;
    } else if key_eq(key, trxid.as_slice()) {
        m.trxid = val;
    } else if key_eq(key, stmt.as_slice()) {
        m.statement = val;
    } else if key_eq(key, ip.as_slice()) {
        m.client_ip = val;
    } else if key_eq(key, appname.as_slice()) {
        m.appname = val;
    }
}

/// The first index at or after `i` that is not a space.
fn skip_spaces_from(b: &[u8], i: usize) -> (r: usize)
    requires
        i <= b@.len(),
    ensures
        r == skip_sp(b@, i as int),
{
    let mut k = i;
    while k < b.len() && b[k] == 32
        invariant
            i <= k <= b@.len(),
            skip_sp(b@, i as int) == skip_sp(b@, k as int),
        decreases b@.len() - k,
    {
        k = k + 1;
    }
    k
}

/// The first index at or after `i` that holds a space.
fn token_end_from(b: &[u8], i: usize) -> (r: usize)
    requires
        i <= b@.len(),
    ensures
        r == tok_end(b@, i as int),
{
    let mut k = i;
    while k < b.len() && b[k] != 32
        invariant
            i <= k <= b@.len(),
            tok_end(b@, i as int) == tok_end(b@, k as int),
        decreases b@.len() - k,
    {
        k = k + 1;
    }
    k
}

/// Reads the meta fields from the bytes between the parentheses of a record
/// (`EP[0] sess:0x1 thrd:2 user:SYSDBA trxid:3 stmt:0x4 appname:app ip:10.0.0.1`).
///
/// Fields that do not appear stay empty (EP 0); tokens that are neither
/// `EP[n]` nor `key:value` are skipped.
pub fn parse_meta_from_bytes(meta_bytes: &[u8]) -> (r: MetaParts)
    ensures
        r@ == meta_scan(meta_bytes@, 0, empty_meta()),
{
    let b = meta_bytes;
    let len = b.len();
    let mut m = MetaParts::default();
    let mut idx: usize = 0;
    while idx < len
        invariant
            len == b@.len(),
            idx <= len,
            meta_scan(b@, 0, empty_meta()) == meta_scan(b@, idx as int, m@),
        decreases len - idx,
    {
        let ghost i0 = idx as int;
        let start = skip_spaces_from(b, idx);
        proof {
            lemma_skip_sp(b@, i0);
        }
        if start >= len {
            assert(meta_scan(b@, i0, m@) == m@);
            assert(meta_scan(b@, len as int, m@) == m@);
            idx = len;
            continue;
        }
        let end = token_end_from(b, start);
        proof {
            lemma_tok_end(b@, start as int);
        }
        let part = &b[start..end];
        assert(part@ == b@.subrange(start as int, end as int));
        let plen = part.len();
        if plen > 4 && part[0] == 69 && part[1] == 80 && part[2] == 91 && part[plen - 1] == 93 {
            match atoi_u8(&part[3..plen - 1]) {
                Some(v) => {
                    m.ep = v;
                },
                None => {},
            }
            idx = end;
        } else {
            match find_byte(58, part) {
                None => {
                    idx = end;
                },
                Some(sep) => {
                    let key = &part[0..sep];
                    let vb = &part[sep + 1..plen];
                    let appname: Vec<u8> = vec![97u8, 112, 112, 110, 97, 109, 101];
                    assert(appname@ =~= key_appname());
                    if vb.len() == 0 && key_eq(key, appname.as_slice()) {
                        let p = skip_spaces_from(b, end);
                        proof {
                            lemma_skip_sp(b@, end as int);
                        }
                        if p < len {
                            let q = token_end_from(b, p);
                            proof {
                                lemma_tok_end(b@, p as int);
                            }
                            let next = &b[p..q];
                            let ipc: Vec<u8> = vec![105u8, 112, 58];
                            assert(ipc@ =~= ip_colon());
                            if !starts_with(next, ipc.as_slice()) {
                                m.appname = lossy_string(next);
                                idx = q;
                            } else {
                                idx = end;
                            }
                        } else {
                            idx = end;
                        }
                    } else {
                        let val = lossy_string(vb);
                        set_meta_field(&mut m, key, val);
                        idx = end;
                    }
                },
            }
        }
    }
    assert(meta_scan(b@, len as int, m@) == m@);
    m
}


// ── Indicators ──────────────────────────────────────────────────────────────

/// `EXECTIME:`
pub open spec fn kw_exectime() -> Seq<u8> {
    seq![69u8, 88, 69, 67, 84, 73, 77, 69, 58]
}

/// `ROWCOUNT:`
pub open spec fn kw_rowcount() -> Seq<u8> {
    seq![82u8, 79, 87, 67, 79, 85, 78, 84, 58]
}

/// `EXEC_ID:`
pub open spec fn kw_exec_id() -> Seq<u8> {
    seq![69u8, 88, 69, 67, 95, 73, 68, 58]
}

/// The text after the first `kw` in `ind` up to the next `(`, trimmed of
/// ASCII whitespace; `None` when `kw` or the `(` is missing.
pub open spec fn paren_value(ind: Seq<u8>, kw: Seq<u8>) -> Option<Seq<u8>> {
    match first_occurrence(ind, kw) {
        None => None,
        Some(p) => {
            let rest = ind.subrange(p + kw.len(), ind.len() as int);
            match first_byte(rest, 40u8) {
                None => None,
                Some(k) => Some(trim_ascii_spec(rest.subrange(0, k))),
            }
        },
    }
}

/// The text after the first `kw` in `ind` up to the next `.` (or the end),
/// trimmed of ASCII whitespace; `None` when `kw` is missing.
pub open spec fn dot_value(ind: Seq<u8>, kw: Seq<u8>) -> Option<Seq<u8>> {
    match first_occurrence(ind, kw) {
        None => None,
        Some(p) => {
            let rest = ind.subrange(p + kw.len(), ind.len() as int);
            let end = match first_byte(rest, 46u8) {
                Some(k) => k,
                None => rest.len() as int,
            };
            Some(trim_ascii_spec(rest.subrange(0, end)))
        },
    }
}

/// The execution time literal of `ind`: the `EXECTIME:` value when it is a
/// float literal, else empty.
pub open spec fn spec_exectime(ind: Seq<u8>) -> Seq<u8> {
    match paren_value(ind, kw_exectime()) {
        Some(v) => if float_literal(v) { v } else { Seq::empty() },
        None => Seq::empty(),
    }
}

/// The `ROWCOUNT:` value of `ind` when it reads as a `u32`, else 0.
pub open spec fn spec_rowcount(ind: Seq<u8>) -> u32 {
    match paren_value(ind, kw_rowcount()) {
        Some(v) => match std_unsigned(v, u32::MAX as int) {
            Some(n) => n as u32,
            None => 0,
        },
        None => 0,
    }
}

/// The `EXEC_ID:` value of `ind` when it reads as an `i64`, else 0.
pub open spec fn spec_exec_id(ind: Seq<u8>) -> i64 {
    match dot_value(ind, kw_exec_id()) {
        Some(v) => match std_signed(v, i64::MIN as int, i64::MAX as int) {
            Some(n) => n as i64,
            None => 0,
        },
        None => 0,
    }
}

/// Bounds of the `paren_value` of `ind` for keyword `kw`.
pub(crate) fn paren_value_bounds(ind: &[u8], kw: &[u8]) -> (r: Option<(usize, usize)>)
    requires
        kw@.len() > 0,
    ensures
        match paren_value(ind@, kw@) {
            None => r is None,
            Some(v) => r matches Some((a, b)) && a <= b <= ind@.len() && ind@.subrange(a as int, b as int) == v,
        },
{
    match find_bytes(ind, kw) {
        None => None,
        Some(p) => {
            proof {
                let i = first_occurrence(ind@, kw@)->0;
                assert(occurs_at(ind@, kw@, i));
                assert(ind@.len() == ind.len());
                assert(p as int == i);
            }
            let ss = p + kw.len();
            let rest = &ind[ss..ind.len()];
            match find_byte(40, rest) {
                None => None,
                Some(k) => {
                    let (a, b) = trim_ascii_bounds(&rest[0..k]);
                    assert(rest@.subrange(0, k as int).subrange(a as int, b as int) =~= ind@.subrange(ss + a, ss + b));
                    Some((ss + a, ss + b))
                },
            }
        },
    }
}

/// Bounds of the `dot_value` of `ind` for keyword `kw`.
pub(crate) fn dot_value_bounds(ind: &[u8], kw: &[u8]) -> (r: Option<(usize, usize)>)
    requires
        kw@.len() > 0,
    ensures
        match dot_value(ind@, kw@) {
            None => r is None,
            Some(v) => r matches Some((a, b)) && a <= b <= ind@.len() && ind@.subrange(a as int, b as int) == v,
        },
{
    match find_bytes(ind, kw) {
        None => None,
        Some(p) => {
            proof {
                let i = first_occurrence(ind@, kw@)->0;
                assert(occurs_at(ind@, kw@, i));
                assert(ind@.len() == ind.len());
                assert(p as int == i);
            }
            let ss = p + kw.len();
            let rest = &ind[ss..ind.len()];
            let end = match find_byte(46, rest) {
                Some(k) => k,
                None => rest.len(),
            };
            let (a, b) = trim_ascii_bounds(&rest[0..end]);
            assert(rest@.subrange(0, end as int).subrange(a as int, b as int) =~= ind@.subrange(ss + a, ss + b));
            Some((ss + a, ss + b))
        },
    }
}

/// Bounds of the execution time literal of `ind`, when it is not empty.
fn exectime_bounds(ind: &[u8]) -> (r: Option<(usize, usize)>)
    ensures
        match r {
            None => spec_exectime(ind@).len() == 0,
            Some((a, b)) => a <= b <= ind@.len() && ind@.subrange(a as int, b as int) == spec_exectime(ind@)
                && float_literal(spec_exectime(ind@)),
        },
{
    let k_exectime: Vec<u8> = vec![69u8, 88, 69, 67, 84, 73, 77, 69, 58];
    assert(k_exectime@ =~= kw_exectime());
    match paren_value_bounds(ind, k_exectime.as_slice()) {
        Some((a, b)) => {
            let v = &ind[a..b];
            assert(v@ == ind@.subrange(a as int, b as int));
            if is_float_literal(v) {
                Some((a, b))
            } else {
                None
            }
        },
        None => None,
    }
}

/// Reads `EXECTIME: t(ms)`, `ROWCOUNT: n(rows)` and `EXEC_ID: id.` from the
/// indicators part of a record, each independently: a missing or unreadable
/// value gives an empty execution time literal, or 0.
pub fn parse_indicators_from_bytes(ind: &[u8]) -> (r: (String, u32, i64))
    ensures
        r.0@ == ascii_chars(spec_exectime(ind@)),
        r.1 == spec_rowcount(ind@),
        r.2 == spec_exec_id(ind@),
{
    let k_rowcount: Vec<u8> = vec![82u8, 79, 87, 67, 79, 85, 78, 84, 58];
    let k_exec_id: Vec<u8> = vec![69u8, 88, 69, 67, 95, 73, 68, 58];
    assert(k_rowcount@ =~= kw_rowcount());
    assert(k_exec_id@ =~= kw_exec_id());
    let exectime = match exectime_bounds(ind) {
        Some((a, b)) => {
            let v = &ind[a..b];
            assert(v@ == spec_exectime(ind@));
            proof {
                crate::number::lemma_float_literal_ascii(v@);
            }
            ascii_to_string(v)
        },
        None => String::new(),
    };
    let rowcount = match paren_value_bounds(ind, k_rowcount.as_slice()) {
        Some((a, b)) => match parse_u32_text(&ind[a..b]) {
            Some(n) => n,
            None => 0,
        },
        None => 0,
    };
    let exec_id = match dot_value_bounds(ind, k_exec_id.as_slice()) {
        Some((a, b)) => match parse_i64_text(&ind[a..b]) {
            Some(n) => n,
            None => 0,
        },
        None => 0,
    };
    proof {
        if spec_exectime(ind@).len() == 0 {
            assert(ascii_chars(spec_exectime(ind@)) =~= Seq::<char>::empty());
        }
    }
    (exectime, rowcount, exec_id)
}

// ── Splitting body and indicators ───────────────────────────────────────────

/// The last byte of `d` that is neither `\n` nor `\r`.
pub open spec fn last_meaningful(d: Seq<u8>) -> Option<u8>
    decreases d.len(),
{
    if d.len() == 0 {
        None
    } else if d.last() != 10u8 && d.last() != 13u8 {
        Some(d.last())
    } else {
        last_meaningful(d.drop_last())
    }
}

/// Start of the window of the last 256 bytes of a text of length `n`.
pub open spec fn window_start(n: int) -> int {
    if n > 256 {
        n - 256
    } else {
        0
    }
}

/// The smaller of two optional positions.
pub open spec fn min_opt(a: Option<int>, b: Option<int>) -> Option<int> {
    match a {
        Some(x) => match b {
            Some(y) => Some(if x <= y { x } else { y }),
            None => Some(x),
        },
        None => b,
    }
}

/// Where the indicators begin in `d`: the leftmost of the last `EXECTIME:`,
/// the last `ROWCOUNT:` and the last `EXEC_ID:` within the last 256 bytes.
pub open spec fn indicators_start(d: Seq<u8>) -> Option<int> {
    let ws = window_start(d.len() as int);
    let w = d.subrange(ws, d.len() as int);
    match min_opt(
        min_opt(last_occurrence(w, kw_exectime()), last_occurrence(w, kw_rowcount())),
        last_occurrence(w, kw_exec_id()),
    ) {
        Some(p) => Some(ws + p),
        None => None,
    }
}

/// The indicators `t` carry a value: a nonzero execution time, row count or
/// execution id.
pub open spec fn indicators_nonzero(t: Seq<u8>) -> bool {
    ||| spec_exec_id(t) != 0
    ||| spec_exectime(t).len() > 0 && !float_literal_is_zero(spec_exectime(t))
    ||| spec_rowcount(t) != 0
}

/// Length of the body of `d`, the content of a record after its meta part:
/// the indicators are split off only when `d` ends (before line breaks) with
/// `.` or `)`, an indicator keyword occurs in its last 256 bytes, and what
/// follows the split carries a value; otherwise the body is all of `d`.
pub open spec fn spec_split(d: Seq<u8>) -> int {
    let lm = last_meaningful(d);
    if lm != Some(46u8) && lm != Some(41u8) {
        d.len() as int
    } else {
        match indicators_start(d) {
            None => d.len() as int,
            Some(s) => if indicators_nonzero(d.subrange(s, d.len() as int)) {
                s
            } else {
                d.len() as int
            },
        }
    }
}

proof fn lemma_window_keyword(d: Seq<u8>)
    requires
        indicators_start(d) is Some,
    ensures
        ({
            let t = d.subrange(indicators_start(d)->0, d.len() as int);
            &&& window_start(d.len() as int) <= indicators_start(d)->0 <= d.len()
            &&& occurs_at(t, kw_exectime(), 0) || occurs_at(t, kw_rowcount(), 0) || occurs_at(t, kw_exec_id(), 0)
        }),
{
    let ws = window_start(d.len() as int);
    let w = d.subrange(ws, d.len() as int);
    let a = last_occurrence(w, kw_exectime());
    let b = last_occurrence(w, kw_rowcount());
    let c = last_occurrence(w, kw_exec_id());
    crate::scan::lemma_last_occurrence(w, kw_exectime());
    crate::scan::lemma_last_occurrence(w, kw_rowcount());
    crate::scan::lemma_last_occurrence(w, kw_exec_id());
    let p = min_opt(min_opt(a, b), c)->0;
    let t = d.subrange(ws + p, d.len() as int);
    if a == Some(p) {
        assert(t.subrange(0, kw_exectime().len() as int) =~= w.subrange(p, p + kw_exectime().len()));
    } else if b == Some(p) {
        assert(t.subrange(0, kw_rowcount().len() as int) =~= w.subrange(p, p + kw_rowcount().len()));
    } else {
        assert(t.subrange(0, kw_exec_id().len() as int) =~= w.subrange(p, p + kw_exec_id().len()));
    }
}

/// The content of a record is its SQL body followed by its indicators text;
/// an indicators text is split off only when it begins with an indicator
/// keyword and carries a value, so indicators that are all zero stay in the
/// SQL body.
pub proof fn lemma_split_parts(d: Seq<u8>)
    ensures
        0 <= spec_split(d) <= d.len(),
        d.subrange(0, spec_split(d)) + d.subrange(spec_split(d), d.len() as int) == d,
        spec_split(d) < d.len() ==> ({
            let t = d.subrange(spec_split(d), d.len() as int);
            &&& indicators_nonzero(t)
            &&& occurs_at(t, kw_exectime(), 0) || occurs_at(t, kw_rowcount(), 0) || occurs_at(t, kw_exec_id(), 0)
        }),
{
    if indicators_start(d) is Some {
        lemma_window_keyword(d);
    }
    let k = spec_split(d);
    assert(d =~= d.subrange(0, k) + d.subrange(k, d.len() as int));
}

pub(crate) fn last_meaningful_byte(d: &[u8]) -> (r: Option<u8>)
    ensures
        r == last_meaningful(d@),
{
    let mut i = d.len();
    assert(d@.subrange(0, i as int) =~= d@);
    while i > 0 && (d[i - 1] == 10 || d[i - 1] == 13)
        invariant
            i <= d@.len(),
            last_meaningful(d@) == last_meaningful(d@.subrange(0, i as int)),
        decreases i,
    {
        assert(d@.subrange(0, i as int).drop_last() =~= d@.subrange(0, i - 1));
        i = i - 1;
    }
    if i == 0 {
        None
    } else {
        assert(d@.subrange(0, i as int).last() == d@[i - 1]);
        Some(d[i - 1])
    }
}

pub(crate) fn last_in_window(w: &[u8], kw: &[u8]) -> (r: Option<usize>)
    requires
        kw@.len() > 0,
    ensures
        r == to_usize(last_occurrence(w@, kw@)),
        r matches Some(p) ==> p < w@.len(),
{
    let r = rfind_bytes(w, kw);
    proof {
        if last_occurrence(w@, kw@) is Some {
            let i = last_occurrence(w@, kw@)->0;
            assert(occurs_at(w@, kw@, i));
            assert(w@.len() == w.len());
        }
    }
    r
}

pub(crate) fn min_pos(a: Option<usize>, b: Option<usize>) -> (r: Option<usize>)
    ensures
        to_int_opt(r) == min_opt(to_int_opt(a), to_int_opt(b)),
{
    match a {
        Some(x) => match b {
            Some(y) => Some(if x <= y { x } else { y }),
            None => Some(x),
        },
        None => b,
    }
}

/// An optional `usize` as an optional integer.
pub open spec fn to_int_opt(o: Option<usize>) -> Option<int> {
    match o {
        Some(x) => Some(x as int),
        None => None,
    }
}

/// Whether the indicators `t` carry a value.
fn has_indicator_value(t: &[u8]) -> (r: bool)
    ensures
        r == indicators_nonzero(t@),
{
    let (_, rowcount, exec_id) = parse_indicators_from_bytes(t);
    if exec_id != 0 || rowcount != 0 {
        return true;
    }
    match exectime_bounds(t) {
        Some((a, b)) => !crate::rounding::is_zero_float_literal(&t[a..b]),
        None => false,
    }
}

/// Length of the body in the content `data` of a record (see [`spec_split`]);
/// the indicators are `data[r..]`.
pub fn find_indicators_split(data: &[u8]) -> (r: usize)
    ensures
        r == spec_split(data@),
        r <= data@.len(),
{
    let len = data.len();
    let lm = last_meaningful_byte(data);
    if lm != Some(46u8) && lm != Some(41u8) {
        return len;
    }
    let ws = if len > 256 { len - 256 } else { 0 };
    let w = &data[ws..len];
    let k_exectime: Vec<u8> = vec![69u8, 88, 69, 67, 84, 73, 77, 69, 58];
    let k_rowcount: Vec<u8> = vec![82u8, 79, 87, 67, 79, 85, 78, 84, 58];
    let k_exec_id: Vec<u8> = vec![69u8, 88, 69, 67, 95, 73, 68, 58];
    assert(k_exectime@ =~= kw_exectime());
    assert(k_rowcount@ =~= kw_rowcount());
    assert(k_exec_id@ =~= kw_exec_id());
    let a = last_in_window(w, k_exectime.as_slice());
    let b = last_in_window(w, k_rowcount.as_slice());
    let c = last_in_window(w, k_exec_id.as_slice());
    assert(to_int_opt(a) == last_occurrence(w@, kw_exectime()));
    assert(to_int_opt(b) == last_occurrence(w@, kw_rowcount()));
    assert(to_int_opt(c) == last_occurrence(w@, kw_exec_id()));
    let earliest = min_pos(min_pos(a, b), c);
    match earliest {
        None => len,
        Some(pos) => {
            let split = ws + pos;
            if has_indicator_value(&data[split..len]) {
                split
            } else {
                len
            }
        },
    }
}

// ── Transaction lock events ─────────────────────────────────────────────────

pub open spec fn lit_trx() -> Seq<u8> {
    seq![116u8, 114, 120, 91]
}

pub open spec fn lit_wait_for() -> Seq<u8> {
    seq![119u8, 97, 105, 116, 32, 102, 111, 114, 32]
}

pub open spec fn lit_lock_tid() -> Seq<u8> {
    seq![76u8, 79, 67, 75, 95, 84, 73, 68]
}

pub open spec fn lit_mode() -> Seq<u8> {
    seq![109u8, 111, 100, 101, 58]
}

pub open spec fn lit_table_id() -> Seq<u8> {
    seq![116u8, 97, 98, 108, 101, 32, 105, 100, 58]
}

pub open spec fn lit_tid() -> Seq<u8> {
    seq![116u8, 105, 100, 91]
}

pub open spec fn lit_used_time() -> Seq<u8> {
    seq![117u8, 115, 101, 100, 32, 116, 105, 109, 101, 58]
}

pub open spec fn lit_trxs() -> Seq<u8> {
    seq![32u8, 116, 114, 120, 115, 44, 32, 116, 114, 120, 91]
}

pub open spec fn lit_wait_used_time() -> Seq<u8> {
    seq![119u8, 97, 105, 116, 32, 117, 115, 101, 100, 32, 116, 105, 109, 101, 58]
}

pub open spec fn lit_ms() -> Seq<u8> {
    seq![40u8, 109, 115, 41]
}

pub open spec fn lit_us() -> Seq<u8> {
    seq![40u8, 117, 115, 41]
}

pub open spec fn lit_more() -> Seq<u8> {
    seq![46u8, 46, 46, 109, 111, 114, 101]
}

/// `s` without the prefix `p`, when `s` starts with `p`.
pub open spec fn strip(s: Seq<u8>, p: Seq<u8>) -> Option<Seq<u8>> {
    if has_prefix(s, p) {
        Some(s.subrange(p.len() as int, s.len() as int))
    } else {
        None
    }
}

/// `s` without its leading spaces.
pub open spec fn skip_spaces(s: Seq<u8>) -> Seq<u8> {
    s.subrange(skip_sp(s, 0), s.len() as int)
}

/// `s` split before its first `,` or `)`; all of `s` and nothing when it has neither.
pub open spec fn split_cp(s: Seq<u8>) -> (Seq<u8>, Seq<u8>) {
    match first_byte2(s, 44u8, 41u8) {
        Some(i) => (s.subrange(0, i), s.subrange(i, s.len() as int)),
        None => (s, Seq::empty()),
    }
}

/// End of the comma-separated item of `b` that starts at `start`.
pub open spec fn item_end(b: Seq<u8>, start: int) -> int {
    match first_byte(b.subrange(start, b.len() as int), 44u8) {
        Some(k) => start + k,
        None => b.len() as int,
    }
}

/// `Some(m || f)` for `Some(f)`, `None` for `None`.
pub open spec fn or_flag(m: bool, f: Option<bool>) -> Option<bool> {
    match f {
        Some(x) => Some(m || x),
        None => None,
    }
}

/// The numbers of the comma-separated list `b[start..]` and whether it holds
/// `...more`; items are trimmed, empty items are skipped. At the first item
/// that is no number the flag is `None`, and the numbers read before it stay.
pub open spec fn id_list(b: Seq<u8>, start: int) -> (Seq<u64>, Option<bool>)
    decreases b.len() - start,
{
    if start < 0 || start > b.len() {
        (Seq::empty(), Some(false))
    } else {
        let end = item_end(b, start);
        proof {
            lemma_first_byte_bound(b.subrange(start, b.len() as int), 44u8);
        }
        let part = trim_ascii_spec(b.subrange(start, end));
        let more = part == lit_more();
        let head: Option<Seq<u64>> = if more || part.len() == 0 {
            Some(Seq::empty())
        } else {
            match atoi_spec(part, 0, u64::MAX as int) {
                Some(v) => Some(seq![v as u64]),
                None => None,
            }
        };
        match head {
            None => (Seq::empty(), None),
            Some(h) => if end >= b.len() {
                (h, Some(more))
            } else {
                let rest = id_list(b, end + 1);
                (h + rest.0, or_flag(more, rest.1))
            },
        }
    }
}

pub proof fn lemma_first_byte_bound(s: Seq<u8>, b: u8)
    ensures
        first_byte(s, b) matches Some(k) ==> 0 <= k < s.len() && s[k] == b,
{
}

/// The wait time of `r` in microseconds: digits followed by `(ms)` (times
/// 1000) or `(us)`.
pub open spec fn lock_time(r: Seq<u8>) -> Option<int> {
    let d = leading_digits(r) as int;
    if d == 0 {
        None
    } else {
        match atoi_spec(r.subrange(0, d), 0, u64::MAX as int) {
            None => None,
            Some(v) => {
                let unit = r.subrange(d, r.len() as int);
                if has_prefix(unit, lit_ms()) {
                    Some(v * 1000)
                } else if has_prefix(unit, lit_us()) {
                    Some(v)
                } else {
                    None
                }
            },
        }
    }
}

/// What follows the parenthesis: `used time:` (legacy), `wait for K trxs,
/// trx[...] used time:` (more blockers), or `wait used time:`; then the time.
pub open spec fn lock_after(e: LockSpec, legacy: bool, r: Seq<u8>) -> Option<LockSpec> {
    if legacy {
        match strip(r, lit_used_time()) {
            None => None,
            Some(t) => match lock_time(t) {
                None => None,
                Some(w) => Some(LockSpec { wait_time_us: w, ..e }),
            },
        }
    } else {
        match strip(r, lit_wait_for()) {
            Some(r1) => {
                let r2 = r1.subrange(leading_digits(r1) as int, r1.len() as int);
                match strip(r2, lit_trxs()) {
                    None => None,
                    Some(r3) => match first_byte(r3, 93u8) {
                        None => None,
                        Some(c) => {
                            let (ids, f) = id_list(r3.subrange(0, c), 0);
                            let e2 = LockSpec {
                                blocking_trx_ids: e.blocking_trx_ids + ids,
                                has_more_blocking: match f {
                                    Some(m) => m,
                                    None => e.has_more_blocking,
                                },
                                ..e
                            };
                            match strip(skip_spaces(r3.subrange(c + 1, r3.len() as int)), lit_used_time()) {
                                None => None,
                                Some(t) => match lock_time(t) {
                                    None => None,
                                    Some(w) => Some(LockSpec { wait_time_us: w, ..e2 }),
                                },
                            }
                        },
                    },
                }
            },
            None => match strip(r, lit_wait_used_time()) {
                None => None,
                Some(t) => match lock_time(t) {
                    None => None,
                    Some(w) => Some(LockSpec { wait_time_us: w, ..e }),
                },
            },
        }
    }
}

/// The optional `, tid[...]` inside the parenthesis, then the `)`.
pub open spec fn lock_tid(e: LockSpec, legacy: bool, r: Seq<u8>) -> Option<LockSpec> {
    match strip(r, seq![44u8]) {
        None => match strip(r, seq![41u8]) {
            None => None,
            Some(t) => lock_after(e, legacy, skip_spaces(t)),
        },
        Some(r1) => match strip(skip_spaces(r1), lit_tid()) {
            None => None,
            Some(r2) => match first_byte(r2, 93u8) {
                None => None,
                Some(c) => {
                    let (ids, f) = id_list(r2.subrange(0, c), 0);
                    let e2 = LockSpec {
                        blocking_trx_ids: e.blocking_trx_ids + ids,
                        has_more_blocking: match f {
                            Some(m) => m,
                            None => e.has_more_blocking,
                        },
                        ..e
                    };
                    match strip(skip_spaces(r2.subrange(c + 1, r2.len() as int)), seq![41u8]) {
                        None => None,
                        Some(t) => lock_after(e2, legacy, skip_spaces(t)),
                    }
                },
            },
        },
    }
}

/// The parenthesis `(mode:M, table id:T[, tid[...]])` and what follows it.
pub open spec fn lock_paren(e: LockSpec, legacy: bool, r: Seq<u8>) -> Option<LockSpec> {
    match strip(r, seq![40u8]) {
        None => None,
        Some(r1) => match strip(r1, lit_mode()) {
            None => None,
            Some(r2) => {
                let (mode, r3) = split_cp(r2);
                match strip(skip_spaces(r3), seq![44u8]) {
                    None => None,
                    Some(r4) => match strip(skip_spaces(r4), lit_table_id()) {
                        None => None,
                        Some(r5) => {
                            let (t, r6) = split_cp(r5);
                            match atoi_spec(trim_ascii_spec(t), 0, u64::MAX as int) {
                                None => None,
                                Some(table) => lock_tid(
                                    LockSpec {
                                        lock_mode: lossy_utf8(trim_ascii_spec(mode)),
                                        table_id: table as u64,
                                        ..e
                                    },
                                    legacy,
                                    skip_spaces(r6),
                                ),
                            }
                        },
                    },
                }
            },
        },
    }
}

/// The lock event of a record body starting with `trx[N]`, if it is one.
pub open spec fn spec_lock_event(body: Seq<u8>) -> Option<LockSpec> {
    match strip(body, lit_trx()) {
        None => None,
        Some(r0) => match first_byte(r0, 93u8) {
            None => None,
            Some(c) => match atoi_spec(r0.subrange(0, c), 0, u64::MAX as int) {
                None => None,
                Some(w) => {
                    let r1 = skip_spaces(r0.subrange(c + 1, r0.len() as int));
                    let legacy = has_prefix(r1, lit_wait_for());
                    let r2 = if legacy { r1.subrange(9, r1.len() as int) } else { r1 };
                    match strip(r2, lit_lock_tid()) {
                        None => None,
                        Some(r3) => lock_paren(
                            LockSpec {
                                waiting_trx_id: w as u64,
                                blocking_trx_ids: Seq::empty(),
                                lock_mode: Seq::empty(),
                                table_id: 0,
                                wait_time_us: 0,
                                has_more_blocking: false,
                            },
                            legacy,
                            skip_spaces(r3),
                        ),
                    }
                },
            },
        },
    }
}

proof fn lemma_leading_digits_concat(k: Seq<u8>, tail: Seq<u8>)
    requires
        all_digits_seq(k),
        tail.len() == 0 || !is_digit(tail[0]),
    ensures
        leading_digits(k + tail) == k.len(),
    decreases k.len(),
{
    if k.len() == 0 {
        assert(k + tail =~= tail);
    } else {
        assert((k + tail).drop_first() =~= k.drop_first() + tail);
        assert((k + tail)[0] == k[0]);
        lemma_leading_digits_concat(k.drop_first(), tail);
    }
}

/// All bytes of `k` are decimal digits.
pub open spec fn all_digits_seq(k: Seq<u8>) -> bool {
    forall|i: int| 0 <= i < k.len() ==> is_digit(#[trigger] k[i])
}

/// A wait time given in milliseconds is a thousand times the same number
/// given in microseconds.
pub proof fn lemma_ms_is_thousand_us(k: Seq<u8>, rest: Seq<u8>)
    requires
        all_digits_seq(k),
    ensures
        lock_time(k + lit_ms() + rest) == match lock_time(k + lit_us() + rest) {
            Some(u) => Some(u * 1000),
            None => None::<int>,
        },
{
    let a = k + lit_ms() + rest;
    let b = k + lit_us() + rest;
    assert(a =~= k + (lit_ms() + rest));
    assert(b =~= k + (lit_us() + rest));
    assert((lit_ms() + rest)[0] == 40u8);
    assert((lit_us() + rest)[0] == 40u8);
    lemma_leading_digits_concat(k, lit_ms() + rest);
    lemma_leading_digits_concat(k, lit_us() + rest);
    assert(a.subrange(0, k.len() as int) =~= k);
    assert(b.subrange(0, k.len() as int) =~= k);
    let ua = a.subrange(k.len() as int, a.len() as int);
    let ub = b.subrange(k.len() as int, b.len() as int);
    assert(ua =~= lit_ms() + rest);
    assert(ub =~= lit_us() + rest);
    assert(ua.subrange(0, 4) =~= lit_ms());
    assert(ub.subrange(0, 4) =~= lit_us());
    assert(has_prefix(ua, lit_ms()));
    assert(has_prefix(ub, lit_us()));
    assert(!has_prefix(ub, lit_ms())) by {
        assert(ub.subrange(0, 4)[1] == 117u8);
    }
}

/// The blocker count `K` of `wait for K trxs, trx[...]` is read past and
/// otherwise ignored: the event is the same for every run of decimal digits
/// `K`, whatever its length, and the same as with no count at all.
pub proof fn lemma_blocker_count_ignored(e: LockSpec, k: Seq<u8>, tail: Seq<u8>)
    requires
        all_digits_seq(k),
        tail.len() == 0 || !is_digit(tail[0]),
    ensures
        lock_after(e, false, lit_wait_for() + k + tail) == lock_after(e, false, lit_wait_for() + tail),
{
    let w = lit_wait_for();
    let r = w + k + tail;
    let r0 = w + tail;
    assert(r.subrange(0, w.len() as int) =~= w);
    assert(r0.subrange(0, w.len() as int) =~= w);
    assert(has_prefix(r, w));
    assert(has_prefix(r0, w));
    assert(r.subrange(w.len() as int, r.len() as int) =~= k + tail);
    assert(r0.subrange(w.len() as int, r0.len() as int) =~= tail);
    lemma_leading_digits_concat(k, tail);
    lemma_leading_digits_concat(Seq::<u8>::empty(), tail);
    assert(Seq::<u8>::empty() + tail =~= tail);
    assert((k + tail).subrange(k.len() as int, (k + tail).len() as int) =~= tail);
    assert(tail.subrange(0, tail.len() as int) =~= tail);
}

/// The wait time of a lock event fits in a `u64`.
pub open spec fn lock_time_fits(o: Option<LockSpec>) -> bool {
    o matches Some(e) ==> e.wait_time_us <= u64::MAX
}

/// A lock event whose wait time fits in a `u64`; `None` for one whose time
/// does not.
pub open spec fn within_u64(o: Option<LockSpec>) -> Option<LockSpec> {
    if lock_time_fits(o) { o } else { None }
}

fn strip_bytes<'a>(s: &'a [u8], p: &[u8]) -> (r: Option<&'a [u8]>)
    ensures
        match strip(s@, p@) {
            Some(t) => r matches Some(x) && x@ == t,
            None => r is None,
        },
{
    if starts_with(s, p) {
        Some(&s[p.len()..s.len()])
    } else {
        None
    }
}

/// `s` without its leading ASCII spaces.
fn skip_ascii_spaces(s: &[u8]) -> (r: &[u8])
    ensures
        r@ == skip_spaces(s@),
{
    let k = skip_spaces_from(s, 0);
    proof {
        lemma_skip_sp(s@, 0);
    }
    &s[k..s.len()]
}

/// `s` split before its first `,` or `)`.
fn split_at_comma_or_paren(s: &[u8]) -> (r: (&[u8], &[u8]))
    ensures
        (r.0@, r.1@) == split_cp(s@),
{
    match find_byte2(44, 41, s) {
        Some(i) => (&s[0..i], &s[i..s.len()]),
        None => (s, &s[s.len()..s.len()]),
    }
}

/// Reads the comma-separated numbers of `bytes` into `out`; returns whether
/// the list holds `...more`, or `None` at the first item that is no number
/// (the numbers read before it stay in `out`).
#[verifier::spinoff_prover]
fn parse_id_list(bytes: &[u8], out: &mut Vec<u64>) -> (r: Option<bool>)
    ensures
        final(out)@ == old(out)@ + id_list(bytes@, 0).0,
        r == id_list(bytes@, 0).1,
{
    let more_v: Vec<u8> = vec![46u8, 46, 46, 109, 111, 114, 101];
    assert(more_v@ =~= lit_more());
    let mut has_more = false;
    let mut start: usize = 0;
    let ghost out0 = out@;
    assert(out@.subrange(out0.len() as int, out@.len() as int) =~= Seq::<u64>::empty());
    assert(or_flag(false, id_list(bytes@, 0).1) == id_list(bytes@, 0).1);
    loop
        invariant
            start <= bytes@.len(),
            more_v@ == lit_more(),
            out0 == old(out)@,
            out0.len() <= out@.len(),
            out@.subrange(0, out0.len() as int) == out0,
            id_list(bytes@, 0).0 == out@.subrange(out0.len() as int, out@.len() as int) + id_list(bytes@, start as int).0,
            id_list(bytes@, 0).1 == or_flag(has_more, id_list(bytes@, start as int).1),
        decreases bytes@.len() - start,
    {
        let rest = &bytes[start..bytes.len()];
        let end = match find_byte(44, rest) {
            Some(k) => start + k,
            None => bytes.len(),
        };
        assert(end == item_end(bytes@, start as int));
        let seg = &bytes[start..end];
        let (a, b) = trim_ascii_bounds(seg);
        let part = &seg[a..b];
        assert(part@ == trim_ascii_spec(bytes@.subrange(start as int, end as int)));
        let ghost old_out = out@;
        let ghost whole = id_list(bytes@, start as int);
        let is_more = bytes_eq(part, more_v.as_slice());
        let mut item: Option<u64> = None;
        if !is_more && part.len() > 0 {
            match atoi_u64(part) {
                Some(v) => {
                    item = Some(v);
                },
                None => {
                    assert(part@ != lit_more());
                    assert(atoi_spec(part@, 0, u64::MAX as int) is None);
                    assert(0 <= start <= bytes@.len());
                    assert(trim_ascii_spec(bytes@.subrange(start as int, item_end(bytes@, start as int))) == part@);
                    assert(whole.0 =~= Seq::<u64>::empty());
                    assert(whole.1 is None);
                    assert(out@.subrange(out0.len() as int, out@.len() as int) + whole.0 =~= out@.subrange(out0.len() as int, out@.len() as int));
                    assert(out@ =~= out0 + out@.subrange(out0.len() as int, out@.len() as int));
                    return None;
                },
            }
        }
        let ghost h: Seq<u64> = match item {
            Some(v) => seq![v],
            None => Seq::empty(),
        };
        match item {
            Some(v) => {
                out.push(v);
            },
            None => {},
        }
        if is_more {
            has_more = true;
        }
        assert(out@ =~= old_out + h);
        if end >= bytes.len() {
            assert(whole == (h, Some(is_more)));
            assert(out@ =~= out0 + out@.subrange(out0.len() as int, out@.len() as int));
            assert(out@.subrange(out0.len() as int, out@.len() as int) =~= old_out.subrange(out0.len() as int, old_out.len() as int) + h);
            return Some(has_more);
        }
        assert(whole.0 == h + id_list(bytes@, end + 1).0);
        assert(whole.1 == or_flag(is_more, id_list(bytes@, end + 1).1));
        assert(out@.subrange(0, out0.len() as int) =~= out0);
        assert(out@.subrange(out0.len() as int, out@.len() as int) =~= old_out.subrange(out0.len() as int, old_out.len() as int) + h);
        start = end + 1;
    }
}

/// Number of leading decimal digits of `r`.
fn count_digits(r: &[u8]) -> (d: usize)
    ensures
        d == leading_digits(r@),
        d <= r@.len(),
{
    let mut i: usize = 0;
    assert(r@.subrange(0, r@.len() as int) =~= r@);
    while i < r.len() && r[i] >= 48 && r[i] <= 57
        invariant
            i <= r@.len(),
            leading_digits(r@) == i + leading_digits(r@.subrange(i as int, r@.len() as int)),
        decreases r@.len() - i,
    {
        assert(r@.subrange(i as int, r@.len() as int).drop_first() =~= r@.subrange(i + 1, r@.len() as int));
        i = i + 1;
    }
    i
}

fn lock_time_exec(r: &[u8]) -> (res: Option<u64>)
    ensures
        match lock_time(r@) {
            Some(w) => if w <= u64::MAX { res == Some(w as u64) } else { res is None },
            None => res is None,
        },
{
    let d = count_digits(r);
    if d == 0 {
        return None;
    }
    let v = match atoi_u64(&r[0..d]) {
        None => return None,
        Some(v) => v,
    };
    let unit = &r[d..r.len()];
    let ms: Vec<u8> = vec![40u8, 109, 115, 41];
    let us: Vec<u8> = vec![40u8, 117, 115, 41];
    assert(ms@ =~= lit_ms());
    assert(us@ =~= lit_us());
    if starts_with(unit, ms.as_slice()) {
        v.checked_mul(1000)
    } else if starts_with(unit, us.as_slice()) {
        Some(v)
    } else {
        None
    }
}

/// Appends the list `ids` of blockers to `e`.
fn add_blockers(e: &mut LockEvent, ids: &[u8])
    ensures
        final(e)@ == (LockSpec {
            blocking_trx_ids: old(e)@.blocking_trx_ids + id_list(ids@, 0).0,
            has_more_blocking: match id_list(ids@, 0).1 {
                Some(m) => m,
                None => old(e)@.has_more_blocking,
            },
            ..old(e)@
        }),
{
    match parse_id_list(ids, &mut e.blocking_trx_ids) {
        Some(m) => {
            e.has_more_blocking = m;
        },
        None => {},
    }
}

fn lock_after_exec(e: LockEvent, legacy: bool, r: &[u8]) -> (res: Option<LockEvent>)
    ensures
        match within_u64(lock_after(e@, legacy, r@)) {
            Some(x) => res matches Some(y) && y@ == x,
            None => res is None,
        },
{
    let mut e = e;
    let used: Vec<u8> = vec![117u8, 115, 101, 100, 32, 116, 105, 109, 101, 58];
    assert(used@ =~= lit_used_time());
    let t = if legacy {
        match strip_bytes(r, used.as_slice()) {
            None => return None,
            Some(t) => t,
        }
    } else {
        let wait_for: Vec<u8> = vec![119u8, 97, 105, 116, 32, 102, 111, 114, 32];
        assert(wait_for@ =~= lit_wait_for());
        match strip_bytes(r, wait_for.as_slice()) {
            Some(r1) => {
                let d = count_digits(r1);
                let r2 = &r1[d..r1.len()];
                let trxs: Vec<u8> = vec![32u8, 116, 114, 120, 115, 44, 32, 116, 114, 120, 91];
                assert(trxs@ =~= lit_trxs());
                let r3 = match strip_bytes(r2, trxs.as_slice()) {
                    None => return None,
                    Some(r3) => r3,
                };
                let c = match find_byte(93, r3) {
                    None => return None,
                    Some(c) => c,
                };
                assert(r3@.len() == r3.len());
                add_blockers(&mut e, &r3[0..c]);
                let r4 = skip_ascii_spaces(&r3[c + 1..r3.len()]);
                match strip_bytes(r4, used.as_slice()) {
                    None => return None,
                    Some(t) => t,
                }
            },
            None => {
                let wut: Vec<u8> = vec![119u8, 97, 105, 116, 32, 117, 115, 101, 100, 32, 116, 105, 109, 101, 58];
                assert(wut@ =~= lit_wait_used_time());
                match strip_bytes(r, wut.as_slice()) {
                    None => return None,
                    Some(t) => t,
                }
            },
        }
    };
    match lock_time_exec(t) {
        None => None,
        Some(w) => {
            e.wait_time_us = w;
            Some(e)
        },
    }
}

fn lock_tid_exec(e: LockEvent, legacy: bool, r: &[u8]) -> (res: Option<LockEvent>)
    ensures
        match within_u64(lock_tid(e@, legacy, r@)) {
            Some(x) => res matches Some(y) && y@ == x,
            None => res is None,
        },
{
    let mut e = e;
    let comma: Vec<u8> = vec![44u8];
    let close: Vec<u8> = vec![41u8];
    assert(comma@ =~= seq![44u8]);
    assert(close@ =~= seq![41u8]);
    let t = match strip_bytes(r, comma.as_slice()) {
        None => match strip_bytes(r, close.as_slice()) {
            None => return None,
            Some(t) => t,
        },
        Some(r1) => {
            let tid: Vec<u8> = vec![116u8, 105, 100, 91];
            assert(tid@ =~= lit_tid());
            let r2 = match strip_bytes(skip_ascii_spaces(r1), tid.as_slice()) {
                None => return None,
                Some(r2) => r2,
            };
            let c = match find_byte(93, r2) {
                None => return None,
                Some(c) => c,
            };
            assert(r2@.len() == r2.len());
            add_blockers(&mut e, &r2[0..c]);
            match strip_bytes(skip_ascii_spaces(&r2[c + 1..r2.len()]), close.as_slice()) {
                None => return None,
                Some(t) => t,
            }
        },
    };
    lock_after_exec(e, legacy, skip_ascii_spaces(t))
}

fn lock_paren_exec(e: LockEvent, legacy: bool, r: &[u8]) -> (res: Option<LockEvent>)
    ensures
        match within_u64(lock_paren(e@, legacy, r@)) {
            Some(x) => res matches Some(y) && y@ == x,
            None => res is None,
        },
{
    let mut e = e;
    let open: Vec<u8> = vec![40u8];
    let comma: Vec<u8> = vec![44u8];
    let mode_kw: Vec<u8> = vec![109u8, 111, 100, 101, 58];
    let table_kw: Vec<u8> = vec![116u8, 97, 98, 108, 101, 32, 105, 100, 58];
    assert(open@ =~= seq![40u8]);
    assert(comma@ =~= seq![44u8]);
    assert(mode_kw@ =~= lit_mode());
    assert(table_kw@ =~= lit_table_id());
    let r1 = match strip_bytes(r, open.as_slice()) {
        None => return None,
        Some(x) => x,
    };
    let r2 = match strip_bytes(r1, mode_kw.as_slice()) {
        None => return None,
        Some(x) => x,
    };
    let (mode, r3) = split_at_comma_or_paren(r2);
    let r4 = match strip_bytes(skip_ascii_spaces(r3), comma.as_slice()) {
        None => return None,
        Some(x) => x,
    };
    let r5 = match strip_bytes(skip_ascii_spaces(r4), table_kw.as_slice()) {
        None => return None,
        Some(x) => x,
    };
    let (t, r6) = split_at_comma_or_paren(r5);
    let (ta, tb) = trim_ascii_bounds(t);
    let table = match atoi_u64(&t[ta..tb]) {
        None => return None,
        Some(v) => v,
    };
    let (ma, mb) = trim_ascii_bounds(mode);
    e.lock_mode = lossy_string(&mode[ma..mb]);
    e.table_id = table;
    lock_tid_exec(e, legacy, skip_ascii_spaces(r6))
}

/// Reads a transaction lock event from the body of a record (starting with
/// `trx[N]`, without timestamp and meta part), in any of the three forms of
/// [`LockEvent`]; `None` when the body is not one.
///
/// Each blocker list is read up to its first item that is no number, and
/// the time value must be all digits followed by `(ms)` or `(us)`.
pub fn parse_lock_event_from_bytes(body: &[u8]) -> (r: Option<LockEvent>)
    requires
        lock_time_fits(spec_lock_event(body@)),
    ensures
        match spec_lock_event(body@) {
            Some(x) => r matches Some(y) && y@ == x,
            None => r is None,
        },
{
    lock_event_within_u64(body)
}

/// Reads a lock event as [`parse_lock_event_from_bytes`] does, for any body:
/// `None` also when the wait time, in microseconds, does not fit in a `u64`.
pub fn parse_lock_event(body: &[u8]) -> (r: Option<LockEvent>)
    ensures
        match within_u64(spec_lock_event(body@)) {
            Some(x) => r matches Some(y) && y@ == x,
            None => r is None,
        },
{
    lock_event_within_u64(body)
}

fn lock_event_within_u64(body: &[u8]) -> (r: Option<LockEvent>)
    ensures
        match within_u64(spec_lock_event(body@)) {
            Some(x) => r matches Some(y) && y@ == x,
            None => r is None,
        },
{
    let trx: Vec<u8> = vec![116u8, 114, 120, 91];
    let wait_for: Vec<u8> = vec![119u8, 97, 105, 116, 32, 102, 111, 114, 32];
    let lock_tid: Vec<u8> = vec![76u8, 79, 67, 75, 95, 84, 73, 68];
    assert(trx@ =~= lit_trx());
    assert(wait_for@ =~= lit_wait_for());
    assert(lock_tid@ =~= lit_lock_tid());
    let r0 = match strip_bytes(body, trx.as_slice()) {
        None => return None,
        Some(x) => x,
    };
    let c = match find_byte(93, r0) {
        None => return None,
        Some(c) => c,
    };
    assert(r0@.len() == r0.len());
    let w = match atoi_u64(&r0[0..c]) {
        None => return None,
        Some(w) => w,
    };
    let r1 = skip_ascii_spaces(&r0[c + 1..r0.len()]);
    let legacy = starts_with(r1, wait_for.as_slice());
    let r2 = if legacy { &r1[9..r1.len()] } else { r1 };
    let r3 = match strip_bytes(r2, lock_tid.as_slice()) {
        None => return None,
        Some(x) => x,
    };
    let e = LockEvent {
        waiting_trx_id: w,
        blocking_trx_ids: Vec::new(),
        lock_mode: String::new(),
        table_id: 0,
        wait_time_us: 0,
        has_more_blocking: false,
    };
    assert(e@.blocking_trx_ids =~= Seq::<u64>::empty());
    assert(e@.lock_mode =~= Seq::<char>::empty());
    lock_paren_exec(e, legacy, skip_ascii_spaces(r3))
}

} // verus!
