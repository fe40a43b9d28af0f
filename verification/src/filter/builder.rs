//! Building a [`Filter`] condition by condition; a record matches when it
//! meets every condition.

use vstd::prelude::*;
use crate::chars::{first_sub, seq_has_prefix, find_chars, prefix_at};
use crate::record::{Sqllog, SqllogSpec};
use crate::text::{str_chars, str_eq};

verus! {

broadcast use crate::chars::group_chars;

/// `a` comes before `b` in the lexicographic order of the characters' code
/// points (for UTF-8 text, the byte order that `str` comparison uses).
pub open spec fn lex_lt(a: Seq<char>, b: Seq<char>) -> bool
    decreases a.len(),
{
    if a.len() == 0 {
        b.len() > 0
    } else if b.len() == 0 {
        false
    } else if a[0] != b[0] {
        (a[0] as u32) < (b[0] as u32)
    } else {
        lex_lt(a.drop_first(), b.drop_first())
    }
}

/// `a` is `b` or comes before it.
pub open spec fn lex_le(a: Seq<char>, b: Seq<char>) -> bool {
    a == b || lex_lt(a, b)
}

/// `s` contains `p`.
pub open spec fn contains_text(s: Seq<char>, p: Seq<char>) -> bool {
    p.len() == 0 || first_sub(s, p) is Some
}

/// `s` ends with `p`.
pub open spec fn ends_with_text(s: Seq<char>, p: Seq<char>) -> bool {
    p.len() <= s.len() && s.subrange(s.len() - p.len(), s.len() as int) == p
}

/// One condition on a record.
#[derive(Debug, Clone)]
pub enum Condition {
    TsGt(String),
    TsGte(String),
    TsLt(String),
    TsLte(String),
    TsBetween(String, String),
    TagEq(String),
    EpEq(u8),
    SessIdEq(String),
    ThrdIdEq(String),
    UsernameEq(String),
    TrxidEq(String),
    StatementEq(String),
    AppnameEq(String),
    ClientIpEq(String),
    SqlContains(String),
    SqlEq(String),
    SqlStartsWith(String),
    SqlEndsWith(String),
    RowcountEq(u32),
    RowcountGt(u32),
    RowcountLt(u32),
    ExecIdEq(i64),
}

/// The content of a [`Condition`].
pub enum CondSpec {
    TsGt(Seq<char>),
    TsGte(Seq<char>),
    TsLt(Seq<char>),
    TsLte(Seq<char>),
    TsBetween(Seq<char>, Seq<char>),
    TagEq(Seq<char>),
    EpEq(u8),
    SessIdEq(Seq<char>),
    ThrdIdEq(Seq<char>),
    UsernameEq(Seq<char>),
    TrxidEq(Seq<char>),
    StatementEq(Seq<char>),
    AppnameEq(Seq<char>),
    ClientIpEq(Seq<char>),
    SqlContains(Seq<char>),
    SqlEq(Seq<char>),
    SqlStartsWith(Seq<char>),
    SqlEndsWith(Seq<char>),
    RowcountEq(u32),
    RowcountGt(u32),
    RowcountLt(u32),
    ExecIdEq(i64),
}

impl View for Condition {
    type V = CondSpec;

    open spec fn view(&self) -> CondSpec {
        match self {
            Condition::TsGt(x) => CondSpec::TsGt(x@),
            Condition::TsGte(x) => CondSpec::TsGte(x@),
            Condition::TsLt(x) => CondSpec::TsLt(x@),
            Condition::TsLte(x) => CondSpec::TsLte(x@),
            Condition::TsBetween(a, b) => CondSpec::TsBetween(a@, b@),
            Condition::TagEq(x) => CondSpec::TagEq(x@),
            Condition::EpEq(x) => CondSpec::EpEq(*x),
            Condition::SessIdEq(x) => CondSpec::SessIdEq(x@),
            Condition::ThrdIdEq(x) => CondSpec::ThrdIdEq(x@),
            Condition::UsernameEq(x) => CondSpec::UsernameEq(x@),
            Condition::TrxidEq(x) => CondSpec::TrxidEq(x@),
            Condition::StatementEq(x) => CondSpec::StatementEq(x@),
            Condition::AppnameEq(x) => CondSpec::AppnameEq(x@),
            Condition::ClientIpEq(x) => CondSpec::ClientIpEq(x@),
            Condition::SqlContains(x) => CondSpec::SqlContains(x@),
            Condition::SqlEq(x) => CondSpec::SqlEq(x@),
            Condition::SqlStartsWith(x) => CondSpec::SqlStartsWith(x@),
            Condition::SqlEndsWith(x) => CondSpec::SqlEndsWith(x@),
            Condition::RowcountEq(x) => CondSpec::RowcountEq(*x),
            Condition::RowcountGt(x) => CondSpec::RowcountGt(*x),
            Condition::RowcountLt(x) => CondSpec::RowcountLt(*x),
            Condition::ExecIdEq(x) => CondSpec::ExecIdEq(*x),
        }
    }
}

/// Whether the record `r` meets the condition `c`.
pub open spec fn holds(c: CondSpec, r: SqllogSpec) -> bool {
    match c {
        CondSpec::TsGt(v) => lex_lt(v, r.ts),
        CondSpec::TsGte(v) => lex_le(v, r.ts),
        CondSpec::TsLt(v) => lex_lt(r.ts, v),
        CondSpec::TsLte(v) => lex_le(r.ts, v),
        CondSpec::TsBetween(a, b) => lex_le(a, r.ts) && lex_le(r.ts, b),
        CondSpec::TagEq(v) => r.tag == Some(v),
        CondSpec::EpEq(v) => r.meta.ep == v,
        CondSpec::SessIdEq(v) => r.meta.sess_id == v,
        CondSpec::ThrdIdEq(v) => r.meta.thrd_id == v,
        CondSpec::UsernameEq(v) => r.meta.username == v,
        CondSpec::TrxidEq(v) => r.meta.trxid == v,
        CondSpec::StatementEq(v) => r.meta.statement == v,
        CondSpec::AppnameEq(v) => r.meta.appname == v,
        CondSpec::ClientIpEq(v) => r.meta.client_ip == v,
        CondSpec::SqlContains(v) => contains_text(r.sql, v),
        CondSpec::SqlEq(v) => r.sql == v,
        CondSpec::SqlStartsWith(v) => seq_has_prefix(r.sql, v),
        CondSpec::SqlEndsWith(v) => ends_with_text(r.sql, v),
        CondSpec::RowcountEq(v) => r.rowcount == v,
        CondSpec::RowcountGt(v) => r.rowcount > v,
        CondSpec::RowcountLt(v) => r.rowcount < v,
        CondSpec::ExecIdEq(v) => r.exec_id == v,
    }
}

proof fn lemma_lex_lt_asym(x: Seq<char>, y: Seq<char>)
    ensures
        !(lex_lt(x, y) && lex_lt(y, x)),
        !lex_lt(x, x),
    decreases x.len(),
{
    if x.len() > 0 && y.len() > 0 && x[0] == y[0] {
        lemma_lex_lt_asym(x.drop_first(), y.drop_first());
    }
    if x.len() > 0 {
        lemma_lex_lt_asym(x.drop_first(), x.drop_first());
    }
}

proof fn lemma_lex_total(x: Seq<char>, y: Seq<char>)
    ensures
        x == y || lex_lt(x, y) || lex_lt(y, x),
    decreases x.len(),
{
    if x.len() > 0 && y.len() > 0 && x[0] == y[0] {
        lemma_lex_total(x.drop_first(), y.drop_first());
        if x.drop_first() == y.drop_first() {
            assert forall|i: int| 0 <= i < x.len() implies x[i] == y[i] by {
                if i > 0 {
                    assert(x[i] == x.drop_first()[i - 1]);
                    assert(y[i] == y.drop_first()[i - 1]);
                }
            }
            assert(x =~= y);
        }
    } else if x.len() == 0 && y.len() == 0 {
        assert(x =~= y);
    } else if x.len() > 0 && y.len() > 0 {
        vstd::utf8::char_u32_cast(x[0], x[0] as u32);
        vstd::utf8::char_u32_cast(y[0], y[0] as u32);
    }
}

/// The timestamp conditions split the records consistently: for each bound,
/// a record is either after it or at or before it, and either before it or
/// at or after it; the row-count conditions likewise split by `<`, `=`, `>`;
/// an SQL text equal to `v` also starts with, ends with and contains `v`.
pub proof fn lemma_conditions_partition(v: Seq<char>, n: u32, r: SqllogSpec)
    ensures
        holds(CondSpec::TsGt(v), r) == !holds(CondSpec::TsLte(v), r),
        holds(CondSpec::TsLt(v), r) == !holds(CondSpec::TsGte(v), r),
        holds(CondSpec::TsGte(v), r) && holds(CondSpec::TsLte(v), r) ==> r.ts == v,
        holds(CondSpec::RowcountLt(n), r) || holds(CondSpec::RowcountEq(n), r) || holds(CondSpec::RowcountGt(n), r),
        !(holds(CondSpec::RowcountLt(n), r) && holds(CondSpec::RowcountGt(n), r)),
        holds(CondSpec::SqlEq(v), r) ==> holds(CondSpec::SqlStartsWith(v), r) && holds(CondSpec::SqlEndsWith(v), r)
            && holds(CondSpec::SqlContains(v), r),
{
    broadcast use crate::chars::group_chars;

    lemma_lex_total(v, r.ts);
    lemma_lex_lt_asym(v, r.ts);
    if r.sql == v {
        assert(r.sql.subrange(0, v.len() as int) =~= v);
        assert(r.sql.subrange(r.sql.len() - v.len(), r.sql.len() as int) =~= v);
        if v.len() > 0 {
            assert(crate::chars::seq_occurs_at(r.sql, v, 0));
            assert(first_sub(r.sql, v) is Some);
        }
    }
}

/// A timestamp range is closed at both ends: a record meets
/// `TsBetween(a, b)` exactly when it meets both `TsGte(a)` and `TsLte(b)`,
/// so a record later than `b` (or earlier than `a`) never meets it, while
/// one at `a` or at `b` does.
pub proof fn lemma_ts_between_closed(a: Seq<char>, b: Seq<char>, r: SqllogSpec)
    ensures
        holds(CondSpec::TsBetween(a, b), r) == (holds(CondSpec::TsGte(a), r) && holds(CondSpec::TsLte(b), r)),
        holds(CondSpec::TsBetween(a, b), r) ==> lex_le(a, r.ts) && lex_le(r.ts, b),
        holds(CondSpec::TsGt(b), r) ==> !holds(CondSpec::TsBetween(a, b), r),
        holds(CondSpec::TsLt(a), r) ==> !holds(CondSpec::TsBetween(a, b), r),
        lex_le(a, b) && (r.ts == a || r.ts == b) ==> holds(CondSpec::TsBetween(a, b), r),
{
    lemma_lex_lt_asym(r.ts, b);
    lemma_lex_lt_asym(a, r.ts);
}

/// Whether `a` comes before `b` (see [`lex_lt`]).
pub fn text_lt(a: &str, b: &str) -> (r: bool)
    ensures
        r == lex_lt(a@, b@),
{
    let x = str_chars(a);
    let y = str_chars(b);
    let mut i: usize = 0;
    assert(x@.subrange(0, x@.len() as int) =~= x@);
    assert(y@.subrange(0, y@.len() as int) =~= y@);
    while i < x.len() && i < y.len() && x[i] == y[i]
        invariant
            i <= x@.len(),
            i <= y@.len(),
            x@ == a@,
            y@ == b@,
            lex_lt(a@, b@) == lex_lt(x@.subrange(i as int, x@.len() as int), y@.subrange(i as int, y@.len() as int)),
        decreases x@.len() - i,
    {
        assert(x@.subrange(i as int, x@.len() as int).drop_first() =~= x@.subrange(i + 1, x@.len() as int));
        assert(y@.subrange(i as int, y@.len() as int).drop_first() =~= y@.subrange(i + 1, y@.len() as int));
        i = i + 1;
    }
    if i == x.len() {
        i < y.len()
    } else if i == y.len() {
        false
    } else {
        (x[i] as u32) < (y[i] as u32)
    }
}

/// Whether `a` is `b` or comes before it.
pub fn text_le(a: &str, b: &str) -> (r: bool)
    ensures
        r == lex_le(a@, b@),
{
    str_eq(a, b) || text_lt(a, b)
}

/// Whether `s` contains `p`.
pub fn text_contains(s: &str, p: &str) -> (r: bool)
    ensures
        r == contains_text(s@, p@),
{
    let x = str_chars(s);
    let y = str_chars(p);
    if y.len() == 0 {
        return true;
    }
    assert(x@.subrange(0, x@.len() as int) =~= x@);
    find_chars(x.as_slice(), 0, x.len(), y.as_slice()).is_some()
}

/// Whether `s` starts with `p`.
pub fn text_starts_with(s: &str, p: &str) -> (r: bool)
    ensures
        r == seq_has_prefix(s@, p@),
{
    let x = str_chars(s);
    let y = str_chars(p);
    if y.len() > x.len() {
        return false;
    }
    assert(x@.subrange(0, x@.len() as int) =~= x@);
    let r = prefix_at(x.as_slice(), 0, x.len(), y.as_slice());
    r
}

/// Whether `s` ends with `p`.
pub fn text_ends_with(s: &str, p: &str) -> (r: bool)
    ensures
        r == ends_with_text(s@, p@),
{
    let x = str_chars(s);
    let y = str_chars(p);
    if y.len() > x.len() {
        return false;
    }
    let off = x.len() - y.len();
    let mut i: usize = 0;
    while i < y.len()
        invariant
            x@ == s@,
            y@ == p@,
            x.len() == x@.len(),
            off + y@.len() == x@.len(),
            i <= y@.len(),
            forall|k: int| 0 <= k < i ==> x@[off + k] == y@[k],
        decreases y@.len() - i,
    {
        if x[off + i] != y[i] {
            assert(x@.subrange(off as int, x@.len() as int)[i as int] != y@[i as int]);
            return false;
        }
        i = i + 1;
    }
    assert(x@.subrange(off as int, x@.len() as int) =~= y@);
    true
}

/// Whether the optional `tag` is `v`.
fn tag_is(tag: &Option<String>, v: &str) -> (r: bool)
    ensures
        r == (match tag {
            Some(t) => Some(t@),
            None => None,
        } == Some(v@)),
{
    match tag {
        Some(t) => str_eq(t.as_str(), v),
        None => false,
    }
}

/// Whether the record `r` meets the condition `c`.
pub fn check(c: &Condition, r: &Sqllog) -> (b: bool)
    ensures
        b == holds(c@, r@),
{
    match c {
        Condition::TsGt(v) => text_lt(v.as_str(), r.ts.as_str()),
        Condition::TsGte(v) => text_le(v.as_str(), r.ts.as_str()),
        Condition::TsLt(v) => text_lt(r.ts.as_str(), v.as_str()),
        Condition::TsLte(v) => text_le(r.ts.as_str(), v.as_str()),
        Condition::TsBetween(a, b) => text_le(a.as_str(), r.ts.as_str()) && text_le(r.ts.as_str(), b.as_str()),
        Condition::TagEq(v) => tag_is(&r.tag, v.as_str()),
        Condition::EpEq(v) => r.ep == *v,
        Condition::SessIdEq(v) => str_eq(r.sess_id.as_str(), v.as_str()),
        Condition::ThrdIdEq(v) => str_eq(r.thrd_id.as_str(), v.as_str()),
        Condition::UsernameEq(v) => str_eq(r.username.as_str(), v.as_str()),
        Condition::TrxidEq(v) => str_eq(r.trxid.as_str(), v.as_str()),
        Condition::StatementEq(v) => str_eq(r.statement.as_str(), v.as_str()),
        Condition::AppnameEq(v) => str_eq(r.appname.as_str(), v.as_str()),
        Condition::ClientIpEq(v) => str_eq(r.client_ip.as_str(), v.as_str()),
        Condition::SqlContains(v) => text_contains(r.sql.as_str(), v.as_str()),
        Condition::SqlEq(v) => str_eq(r.sql.as_str(), v.as_str()),
        Condition::SqlStartsWith(v) => text_starts_with(r.sql.as_str(), v.as_str()),
        Condition::SqlEndsWith(v) => text_ends_with(r.sql.as_str(), v.as_str()),
        Condition::RowcountEq(v) => r.rowcount == *v,
        Condition::RowcountGt(v) => r.rowcount > *v,
        Condition::RowcountLt(v) => r.rowcount < *v,
        Condition::ExecIdEq(v) => r.exec_id == *v,
    }
}

/// Conditions combined with AND.
pub struct Filter {
    conditions: Vec<Condition>,
}

/// The record meets every condition of `cs`.
pub open spec fn all_hold(cs: Seq<CondSpec>, r: SqllogSpec) -> bool {
    forall|i: int| 0 <= i < cs.len() ==> holds(#[trigger] cs[i], r)
}

/// Conditions combine by AND: a record passes the conditions `a` followed by
/// `b` exactly when it passes `a` and passes `b`, so the order in which
/// conditions are added does not matter, and no conditions at all pass
/// every record.
pub proof fn lemma_conditions_conjoin(a: Seq<CondSpec>, b: Seq<CondSpec>, r: SqllogSpec)
    ensures
        all_hold(a + b, r) == (all_hold(a, r) && all_hold(b, r)),
        all_hold(a + b, r) == all_hold(b + a, r),
        all_hold(Seq::<CondSpec>::empty(), r),
{
    if all_hold(a, r) && all_hold(b, r) {
        assert forall|i: int| 0 <= i < (a + b).len() implies holds(#[trigger] (a + b)[i], r) by {
            if i < a.len() {
                assert((a + b)[i] == a[i]);
            } else {
                assert((a + b)[i] == b[i - a.len()]);
            }
        }
        assert forall|i: int| 0 <= i < (b + a).len() implies holds(#[trigger] (b + a)[i], r) by {
            if i < b.len() {
                assert((b + a)[i] == b[i]);
            } else {
                assert((b + a)[i] == a[i - b.len()]);
            }
        }
    }
    if all_hold(a + b, r) {
        assert forall|i: int| 0 <= i < a.len() implies holds(#[trigger] a[i], r) by {
            assert((a + b)[i] == a[i]);
        }
        assert forall|i: int| 0 <= i < b.len() implies holds(#[trigger] b[i], r) by {
            assert((a + b)[a.len() + i] == b[i]);
        }
    }
    if all_hold(b + a, r) {
        assert forall|i: int| 0 <= i < a.len() implies holds(#[trigger] a[i], r) by {
            assert((b + a)[b.len() + i] == a[i]);
        }
        assert forall|i: int| 0 <= i < b.len() implies holds(#[trigger] b[i], r) by {
            assert((b + a)[i] == b[i]);
        }
    }
}

impl Filter {
    /// The conditions, in the order they were added.
    pub closed spec fn conditions(&self) -> Seq<CondSpec> {
        Seq::new(self.conditions@.len(), |i: int| self.conditions@[i]@)
    }

    /// Whether `record` meets every condition.
    pub fn matches(&self, record: &Sqllog) -> (r: bool)
        ensures
            r == all_hold(self.conditions(), record@),
    {
        let mut i: usize = 0;
        while i < self.conditions.len()
            invariant
                i <= self.conditions@.len(),
                forall|k: int| 0 <= k < i ==> holds(#[trigger] self.conditions@[k]@, record@),
            decreases self.conditions@.len() - i,
        {
            if !check(&self.conditions[i], record) {
                assert(self.conditions()[i as int] == self.conditions@[i as int]@);
                return false;
            }
            i = i + 1;
        }
        assert forall|k: int| 0 <= k < self.conditions().len() implies holds(#[trigger] self.conditions()[k], record@) by {
            assert(self.conditions()[k] == self.conditions@[k]@);
        }
        true
    }
}

/// Builds a [`Filter`].
pub struct FilterBuilder {
    conditions: Vec<Condition>,
}

impl Default for FilterBuilder {
    fn default() -> (r: FilterBuilder)
        ensures
            r.conditions() == Seq::<CondSpec>::empty(),
    {
        FilterBuilder::new()
    }
}

impl FilterBuilder {
    /// The conditions added so far.
    pub closed spec fn conditions(&self) -> Seq<CondSpec> {
        Seq::new(self.conditions@.len(), |i: int| self.conditions@[i]@)
    }

    /// No conditions.
    pub fn new() -> (r: FilterBuilder)
        ensures
            r.conditions() == Seq::<CondSpec>::empty(),
    {
        let r = FilterBuilder { conditions: Vec::new() };
        assert(r.conditions() =~= Seq::<CondSpec>::empty());
        r
    }

    /// The filter of the conditions added.
    pub fn build(self) -> (r: Filter)
        ensures
            r.conditions() == self.conditions(),
    {
        Filter { conditions: self.conditions }
    }

    /// Adds a condition.
    pub fn add(self, c: Condition) -> (r: FilterBuilder)
        ensures
            r.conditions() == self.conditions().push(c@),
    {
        let mut b = self;
        b.conditions.push(c);
        assert(b.conditions() =~= self.conditions().push(c@));
        b
    }

    /// Timestamp after `value` (in string order, which is time order for timestamps of one format).
    pub fn ts_gt(self, value: &str) -> (r: FilterBuilder)
        ensures
            r.conditions() == self.conditions().push(CondSpec::TsGt(value@)),
    {
        self.add(Condition::TsGt(value.to_owned()))
    }

    /// Timestamp at or after `value`.
    pub fn ts_gte(self, value: &str) -> (r: FilterBuilder)
        ensures
            r.conditions() == self.conditions().push(CondSpec::TsGte(value@)),
    {
        self.add(Condition::TsGte(value.to_owned()))
    }

    /// Timestamp before `value`.
    pub fn ts_lt(self, value: &str) -> (r: FilterBuilder)
        ensures
            r.conditions() == self.conditions().push(CondSpec::TsLt(value@)),
    {
        self.add(Condition::TsLt(value.to_owned()))
    }

    /// Timestamp at or before `value`.
    pub fn ts_lte(self, value: &str) -> (r: FilterBuilder)
        ensures
            r.conditions() == self.conditions().push(CondSpec::TsLte(value@)),
    {
        self.add(Condition::TsLte(value.to_owned()))
    }

    /// Tag equal to `value`.
    pub fn tag_eq(self, value: &str) -> (r: FilterBuilder)
        ensures
            r.conditions() == self.conditions().push(CondSpec::TagEq(value@)),
    {
        self.add(Condition::TagEq(value.to_owned()))
    }

    /// Session id equal to `value`.
    pub fn sess_id_eq(self, value: &str) -> (r: FilterBuilder)
        ensures
            r.conditions() == self.conditions().push(CondSpec::SessIdEq(value@)),
    {
        self.add(Condition::SessIdEq(value.to_owned()))
    }

    /// Thread id equal to `value`.
    pub fn thrd_id_eq(self, value: &str) -> (r: FilterBuilder)
        ensures
            r.conditions() == self.conditions().push(CondSpec::ThrdIdEq(value@)),
    {
        self.add(Condition::ThrdIdEq(value.to_owned()))
    }

    /// User name equal to `value`.
    pub fn username_eq(self, value: &str) -> (r: FilterBuilder)
        ensures
            r.conditions() == self.conditions().push(CondSpec::UsernameEq(value@)),
    {
        self.add(Condition::UsernameEq(value.to_owned()))
    }

    /// Transaction id equal to `value`.
    pub fn trxid_eq(self, value: &str) -> (r: FilterBuilder)
        ensures
            r.conditions() == self.conditions().push(CondSpec::TrxidEq(value@)),
    {
        self.add(Condition::TrxidEq(value.to_owned()))
    }

    /// Statement id equal to `value`.
    pub fn statement_eq(self, value: &str) -> (r: FilterBuilder)
        ensures
            r.conditions() == self.conditions().push(CondSpec::StatementEq(value@)),
    {
        self.add(Condition::StatementEq(value.to_owned()))
    }

    /// Application name equal to `value`.
    pub fn appname_eq(self, value: &str) -> (r: FilterBuilder)
        ensures
            r.conditions() == self.conditions().push(CondSpec::AppnameEq(value@)),
    {
        self.add(Condition::AppnameEq(value.to_owned()))
    }

    /// Client IP equal to `value`.
    pub fn client_ip_eq(self, value: &str) -> (r: FilterBuilder)
        ensures
            r.conditions() == self.conditions().push(CondSpec::ClientIpEq(value@)),
    {
        self.add(Condition::ClientIpEq(value.to_owned()))
    }

    /// SQL text containing `value`.
    pub fn sql_contains(self, value: &str) -> (r: FilterBuilder)
        ensures
            r.conditions() == self.conditions().push(CondSpec::SqlContains(value@)),
    {
        self.add(Condition::SqlContains(value.to_owned()))
    }

    /// SQL text equal to `value`.
    pub fn sql_eq(self, value: &str) -> (r: FilterBuilder)
        ensures
            r.conditions() == self.conditions().push(CondSpec::SqlEq(value@)),
    {
        self.add(Condition::SqlEq(value.to_owned()))
    }

    /// SQL text starting with `value`.
    pub fn sql_starts_with(self, value: &str) -> (r: FilterBuilder)
        ensures
            r.conditions() == self.conditions().push(CondSpec::SqlStartsWith(value@)),
    {
        self.add(Condition::SqlStartsWith(value.to_owned()))
    }

    /// SQL text ending with `value`.
    pub fn sql_ends_with(self, value: &str) -> (r: FilterBuilder)
        ensures
            r.conditions() == self.conditions().push(CondSpec::SqlEndsWith(value@)),
    {
        self.add(Condition::SqlEndsWith(value.to_owned()))
    }

    /// EP equal to `value`.
    pub fn ep_eq(self, value: u8) -> (r: FilterBuilder)
        ensures
            r.conditions() == self.conditions().push(CondSpec::EpEq(value)),
    {
        self.add(Condition::EpEq(value))
    }

    /// Row count equal to `value`.
    pub fn rowcount_eq(self, value: u32) -> (r: FilterBuilder)
        ensures
            r.conditions() == self.conditions().push(CondSpec::RowcountEq(value)),
    {
        self.add(Condition::RowcountEq(value))
    }

    /// Row count above `value`.
    pub fn rowcount_gt(self, value: u32) -> (r: FilterBuilder)
        ensures
            r.conditions() == self.conditions().push(CondSpec::RowcountGt(value)),
    {
        self.add(Condition::RowcountGt(value))
    }

    /// Row count below `value`.
    pub fn rowcount_lt(self, value: u32) -> (r: FilterBuilder)
        ensures
            r.conditions() == self.conditions().push(CondSpec::RowcountLt(value)),
    {
        self.add(Condition::RowcountLt(value))
    }

    /// Execution id equal to `value`.
    pub fn exec_id_eq(self, value: i64) -> (r: FilterBuilder)
        ensures
            r.conditions() == self.conditions().push(CondSpec::ExecIdEq(value)),
    {
        self.add(Condition::ExecIdEq(value))
    }

    /// Timestamp in `[start, end]`; `start` must not come after `end`.
    pub fn ts_between(self, start: &str, end: &str) -> (r: FilterBuilder)
        requires
            lex_le(start@, end@),
        ensures
            r.conditions() == self.conditions().push(CondSpec::TsBetween(start@, end@)),
    {
        self.add(Condition::TsBetween(start.to_owned(), end.to_owned()))
    }
}

} // verus!
