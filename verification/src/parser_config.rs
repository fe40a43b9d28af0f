//! The shape of the log format as data: the meta fields and the indicator
//! metrics a parser expects, so that a change of format changes the
//! configuration rather than the parser.

use vstd::prelude::*;
use crate::text::str_eq;

verus! {

/// A meta field: its name, whether it must be present, and how it is
/// written (`EP[n]` with brackets, `sess:x` with a colon).
#[derive(Debug, Clone)]
pub struct MetaFieldDef {
    /// Name, such as `EP`, `sess`, `user`.
    pub name: &'static str,
    /// Whether a record without it is malformed.
    pub required: bool,
    /// Written with brackets, as `EP[n]`.
    pub has_brackets: bool,
    /// Written with a colon, as `sess:x`.
    pub has_colon: bool,
    /// Its place among the meta fields.
    pub order: usize,
}

/// An indicator metric: its keyword, unit and kind of value.
#[derive(Debug, Clone)]
pub struct EndMetricDef {
    /// Keyword, such as `EXECTIME`.
    pub keyword: &'static str,
    /// Unit, such as `ms`.
    pub unit: Option<&'static str>,
    /// Kind of value.
    pub value_type: MetricValueType,
}

/// The kind of value of a metric.
#[derive(Debug, Clone, Copy, PartialEq, Eq, Structural)]
pub enum MetricValueType {
    /// Unsigned integer.
    UnsignedInt,
    /// Floating-point number.
    Float,
    /// Text.
    String,
}

/// The configuration of a parser.
#[derive(Debug, Clone)]
pub struct ParserConfig {
    /// The meta fields.
    pub meta_fields: Vec<MetaFieldDef>,
    /// The indicator metrics.
    pub end_metrics: Vec<EndMetricDef>,
    /// Whether the meta fields must come in their order.
    pub strict_field_order: bool,
    /// Whether meta fields that are not defined are accepted.
    pub allow_unknown_fields: bool,
    /// Length of the timestamp, in characters.
    pub timestamp_length: usize,
}

/// The content of a [`MetaFieldDef`].
pub struct MetaFieldSpec {
    pub name: Seq<char>,
    pub required: bool,
    pub has_brackets: bool,
    pub has_colon: bool,
    pub order: usize,
}

/// The content of an [`EndMetricDef`].
pub struct EndMetricSpec {
    pub keyword: Seq<char>,
    pub unit: Option<Seq<char>>,
    pub value_type: MetricValueType,
}

impl View for MetaFieldDef {
    type V = MetaFieldSpec;

    open spec fn view(&self) -> MetaFieldSpec {
        MetaFieldSpec {
            name: self.name@,
            required: self.required,
            has_brackets: self.has_brackets,
            has_colon: self.has_colon,
            order: self.order,
        }
    }
}

impl View for EndMetricDef {
    type V = EndMetricSpec;

    open spec fn view(&self) -> EndMetricSpec {
        EndMetricSpec {
            keyword: self.keyword@,
            unit: match self.unit {
                Some(u) => Some(u@),
                None => None,
            },
            value_type: self.value_type,
        }
    }
}

pub open spec fn colon_field(name: Seq<char>, required: bool, order: usize) -> MetaFieldSpec {
    MetaFieldSpec { name, required, has_brackets: false, has_colon: true, order }
}

/// The meta fields of the DM database log: `EP[n]`, then `sess`, `thrd`,
/// `user`, `trxid`, `stmt`, `appname` (all required) and the optional `ip`.
pub open spec fn dmdb_meta_fields() -> Seq<MetaFieldSpec> {
    seq![
        MetaFieldSpec { name: seq!['E', 'P'], required: true, has_brackets: true, has_colon: false, order: 0 },
        colon_field(seq!['s', 'e', 's', 's'], true, 1),
        colon_field(seq!['t', 'h', 'r', 'd'], true, 2),
        colon_field(seq!['u', 's', 'e', 'r'], true, 3),
        colon_field(seq!['t', 'r', 'x', 'i', 'd'], true, 4),
        colon_field(seq!['s', 't', 'm', 't'], true, 5),
        colon_field(seq!['a', 'p', 'p', 'n', 'a', 'm', 'e'], true, 6),
        colon_field(seq!['i', 'p'], false, 7),
    ]
}

/// The metrics of the DM database log: `EXECTIME` (in `ms`), `ROWCOUNT`
/// and `EXEC_ID`, all unsigned integers.
pub open spec fn dmdb_end_metrics() -> Seq<EndMetricSpec> {
    seq![
        EndMetricSpec {
            keyword: seq!['E', 'X', 'E', 'C', 'T', 'I', 'M', 'E'],
            unit: Some(seq!['m', 's']),
            value_type: MetricValueType::UnsignedInt,
        },
        EndMetricSpec {
            keyword: seq!['R', 'O', 'W', 'C', 'O', 'U', 'N', 'T'],
            unit: None,
            value_type: MetricValueType::UnsignedInt,
        },
        EndMetricSpec {
            keyword: seq!['E', 'X', 'E', 'C', '_', 'I', 'D'],
            unit: None,
            value_type: MetricValueType::UnsignedInt,
        },
    ]
}

/// The views of meta field definitions.
pub open spec fn meta_views(v: Seq<MetaFieldDef>) -> Seq<MetaFieldSpec> {
    Seq::new(v.len(), |i: int| v[i]@)
}

/// The views of metric definitions.
pub open spec fn metric_views(v: Seq<EndMetricDef>) -> Seq<EndMetricSpec> {
    Seq::new(v.len(), |i: int| v[i]@)
}

/// The last index in `names` whose text is `name`.
pub open spec fn last_named(names: Seq<Seq<char>>, name: Seq<char>) -> Option<int>
    decreases names.len(),
{
    if names.len() == 0 {
        None
    } else if names.last() == name {
        Some(names.len() - 1)
    } else {
        last_named(names.drop_last(), name)
    }
}

pub proof fn lemma_last_named(names: Seq<Seq<char>>, name: Seq<char>)
    ensures
        match last_named(names, name) {
            Some(i) => 0 <= i < names.len() && names[i] == name
                && forall|j: int| i < j < names.len() ==> names[j] != name,
            None => forall|j: int| 0 <= j < names.len() ==> names[j] != name,
        },
    decreases names.len(),
{
    if names.len() > 0 && names.last() != name {
        lemma_last_named(names.drop_last(), name);
        assert forall|j: int| 0 <= j < names.len() - 1 implies names[j] == names.drop_last()[j] by {}
    }
}

/// The texts of `v`.
pub open spec fn text_views(v: Seq<&str>) -> Seq<Seq<char>> {
    Seq::new(v.len(), |i: int| v[i]@)
}

/// Whether `v[0..n]` holds a text equal to `x`.
fn seen_before(v: &Vec<&str>, n: usize, x: &str) -> (r: bool)
    requires
        n <= v@.len(),
    ensures
        r == text_views(v@).subrange(0, n as int).contains(x@),
{
    let ghost t = text_views(v@).subrange(0, n as int);
    let mut j: usize = 0;
    while j < n
        invariant
            j <= n <= v@.len(),
            t == text_views(v@).subrange(0, n as int),
            forall|k: int| 0 <= k < j ==> t[k] != x@,
        decreases n - j,
    {
        if str_eq(v[j], x) {
            assert(t[j as int] == x@);
            return true;
        }
        j = j + 1;
    }
    false
}

/// The number of distinct texts in `v`.
fn count_distinct(v: &Vec<&str>) -> (r: usize)
    ensures
        r == text_views(v@).to_set().len(),
{
    broadcast use vstd::seq_lib::seq_to_set_is_finite, vstd::set::group_set_axioms;

    let ghost tv = text_views(v@);
    let mut count: usize = 0;
    let mut i: usize = 0;
    assert(tv.subrange(0, 0).to_set() =~= Set::<Seq<char>>::empty());
    while i < v.len()
        invariant
            i <= v@.len(),
            tv == text_views(v@),
            count <= i,
            tv.subrange(0, i as int).to_set().finite(),
            count == tv.subrange(0, i as int).to_set().len(),
        decreases v@.len() - i,
    {
        let dup = seen_before(v, i, v[i]);
        let ghost pre = tv.subrange(0, i as int);
        assert(tv.subrange(0, i + 1) =~= pre.push(tv[i as int]));
        proof {
            pre.lemma_push_to_set_commute(tv[i as int]);
        }
        if !dup {
            count = count + 1;
        }
        i = i + 1;
    }
    assert(tv.subrange(0, v@.len() as int) =~= tv);
    count
}

/// Meta field definitions by name; a later definition of a name wins.
pub struct MetaFieldMap<'a> {
    defs: &'a [MetaFieldDef],
}

impl<'a> MetaFieldMap<'a> {
    /// The names of the definitions, in order.
    pub closed spec fn names(&self) -> Seq<Seq<char>> {
        Seq::new(self.defs@.len(), |i: int| self.defs@[i].name@)
    }

    /// The definitions, in order.
    pub closed spec fn defs(&self) -> Seq<MetaFieldSpec> {
        meta_views(self.defs@)
    }

    fn find(&self, name: &str) -> (r: Option<usize>)
        ensures
            to_int(r) == last_named(self.names(), name@),
            r matches Some(i) ==> i < self.defs@.len(),
    {
        proof {
            lemma_last_named(self.names(), name@);
        }
        let mut i = self.defs.len();
        while i > 0
            invariant
                i <= self.defs@.len(),
                forall|j: int| i <= j < self.defs@.len() ==> self.names()[j] != name@,
            decreases i,
        {
            if str_eq(self.defs[i - 1].name, name) {
                proof {
                    lemma_last_named(self.names(), name@);
                    assert(self.names()[i - 1] == name@);
                    let k = last_named(self.names(), name@);
                    if k is Some {
                        let kk = k->0;
                        if kk < i - 1 {
                            assert(self.names()[i - 1] != name@);
                        }
                    }
                }
                return Some(i - 1);
            }
            i = i - 1;
        }
        None
    }

    /// Whether a field `name` is defined.
    pub fn contains_key(&self, name: &str) -> (r: bool)
        ensures
            r == self.names().contains(name@),
    {
        proof {
            lemma_last_named(self.names(), name@);
        }
        let r = self.find(name).is_some();
        proof {
            if !r {
                assert(!self.names().contains(name@));
            }
        }
        r
    }

    /// The number of names defined.
    pub fn len(&self) -> (r: usize)
        ensures
            r == self.names().to_set().len(),
    {
        let mut v: Vec<&str> = Vec::new();
        let mut i: usize = 0;
        while i < self.defs.len()
            invariant
                i <= self.defs@.len(),
                v@.len() == i,
                text_views(v@) == self.names().subrange(0, i as int),
            decreases self.defs@.len() - i,
        {
            let ghost before = v@;
            let x: &str = self.defs[i].name;
            v.push(x);
            assert(v@ == before.push(x));
            assert forall|k: int| 0 <= k < i + 1 implies #[trigger] text_views(v@)[k] == self.names().subrange(0, i + 1)[k] by {
                assert(v@[k] == before.push(x)[k]);
                if k < i {
                    assert(text_views(before)[k] == self.names().subrange(0, i as int)[k]);
                }
            }
            assert(text_views(v@) =~= self.names().subrange(0, i + 1));
            i = i + 1;
        }
        assert(self.names().subrange(0, self.defs@.len() as int) =~= self.names());
        count_distinct(&v)
    }

    /// The (last) definition of the field `name`.
    pub fn get(&self, name: &str) -> (r: Option<&'a MetaFieldDef>)
        ensures
            match last_named(self.names(), name@) {
                Some(i) => r matches Some(d) && d@ == self.defs()[i],
                None => r is None,
            },
    {
        match self.find(name) {
            Some(i) => Some(&self.defs[i]),
            None => None,
        }
    }
}

/// Metric definitions by keyword; a later definition of a keyword wins.
pub struct EndMetricMap<'a> {
    defs: &'a [EndMetricDef],
}

impl<'a> EndMetricMap<'a> {
    /// The keywords of the definitions, in order.
    pub closed spec fn names(&self) -> Seq<Seq<char>> {
        Seq::new(self.defs@.len(), |i: int| self.defs@[i].keyword@)
    }

    /// The definitions, in order.
    pub closed spec fn defs(&self) -> Seq<EndMetricSpec> {
        metric_views(self.defs@)
    }

    fn find(&self, name: &str) -> (r: Option<usize>)
        ensures
            to_int(r) == last_named(self.names(), name@),
            r matches Some(i) ==> i < self.defs@.len(),
    {
        proof {
            lemma_last_named(self.names(), name@);
        }
        let mut i = self.defs.len();
        while i > 0
            invariant
                i <= self.defs@.len(),
                forall|j: int| i <= j < self.defs@.len() ==> self.names()[j] != name@,
            decreases i,
        {
            if str_eq(self.defs[i - 1].keyword, name) {
                proof {
                    lemma_last_named(self.names(), name@);
                    assert(self.names()[i - 1] == name@);
                    let k = last_named(self.names(), name@);
                    if k is Some {
                        let kk = k->0;
                        if kk < i - 1 {
                            assert(self.names()[i - 1] != name@);
                        }
                    }
                }
                return Some(i - 1);
            }
            i = i - 1;
        }
        None
    }

    /// Whether a metric `keyword` is defined.
    pub fn contains_key(&self, keyword: &str) -> (r: bool)
        ensures
            r == self.names().contains(keyword@),
    {
        proof {
            lemma_last_named(self.names(), keyword@);
        }
        let r = self.find(keyword).is_some();
        proof {
            if !r {
                assert(!self.names().contains(keyword@));
            }
        }
        r
    }

    /// The number of keywords defined.
    pub fn len(&self) -> (r: usize)
        ensures
            r == self.names().to_set().len(),
    {
        let mut v: Vec<&str> = Vec::new();
        let mut i: usize = 0;
        while i < self.defs.len()
            invariant
                i <= self.defs@.len(),
                v@.len() == i,
                text_views(v@) == self.names().subrange(0, i as int),
            decreases self.defs@.len() - i,
        {
            let ghost before = v@;
            let x: &str = self.defs[i].keyword;
            v.push(x);
            assert(v@ == before.push(x));
            assert forall|k: int| 0 <= k < i + 1 implies #[trigger] text_views(v@)[k] == self.names().subrange(0, i + 1)[k] by {
                assert(v@[k] == before.push(x)[k]);
                if k < i {
                    assert(text_views(before)[k] == self.names().subrange(0, i as int)[k]);
                }
            }
            assert(text_views(v@) =~= self.names().subrange(0, i + 1));
            i = i + 1;
        }
        assert(self.names().subrange(0, self.defs@.len() as int) =~= self.names());
        count_distinct(&v)
    }

    /// The (last) definition of the metric `keyword`.
    pub fn get(&self, keyword: &str) -> (r: Option<&'a EndMetricDef>)
        ensures
            match last_named(self.names(), keyword@) {
                Some(i) => r matches Some(d) && d@ == self.defs()[i],
                None => r is None,
            },
    {
        match self.find(keyword) {
            Some(i) => Some(&self.defs[i]),
            None => None,
        }
    }
}

/// An optional `usize` as an optional integer.
pub open spec fn to_int(o: Option<usize>) -> Option<int> {
    match o {
        Some(x) => Some(x as int),
        None => None,
    }
}

impl ParserConfig {
    /// The configuration for DM database logs: the meta fields of
    /// [`dmdb_meta_fields`], the metrics of [`dmdb_end_metrics`], strict field
    /// order, no unknown fields, 23-character timestamps.
    pub fn dmdb_default() -> (r: ParserConfig)
        ensures
            meta_views(r.meta_fields@) == dmdb_meta_fields(),
            metric_views(r.end_metrics@) == dmdb_end_metrics(),
            r.strict_field_order,
            !r.allow_unknown_fields,
            r.timestamp_length == 23,
    {
        proof {
            reveal_strlit("EP");
            reveal_strlit("sess");
            reveal_strlit("thrd");
            reveal_strlit("user");
            reveal_strlit("trxid");
            reveal_strlit("stmt");
            reveal_strlit("appname");
            reveal_strlit("ip");
            reveal_strlit("EXECTIME");
            reveal_strlit("ROWCOUNT");
            reveal_strlit("EXEC_ID");
            reveal_strlit("ms");
            assert("EP"@ =~= seq!['E', 'P']);
            assert("sess"@ =~= seq!['s', 'e', 's', 's']);
            assert("thrd"@ =~= seq!['t', 'h', 'r', 'd']);
            assert("user"@ =~= seq!['u', 's', 'e', 'r']);
            assert("trxid"@ =~= seq!['t', 'r', 'x', 'i', 'd']);
            assert("stmt"@ =~= seq!['s', 't', 'm', 't']);
            assert("appname"@ =~= seq!['a', 'p', 'p', 'n', 'a', 'm', 'e']);
            assert("ip"@ =~= seq!['i', 'p']);
            assert("EXECTIME"@ =~= seq!['E', 'X', 'E', 'C', 'T', 'I', 'M', 'E']);
            assert("ROWCOUNT"@ =~= seq!['R', 'O', 'W', 'C', 'O', 'U', 'N', 'T']);
            assert("EXEC_ID"@ =~= seq!['E', 'X', 'E', 'C', '_', 'I', 'D']);
            assert("ms"@ =~= seq!['m', 's']);
        }
        let meta_fields = vec![
            MetaFieldDef { name: "EP", required: true, has_brackets: true, has_colon: false, order: 0 },
            MetaFieldDef { name: "sess", required: true, has_brackets: false, has_colon: true, order: 1 },
            MetaFieldDef { name: "thrd", required: true, has_brackets: false, has_colon: true, order: 2 },
            MetaFieldDef { name: "user", required: true, has_brackets: false, has_colon: true, order: 3 },
            MetaFieldDef { name: "trxid", required: true, has_brackets: false, has_colon: true, order: 4 },
            MetaFieldDef { name: "stmt", required: true, has_brackets: false, has_colon: true, order: 5 },
            MetaFieldDef { name: "appname", required: true, has_brackets: false, has_colon: true, order: 6 },
            MetaFieldDef { name: "ip", required: false, has_brackets: false, has_colon: true, order: 7 },
        ];
        let end_metrics = vec![
            EndMetricDef { keyword: "EXECTIME", unit: Some("ms"), value_type: MetricValueType::UnsignedInt },
            EndMetricDef { keyword: "ROWCOUNT", unit: None, value_type: MetricValueType::UnsignedInt },
            EndMetricDef { keyword: "EXEC_ID", unit: None, value_type: MetricValueType::UnsignedInt },
        ];
        assert forall|i: int| 0 <= i < 8 implies #[trigger] meta_views(meta_fields@)[i] == dmdb_meta_fields()[i] by {}
        assert(meta_views(meta_fields@) =~= dmdb_meta_fields());
        assert forall|i: int| 0 <= i < 3 implies #[trigger] metric_views(end_metrics@)[i] == dmdb_end_metrics()[i] by {}
        assert(metric_views(end_metrics@) =~= dmdb_end_metrics());
        ParserConfig {
            meta_fields,
            end_metrics,
            strict_field_order: true,
            allow_unknown_fields: false,
            timestamp_length: 23,
        }
    }

    /// The meta field definitions by name.
    pub fn meta_field_map(&self) -> (r: MetaFieldMap<'_>)
        ensures
            r.defs() == meta_views(self.meta_fields@),
            r.names() == Seq::new(self.meta_fields@.len(), |i: int| self.meta_fields@[i].name@),
    {
        MetaFieldMap { defs: self.meta_fields.as_slice() }
    }

    /// The metric definitions by keyword.
    pub fn end_metric_map(&self) -> (r: EndMetricMap<'_>)
        ensures
            r.defs() == metric_views(self.end_metrics@),
            r.names() == Seq::new(self.end_metrics@.len(), |i: int| self.end_metrics@[i].keyword@),
    {
        EndMetricMap { defs: self.end_metrics.as_slice() }
    }
}

impl Default for ParserConfig {
    fn default() -> (r: ParserConfig)
        ensures
            meta_views(r.meta_fields@) == dmdb_meta_fields(),
            metric_views(r.end_metrics@) == dmdb_end_metrics(),
            r.strict_field_order,
            !r.allow_unknown_fields,
            r.timestamp_length == 23,
    {
        ParserConfig::dmdb_default()
    }
}

} // verus!
