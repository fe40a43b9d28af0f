//! A record split into its four parts (timestamp, meta, body, indicators),
//! and those parts parsed into named fields and metrics.

use vstd::prelude::*;
use crate::assoc::{assoc_map, distinct_keys, lemma_assoc_dom, lemma_assoc_get, lemma_assoc_len,
    lemma_assoc_update, lemma_assoc_push};
use crate::text::str_eq;

verus! {

/// The four parts of a record, as slices of its text: the timestamp, the
/// meta part (inside the parentheses), the SQL body, and the indicators.
#[derive(Debug, Clone, PartialEq, Eq)]
pub struct RecordParts<'a> {
    /// Timestamp `YYYY-MM-DD HH:MM:SS.mmm`.
    pub ts: &'a str,
    /// The meta part.
    pub meta: &'a str,
    /// The SQL body (possibly empty, possibly several lines).
    pub body: &'a str,
    /// The indicators, if any.
    pub end: Option<&'a str>,
}

/// The texts of the entries of a name/text list.
pub open spec fn text_entries<'a>(v: Seq<(&'static str, &'a str)>) -> Seq<(Seq<char>, Seq<char>)> {
    Seq::new(v.len(), |i: int| (v[i].0@, v[i].1@))
}

/// The texts of the entries of a name/number list.
pub open spec fn metric_entries(v: Seq<(&'static str, u64)>) -> Seq<(Seq<char>, u64)> {
    Seq::new(v.len(), |i: int| (v[i].0@, v[i].1))
}

/// Meta fields by name.
#[derive(Debug, Clone)]
pub struct ParsedMeta<'a> {
    fields: Vec<(&'static str, &'a str)>,
}

impl<'a> ParsedMeta<'a> {
    /// The fields by name.
    pub closed spec fn map(&self) -> Map<Seq<char>, Seq<char>> {
        assoc_map(text_entries(self.fields@))
    }

    /// The names of the fields, each once.
    pub closed spec fn wf(&self) -> bool {
        distinct_keys(text_entries(self.fields@))
    }

    /// No fields.
    pub fn new() -> (r: ParsedMeta<'a>)
        ensures
            r.wf(),
            r.map() == Map::<Seq<char>, Seq<char>>::empty(),
    {
        let r = ParsedMeta { fields: Vec::new() };
        assert(text_entries(r.fields@) =~= Seq::<(Seq<char>, Seq<char>)>::empty());
        r
    }

    /// Sets the field `name` to `value`.
    pub fn insert(&mut self, name: &'static str, value: &'a str)
        requires
            old(self).wf(),
        ensures
            final(self).wf(),
            final(self).map() == old(self).map().insert(name@, value@),
    {
        let ghost e = text_entries(self.fields@);
        let mut i: usize = 0;
        while i < self.fields.len()
            invariant
                e == text_entries(self.fields@),
                distinct_keys(e),
                e == text_entries(old(self).fields@),
                i <= self.fields@.len(),
                forall|j: int| 0 <= j < i ==> e[j].0 != name@,
            decreases self.fields@.len() - i,
        {
            if str_eq(self.fields[i].0, name) {
                proof {
                    lemma_assoc_update(e, i as int, value@);
                }
                self.fields.set(i, (name, value));
                assert(text_entries(self.fields@) =~= e.update(i as int, (e[i as int].0, value@)));
                return;
            }
            i = i + 1;
        }
        proof {
            lemma_assoc_push(e, name@, value@);
        }
        self.fields.push((name, value));
        assert(text_entries(self.fields@) =~= e.push((name@, value@)));
    }

    /// The index of the field `name`.
    fn find(&self, name: &str) -> (r: Option<usize>)
        requires
            self.wf(),
        ensures
            match r {
                Some(i) => i < self.fields@.len() && self.fields@[i as int].0@ == name@
                    && self.map().dom().contains(name@) && self.map()[name@] == self.fields@[i as int].1@,
                None => !self.map().dom().contains(name@),
            },
    {
        let ghost e = text_entries(self.fields@);
        let mut i: usize = 0;
        while i < self.fields.len()
            invariant
                e == text_entries(self.fields@),
                distinct_keys(e),
                i <= self.fields@.len(),
                forall|j: int| 0 <= j < i ==> e[j].0 != name@,
            decreases self.fields@.len() - i,
        {
            if str_eq(self.fields[i].0, name) {
                proof {
                    lemma_assoc_get(e, i as int);
                }
                return Some(i);
            }
            i = i + 1;
        }
        proof {
            lemma_assoc_dom(e, name@);
        }
        None
    }

    /// The value of the field `name`.
    pub fn get(&self, name: &str) -> (r: Option<&'a str>)
        requires
            self.wf(),
        ensures
            match r {
                Some(v) => self.map().dom().contains(name@) && self.map()[name@] == v@,
                None => !self.map().dom().contains(name@),
            },
    {
        match self.find(name) {
            Some(i) => Some(self.fields[i].1),
            None => None,
        }
    }

    /// The value of the field `name`, or an empty text when it is absent.
    pub fn get_or_empty(&self, name: &str) -> (r: &'a str)
        requires
            self.wf(),
        ensures
            r@ == (if self.map().dom().contains(name@) { self.map()[name@] } else { Seq::empty() }),
    {
        match self.find(name) {
            Some(i) => self.fields[i].1,
            None => {
                proof {
                    reveal_strlit("");
                }
                ""
            },
        }
    }

    /// Whether the field `name` is present.
    pub fn contains(&self, name: &str) -> (r: bool)
        requires
            self.wf(),
        ensures
            r == self.map().dom().contains(name@),
    {
        self.find(name).is_some()
    }

    /// The names of the fields, each once.
    pub fn field_names(&self) -> (r: Vec<&'static str>)
        requires
            self.wf(),
        ensures
            r@.len() == self.map().dom().len(),
            forall|i: int| 0 <= i < r@.len() ==> self.map().dom().contains(#[trigger] r@[i]@),
            forall|i: int, j: int| 0 <= i < j < r@.len() ==> r@[i]@ != r@[j]@,
            forall|n: Seq<char>| #[trigger] self.map().dom().contains(n) ==> exists|i: int| 0 <= i < r@.len() && r@[i]@ == n,
            self.map().dom().finite(),
    {
        let ghost e = text_entries(self.fields@);
        proof {
            lemma_assoc_len(e);
        }
        let mut out: Vec<&'static str> = Vec::new();
        let mut i: usize = 0;
        while i < self.fields.len()
            invariant
                e == text_entries(self.fields@),
                distinct_keys(e),
                i <= self.fields@.len(),
                out@.len() == i,
                forall|j: int| 0 <= j < i ==> (#[trigger] out@[j])@ == e[j].0,
            decreases self.fields@.len() - i,
        {
            out.push(self.fields[i].0);
            i = i + 1;
        }
        assert forall|j: int| 0 <= j < out@.len() implies self.map().dom().contains(#[trigger] out@[j]@) by {
            lemma_assoc_get(e, j);
        }
        assert forall|n: Seq<char>| #[trigger] self.map().dom().contains(n) implies exists|i: int|
            0 <= i < out@.len() && out@[i]@ == n by {
            lemma_assoc_dom(e, n);
            let i = choose|i: int| 0 <= i < e.len() && e[i].0 == n;
            assert(out@[i]@ == n);
        }
        out
    }

    /// After the field `name` is set to `value`, reading `name` gives `value`,
    /// every other field reads as before, and the number of fields grows by
    /// one exactly when `name` was absent.
    pub proof fn lemma_insert_then_get(
        before: ParsedMeta<'a>,
        after: ParsedMeta<'a>,
        name: Seq<char>,
        value: Seq<char>,
        other: Seq<char>,
    )
        requires
            before.wf(),
            after.wf(),
            after.map() == before.map().insert(name, value),
        ensures
            after.map().dom().contains(name),
            after.map()[name] == value,
            other != name ==> after.map().dom().contains(other) == before.map().dom().contains(other),
            other != name && before.map().dom().contains(other) ==> after.map()[other] == before.map()[other],
            after.map().dom().len() == before.map().dom().len() + (if before.map().dom().contains(name) { 0int } else { 1int }),
    {
        lemma_assoc_len(text_entries(before.fields@));
    }

    /// The number of fields.
    pub fn len(&self) -> (r: usize)
        requires
            self.wf(),
        ensures
            r == self.map().dom().len(),
    {
        proof {
            lemma_assoc_len(text_entries(self.fields@));
        }
        self.fields.len()
    }

    /// Whether there are no fields.
    pub fn is_empty(&self) -> (r: bool)
        requires
            self.wf(),
        ensures
            r == (self.map().dom().len() == 0),
    {
        proof {
            lemma_assoc_len(text_entries(self.fields@));
        }
        self.fields.len() == 0
    }
}

/// Metrics by name.
#[derive(Debug, Clone)]
pub struct ParsedEnd {
    metrics: Vec<(&'static str, u64)>,
}

impl ParsedEnd {
    /// The metrics by name.
    pub closed spec fn map(&self) -> Map<Seq<char>, u64> {
        assoc_map(metric_entries(self.metrics@))
    }

    /// The names of the metrics, each once.
    pub closed spec fn wf(&self) -> bool {
        distinct_keys(metric_entries(self.metrics@))
    }

    /// No metrics.
    pub fn new() -> (r: ParsedEnd)
        ensures
            r.wf(),
            r.map() == Map::<Seq<char>, u64>::empty(),
    {
        let r = ParsedEnd { metrics: Vec::new() };
        assert(metric_entries(r.metrics@) =~= Seq::<(Seq<char>, u64)>::empty());
        r
    }

    /// Sets the metric `name` to `value`.
    pub fn insert(&mut self, name: &'static str, value: u64)
        requires
            old(self).wf(),
        ensures
            final(self).wf(),
            final(self).map() == old(self).map().insert(name@, value),
    {
        let ghost e = metric_entries(self.metrics@);
        let mut i: usize = 0;
        while i < self.metrics.len()
            invariant
                e == metric_entries(self.metrics@),
                distinct_keys(e),
                e == metric_entries(old(self).metrics@),
                i <= self.metrics@.len(),
                forall|j: int| 0 <= j < i ==> e[j].0 != name@,
            decreases self.metrics@.len() - i,
        {
            if str_eq(self.metrics[i].0, name) {
                proof {
                    lemma_assoc_update(e, i as int, value);
                }
                self.metrics.set(i, (name, value));
                assert(metric_entries(self.metrics@) =~= e.update(i as int, (e[i as int].0, value)));
                return;
            }
            i = i + 1;
        }
        proof {
            lemma_assoc_push(e, name@, value);
        }
        self.metrics.push((name, value));
        assert(metric_entries(self.metrics@) =~= e.push((name@, value)));
    }

    /// The index of the metric `name`.
    fn find(&self, name: &str) -> (r: Option<usize>)
        requires
            self.wf(),
        ensures
            match r {
                Some(i) => i < self.metrics@.len() && self.map().dom().contains(name@)
                    && self.map()[name@] == self.metrics@[i as int].1,
                None => !self.map().dom().contains(name@),
            },
    {
        let ghost e = metric_entries(self.metrics@);
        let mut i: usize = 0;
        while i < self.metrics.len()
            invariant
                e == metric_entries(self.metrics@),
                distinct_keys(e),
                i <= self.metrics@.len(),
                forall|j: int| 0 <= j < i ==> e[j].0 != name@,
            decreases self.metrics@.len() - i,
        {
            if str_eq(self.metrics[i].0, name) {
                proof {
                    lemma_assoc_get(e, i as int);
                }
                return Some(i);
            }
            i = i + 1;
        }
        proof {
            lemma_assoc_dom(e, name@);
        }
        None
    }

    /// The value of the metric `name`.
    pub fn get(&self, name: &str) -> (r: Option<u64>)
        requires
            self.wf(),
        ensures
            match r {
                Some(v) => self.map().dom().contains(name@) && self.map()[name@] == v,
                None => !self.map().dom().contains(name@),
            },
    {
        match self.find(name) {
            Some(i) => Some(self.metrics[i].1),
            None => None,
        }
    }

    /// Whether the metric `name` is present.
    pub fn contains(&self, name: &str) -> (r: bool)
        requires
            self.wf(),
        ensures
            r == self.map().dom().contains(name@),
    {
        self.find(name).is_some()
    }

    /// The names of the metrics, each once.
    pub fn metric_names(&self) -> (r: Vec<&'static str>)
        requires
            self.wf(),
        ensures
            r@.len() == self.map().dom().len(),
            forall|i: int| 0 <= i < r@.len() ==> self.map().dom().contains(#[trigger] r@[i]@),
            forall|i: int, j: int| 0 <= i < j < r@.len() ==> r@[i]@ != r@[j]@,
            forall|n: Seq<char>| #[trigger] self.map().dom().contains(n) ==> exists|i: int| 0 <= i < r@.len() && r@[i]@ == n,
            self.map().dom().finite(),
    {
        let ghost e = metric_entries(self.metrics@);
        proof {
            lemma_assoc_len(e);
        }
        let mut out: Vec<&'static str> = Vec::new();
        let mut i: usize = 0;
        while i < self.metrics.len()
            invariant
                e == metric_entries(self.metrics@),
                distinct_keys(e),
                i <= self.metrics@.len(),
                out@.len() == i,
                forall|j: int| 0 <= j < i ==> (#[trigger] out@[j])@ == e[j].0,
            decreases self.metrics@.len() - i,
        {
            out.push(self.metrics[i].0);
            i = i + 1;
        }
        assert forall|j: int| 0 <= j < out@.len() implies self.map().dom().contains(#[trigger] out@[j]@) by {
            lemma_assoc_get(e, j);
        }
        assert forall|n: Seq<char>| #[trigger] self.map().dom().contains(n) implies exists|i: int|
            0 <= i < out@.len() && out@[i]@ == n by {
            lemma_assoc_dom(e, n);
            let i = choose|i: int| 0 <= i < e.len() && e[i].0 == n;
            assert(out@[i]@ == n);
        }
        out
    }

    /// After the metric `name` is set to `value`, reading `name` gives
    /// `value`, every other metric reads as before, and the number of metrics
    /// grows by one exactly when `name` was absent.
    pub proof fn lemma_insert_then_get(before: ParsedEnd, after: ParsedEnd, name: Seq<char>, value: u64, other: Seq<char>)
        requires
            before.wf(),
            after.wf(),
            after.map() == before.map().insert(name, value),
        ensures
            after.map().dom().contains(name),
            after.map()[name] == value,
            other != name ==> after.map().dom().contains(other) == before.map().dom().contains(other),
            other != name && before.map().dom().contains(other) ==> after.map()[other] == before.map()[other],
            after.map().dom().len() == before.map().dom().len() + (if before.map().dom().contains(name) { 0int } else { 1int }),
    {
        lemma_assoc_len(metric_entries(before.metrics@));
    }

    /// The number of metrics.
    pub fn len(&self) -> (r: usize)
        requires
            self.wf(),
        ensures
            r == self.map().dom().len(),
    {
        proof {
            lemma_assoc_len(metric_entries(self.metrics@));
        }
        self.metrics.len()
    }

    /// Whether there are no metrics.
    pub fn is_empty(&self) -> (r: bool)
        requires
            self.wf(),
        ensures
            r == (self.map().dom().len() == 0),
    {
        proof {
            lemma_assoc_len(metric_entries(self.metrics@));
        }
        self.metrics.len() == 0
    }
}

/// A record with its meta fields and metrics parsed.
#[derive(Debug, Clone)]
pub struct ParsedRecord<'a> {
    /// Timestamp.
    pub ts: &'a str,
    /// Meta fields.
    pub meta: ParsedMeta<'a>,
    /// SQL body.
    pub body: &'a str,
    /// Metrics, if any.
    pub end: Option<ParsedEnd>,
}

impl<'a> ParsedRecord<'a> {
    /// A record from its parts and its parsed meta fields and metrics.
    pub fn from_parts(parts: RecordParts<'a>, meta: ParsedMeta<'a>, end: Option<ParsedEnd>) -> (r: ParsedRecord<'a>)
        ensures
            r.ts == parts.ts,
            r.body == parts.body,
            r.meta == meta,
            r.end == end,
    {
        ParsedRecord { ts: parts.ts, meta, body: parts.body, end }
    }

    /// The value of the meta field `name`.
    pub fn get_meta(&self, name: &str) -> (r: Option<&'a str>)
        requires
            self.meta.wf(),
        ensures
            match r {
                Some(v) => self.meta.map().dom().contains(name@) && self.meta.map()[name@] == v@,
                None => !self.meta.map().dom().contains(name@),
            },
    {
        self.meta.get(name)
    }

    /// The value of the metric `name`, if the record has metrics.
    pub fn get_metric(&self, name: &str) -> (r: Option<u64>)
        requires
            self.end matches Some(e) ==> e.wf(),
        ensures
            match self.end {
                Some(e) => match r {
                    Some(v) => e.map().dom().contains(name@) && e.map()[name@] == v,
                    None => !e.map().dom().contains(name@),
                },
                None => r is None,
            },
    {
        match &self.end {
            Some(e) => e.get(name),
            None => None,
        }
    }
}

} // verus!
