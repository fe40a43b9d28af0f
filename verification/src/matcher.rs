//! Finding where each of several patterns first occurs in a text, with a
//! double-array Aho-Corasick automaton of the `daachorse` crate.

use vstd::prelude::*;
use daachorse::DoubleArrayAhoCorasick;
use vstd::string::StringSliceAdditionalSpecFns;
use vstd::utf8::encode_utf8;

verus! {

#[verifier::external_type_specification]
#[verifier::external_body]
#[verifier::reject_recursive_types(V)]
pub struct ExDoubleArrayAhoCorasick<V>(DoubleArrayAhoCorasick<V>);

/// The patterns an automaton was built from, in order (pattern `i` has value `i`).
pub uninterp spec fn automaton_patterns(ac: DoubleArrayAhoCorasick<usize>) -> Seq<Seq<u8>>;

/// The matches, as `(start, value)`, that `find_iter` of an automaton built
/// from `patterns` reports in `hay`, in order (non-overlapping, standard
/// Aho-Corasick semantics).
pub uninterp spec fn standard_matches(patterns: Seq<Seq<u8>>, hay: Seq<u8>) -> Seq<(usize, usize)>;

/// Whether `DoubleArrayAhoCorasick::new` accepts the patterns `patterns`
/// (the crate refuses, besides the cases its documentation lists, patterns
/// whose automaton exceeds its size limits).
pub uninterp spec fn automaton_builds(patterns: Seq<Seq<u8>>) -> bool;

/// Some two patterns of `ps` are equal.
pub open spec fn has_duplicate(ps: Seq<Seq<u8>>) -> bool {
    exists|i: int, j: int| 0 <= i < j < ps.len() && ps[i] == ps[j]
}

/// The UTF-8 bytes of each text.
pub open spec fn utf8_patterns(ps: Seq<Seq<char>>) -> Seq<Seq<u8>> {
    Seq::new(ps.len(), |i: int| encode_utf8(ps[i]))
}

/// The bytes of each pattern.
pub open spec fn byte_views(v: Seq<Vec<u8>>) -> Seq<Seq<u8>> {
    Seq::new(v.len(), |i: int| v[i]@)
}

/// Wraps `DoubleArrayAhoCorasick::new`: an automaton holding the patterns
/// `pats` (pattern `i` with value `i`), when the crate accepts them
/// ([`automaton_builds`]); `None` otherwise. As its documentation and source
/// show, it refuses an empty list, an empty pattern and duplicate patterns;
/// which larger pattern sets exceed its size limits is left unsaid.
#[verifier::external_body]
fn build_automaton(pats: &Vec<Vec<u8>>) -> (r: Option<DoubleArrayAhoCorasick<usize>>)
    ensures
        r is Some == automaton_builds(byte_views(pats@)),
        r matches Some(ac) ==> automaton_patterns(ac) == byte_views(pats@),
        pats@.len() == 0 || (exists|i: int| 0 <= i < pats@.len() && pats@[i]@.len() == 0)
            || has_duplicate(byte_views(pats@)) ==> r is None,
{
    DoubleArrayAhoCorasick::new(pats).ok()
}

/// Wraps `DoubleArrayAhoCorasick::find_iter`: the matches in `hay`, each as
/// its start and the value of its pattern, in the order the iterator gives.
#[verifier::external_body]
fn find_matches(ac: &DoubleArrayAhoCorasick<usize>, hay: &[u8]) -> (r: Vec<(usize, usize)>)
    ensures
        r@ == standard_matches(automaton_patterns(*ac), hay@),
{
    ac.find_iter(hay).map(|m| (m.start(), m.value())).collect()
}

/// The start of the first match of `ms` with value `id`.
pub open spec fn first_start(ms: Seq<(usize, usize)>, id: int) -> Option<usize>
    decreases ms.len(),
{
    if ms.len() == 0 {
        None
    } else {
        match first_start(ms.drop_last(), id) {
            Some(s) => Some(s),
            None => if ms.last().1 == id { Some(ms.last().0) } else { None },
        }
    }
}

/// For each of `n` patterns, the start of its first match in `ms`.
pub open spec fn first_positions(ms: Seq<(usize, usize)>, n: nat) -> Seq<Option<usize>> {
    Seq::new(n, |id: int| first_start(ms, id))
}

/// The non-empty patterns of `ps`, as bytes, in order.
pub open spec fn non_empty_patterns(ps: Seq<Seq<char>>) -> Seq<Seq<char>>
    decreases ps.len(),
{
    if ps.len() == 0 {
        Seq::empty()
    } else if ps.last().len() == 0 {
        non_empty_patterns(ps.drop_last())
    } else {
        non_empty_patterns(ps.drop_last()).push(ps.last())
    }
}

/// A set of patterns with an automaton that finds them.
pub struct Matcher {
    ac: DoubleArrayAhoCorasick<usize>,
    patterns: Vec<String>,
}

impl Matcher {
    /// The patterns, in order.
    pub closed spec fn spec_patterns(&self) -> Seq<Seq<char>> {
        Seq::new(self.patterns@.len(), |i: int| self.patterns@[i]@)
    }

    /// The patterns the automaton holds.
    pub closed spec fn pattern_bytes(&self) -> Seq<Seq<u8>> {
        automaton_patterns(self.ac)
    }

    /// A matcher for the non-empty patterns of `patterns`, in order; `None`
    /// when there is none, or when the automaton cannot be built from them
    /// (duplicate patterns, or too large an automaton).
    pub fn from_patterns(patterns: &[&str]) -> (r: Option<Matcher>)
        ensures
            ({
                let ne = non_empty_patterns(Seq::new(patterns@.len(), |i: int| patterns@[i]@));
                &&& r is Some == (ne.len() > 0 && automaton_builds(utf8_patterns(ne)))
                &&& has_duplicate(utf8_patterns(ne)) ==> r is None
            }),
            r matches Some(m) ==> m.spec_patterns() == non_empty_patterns(Seq::new(patterns@.len(), |i: int| patterns@[i]@))
                && m.pattern_bytes() == Seq::new(m.spec_patterns().len(), |i: int| encode_utf8(m.spec_patterns()[i])),
    {
        let ghost views = Seq::new(patterns@.len(), |i: int| patterns@[i]@);
        let mut owned: Vec<String> = Vec::new();
        let mut bufs: Vec<Vec<u8>> = Vec::new();
        let mut i: usize = 0;
        while i < patterns.len()
            invariant
                i <= patterns@.len(),
                views == Seq::new(patterns@.len(), |k: int| patterns@[k]@),
                Seq::new(owned@.len(), |k: int| owned@[k]@) == non_empty_patterns(views.subrange(0, i as int)),
                byte_views(bufs@) == Seq::new(owned@.len(), |k: int| encode_utf8(owned@[k]@)),
            decreases patterns@.len() - i,
        {
            let p = patterns[i];
            let ghost before = Seq::new(owned@.len(), |k: int| owned@[k]@);
            assert(views.subrange(0, i + 1).drop_last() =~= views.subrange(0, i as int));
            assert(views.subrange(0, i + 1).last() == p@);
            if !p.is_empty() {
                let ghost bb = byte_views(bufs@);
                owned.push(p.to_owned());
                bufs.push(bytes_of(p));
                assert(Seq::new(owned@.len(), |k: int| owned@[k]@) =~= before.push(p@));
                assert(byte_views(bufs@) =~= bb.push(encode_utf8(p@)));
                assert(byte_views(bufs@) =~= Seq::new(owned@.len(), |k: int| encode_utf8(owned@[k]@)));
            } else {
                assert(Seq::new(owned@.len(), |k: int| owned@[k]@) =~= before);
            }
            i = i + 1;
        }
        assert(views.subrange(0, patterns@.len() as int) =~= views);
        assert(byte_views(bufs@) =~= utf8_patterns(non_empty_patterns(views)));
        if owned.len() == 0 {
            return None;
        }
        match build_automaton(&bufs) {
            Some(ac) => {
                let m = Matcher { ac, patterns: owned };
                assert(m.spec_patterns() =~= Seq::new(owned@.len(), |k: int| owned@[k]@));
                assert(m.pattern_bytes() =~= Seq::new(m.spec_patterns().len(), |i: int| encode_utf8(m.spec_patterns()[i])));
                Some(m)
            },
            None => None,
        }
    }

    /// The number of patterns.
    pub fn patterns_len(&self) -> (r: usize)
        ensures
            r == self.spec_patterns().len(),
    {
        self.patterns.len()
    }

    /// For each pattern, in order, where its first match in `haystack`
    /// starts (see [`first_positions`]).
    pub fn find_first_positions(&self, haystack: &[u8]) -> (r: Vec<Option<usize>>)
        ensures
            r@ == first_positions(standard_matches(self.pattern_bytes(), haystack@), self.spec_patterns().len()),
    {
        let n = self.patterns.len();
        let ms = find_matches(&self.ac, haystack);
        let mut first: Vec<Option<usize>> = Vec::new();
        let mut j: usize = 0;
        while j < n
            invariant
                j <= n,
                first@.len() == j,
                forall|k: int| 0 <= k < j ==> first@[k] is None,
            decreases n - j,
        {
            first.push(None);
            j = j + 1;
        }
        let mut k: usize = 0;
        while k < ms.len()
            invariant
                k <= ms@.len(),
                first@.len() == n,
                n == self.patterns@.len(),
                forall|id: int| 0 <= id < n ==> first@[id] == first_start(ms@.subrange(0, k as int), id),
            decreases ms@.len() - k,
        {
            let (start, id) = ms[k];
            let ghost pre = ms@.subrange(0, k as int);
            assert(ms@.subrange(0, k + 1).drop_last() =~= pre);
            if id < n && first[id].is_none() {
                first.set(id, Some(start));
            }
            k = k + 1;
        }
        assert(ms@.subrange(0, ms@.len() as int) =~= ms@);
        assert(first@ =~= first_positions(ms@, n as nat));
        first
    }
}

/// The UTF-8 bytes of `s` as a vector.
fn bytes_of(s: &str) -> (r: Vec<u8>)
    ensures
        r@ == s.spec_bytes(),
{
    let b = s.as_bytes();
    let mut v: Vec<u8> = Vec::new();
    let mut i: usize = 0;
    while i < b.len()
        invariant
            i <= b@.len(),
            v@ == b@.subrange(0, i as int),
        decreases b@.len() - i,
    {
        v.push(b[i]);
        i = i + 1;
        assert(v@ =~= b@.subrange(0, i as int));
    }
    assert(b@.subrange(0, b@.len() as int) =~= b@);
    v
}

} // verus!
