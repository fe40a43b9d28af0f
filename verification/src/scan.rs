//! Byte-level searching: the `memchr` family behind small trusted wrappers,
//! and the specifications that say what each search returns.

use vstd::prelude::*;

verus! {

/// An optional index as a `usize`.
pub open spec fn to_usize(o: Option<int>) -> Option<usize> {
    match o {
        Some(i) => Some(i as usize),
        None => None,
    }
}

/// Index of the first `b` in `s`.
pub open spec fn first_byte(s: Seq<u8>, b: u8) -> Option<int>
    decreases s.len(),
{
    if s.len() == 0 {
        None
    } else if s[0] == b {
        Some(0)
    } else {
        match first_byte(s.drop_first(), b) {
            Some(i) => Some(i + 1),
            None => None,
        }
    }
}

/// Index of the last `b` in `s`.
pub open spec fn last_byte(s: Seq<u8>, b: u8) -> Option<int>
    decreases s.len(),
{
    if s.len() == 0 {
        None
    } else if s.last() == b {
        Some(s.len() - 1)
    } else {
        last_byte(s.drop_last(), b)
    }
}

/// Index of the first byte of `s` that is `a` or `b`.
pub open spec fn first_byte2(s: Seq<u8>, a: u8, b: u8) -> Option<int>
    decreases s.len(),
{
    if s.len() == 0 {
        None
    } else if s[0] == a || s[0] == b {
        Some(0)
    } else {
        match first_byte2(s.drop_first(), a, b) {
            Some(i) => Some(i + 1),
            None => None,
        }
    }
}

/// `needle` occurs in `hay` starting at `i`.
pub open spec fn occurs_at(hay: Seq<u8>, needle: Seq<u8>, i: int) -> bool {
    0 <= i && i + needle.len() <= hay.len() && hay.subrange(i, i + needle.len()) =~= needle
}

/// Start of the first occurrence of `needle` in `hay` at or after `from`.
pub open spec fn first_occurrence_from(hay: Seq<u8>, needle: Seq<u8>, from: int) -> Option<int>
    decreases hay.len() - from,
{
    if from < 0 || from + needle.len() > hay.len() {
        None
    } else if occurs_at(hay, needle, from) {
        Some(from)
    } else {
        first_occurrence_from(hay, needle, from + 1)
    }
}

/// Start of the first occurrence of `needle` in `hay`.
pub open spec fn first_occurrence(hay: Seq<u8>, needle: Seq<u8>) -> Option<int> {
    first_occurrence_from(hay, needle, 0)
}

/// Start of the last occurrence of `needle` in `hay` at or before `upto`.
pub open spec fn last_occurrence_upto(hay: Seq<u8>, needle: Seq<u8>, upto: int) -> Option<int>
    decreases upto + 1,
{
    if upto < 0 {
        None
    } else if occurs_at(hay, needle, upto) {
        Some(upto)
    } else {
        last_occurrence_upto(hay, needle, upto - 1)
    }
}

/// Start of the last occurrence of `needle` in `hay`.
pub open spec fn last_occurrence(hay: Seq<u8>, needle: Seq<u8>) -> Option<int> {
    last_occurrence_upto(hay, needle, hay.len() - needle.len())
}

pub broadcast proof fn lemma_first_byte(s: Seq<u8>, b: u8)
    ensures
        match #[trigger] first_byte(s, b) {
            Some(i) => 0 <= i < s.len() && s[i] == b && forall|j: int| 0 <= j < i ==> s[j] != b,
            None => forall|j: int| 0 <= j < s.len() ==> s[j] != b,
        },
    decreases s.len(),
{
    if s.len() > 0 && s[0] != b {
        lemma_first_byte(s.drop_first(), b);
        assert forall|j: int| 0 < j < s.len() implies s[j] == s.drop_first()[j - 1] by {}
    }
}

pub broadcast proof fn lemma_last_byte(s: Seq<u8>, b: u8)
    ensures
        match #[trigger] last_byte(s, b) {
            Some(i) => 0 <= i < s.len() && s[i] == b && forall|j: int| i < j < s.len() ==> s[j] != b,
            None => forall|j: int| 0 <= j < s.len() ==> s[j] != b,
        },
    decreases s.len(),
{
    if s.len() > 0 && s.last() != b {
        lemma_last_byte(s.drop_last(), b);
        assert forall|j: int| 0 <= j < s.len() - 1 implies s[j] == s.drop_last()[j] by {}
    }
}

pub broadcast proof fn lemma_first_byte2(s: Seq<u8>, a: u8, b: u8)
    ensures
        match #[trigger] first_byte2(s, a, b) {
            Some(i) => 0 <= i < s.len() && (s[i] == a || s[i] == b)
                && forall|j: int| 0 <= j < i ==> s[j] != a && s[j] != b,
            None => forall|j: int| 0 <= j < s.len() ==> s[j] != a && s[j] != b,
        },
    decreases s.len(),
{
    if s.len() > 0 && s[0] != a && s[0] != b {
        lemma_first_byte2(s.drop_first(), a, b);
        assert forall|j: int| 0 < j < s.len() implies s[j] == s.drop_first()[j - 1] by {}
    }
}

pub proof fn lemma_first_occurrence_from(hay: Seq<u8>, needle: Seq<u8>, from: int)
    requires
        0 <= from,
    ensures
        match first_occurrence_from(hay, needle, from) {
            Some(i) => from <= i && occurs_at(hay, needle, i)
                && forall|j: int| from <= j < i ==> !occurs_at(hay, needle, j),
            None => forall|j: int| from <= j ==> !occurs_at(hay, needle, j),
        },
    decreases hay.len() - from,
{
    if from + needle.len() <= hay.len() && !occurs_at(hay, needle, from) {
        lemma_first_occurrence_from(hay, needle, from + 1);
    }
}

pub broadcast proof fn lemma_first_occurrence(hay: Seq<u8>, needle: Seq<u8>)
    ensures
        match #[trigger] first_occurrence(hay, needle) {
            Some(i) => occurs_at(hay, needle, i) && forall|j: int| 0 <= j < i ==> !occurs_at(hay, needle, j),
            None => forall|j: int| !occurs_at(hay, needle, j),
        },
{
    lemma_first_occurrence_from(hay, needle, 0);
}

pub proof fn lemma_last_occurrence_upto(hay: Seq<u8>, needle: Seq<u8>, upto: int)
    requires
        upto + needle.len() <= hay.len(),
    ensures
        match last_occurrence_upto(hay, needle, upto) {
            Some(i) => 0 <= i <= upto && occurs_at(hay, needle, i)
                && forall|j: int| i < j <= upto ==> !occurs_at(hay, needle, j),
            None => forall|j: int| j <= upto ==> !occurs_at(hay, needle, j),
        },
    decreases upto + 1,
{
    if upto >= 0 && !occurs_at(hay, needle, upto) {
        lemma_last_occurrence_upto(hay, needle, upto - 1);
    }
}

pub broadcast proof fn lemma_last_occurrence(hay: Seq<u8>, needle: Seq<u8>)
    ensures
        match #[trigger] last_occurrence(hay, needle) {
            Some(i) => occurs_at(hay, needle, i) && forall|j: int| i < j ==> !occurs_at(hay, needle, j),
            None => forall|j: int| !occurs_at(hay, needle, j),
        },
{
    lemma_last_occurrence_upto(hay, needle, hay.len() - needle.len());
}

pub broadcast group group_scan {
    lemma_first_byte,
    lemma_last_byte,
    lemma_first_byte2,
    lemma_first_occurrence,
    lemma_last_occurrence,
}

/// Wraps `memchr::memchr`: the index of the first `needle` byte in `haystack`.
#[verifier::external_body]
pub(crate) fn find_byte(needle: u8, haystack: &[u8]) -> (r: Option<usize>)
    ensures
        r == to_usize(first_byte(haystack@, needle)),
        r matches Some(i) ==> i < haystack@.len(),
{
    memchr::memchr(needle, haystack)
}

/// Wraps `memchr::memrchr`: the index of the last `needle` byte in `haystack`.
#[verifier::external_body]
pub(crate) fn rfind_byte(needle: u8, haystack: &[u8]) -> (r: Option<usize>)
    ensures
        r == to_usize(last_byte(haystack@, needle)),
        r matches Some(i) ==> i < haystack@.len(),
{
    memchr::memrchr(needle, haystack)
}

/// Wraps `memchr::memchr2`: the index of the first byte that is `a` or `b`.
#[verifier::external_body]
pub(crate) fn find_byte2(a: u8, b: u8, haystack: &[u8]) -> (r: Option<usize>)
    ensures
        r == to_usize(first_byte2(haystack@, a, b)),
        r matches Some(i) ==> i < haystack@.len(),
{
    memchr::memchr2(a, b, haystack)
}

/// Wraps `memchr::memmem::find`: the start of the first occurrence of a
/// non-empty `needle` in `haystack`.
#[verifier::external_body]
pub(crate) fn find_bytes(haystack: &[u8], needle: &[u8]) -> (r: Option<usize>)
    requires
        needle@.len() > 0,
    ensures
        r == to_usize(first_occurrence(haystack@, needle@)),
{
    memchr::memmem::find(haystack, needle)
}

/// Wraps `memchr::memmem::rfind`: the start of the last occurrence of a
/// non-empty `needle` in `haystack`.
#[verifier::external_body]
pub(crate) fn rfind_bytes(haystack: &[u8], needle: &[u8]) -> (r: Option<usize>)
    requires
        needle@.len() > 0,
    ensures
        r == to_usize(last_occurrence(haystack@, needle@)),
{
    memchr::memmem::rfind(haystack, needle)
}

/// Whether `s` begins with `prefix`.
pub fn starts_with(s: &[u8], prefix: &[u8]) -> (r: bool)
    ensures
        r == (prefix@.len() <= s@.len() && s@.subrange(0, prefix@.len() as int) =~= prefix@),
{
    if prefix.len() > s.len() {
        return false;
    }
    let mut i: usize = 0;
    while i < prefix.len()
        invariant
            prefix@.len() <= s@.len(),
            i <= prefix@.len(),
            forall|j: int| 0 <= j < i ==> s@[j] == prefix@[j],
        decreases prefix@.len() - i,
    {
        if s[i] != prefix[i] {
            assert(s@.subrange(0, prefix@.len() as int)[i as int] != prefix@[i as int]);
            return false;
        }
        i = i + 1;
    }
    true
}

/// Whether the bytes of `s` equal those of `t`.
pub fn bytes_eq(s: &[u8], t: &[u8]) -> (r: bool)
    ensures
        r == (s@ =~= t@),
{
    if s.len() != t.len() {
        return false;
    }
    let mut i: usize = 0;
    while i < s.len()
        invariant
            s@.len() == t@.len(),
            i <= s@.len(),
            forall|j: int| 0 <= j < i ==> s@[j] == t@[j],
        decreases s@.len() - i,
    {
        if s[i] != t[i] {
            return false;
        }
        i = i + 1;
    }
    true
}

/// ASCII whitespace as `u8::is_ascii_whitespace` defines it.
pub open spec fn is_ascii_ws(b: u8) -> bool {
    b == 32u8 || b == 9u8 || b == 10u8 || b == 12u8 || b == 13u8
}

pub fn ascii_ws(b: u8) -> (r: bool)
    ensures
        r == is_ascii_ws(b),
{
    b == 32 || b == 9 || b == 10 || b == 12 || b == 13
}

/// Number of leading ASCII whitespace bytes of `s`.
pub open spec fn leading_ws(s: Seq<u8>) -> nat
    decreases s.len(),
{
    if s.len() > 0 && is_ascii_ws(s[0]) {
        1 + leading_ws(s.drop_first())
    } else {
        0
    }
}

/// Number of trailing ASCII whitespace bytes of `s`.
pub open spec fn trailing_ws(s: Seq<u8>) -> nat
    decreases s.len(),
{
    if s.len() > 0 && is_ascii_ws(s.last()) {
        1 + trailing_ws(s.drop_last())
    } else {
        0
    }
}

/// `s` without leading and trailing ASCII whitespace (`<[u8]>::trim_ascii`).
pub open spec fn trim_ascii_spec(s: Seq<u8>) -> Seq<u8> {
    let a = leading_ws(s) as int;
    if a == s.len() {
        Seq::empty()
    } else {
        s.subrange(a, s.len() - trailing_ws(s) as int)
    }
}

proof fn lemma_leading_ws(s: Seq<u8>, k: int)
    requires
        0 <= k <= s.len(),
        forall|j: int| 0 <= j < k ==> is_ascii_ws(s[j]),
        k == s.len() || !is_ascii_ws(s[k]),
    ensures
        leading_ws(s) == k,
    decreases k,
{
    if k > 0 {
        lemma_leading_ws(s.drop_first(), k - 1);
    }
}

proof fn lemma_trailing_ws(s: Seq<u8>, k: int)
    requires
        0 <= k <= s.len(),
        forall|j: int| s.len() - k <= j < s.len() ==> is_ascii_ws(s[j]),
        k == s.len() || !is_ascii_ws(s[s.len() - k - 1]),
    ensures
        trailing_ws(s) == k,
    decreases k,
{
    if k > 0 {
        lemma_trailing_ws(s.drop_last(), k - 1);
    }
}

/// Bounds `(start, end)` of `s` without surrounding ASCII whitespace.
pub fn trim_ascii_bounds(s: &[u8]) -> (r: (usize, usize))
    ensures
        r.0 <= r.1 <= s@.len(),
        s@.subrange(r.0 as int, r.1 as int) =~= trim_ascii_spec(s@),
{
    let mut a: usize = 0;
    while a < s.len() && ascii_ws(s[a])
        invariant
            a <= s@.len(),
            forall|j: int| 0 <= j < a ==> is_ascii_ws(s@[j]),
        decreases s@.len() - a,
    {
        a = a + 1;
    }
    proof {
        lemma_leading_ws(s@, a as int);
    }
    if a == s.len() {
        return (a, a);
    }
    let mut b: usize = s.len();
    while b > a && ascii_ws(s[b - 1])
        invariant
            a < s@.len(),
            !is_ascii_ws(s@[a as int]),
            a <= b <= s@.len(),
            forall|j: int| b <= j < s@.len() ==> is_ascii_ws(s@[j]),
        decreases b,
    {
        b = b - 1;
    }
    proof {
        lemma_trailing_ws(s@, s@.len() - b);
    }
    (a, b)
}

} // verus!
