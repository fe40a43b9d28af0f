//! Searching character sequences, for the parsers that work on `&str` lines.

use vstd::prelude::*;
use crate::scan::to_usize;

verus! {

/// Index of the first `x` in `s`.
pub open spec fn first_idx<T>(s: Seq<T>, x: T) -> Option<int>
    decreases s.len(),
{
    if s.len() == 0 {
        None
    } else if s[0] == x {
        Some(0)
    } else {
        match first_idx(s.drop_first(), x) {
            Some(i) => Some(i + 1),
            None => None,
        }
    }
}

pub broadcast proof fn lemma_first_idx<T>(s: Seq<T>, x: T)
    ensures
        match #[trigger] first_idx(s, x) {
            Some(i) => 0 <= i < s.len() && s[i] == x && forall|j: int| 0 <= j < i ==> s[j] != x,
            None => forall|j: int| 0 <= j < s.len() ==> s[j] != x,
        },
    decreases s.len(),
{
    if s.len() > 0 && s[0] != x {
        lemma_first_idx(s.drop_first(), x);
        assert forall|j: int| 0 < j < s.len() implies s[j] == s.drop_first()[j - 1] by {}
    }
}

/// `s` begins with `p`.
pub open spec fn seq_has_prefix<T>(s: Seq<T>, p: Seq<T>) -> bool {
    p.len() <= s.len() && s.subrange(0, p.len() as int) =~= p
}

/// `p` occurs in `s` at `i`.
pub open spec fn seq_occurs_at<T>(s: Seq<T>, p: Seq<T>, i: int) -> bool {
    0 <= i && i + p.len() <= s.len() && s.subrange(i, i + p.len()) =~= p
}

pub open spec fn first_sub_from<T>(s: Seq<T>, p: Seq<T>, from: int) -> Option<int>
    decreases s.len() - from,
{
    if from < 0 || from + p.len() > s.len() {
        None
    } else if seq_occurs_at(s, p, from) {
        Some(from)
    } else {
        first_sub_from(s, p, from + 1)
    }
}

/// Start of the first occurrence of `p` in `s`.
pub open spec fn first_sub<T>(s: Seq<T>, p: Seq<T>) -> Option<int> {
    first_sub_from(s, p, 0)
}

pub proof fn lemma_first_sub_from<T>(s: Seq<T>, p: Seq<T>, from: int)
    requires
        0 <= from,
    ensures
        match first_sub_from(s, p, from) {
            Some(i) => from <= i && seq_occurs_at(s, p, i)
                && forall|j: int| from <= j < i ==> !seq_occurs_at(s, p, j),
            None => forall|j: int| from <= j ==> !seq_occurs_at(s, p, j),
        },
    decreases s.len() - from,
{
    if from + p.len() <= s.len() && !seq_occurs_at(s, p, from) {
        lemma_first_sub_from(s, p, from + 1);
    }
}

pub broadcast proof fn lemma_first_sub<T>(s: Seq<T>, p: Seq<T>)
    ensures
        match #[trigger] first_sub(s, p) {
            Some(i) => seq_occurs_at(s, p, i) && forall|j: int| 0 <= j < i ==> !seq_occurs_at(s, p, j),
            None => forall|j: int| !seq_occurs_at(s, p, j),
        },
{
    lemma_first_sub_from(s, p, 0);
}

pub broadcast group group_chars {
    lemma_first_idx,
    lemma_first_sub,
}

/// Index, relative to `a`, of the first `c` in `s[a..b]`.
pub fn find_char(s: &[char], a: usize, b: usize, c: char) -> (r: Option<usize>)
    requires
        a <= b <= s@.len(),
    ensures
        r == to_usize(first_idx(s@.subrange(a as int, b as int), c)),
{
    let ghost t = s@.subrange(a as int, b as int);
    proof {
        lemma_first_idx(t, c);
    }
    let mut i = a;
    while i < b
        invariant
            a <= i <= b <= s@.len(),
            t == s@.subrange(a as int, b as int),
            forall|j: int| 0 <= j < i - a ==> t[j] != c,
        decreases b - i,
    {
        if s[i] == c {
            assert(t[i - a] == c);
            let k = i - a;
            assert(first_idx(t, c) == Some(k as int)) by {
                lemma_first_idx(t, c);
                match first_idx(t, c) {
                    Some(j) => {
                        if j < k {
                            assert(t[j] != c);
                        } else if j > k {
                            assert(t[k as int] != c);
                        }
                    },
                    None => {
                        assert(t[k as int] != c);
                    },
                }
            }
            return Some(k);
        }
        i = i + 1;
    }
    proof {
        lemma_first_idx(t, c);
    }
    None
}

/// Whether `s[a..b]` begins with `p`.
pub fn prefix_at(s: &[char], a: usize, b: usize, p: &[char]) -> (r: bool)
    requires
        a <= b <= s@.len(),
    ensures
        r == seq_has_prefix(s@.subrange(a as int, b as int), p@),
{
    let ghost t = s@.subrange(a as int, b as int);
    if p.len() > b - a {
        return false;
    }
    let mut i: usize = 0;
    while i < p.len()
        invariant
            a <= b <= s@.len(),
            p@.len() <= b - a,
            t == s@.subrange(a as int, b as int),
            i <= p@.len(),
            forall|j: int| 0 <= j < i ==> t[j] == p@[j],
        decreases p@.len() - i,
    {
        if s[a + i] != p[i] {
            assert(t.subrange(0, p@.len() as int)[i as int] == s@[a + i]);
            return false;
        }
        i = i + 1;
    }
    true
}

/// Index, relative to `a`, of the first occurrence of the non-empty `p` in `s[a..b]`.
pub fn find_chars(s: &[char], a: usize, b: usize, p: &[char]) -> (r: Option<usize>)
    requires
        a <= b <= s@.len(),
        p@.len() > 0,
    ensures
        r == to_usize(first_sub(s@.subrange(a as int, b as int), p@)),
{
    let ghost t = s@.subrange(a as int, b as int);
    proof {
        lemma_first_sub(t, p@);
    }
    if p.len() > b - a {
        return None;
    }
    let mut i = a;
    while i <= b - p.len()
        invariant
            a <= i <= b <= s@.len(),
            p@.len() <= b - a,
            p@.len() > 0,
            t == s@.subrange(a as int, b as int),
            forall|j: int| 0 <= j < i - a ==> !seq_occurs_at(t, p@, j),
        decreases b - i,
    {
        if prefix_at(s, i, b, p) {
            assert(t.subrange(i - a, i - a + p@.len()) =~= s@.subrange(i as int, b as int).subrange(0, p@.len() as int));
            let k = i - a;
            assert(first_sub(t, p@) == Some(k as int)) by {
                lemma_first_sub(t, p@);
                match first_sub(t, p@) {
                    Some(j) => {
                        if j < k {
                            assert(!seq_occurs_at(t, p@, j));
                        } else if j > k {
                            assert(!seq_occurs_at(t, p@, k as int));
                        }
                    },
                    None => {
                        assert(!seq_occurs_at(t, p@, k as int));
                    },
                }
            }
            return Some(k);
        }
        assert(!seq_occurs_at(t, p@, i - a)) by {
            assert(t.subrange(i - a, i - a + p@.len()) =~= s@.subrange(i as int, b as int).subrange(0, p@.len() as int));
        }
        i = i + 1;
    }
    proof {
        lemma_first_sub(t, p@);
    }
    None
}

} // verus!
