//! Association lists: maps with text keys kept as a vector of entries with
//! distinct keys, in insertion order.

use vstd::prelude::*;

verus! {

/// The map of the entries `e`; a later entry for a key wins.
pub open spec fn assoc_map<V>(e: Seq<(Seq<char>, V)>) -> Map<Seq<char>, V>
    decreases e.len(),
{
    if e.len() == 0 {
        Map::empty()
    } else {
        assoc_map(e.drop_last()).insert(e.last().0, e.last().1)
    }
}

/// No key occurs twice in `e`.
pub open spec fn distinct_keys<V>(e: Seq<(Seq<char>, V)>) -> bool {
    forall|i: int, j: int| 0 <= i < j < e.len() ==> e[i].0 != e[j].0
}

/// A key is in the map exactly when an entry has it.
pub proof fn lemma_assoc_dom<V>(e: Seq<(Seq<char>, V)>, k: Seq<char>)
    ensures
        assoc_map(e).dom().contains(k) <==> exists|i: int| 0 <= i < e.len() && e[i].0 == k,
    decreases e.len(),
{
    if e.len() > 0 {
        lemma_assoc_dom(e.drop_last(), k);
        if assoc_map(e.drop_last()).dom().contains(k) {
            let i = choose|i: int| 0 <= i < e.drop_last().len() && e.drop_last()[i].0 == k;
            assert(e[i].0 == k);
        }
        if exists|i: int| 0 <= i < e.len() && e[i].0 == k {
            let i = choose|i: int| 0 <= i < e.len() && e[i].0 == k;
            if i < e.len() - 1 {
                assert(e.drop_last()[i].0 == k);
            }
        }
    }
}

/// With distinct keys, the value of the key of entry `i` is that entry's value.
pub proof fn lemma_assoc_get<V>(e: Seq<(Seq<char>, V)>, i: int)
    requires
        distinct_keys(e),
        0 <= i < e.len(),
    ensures
        assoc_map(e).dom().contains(e[i].0),
        assoc_map(e)[e[i].0] == e[i].1,
    decreases e.len(),
{
    if i < e.len() - 1 {
        assert(e.drop_last()[i] == e[i]);
        lemma_assoc_get(e.drop_last(), i);
        assert(e.last().0 != e[i].0);
    }
}

/// The map is finite and has one key per entry, when the keys are distinct.
pub proof fn lemma_assoc_len<V>(e: Seq<(Seq<char>, V)>)
    requires
        distinct_keys(e),
    ensures
        assoc_map(e).dom().finite(),
        assoc_map(e).dom().len() == e.len(),
    decreases e.len(),
{
    if e.len() > 0 {
        let d = e.drop_last();
        assert(distinct_keys(d)) by {
            assert forall|i: int, j: int| 0 <= i < j < d.len() implies d[i].0 != d[j].0 by {
                assert(d[i] == e[i] && d[j] == e[j]);
            }
        }
        lemma_assoc_len(d);
        lemma_assoc_dom(d, e.last().0);
        if assoc_map(d).dom().contains(e.last().0) {
            let i = choose|i: int| 0 <= i < d.len() && d[i].0 == e.last().0;
            assert(e[i].0 == e[e.len() - 1].0);
        }
    }
}

/// Replacing the value of an existing key is an insertion into the map.
pub proof fn lemma_assoc_update<V>(e: Seq<(Seq<char>, V)>, i: int, v: V)
    requires
        distinct_keys(e),
        0 <= i < e.len(),
    ensures
        distinct_keys(e.update(i, (e[i].0, v))),
        assoc_map(e.update(i, (e[i].0, v))) == assoc_map(e).insert(e[i].0, v),
    decreases e.len(),
{
    let k = e[i].0;
    let u = e.update(i, (k, v));
    assert forall|a: int, b: int| 0 <= a < b < u.len() implies u[a].0 != u[b].0 by {
        assert(u[a].0 == e[a].0 && u[b].0 == e[b].0);
    }
    if i == e.len() - 1 {
        assert(u.drop_last() =~= e.drop_last());
        assert(assoc_map(u) =~= assoc_map(e).insert(k, v));
    } else {
        let d = e.drop_last();
        assert(distinct_keys(d)) by {
            assert forall|a: int, b: int| 0 <= a < b < d.len() implies d[a].0 != d[b].0 by {
                assert(d[a] == e[a] && d[b] == e[b]);
            }
        }
        assert(d[i] == e[i]);
        lemma_assoc_update(d, i, v);
        assert(u.drop_last() =~= d.update(i, (k, v)));
        assert(e.last().0 != k);
        assert(assoc_map(u) =~= assoc_map(e).insert(k, v));
    }
}

/// Appending an entry with a new key keeps the keys distinct.
pub proof fn lemma_assoc_push<V>(e: Seq<(Seq<char>, V)>, k: Seq<char>, v: V)
    requires
        distinct_keys(e),
        forall|i: int| 0 <= i < e.len() ==> e[i].0 != k,
    ensures
        distinct_keys(e.push((k, v))),
        assoc_map(e.push((k, v))) == assoc_map(e).insert(k, v),
{
    let p = e.push((k, v));
    assert(p.drop_last() =~= e);
    assert forall|a: int, b: int| 0 <= a < b < p.len() implies p[a].0 != p[b].0 by {
        if b < e.len() {
            assert(p[a] == e[a] && p[b] == e[b]);
        } else {
            assert(p[a] == e[a]);
        }
    }
}

} // verus!
