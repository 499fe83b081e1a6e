use vstd::prelude::*;

verus! {

/// The map that a list of key/value pairs denotes when the pairs are
/// inserted in order: a later pair replaces an earlier one with the same key.
pub open spec fn pairs_map<K, V>(s: Seq<(K, V)>) -> Map<K, V>
    decreases s.len(),
{
    if s.len() == 0 {
        Map::empty()
    } else {
        pairs_map(s.drop_last()).insert(s.last().0, s.last().1)
    }
}

/// A list of pairs denotes a map with finitely many keys.
pub proof fn lemma_pairs_map_finite<K, V>(s: Seq<(K, V)>)
    ensures
        pairs_map(s).dom().finite(),
    decreases s.len(),
{
    if s.len() > 0 {
        lemma_pairs_map_finite(s.drop_last());
    }
}

/// The keys of `pairs_map(s)` are the keys that occur in `s`.
pub proof fn lemma_pairs_map_keys<K, V>(s: Seq<(K, V)>, k: K)
    ensures
        pairs_map(s).contains_key(k) <==> exists|j: int| 0 <= j < s.len() && (#[trigger] s[j]).0 == k,
    decreases s.len(),
{
    if s.len() > 0 {
        lemma_pairs_map_keys(s.drop_last(), k);
        if pairs_map(s.drop_last()).contains_key(k) {
            let j = choose|j: int| 0 <= j < s.drop_last().len() && (#[trigger] s.drop_last()[j]).0 == k;
            assert(s[j] == s.drop_last()[j]);
        }
        if exists|j: int| 0 <= j < s.len() && (#[trigger] s[j]).0 == k {
            let j = choose|j: int| 0 <= j < s.len() && (#[trigger] s[j]).0 == k;
            if j < s.len() - 1 {
                assert(s.drop_last()[j] == s[j]);
            }
        }
    }
}

/// The last pair with key `k` gives the value that `pairs_map(s)` holds for `k`.
pub proof fn lemma_pairs_map_last<K, V>(s: Seq<(K, V)>, k: K, i: int)
    requires
        0 <= i < s.len(),
        s[i].0 == k,
        forall|j: int| i < j < s.len() ==> (#[trigger] s[j]).0 != k,
    ensures
        pairs_map(s).contains_key(k),
        pairs_map(s)[k] == s[i].1,
    decreases s.len(),
{
    if i < s.len() - 1 {
        let t = s.drop_last();
        assert forall|j: int| i < j < t.len() implies (#[trigger] t[j]).0 != k by {
            assert(t[j] == s[j]);
        }
        assert(s.last() == s[s.len() - 1]);
        lemma_pairs_map_last(t, k, i);
    }
}

/// A key that occurs in no pair is absent from `pairs_map(s)`.
pub proof fn lemma_pairs_map_absent<K, V>(s: Seq<(K, V)>, k: K)
    requires
        forall|j: int| 0 <= j < s.len() ==> (#[trigger] s[j]).0 != k,
    ensures
        !pairs_map(s).contains_key(k),
{
    lemma_pairs_map_keys(s, k);
}

/// A value of `pairs_map(s)` comes from a pair of `s`.
pub proof fn lemma_pairs_map_value<K, V>(s: Seq<(K, V)>, k: K) -> (j: int)
    requires
        pairs_map(s).contains_key(k),
    ensures
        0 <= j < s.len(),
        s[j] == (k, pairs_map(s)[k]),
    decreases s.len(),
{
    if s.last().0 == k {
        s.len() - 1
    } else {
        let j = lemma_pairs_map_value(s.drop_last(), k);
        assert(s[j] == s.drop_last()[j]);
        j
    }
}

/// Replacing the value of a pair whose key occurs nowhere else updates that
/// key in the denoted map.
pub proof fn lemma_pairs_map_replace<K, V>(s: Seq<(K, V)>, i: int, v: V)
    requires
        0 <= i < s.len(),
        forall|j: int| 0 <= j < s.len() && j != i ==> (#[trigger] s[j]).0 != s[i].0,
    ensures
        pairs_map(s.update(i, (s[i].0, v))) == pairs_map(s).insert(s[i].0, v),
    decreases s.len(),
{
    let k = s[i].0;
    let t = s.update(i, (k, v));
    if i == s.len() - 1 {
        assert(t.drop_last() =~= s.drop_last());
    } else {
        let d = s.drop_last();
        assert forall|j: int| 0 <= j < d.len() && j != i implies (#[trigger] d[j]).0 != d[i].0 by {
            assert(d[j] == s[j]);
        }
        lemma_pairs_map_replace(d, i, v);
        assert(t.drop_last() =~= d.update(i, (k, v)));
        assert(s.last() == s[s.len() - 1]);
        assert(pairs_map(t) =~= pairs_map(s).insert(k, v));
    }
}

/// Appending a pair inserts it into the denoted map.
pub proof fn lemma_pairs_map_push<K, V>(s: Seq<(K, V)>, k: K, v: V)
    ensures
        pairs_map(s.push((k, v))) == pairs_map(s).insert(k, v),
{
    assert(s.push((k, v)).drop_last() =~= s);
}

} // verus!
