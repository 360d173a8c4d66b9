//! Sequences of key-value pairs read as maps.
//!
//! The directory of keys and the table of records are both kept as vectors in
//! which no key occurs twice. This module says which map such a sequence
//! stands for, and how the map changes when the sequence does.
use vstd::prelude::*;

verus! {

/// No key occurs at two places of `s`.
pub open spec fn unique_keys<K, V>(s: Seq<(K, V)>) -> bool {
    forall|i: int, j: int|
        0 <= i < s.len() && 0 <= j < s.len() && i != j ==> (#[trigger] s[i]).0 != (#[trigger] s[j]).0
}

/// Some pair of `s` has the key `k`.
pub open spec fn has_key<K, V>(s: Seq<(K, V)>, k: K) -> bool {
    exists|i: int| 0 <= i < s.len() && (#[trigger] s[i]).0 == k
}

/// A place of `s` at which the key `k` stands, if there is one.
pub open spec fn position<K, V>(s: Seq<(K, V)>, k: K) -> int {
    choose|i: int| 0 <= i < s.len() && (#[trigger] s[i]).0 == k
}

/// The map that sends each key of `s` to the value paired with it.
pub open spec fn as_map<K, V>(s: Seq<(K, V)>) -> Map<K, V> {
    Map::new(|k: K| has_key(s, k), |k: K| s[position(s, k)].1)
}

/// The pair at place `i` is what the map holds for its key.
pub proof fn lemma_at<K, V>(s: Seq<(K, V)>, i: int)
    requires
        unique_keys(s),
        0 <= i < s.len(),
    ensures
        has_key(s, s[i].0),
        position(s, s[i].0) == i,
        as_map(s).contains_key(s[i].0),
        as_map(s)[s[i].0] == s[i].1,
{
    let k = s[i].0;
    assert(0 <= i < s.len() && s[i].0 == k);
    let p = position(s, k);
    assert(0 <= p < s.len() && s[p].0 == k);
    if p != i {
        assert(s[p].0 != s[i].0);
    }
}

/// The empty sequence stands for the empty map.
pub proof fn lemma_empty<K, V>()
    ensures
        unique_keys(Seq::<(K, V)>::empty()),
        as_map(Seq::<(K, V)>::empty()) == Map::<K, V>::empty(),
{
    assert(as_map(Seq::<(K, V)>::empty()) =~= Map::<K, V>::empty());
}

/// Appending a pair with a new key inserts it into the map.
pub proof fn lemma_push<K, V>(s: Seq<(K, V)>, e: (K, V))
    requires
        unique_keys(s),
        !has_key(s, e.0),
    ensures
        unique_keys(s.push(e)),
        as_map(s.push(e)) == as_map(s).insert(e.0, e.1),
{
    let t = s.push(e);
    assert forall|i: int, j: int| 0 <= i < t.len() && 0 <= j < t.len() && i != j implies (#[trigger] t[i]).0
        != (#[trigger] t[j]).0 by {
        if i < s.len() && j < s.len() {
            assert(s[i].0 != s[j].0);
        } else if i < s.len() {
            assert(s[i].0 != e.0);
        } else {
            assert(s[j].0 != e.0);
        }
    }
    let last = s.len() as int;
    assert(t[last] == e);
    lemma_at(t, last);
    assert forall|k: K| has_key(t, k) <==> (k == e.0 || has_key(s, k)) by {
        if has_key(t, k) {
            let i = position(t, k);
            if i < s.len() {
                assert(s[i].0 == k);
            }
        }
        if has_key(s, k) {
            let i = position(s, k);
            assert(t[i].0 == k);
        }
    }
    assert forall|k: K| has_key(s, k) implies #[trigger] as_map(t)[k] == as_map(s)[k] by {
        let i = position(s, k);
        assert(t[i] == s[i]);
        lemma_at(t, i);
        lemma_at(s, i);
    }
    assert(as_map(t) =~= as_map(s).insert(e.0, e.1));
}

/// Replacing the value at place `i` replaces it in the map.
pub proof fn lemma_update<K, V>(s: Seq<(K, V)>, i: int, v: V)
    requires
        unique_keys(s),
        0 <= i < s.len(),
    ensures
        unique_keys(s.update(i, (s[i].0, v))),
        as_map(s.update(i, (s[i].0, v))) == as_map(s).insert(s[i].0, v),
{
    let t = s.update(i, (s[i].0, v));
    assert forall|a: int, b: int| 0 <= a < t.len() && 0 <= b < t.len() && a != b implies (#[trigger] t[a]).0
        != (#[trigger] t[b]).0 by {
        assert(t[a].0 == s[a].0);
        assert(t[b].0 == s[b].0);
    }
    lemma_at(t, i);
    assert forall|k: K| has_key(t, k) <==> has_key(s, k) by {
        if has_key(t, k) {
            let p = position(t, k);
            assert(s[p].0 == k);
        }
        if has_key(s, k) {
            let p = position(s, k);
            assert(t[p].0 == k);
        }
    }
    assert forall|k: K| has_key(s, k) && k != s[i].0 implies #[trigger] as_map(t)[k] == as_map(s)[k] by {
        let p = position(s, k);
        assert(t[p] == s[p]);
        lemma_at(t, p);
        lemma_at(s, p);
    }
    lemma_at(s, i);
    assert(as_map(t) =~= as_map(s).insert(s[i].0, v));
}

} // verus!
