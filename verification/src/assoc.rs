//! Association lists: sequences of key-value pairs with distinct keys, viewed as maps.

use vstd::prelude::*;

verus! {

/// No key occurs twice.
pub open spec fn keys_distinct<K, V>(s: Seq<(K, V)>) -> bool {
    forall|i: int, j: int| 0 <= i < s.len() && 0 <= j < s.len() && i != j ==> s[i].0 != s[j].0
}

/// The map of an association list: each key maps to the value stored with it.
pub open spec fn assoc_map<K, V>(s: Seq<(K, V)>) -> Map<K, V> {
    Map::new(
        |k: K| exists|i: int| 0 <= i < s.len() && s[i].0 == k,
        |k: K| s[choose|i: int| 0 <= i < s.len() && s[i].0 == k].1,
    )
}

/// An entry of the list is found under its key.
pub proof fn lemma_assoc_index<K, V>(s: Seq<(K, V)>, i: int)
    requires
        keys_distinct(s),
        0 <= i < s.len(),
    ensures
        assoc_map(s).contains_key(s[i].0),
        assoc_map(s)[s[i].0] == s[i].1,
{
    let k = s[i].0;
    assert(assoc_map(s).contains_key(k));
    let j = choose|j: int| 0 <= j < s.len() && s[j].0 == k;
    assert(j == i);
}

/// A key of the map is the key of some entry.
pub proof fn lemma_assoc_key<K, V>(s: Seq<(K, V)>, k: K) -> (i: int)
    requires
        keys_distinct(s),
        assoc_map(s).contains_key(k),
    ensures
        0 <= i < s.len(),
        s[i].0 == k,
        assoc_map(s)[k] == s[i].1,
{
    let i = choose|i: int| 0 <= i < s.len() && s[i].0 == k;
    lemma_assoc_index(s, i);
    i
}

/// Appending an entry with a new key inserts it.
pub proof fn lemma_assoc_push<K, V>(s: Seq<(K, V)>, x: (K, V))
    requires
        keys_distinct(s),
        !assoc_map(s).contains_key(x.0),
    ensures
        keys_distinct(s.push(x)),
        assoc_map(s.push(x)) == assoc_map(s).insert(x.0, x.1),
{
    let t = s.push(x);
    assert forall|i: int, j: int| 0 <= i < t.len() && 0 <= j < t.len() && i != j
        implies t[i].0 != t[j].0 by {
        if i == s.len() {
            assert(s[j].0 == t[j].0);
        } else if j == s.len() {
            assert(s[i].0 == t[i].0);
        }
    }
    let r = assoc_map(s).insert(x.0, x.1);
    assert forall|k: K| #[trigger] assoc_map(t).contains_key(k) == r.contains_key(k) by {
        if assoc_map(s).contains_key(k) {
            let i = choose|i: int| 0 <= i < s.len() && s[i].0 == k;
            assert(t[i] == s[i]);
        }
        if assoc_map(t).contains_key(k) {
            let i = choose|i: int| 0 <= i < t.len() && t[i].0 == k;
            if i < s.len() {
                assert(t[i] == s[i]);
            }
        }
        if k == x.0 {
            assert(t[s.len() as int].0 == k);
        }
    }
    assert forall|k: K| #[trigger] assoc_map(t).contains_key(k) implies assoc_map(t)[k] == r[k] by {
        let i = choose|i: int| 0 <= i < t.len() && t[i].0 == k;
        lemma_assoc_index(t, i);
        if i < s.len() {
            assert(t[i] == s[i]);
            lemma_assoc_index(s, i);
        }
    }
    assert(assoc_map(t) =~= r);
}

/// Inserting an entry with a new key at an index adds its key.
pub proof fn lemma_assoc_insert<K, V>(s: Seq<(K, V)>, i: int, x: (K, V))
    requires
        keys_distinct(s),
        0 <= i <= s.len(),
        !assoc_map(s).contains_key(x.0),
    ensures
        keys_distinct(s.insert(i, x)),
        assoc_map(s.insert(i, x)) == assoc_map(s).insert(x.0, x.1),
{
    let t = s.insert(i, x);
    assert forall|a: int| 0 <= a < s.len() implies !(#[trigger] s[a].0 == x.0) by {
        if s[a].0 == x.0 {
            assert(assoc_map(s).contains_key(x.0));
        }
    }
    assert forall|a: int, b: int| 0 <= a < t.len() && 0 <= b < t.len() && a != b implies t[a].0 != t[b].0 by {
        let sa = if a < i { a } else { a - 1 };
        let sb = if b < i { b } else { b - 1 };
        if a != i && b != i {
            assert(t[a] == s[sa] && t[b] == s[sb]);
        } else if a == i {
            assert(t[b] == s[sb]);
        } else {
            assert(t[a] == s[sa]);
        }
    }
    let r = assoc_map(s).insert(x.0, x.1);
    assert forall|k: K| #[trigger] assoc_map(t).contains_key(k) == r.contains_key(k) by {
        if assoc_map(s).contains_key(k) {
            let a = choose|a: int| 0 <= a < s.len() && s[a].0 == k;
            let ta = if a < i { a } else { a + 1 };
            assert(t[ta] == s[a]);
        }
        if assoc_map(t).contains_key(k) {
            let a = choose|a: int| 0 <= a < t.len() && t[a].0 == k;
            if a < i {
                assert(t[a] == s[a]);
            } else if a > i {
                assert(t[a] == s[a - 1]);
            }
        }
        if k == x.0 {
            assert(t[i].0 == k);
        }
    }
    assert forall|k: K| #[trigger] assoc_map(t).contains_key(k) implies assoc_map(t)[k] == r[k] by {
        let a = choose|a: int| 0 <= a < t.len() && t[a].0 == k;
        lemma_assoc_index(t, a);
        if a < i {
            assert(t[a] == s[a]);
            lemma_assoc_index(s, a);
        } else if a > i {
            assert(t[a] == s[a - 1]);
            lemma_assoc_index(s, a - 1);
        }
    }
    assert(assoc_map(t) =~= r);
}

/// Removing the entry at an index removes its key.
pub proof fn lemma_assoc_remove<K, V>(s: Seq<(K, V)>, i: int)
    requires
        keys_distinct(s),
        0 <= i < s.len(),
    ensures
        keys_distinct(s.remove(i)),
        assoc_map(s.remove(i)) == assoc_map(s).remove(s[i].0),
{
    let t = s.remove(i);
    assert forall|a: int| 0 <= a < t.len() implies #[trigger] t[a] == s[if a < i { a } else { a + 1 }] by {}
    assert forall|a: int, b: int| 0 <= a < t.len() && 0 <= b < t.len() && a != b
        implies t[a].0 != t[b].0 by {
        assert(t[a] == s[if a < i { a } else { a + 1 }]);
        assert(t[b] == s[if b < i { b } else { b + 1 }]);
    }
    let r = assoc_map(s).remove(s[i].0);
    assert forall|k: K| #[trigger] assoc_map(t).contains_key(k) == r.contains_key(k) by {
        if assoc_map(t).contains_key(k) {
            let a = choose|a: int| 0 <= a < t.len() && t[a].0 == k;
            let sa = if a < i { a } else { a + 1 };
            assert(t[a] == s[sa]);
            assert(s[sa].0 == k);
        }
        if r.contains_key(k) {
            let b = choose|b: int| 0 <= b < s.len() && s[b].0 == k;
            assert(b != i);
            let tb = if b < i { b } else { b - 1 };
            assert(t[tb] == s[b]);
        }
    }
    assert forall|k: K| #[trigger] assoc_map(t).contains_key(k) implies assoc_map(t)[k] == r[k] by {
        let a = choose|a: int| 0 <= a < t.len() && t[a].0 == k;
        let sa = if a < i { a } else { a + 1 };
        assert(t[a] == s[sa]);
        lemma_assoc_index(t, a);
        lemma_assoc_index(s, sa);
    }
    assert(assoc_map(t) =~= r);
}

/// Replacing the value of the entry at an index updates the map.
pub proof fn lemma_assoc_update<K, V>(s: Seq<(K, V)>, i: int, v: V)
    requires
        keys_distinct(s),
        0 <= i < s.len(),
    ensures
        keys_distinct(s.update(i, (s[i].0, v))),
        assoc_map(s.update(i, (s[i].0, v))) == assoc_map(s).insert(s[i].0, v),
{
    let x = (s[i].0, v);
    let t = s.update(i, x);
    assert forall|a: int, b: int| 0 <= a < t.len() && 0 <= b < t.len() && a != b
        implies t[a].0 != t[b].0 by {
        assert(t[a].0 == s[a].0);
        assert(t[b].0 == s[b].0);
    }
    let r = assoc_map(s).insert(x.0, v);
    assert forall|k: K| #[trigger] assoc_map(t).contains_key(k) == r.contains_key(k) by {
        if assoc_map(t).contains_key(k) {
            let a = choose|a: int| 0 <= a < t.len() && t[a].0 == k;
            assert(s[a].0 == k);
        }
        if assoc_map(s).contains_key(k) {
            let b = choose|b: int| 0 <= b < s.len() && s[b].0 == k;
            assert(t[b].0 == k);
        }
        assert(t[i].0 == x.0);
    }
    assert forall|k: K| #[trigger] assoc_map(t).contains_key(k) implies assoc_map(t)[k] == r[k] by {
        let a = choose|a: int| 0 <= a < t.len() && t[a].0 == k;
        lemma_assoc_index(t, a);
        if a != i {
            lemma_assoc_index(s, a);
        }
    }
    assert(assoc_map(t) =~= r);
}

/// The map of a list with distinct keys is finite and has one key per entry.
pub proof fn lemma_assoc_len<K, V>(s: Seq<(K, V)>)
    requires
        keys_distinct(s),
    ensures
        assoc_map(s).dom().finite(),
        assoc_map(s).dom().len() == s.len(),
{
    let ks = s.map_values(|e: (K, V)| e.0);
    assert(ks.no_duplicates()) by {
        assert forall|i: int, j: int| 0 <= i < ks.len() && 0 <= j < ks.len() && i != j
            implies ks[i] != ks[j] by {
            assert(ks[i] == s[i].0);
            assert(ks[j] == s[j].0);
        }
    }
    assert forall|k: K| #[trigger] assoc_map(s).dom().contains(k) == ks.to_set().contains(k) by {
        if assoc_map(s).dom().contains(k) {
            let i = choose|i: int| 0 <= i < s.len() && s[i].0 == k;
            assert(ks[i] == k);
        }
        if ks.to_set().contains(k) {
            let i = choose|i: int| 0 <= i < ks.len() && ks[i] == k;
            assert(s[i].0 == k);
        }
    }
    assert(assoc_map(s).dom() =~= ks.to_set());
    ks.unique_seq_to_set();
}

} // verus!
