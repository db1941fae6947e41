//! Association lists: sequences of key/value pairs with distinct keys, the
//! model behind the kernel's small keyed tables.
use vstd::prelude::*;

verus! {

/// No key occurs twice.
pub open spec fn keys_unique<K, V>(s: Seq<(K, V)>) -> bool {
    forall|i: int, j: int| 0 <= i < s.len() && 0 <= j < s.len() && i != j ==> s[i].0 != s[j].0
}

/// Whether `k` occurs as a key.
pub open spec fn has_key<K, V>(s: Seq<(K, V)>, k: K) -> bool {
    exists|i: int| 0 <= i < s.len() && s[i].0 == k
}

/// The value stored under `k`, if any.
pub open spec fn lookup<K, V>(s: Seq<(K, V)>, k: K) -> Option<V> {
    if has_key(s, k) {
        let i = choose|i: int| 0 <= i < s.len() && s[i].0 == k;
        Some(s[i].1)
    } else {
        None
    }
}

/// The keyed table as a map.
pub open spec fn to_map<K, V>(s: Seq<(K, V)>) -> Map<K, V> {
    Map::new(|k: K| has_key(s, k), |k: K| lookup(s, k).unwrap())
}

pub proof fn lemma_lookup_at<K, V>(s: Seq<(K, V)>, i: int)
    requires
        keys_unique(s),
        0 <= i < s.len(),
    ensures
        has_key(s, s[i].0),
        lookup(s, s[i].0) == Some(s[i].1),
{
    assert(has_key(s, s[i].0));
    let j = choose|j: int| 0 <= j < s.len() && s[j].0 == s[i].0;
    assert(j == i);
}

pub proof fn lemma_lookup_none<K, V>(s: Seq<(K, V)>, k: K)
    requires
        forall|i: int| 0 <= i < s.len() ==> s[i].0 != k,
    ensures
        !has_key(s, k),
        lookup(s, k) is None,
{
}

pub proof fn lemma_push<K, V>(s: Seq<(K, V)>, k: K, v: V)
    requires
        keys_unique(s),
        !has_key(s, k),
    ensures
        keys_unique(s.push((k, v))),
        forall|k2: K| #[trigger] lookup(s.push((k, v)), k2) == if k2 == k { Some(v) } else { lookup(s, k2) },
        forall|k2: K| #[trigger] has_key(s.push((k, v)), k2) == (k2 == k || has_key(s, k2)),
{
    let t = s.push((k, v));
    assert forall|i: int, j: int| 0 <= i < t.len() && 0 <= j < t.len() && i != j implies t[i].0 != t[j].0 by {
        if i == s.len() {
            assert(s[j].0 != k);
        } else if j == s.len() {
            assert(s[i].0 != k);
        }
    }
    assert forall|k2: K| #[trigger] has_key(t, k2) == (k2 == k || has_key(s, k2)) by {
        if k2 == k {
            assert(t[s.len() as int].0 == k);
        }
        if has_key(s, k2) {
            let i = choose|i: int| 0 <= i < s.len() && s[i].0 == k2;
            assert(t[i].0 == k2);
        }
        if has_key(t, k2) && k2 != k {
            let i = choose|i: int| 0 <= i < t.len() && t[i].0 == k2;
            assert(s[i].0 == k2);
        }
    }
    assert forall|k2: K| #[trigger] lookup(t, k2) == if k2 == k { Some(v) } else { lookup(s, k2) } by {
        if k2 == k {
            lemma_lookup_at(t, s.len() as int);
        } else if has_key(s, k2) {
            let i = choose|i: int| 0 <= i < s.len() && s[i].0 == k2;
            lemma_lookup_at(s, i);
            lemma_lookup_at(t, i);
        }
    }
}

pub proof fn lemma_remove<K, V>(s: Seq<(K, V)>, i: int)
    requires
        keys_unique(s),
        0 <= i < s.len(),
    ensures
        keys_unique(s.remove(i)),
        forall|k2: K| #[trigger] lookup(s.remove(i), k2) == if k2 == s[i].0 { None } else { lookup(s, k2) },
        forall|k2: K| #[trigger] has_key(s.remove(i), k2) == (k2 != s[i].0 && has_key(s, k2)),
{
    let t = s.remove(i);
    assert forall|a: int, b: int| 0 <= a < t.len() && 0 <= b < t.len() && a != b implies t[a].0 != t[b].0 by {
        let a2 = if a < i { a } else { a + 1 };
        let b2 = if b < i { b } else { b + 1 };
        assert(t[a] == s[a2]);
        assert(t[b] == s[b2]);
    }
    assert forall|k2: K| #[trigger] has_key(t, k2) == (k2 != s[i].0 && has_key(s, k2)) by {
        if has_key(t, k2) {
            let a = choose|a: int| 0 <= a < t.len() && t[a].0 == k2;
            let a2 = if a < i { a } else { a + 1 };
            assert(t[a] == s[a2]);
            assert(a2 != i);
        }
        if k2 != s[i].0 && has_key(s, k2) {
            let a = choose|a: int| 0 <= a < s.len() && s[a].0 == k2;
            assert(a != i);
            let a2 = if a < i { a } else { a - 1 };
            assert(t[a2] == s[a]);
        }
    }
    assert forall|k2: K| #[trigger] lookup(t, k2) == if k2 == s[i].0 { None } else { lookup(s, k2) } by {
        if k2 != s[i].0 && has_key(s, k2) {
            let a = choose|a: int| 0 <= a < s.len() && s[a].0 == k2;
            assert(a != i);
            let a2 = if a < i { a } else { a - 1 };
            assert(t[a2] == s[a]);
            lemma_lookup_at(s, a);
            lemma_lookup_at(t, a2);
        }
    }
}

pub proof fn lemma_update_value<K, V>(s: Seq<(K, V)>, i: int, v: V)
    requires
        keys_unique(s),
        0 <= i < s.len(),
    ensures
        keys_unique(s.update(i, (s[i].0, v))),
        forall|k2: K| #[trigger] lookup(s.update(i, (s[i].0, v)), k2) == if k2 == s[i].0 { Some(v) } else { lookup(s, k2) },
        forall|k2: K| #[trigger] has_key(s.update(i, (s[i].0, v)), k2) == has_key(s, k2),
{
    let t = s.update(i, (s[i].0, v));
    assert forall|k2: K| #[trigger] has_key(t, k2) == has_key(s, k2) by {
        if has_key(t, k2) {
            let a = choose|a: int| 0 <= a < t.len() && t[a].0 == k2;
            assert(s[a].0 == k2);
        }
        if has_key(s, k2) {
            let a = choose|a: int| 0 <= a < s.len() && s[a].0 == k2;
            assert(t[a].0 == k2);
        }
    }
    assert forall|k2: K| #[trigger] lookup(t, k2) == if k2 == s[i].0 { Some(v) } else { lookup(s, k2) } by {
        if k2 == s[i].0 {
            lemma_lookup_at(t, i);
        } else if has_key(s, k2) {
            let a = choose|a: int| 0 <= a < s.len() && s[a].0 == k2;
            lemma_lookup_at(s, a);
            lemma_lookup_at(t, a);
        }
    }
}


/// A duplicate-free sequence of keys, each present in the table, is no longer
/// than the table.
pub proof fn lemma_distinct_keys_bound<K, V>(s: Seq<(K, V)>, ks: Seq<K>)
    requires
        ks.no_duplicates(),
        forall|i: int| 0 <= i < ks.len() ==> #[trigger] has_key(s, ks[i]),
    ensures
        ks.len() <= s.len(),
{
    let keys = s.map_values(|p: (K, V)| p.0);
    keys.lemma_cardinality_of_set();
    ks.unique_seq_to_set();
    assert forall|x: K| ks.to_set().contains(x) implies keys.to_set().contains(x) by {
        let i = choose|i: int| 0 <= i < ks.len() && ks[i] == x;
        assert(has_key(s, ks[i]));
        let j = choose|j: int| 0 <= j < s.len() && s[j].0 == x;
        assert(keys[j] == x);
    }
    vstd::seq_lib::seq_to_set_is_finite(keys);
    vstd::set_lib::lemma_len_subset(ks.to_set(), keys.to_set());
}

} // verus!
