//! Association lists: sequences of key-value pairs, read as maps by key.

use vstd::prelude::*;

verus! {

/// No key occurs twice.
pub open spec fn keys_unique<K, V>(s: Seq<(K, V)>) -> bool {
    forall|i: int, j: int| 0 <= i < j < s.len() ==> #[trigger] s[i].0 != #[trigger] s[j].0
}

/// Whether some entry has key `k`.
pub open spec fn has_key<K, V>(s: Seq<(K, V)>, k: K) -> bool {
    exists|i: int| 0 <= i < s.len() && #[trigger] s[i].0 == k
}

/// What is kept under `k`: the value of the last entry with that key.
pub open spec fn lookup<K, V>(s: Seq<(K, V)>, k: K) -> Option<V>
    decreases s.len(),
{
    if s.len() == 0 {
        None
    } else if s.last().0 == k {
        Some(s.last().1)
    } else {
        lookup(s.drop_last(), k)
    }
}

/// The pairs with the value under `k` replaced by `v`, where it stands.
pub open spec fn set_value<K, V>(s: Seq<(K, V)>, k: K, v: V) -> Seq<(K, V)> {
    s.map_values(|e: (K, V)| if e.0 == k { (k, v) } else { e })
}

/// The pairs with `v` under `k`: replaced where the key stands, else last.
pub open spec fn put<K, V>(s: Seq<(K, V)>, k: K, v: V) -> Seq<(K, V)> {
    if has_key(s, k) {
        set_value(s, k, v)
    } else {
        s.push((k, v))
    }
}

/// With each key once, the lookup of a key gives the value of the one
/// entry that has it, and nothing when none has it.
pub proof fn lemma_lookup_unique<K, V>(s: Seq<(K, V)>, k: K)
    requires
        keys_unique(s),
    ensures
        forall|i: int| 0 <= i < s.len() && #[trigger] s[i].0 == k ==> lookup(s, k) == Some(s[i].1),
        !has_key(s, k) ==> lookup(s, k) is None,
    decreases s.len(),
{
    if s.len() > 0 {
        let d = s.drop_last();
        assert(keys_unique(d)) by {
            assert forall|i: int, j: int| 0 <= i < j < d.len() implies #[trigger] d[i].0
                != #[trigger] d[j].0 by {
                assert(d[i] == s[i] && d[j] == s[j]);
            }
        }
        lemma_lookup_unique(d, k);
        assert forall|i: int| 0 <= i < s.len() && #[trigger] s[i].0 == k implies lookup(s, k)
            == Some(s[i].1) by {
            if i < s.len() - 1 {
                assert(s[i] == d[i]);
                assert(s.last().0 != k);
            }
        }
        if !has_key(s, k) {
            assert(s.last().0 != k) by {
                if s.last().0 == k {
                    assert(s[s.len() - 1].0 == k);
                }
            }
            assert(!has_key(d, k)) by {
                if has_key(d, k) {
                    let i = choose|i: int| 0 <= i < d.len() && #[trigger] d[i].0 == k;
                    assert(s[i] == d[i]);
                }
            }
        }
    }
}

/// Replacing or adding the value under a key keeps each key once, gives
/// that value under the key, and leaves the other keys as they were.
pub proof fn lemma_put<K, V>(s: Seq<(K, V)>, k: K, v: V)
    requires
        keys_unique(s),
    ensures
        keys_unique(put(s, k, v)),
        has_key(s, k) ==> keys_unique(set_value(s, k, v)),
        lookup(put(s, k, v), k) == Some(v),
        forall|o: K| o != k ==> #[trigger] lookup(put(s, k, v), o) == lookup(s, o),
        forall|o: K| #[trigger] has_key(put(s, k, v), o) == (has_key(s, o) || o == k),
{
    let r = put(s, k, v);
    if has_key(s, k) {
        let i = choose|i: int| 0 <= i < s.len() && #[trigger] s[i].0 == k;
        assert forall|a: int, b: int| 0 <= a < b < r.len() implies #[trigger] r[a].0
            != #[trigger] r[b].0 by {
            assert(r[a].0 == s[a].0 && r[b].0 == s[b].0);
        }
        lemma_lookup_unique(r, k);
        assert(r[i].0 == k);
        assert forall|o: K| o != k implies #[trigger] lookup(r, o) == lookup(s, o) by {
            lemma_lookup_unique(r, o);
            lemma_lookup_unique(s, o);
            if has_key(s, o) {
                let j = choose|j: int| 0 <= j < s.len() && #[trigger] s[j].0 == o;
                assert(r[j] == s[j]);
            } else if has_key(r, o) {
                let j = choose|j: int| 0 <= j < r.len() && #[trigger] r[j].0 == o;
                assert(s[j].0 == r[j].0);
            }
        }
        assert forall|o: K| #[trigger] has_key(r, o) == (has_key(s, o) || o == k) by {
            if has_key(r, o) {
                let j = choose|j: int| 0 <= j < r.len() && #[trigger] r[j].0 == o;
                assert(s[j].0 == r[j].0);
            }
            if has_key(s, o) {
                let j = choose|j: int| 0 <= j < s.len() && #[trigger] s[j].0 == o;
                assert(r[j].0 == s[j].0);
            }
        }
    } else {
        assert forall|a: int, b: int| 0 <= a < b < r.len() implies #[trigger] r[a].0
            != #[trigger] r[b].0 by {
            if b == s.len() {
                assert(r[a] == s[a]);
                if s[a].0 == k {
                    assert(has_key(s, k));
                }
            } else {
                assert(r[a] == s[a] && r[b] == s[b]);
            }
        }
        assert(r.drop_last() =~= s);
        assert forall|o: K| o != k implies #[trigger] lookup(r, o) == lookup(s, o) by {}
        assert forall|o: K| #[trigger] has_key(r, o) == (has_key(s, o) || o == k) by {
            if has_key(r, o) {
                let j = choose|j: int| 0 <= j < r.len() && #[trigger] r[j].0 == o;
                if j < s.len() {
                    assert(s[j] == r[j]);
                }
            }
            if has_key(s, o) {
                let j = choose|j: int| 0 <= j < s.len() && #[trigger] s[j].0 == o;
                assert(r[j] == s[j]);
            }
            if o == k {
                assert(r[s.len() as int].0 == k);
            }
        }
    }
}

} // verus!
