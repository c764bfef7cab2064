//! Keyed record collections: upsert and delete by key, uniqueness of keys,
//! and the key-indexed map a collection denotes.

use vstd::prelude::*;
use crate::model::{Keyed, SameView, seq_view};

verus! {

/// Index of the first record whose key is `k`, or -1.
pub open spec fn key_index<T: Keyed>(items: Seq<T::V>, k: <T::Key as View>::V) -> int
    decreases items.len(),
{
    if items.len() == 0 {
        -1
    } else if T::key_of(items[0]) == k {
        0
    } else {
        let r = key_index::<T>(items.drop_first(), k);
        if r < 0 {
            -1
        } else {
            r + 1
        }
    }
}

/// Index of the last record whose key is `k`, or -1.
pub open spec fn last_key_index<T: Keyed>(items: Seq<T::V>, k: <T::Key as View>::V) -> int
    decreases items.len(),
{
    if items.len() == 0 {
        -1
    } else if T::key_of(items.last()) == k {
        items.len() - 1
    } else {
        last_key_index::<T>(items.drop_last(), k)
    }
}

/// Whether some record has key `k`.
pub open spec fn has_key<T: Keyed>(items: Seq<T::V>, k: <T::Key as View>::V) -> bool {
    exists|i: int| 0 <= i < items.len() && T::key_of(items[i]) == k
}

/// No two records share a key.
pub open spec fn keys_unique<T: Keyed>(items: Seq<T::V>) -> bool {
    forall|i: int, j: int|
        0 <= i < j < items.len() ==> T::key_of(#[trigger] items[i]) != T::key_of(
            #[trigger] items[j],
        )
}

/// `item` replaces the first record with its key, or is appended.
pub open spec fn upsert_spec<T: Keyed>(items: Seq<T::V>, item: T::V) -> Seq<T::V> {
    let i = key_index::<T>(items, T::key_of(item));
    if i >= 0 {
        items.update(i, item)
    } else {
        items.push(item)
    }
}

/// The records whose key is not `k`, in order.
pub open spec fn delete_spec<T: Keyed>(items: Seq<T::V>, k: <T::Key as View>::V) -> Seq<T::V> {
    items.filter(|v: T::V| T::key_of(v) != k)
}

/// The collection as a map from key to the record a key-indexed map built
/// from it in order holds (the last record with each key).
pub open spec fn key_map<T: Keyed>(items: Seq<T::V>) -> Map<<T::Key as View>::V, T::V> {
    Map::new(
        |k: <T::Key as View>::V| has_key::<T>(items, k),
        |k: <T::Key as View>::V| items[last_key_index::<T>(items, k)],
    )
}

pub proof fn lemma_key_index<T: Keyed>(items: Seq<T::V>, k: <T::Key as View>::V, i: int)
    requires
        0 <= i <= items.len(),
        forall|j: int| 0 <= j < i ==> T::key_of(items[j]) != k,
        i < items.len() ==> T::key_of(items[i]) == k,
    ensures
        key_index::<T>(items, k) == (if i < items.len() {
            i
        } else {
            -1
        }),
    decreases i,
{
    if i > 0 {
        lemma_key_index::<T>(items.drop_first(), k, i - 1);
    }
}

pub proof fn lemma_key_index_props<T: Keyed>(items: Seq<T::V>, k: <T::Key as View>::V)
    ensures
        -1 <= key_index::<T>(items, k) < items.len(),
        key_index::<T>(items, k) >= 0 ==> T::key_of(items[key_index::<T>(items, k)]) == k,
        key_index::<T>(items, k) < 0 <==> !has_key::<T>(items, k),
    decreases items.len(),
{
    if items.len() > 0 {
        lemma_key_index_props::<T>(items.drop_first(), k);
        if T::key_of(items[0]) != k {
            if has_key::<T>(items, k) {
                let j = choose|j: int| 0 <= j < items.len() && T::key_of(items[j]) == k;
                assert(T::key_of(items.drop_first()[j - 1]) == k);
            }
            if has_key::<T>(items.drop_first(), k) {
                let j = choose|j: int|
                    0 <= j < items.drop_first().len() && T::key_of(items.drop_first()[j]) == k;
                assert(T::key_of(items[j + 1]) == k);
            }
        }
    }
}

pub proof fn lemma_last_key_index_props<T: Keyed>(items: Seq<T::V>, k: <T::Key as View>::V)
    ensures
        -1 <= last_key_index::<T>(items, k) < items.len(),
        last_key_index::<T>(items, k) >= 0 ==> T::key_of(items[last_key_index::<T>(items, k)])
            == k,
        last_key_index::<T>(items, k) < 0 <==> !has_key::<T>(items, k),
        forall|j: int|
            last_key_index::<T>(items, k) < j < items.len() ==> T::key_of(items[j]) != k,
    decreases items.len(),
{
    if items.len() > 0 && T::key_of(items.last()) != k {
        lemma_last_key_index_props::<T>(items.drop_last(), k);
        assert forall|j: int|
            last_key_index::<T>(items, k) < j < items.len() implies T::key_of(items[j]) != k by {
            if j < items.len() - 1 {
                assert(items[j] == items.drop_last()[j]);
            }
        }
        if has_key::<T>(items, k) {
            let j = choose|j: int| 0 <= j < items.len() && T::key_of(items[j]) == k;
            assert(T::key_of(items.drop_last()[j]) == k);
        }
        if has_key::<T>(items.drop_last(), k) {
            let j = choose|j: int|
                0 <= j < items.drop_last().len() && T::key_of(items.drop_last()[j]) == k;
            assert(T::key_of(items[j]) == k);
        }
    }
}

/// With unique keys, the only record with a key is the one the map holds.
pub proof fn lemma_unique_key_index<T: Keyed>(items: Seq<T::V>, k: <T::Key as View>::V, i: int)
    requires
        keys_unique::<T>(items),
        0 <= i < items.len(),
        T::key_of(items[i]) == k,
    ensures
        key_index::<T>(items, k) == i,
        last_key_index::<T>(items, k) == i,
{
    lemma_key_index_props::<T>(items, k);
    lemma_last_key_index_props::<T>(items, k);
    let a = key_index::<T>(items, k);
    let b = last_key_index::<T>(items, k);
    if a != i {
        if a < i {
            assert(T::key_of(items[a]) != T::key_of(items[i]));
        } else {
            assert(T::key_of(items[i]) != T::key_of(items[a]));
        }
    }
    if b != i {
        if b < i {
            assert(T::key_of(items[b]) != T::key_of(items[i]));
        } else {
            assert(T::key_of(items[i]) != T::key_of(items[b]));
        }
    }
}

/// With unique keys, the key-indexed map holds exactly the keys of the
/// records, each mapped to its record.
pub proof fn lemma_key_map_unique<T: Keyed>(items: Seq<T::V>)
    requires
        keys_unique::<T>(items),
    ensures
        forall|x: <T::Key as View>::V| #[trigger]
            key_map::<T>(items).dom().contains(x) <==> has_key::<T>(items, x),
        forall|i: int|
            0 <= i < items.len() ==> key_map::<T>(items)[T::key_of(#[trigger] items[i])]
                == items[i],
{
    assert forall|i: int| 0 <= i < items.len() implies key_map::<T>(items)[T::key_of(
        #[trigger] items[i],
    )] == items[i] by {
        lemma_unique_key_index::<T>(items, T::key_of(items[i]), i);
    }
}

/// Keys stay unique under an upsert, and the map gains or replaces the
/// upserted record.
pub proof fn lemma_upsert_key_map<T: Keyed>(items: Seq<T::V>, v: T::V)
    requires
        keys_unique::<T>(items),
    ensures
        keys_unique::<T>(upsert_spec::<T>(items, v)),
        key_map::<T>(upsert_spec::<T>(items, v)) == key_map::<T>(items).insert(T::key_of(v), v),
{
    let kv = T::key_of(v);
    let u = upsert_spec::<T>(items, v);
    let i = key_index::<T>(items, kv);
    lemma_key_index_props::<T>(items, kv);
    if i >= 0 {
        assert forall|a: int, b: int| 0 <= a < b < u.len() implies T::key_of(#[trigger] u[a])
            != T::key_of(#[trigger] u[b]) by {
            assert(T::key_of(items[a]) != T::key_of(items[b]));
        }
    } else {
        assert forall|a: int, b: int| 0 <= a < b < u.len() implies T::key_of(#[trigger] u[a])
            != T::key_of(#[trigger] u[b]) by {
            if b == items.len() {
                assert(T::key_of(items[a]) == T::key_of(u[a]));
            } else {
                assert(T::key_of(items[a]) != T::key_of(items[b]));
            }
        }
    }
    lemma_key_map_unique::<T>(items);
    lemma_key_map_unique::<T>(u);
    let m = key_map::<T>(items).insert(kv, v);
    assert forall|x: <T::Key as View>::V| #[trigger] key_map::<T>(u).dom().contains(x) <==> m.dom().contains(x) by {
        if has_key::<T>(u, x) {
            let j = choose|j: int| 0 <= j < u.len() && T::key_of(u[j]) == x;
            if x != kv {
                assert(T::key_of(items[j]) == x);
            }
        }
        if has_key::<T>(items, x) {
            let j = choose|j: int| 0 <= j < items.len() && T::key_of(items[j]) == x;
            if x != kv {
                assert(T::key_of(u[j]) == x);
            }
        }
        if x == kv {
            if i >= 0 {
                assert(T::key_of(u[i]) == x);
            } else {
                assert(T::key_of(u[items.len() as int]) == x);
            }
        }
    }
    assert forall|x: <T::Key as View>::V| #[trigger] key_map::<T>(u).dom().contains(x) implies key_map::<T>(u)[x] == m[x] by {
        let j = choose|j: int| 0 <= j < u.len() && T::key_of(u[j]) == x;
        assert(key_map::<T>(u)[T::key_of(u[j])] == u[j]);
        if x != kv {
            assert(u[j] == items[j]);
            assert(key_map::<T>(items)[T::key_of(items[j])] == items[j]);
        } else {
            if i >= 0 {
                assert(T::key_of(u[i]) == x);
                assert(key_map::<T>(u)[T::key_of(u[i])] == u[i]);
            } else {
                assert(T::key_of(u[items.len() as int]) == x);
                assert(key_map::<T>(u)[T::key_of(u[items.len() as int])] == u[items.len() as int]);
            }
        }
    }
    assert(key_map::<T>(u) =~= m);
}

/// Keys stay unique under a deletion, and the records left are records of
/// the collection with another key.
pub proof fn lemma_delete_keys<T: Keyed>(items: Seq<T::V>, k: <T::Key as View>::V)
    requires
        keys_unique::<T>(items),
    ensures
        keys_unique::<T>(delete_spec::<T>(items, k)),
        forall|x: <T::Key as View>::V|
            #[trigger] has_key::<T>(delete_spec::<T>(items, k), x) <==> (has_key::<T>(items, x)
                && x != k),
        forall|i: int|
            0 <= i < delete_spec::<T>(items, k).len() ==> items.contains(
                #[trigger] delete_spec::<T>(items, k)[i],
            ),
    decreases items.len(),
{
    reveal(Seq::filter);
    let d = delete_spec::<T>(items, k);
    if items.len() > 0 {
        let s = items.drop_last();
        assert forall|a: int, b: int| 0 <= a < b < s.len() implies T::key_of(#[trigger] s[a])
            != T::key_of(#[trigger] s[b]) by {
            assert(T::key_of(items[a]) != T::key_of(items[b]));
        }
        lemma_delete_keys::<T>(s, k);
        let sub = delete_spec::<T>(s, k);
        let last = items.last();
        assert(d == (if T::key_of(last) != k {
            sub.push(last)
        } else {
            sub
        }));
        assert forall|x: <T::Key as View>::V| has_key::<T>(items, x) <==> (has_key::<T>(s, x)
            || T::key_of(last) == x) by {
            if has_key::<T>(items, x) {
                let j = choose|j: int| 0 <= j < items.len() && T::key_of(items[j]) == x;
                if j < s.len() {
                    assert(T::key_of(s[j]) == x);
                }
            }
            if has_key::<T>(s, x) {
                let j = choose|j: int| 0 <= j < s.len() && T::key_of(s[j]) == x;
                assert(T::key_of(items[j]) == x);
            }
            if T::key_of(last) == x {
                assert(T::key_of(items[items.len() - 1]) == x);
            }
        }
        assert(!has_key::<T>(s, T::key_of(last))) by {
            if has_key::<T>(s, T::key_of(last)) {
                let j = choose|j: int| 0 <= j < s.len() && T::key_of(s[j]) == T::key_of(last);
                assert(T::key_of(items[j]) != T::key_of(items[items.len() - 1]));
            }
        }
        assert forall|i: int| 0 <= i < d.len() implies items.contains(#[trigger] d[i]) by {
            if i < sub.len() {
                assert(s.contains(sub[i]));
                let j = choose|j: int| 0 <= j < s.len() && s[j] == sub[i];
                assert(items[j] == sub[i]);
            } else {
                assert(items[items.len() - 1] == d[i]);
            }
        }
        if T::key_of(last) != k {
            assert forall|a: int, b: int| 0 <= a < b < d.len() implies T::key_of(#[trigger] d[a])
                != T::key_of(#[trigger] d[b]) by {
                if b == sub.len() {
                    assert(T::key_of(sub[a]) == T::key_of(d[a]));
                    assert(has_key::<T>(sub, T::key_of(sub[a])));
                } else {
                    assert(T::key_of(sub[a]) != T::key_of(sub[b]));
                }
            }
            assert forall|x: <T::Key as View>::V| #[trigger] has_key::<T>(d, x) <==> (has_key::<T>(
                items,
                x,
            ) && x != k) by {
                if has_key::<T>(d, x) {
                    let j = choose|j: int| 0 <= j < d.len() && T::key_of(d[j]) == x;
                    if j < sub.len() {
                        assert(T::key_of(sub[j]) == x);
                    }
                }
                if has_key::<T>(sub, x) {
                    let j = choose|j: int| 0 <= j < sub.len() && T::key_of(sub[j]) == x;
                    assert(T::key_of(d[j]) == x);
                }
                if T::key_of(last) == x {
                    assert(T::key_of(d[sub.len() as int]) == x);
                }
            }
        }
    }
}

/// Keys stay unique under a deletion, and the map loses the deleted key.
pub proof fn lemma_delete_key_map<T: Keyed>(items: Seq<T::V>, k: <T::Key as View>::V)
    requires
        keys_unique::<T>(items),
    ensures
        keys_unique::<T>(delete_spec::<T>(items, k)),
        key_map::<T>(delete_spec::<T>(items, k)) == key_map::<T>(items).remove(k),
{
    let d = delete_spec::<T>(items, k);
    lemma_delete_keys::<T>(items, k);
    lemma_key_map_unique::<T>(items);
    lemma_key_map_unique::<T>(d);
    let m = key_map::<T>(items).remove(k);
    assert forall|x: <T::Key as View>::V| #[trigger] key_map::<T>(d).dom().contains(x) <==> m.dom().contains(x) by {
        assert(has_key::<T>(d, x) <==> (has_key::<T>(items, x) && x != k));
    }
    assert forall|x: <T::Key as View>::V| #[trigger] key_map::<T>(d).dom().contains(x) implies key_map::<T>(d)[x] == m[x] by {
        assert(has_key::<T>(d, x));
        let j = choose|j: int| 0 <= j < d.len() && T::key_of(d[j]) == x;
        assert(key_map::<T>(d)[T::key_of(d[j])] == d[j]);
        assert(items.contains(d[j]));
        let a = choose|a: int| 0 <= a < items.len() && items[a] == d[j];
        assert(key_map::<T>(items)[T::key_of(items[a])] == items[a]);
    }
    assert(key_map::<T>(d) =~= m);
}

/// Replaces the first record with `item`'s key by `item`, or appends it.
pub fn upsert_by_key<T: Keyed>(items: &mut Vec<T>, item: T)
    ensures
        seq_view(final(items)@) == upsert_spec::<T>(seq_view(old(items)@), item@),
{
    let key = item.key();
    let ghost before = seq_view(items@);
    let mut i: usize = 0;
    while i < items.len()
        invariant
            i <= items@.len(),
            items@ == old(items)@,
            before == seq_view(old(items)@),
            key@ == T::key_of(item@),
            forall|j: int| 0 <= j < i ==> T::key_of(before[j]) != key@,
        decreases items@.len() - i,
    {
        let k = items[i].key();
        if T::key_eq(&k, &key) {
            proof {
                lemma_key_index::<T>(before, key@, i as int);
            }
            items.set(i, item);
            assert(seq_view(items@) =~= before.update(i as int, item@));
            return ;
        }
        i = i + 1;
    }
    proof {
        lemma_key_index::<T>(before, key@, i as int);
    }
    items.push(item);
    assert(seq_view(items@) =~= before.push(item@));
}

/// Drops every record whose key is `key`, keeping the others in order.
pub fn delete_by_key<T: Keyed>(items: &mut Vec<T>, key: &T::Key)
    ensures
        seq_view(final(items)@) == delete_spec::<T>(seq_view(old(items)@), key@),
{
    let ghost before = seq_view(items@);
    let ghost pred = |v: T::V| T::key_of(v) != key@;
    let mut kept: Vec<T> = Vec::new();
    let mut i: usize = 0;
    assert(before.take(0).filter(pred) =~= Seq::<T::V>::empty()) by {
        reveal(Seq::filter);
    }
    while i < items.len()
        invariant
            i <= items@.len(),
            items@ == old(items)@,
            before == seq_view(old(items)@),
            pred == (|v: T::V| T::key_of(v) != key@),
            seq_view(kept@) == before.take(i as int).filter(pred),
        decreases items@.len() - i,
    {
        let k = items[i].key();
        assert(before.take(i + 1).drop_last() =~= before.take(i as int));
        assert(before.take(i + 1).last() == items@[i as int]@);
        proof {
            reveal(Seq::filter);
        }
        if !T::key_eq(&k, key) {
            let ghost prev = kept@;
            kept.push(items[i].duplicate());
            assert(seq_view(kept@) =~= seq_view(prev).push(items@[i as int]@));
        }
        i = i + 1;
    }
    assert(before.take(i as int) =~= before);
    *items = kept;
}

/// Whether no two records share a key.
pub fn keys_are_unique<T: Keyed>(items: &Vec<T>) -> (r: bool)
    ensures
        r == keys_unique::<T>(seq_view(items@)),
{
    let ghost v = seq_view(items@);
    let mut j: usize = 0;
    while j < items.len()
        invariant
            j <= items@.len(),
            v == seq_view(items@),
            forall|a: int, b: int| 0 <= a < b < j ==> T::key_of(#[trigger] v[a]) != T::key_of(#[trigger] v[b]),
        decreases items@.len() - j,
    {
        let kj = items[j].key();
        let mut i: usize = 0;
        while i < j
            invariant
                i <= j < items@.len(),
                v == seq_view(items@),
                kj@ == T::key_of(v[j as int]),
                forall|a: int| 0 <= a < i ==> T::key_of(#[trigger] v[a]) != T::key_of(v[j as int]),
            decreases j - i,
        {
            let ki = items[i].key();
            if T::key_eq(&ki, &kj) {
                assert(T::key_of(v[i as int]) == T::key_of(v[j as int]));
                return false;
            }
            i = i + 1;
        }
        j = j + 1;
    }
    true
}

} // verus!
