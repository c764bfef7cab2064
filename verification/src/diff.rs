//! The difference between two configuration snapshots as a batch of
//! operations, and the law that applying it to the first snapshot yields the
//! second.

use vstd::prelude::*;
use crate::model::{
    Keyed, SameView, seq_view, ClientGroupDef, ClientGroupV, EgressUpstreamDef, EgressUpstreamV,
    EgressVhostRuleDef, EgressVhostRuleV, IngressListenerDef, IngressListenerV,
    TokenCacheEntryDef, TokenCacheEntryV,
};
use crate::collection::{
    has_key, last_key_index, keys_unique, key_map, upsert_spec, delete_spec,
    lemma_last_key_index_props, lemma_upsert_key_map, lemma_delete_key_map,
};
use crate::canonical::{canonical_view, law_same_key_map_sorts_alike};
use crate::ctld::{
    ConfigOperation, OperationV, ConfigSnapshot, SnapshotV, apply_operations,
    snapshot_keys_unique,
};

verus! {

/// A change to one record of a keyed collection.
pub enum Change<T: Keyed> {
    Upsert(T),
    Delete(T::Key),
}

pub enum ChangeV<V, K> {
    Upsert(V),
    Delete(K),
}

impl<T: Keyed> View for Change<T> {
    type V = ChangeV<T::V, <T::Key as View>::V>;

    open spec fn view(&self) -> Self::V {
        match self {
            Change::Upsert(t) => ChangeV::Upsert(t@),
            Change::Delete(k) => ChangeV::Delete(k@),
        }
    }
}

/// The change `diff_snapshots` emits for key `k`: the record of `next` when
/// it is new or differs from the one of `prev`, a deletion when `next` lacks
/// the key, nothing otherwise. Records are those a key-indexed map built
/// from each collection holds.
pub open spec fn change_for<T: Keyed>(
    prev: Seq<T::V>,
    next: Seq<T::V>,
    k: <T::Key as View>::V,
) -> Option<ChangeV<T::V, <T::Key as View>::V>> {
    let hp = has_key::<T>(prev, k);
    let hn = has_key::<T>(next, k);
    if hn && (!hp || prev[last_key_index::<T>(prev, k)] != next[last_key_index::<T>(next, k)]) {
        Some(ChangeV::Upsert(next[last_key_index::<T>(next, k)]))
    } else if hp && !hn {
        Some(ChangeV::Delete(k))
    } else {
        None
    }
}

/// The changes for the keys `ks`, in that order.
pub open spec fn changes_for<T: Keyed>(
    prev: Seq<T::V>,
    next: Seq<T::V>,
    ks: Seq<<T::Key as View>::V>,
) -> Seq<ChangeV<T::V, <T::Key as View>::V>>
    decreases ks.len(),
{
    if ks.len() == 0 {
        Seq::empty()
    } else {
        let c = changes_for::<T>(prev, next, ks.drop_last());
        match change_for::<T>(prev, next, ks.last()) {
            Some(ch) => c.push(ch),
            None => c,
        }
    }
}

/// `ks` is strictly ascending and holds exactly the keys of `prev` and `next`.
pub open spec fn sorted_key_union<T: Keyed>(
    prev: Seq<T::V>,
    next: Seq<T::V>,
    ks: Seq<<T::Key as View>::V>,
) -> bool {
    &&& forall|i: int, j: int| 0 <= i < j < ks.len() ==> T::key_lt(#[trigger] ks[i], #[trigger] ks[j])
    &&& forall|k: <T::Key as View>::V|
        #![trigger ks.contains(k)]
        ks.contains(k) <==> (has_key::<T>(prev, k) || has_key::<T>(next, k))
}

/// The changes between two collections, key by key in ascending key order.
pub open spec fn collection_diff<T: Keyed>(prev: Seq<T::V>, next: Seq<T::V>) -> Seq<
    ChangeV<T::V, <T::Key as View>::V>,
> {
    changes_for::<T>(prev, next, choose|ks: Seq<<T::Key as View>::V>| sorted_key_union::<T>(prev, next, ks))
}

pub open spec fn ingress_op(c: ChangeV<IngressListenerV, u16>) -> OperationV {
    match c {
        ChangeV::Upsert(v) => OperationV::UpsertIngressListener(v),
        ChangeV::Delete(k) => OperationV::DeleteIngressListener(k),
    }
}

pub open spec fn group_op(c: ChangeV<ClientGroupV, Seq<char>>) -> OperationV {
    match c {
        ChangeV::Upsert(v) => OperationV::UpsertClientGroup(v),
        ChangeV::Delete(k) => OperationV::DeleteClientGroup(k),
    }
}

pub open spec fn upstream_op(c: ChangeV<EgressUpstreamV, Seq<char>>) -> OperationV {
    match c {
        ChangeV::Upsert(v) => OperationV::UpsertEgressUpstream(v),
        ChangeV::Delete(k) => OperationV::DeleteEgressUpstream(k),
    }
}

pub open spec fn vhost_op(c: ChangeV<EgressVhostRuleV, Seq<char>>) -> OperationV {
    match c {
        ChangeV::Upsert(v) => OperationV::UpsertEgressVhostRule(v),
        ChangeV::Delete(k) => OperationV::DeleteEgressVhostRule(k),
    }
}

pub open spec fn token_op(c: ChangeV<TokenCacheEntryV, Seq<char>>) -> OperationV {
    match c {
        ChangeV::Upsert(v) => OperationV::UpsertToken(v),
        ChangeV::Delete(k) => OperationV::DeleteToken(k),
    }
}

/// The operations `diff_snapshots` returns: ingress listeners, client
/// groups, egress upstreams, egress vhost rules, then tokens, each collection
/// in ascending key order.
pub open spec fn diff_spec(prev: SnapshotV, next: SnapshotV) -> Seq<OperationV> {
    collection_diff::<IngressListenerDef>(prev.ingress_listeners, next.ingress_listeners).map_values(
        |c| ingress_op(c),
    ) + collection_diff::<ClientGroupDef>(prev.client_groups, next.client_groups).map_values(
        |c| group_op(c),
    ) + collection_diff::<EgressUpstreamDef>(prev.egress_upstreams, next.egress_upstreams).map_values(
        |c| upstream_op(c),
    ) + collection_diff::<EgressVhostRuleDef>(
        prev.egress_vhost_rules,
        next.egress_vhost_rules,
    ).map_values(|c| vhost_op(c)) + collection_diff::<TokenCacheEntryDef>(
        prev.token_cache,
        next.token_cache,
    ).map_values(|c| token_op(c))
}

pub proof fn lemma_sorted_unique<T: Keyed>(a: Seq<<T::Key as View>::V>, b: Seq<<T::Key as View>::V>)
    requires
        forall|i: int, j: int| 0 <= i < j < a.len() ==> T::key_lt(#[trigger] a[i], #[trigger] a[j]),
        forall|i: int, j: int| 0 <= i < j < b.len() ==> T::key_lt(#[trigger] b[i], #[trigger] b[j]),
        forall|k: <T::Key as View>::V| a.contains(k) <==> b.contains(k),
    ensures
        a == b,
    decreases a.len(),
{
    if a.len() == 0 {
        if b.len() > 0 {
            assert(b.contains(b[0]));
        }
        assert(a =~= b);
    } else {
        assert(a.contains(a[0]));
        let j = choose|j: int| 0 <= j < b.len() && b[j] == a[0];
        assert(b.contains(b[0]));
        let i = choose|i: int| 0 <= i < a.len() && a[i] == b[0];
        T::lemma_key_order(a[0], a[0], a[0]);
        T::lemma_key_order(b[0], b[0], b[0]);
        if j > 0 {
            assert(T::key_lt(b[0], b[j]));
            if i > 0 {
                assert(T::key_lt(a[0], a[i]));
                T::lemma_key_order(a[0], b[0], a[0]);
            }
        }
        assert(a[0] == b[0]);
        let a2 = a.drop_first();
        let b2 = b.drop_first();
        assert forall|k: <T::Key as View>::V| a2.contains(k) <==> b2.contains(k) by {
            if a2.contains(k) {
                let x = choose|x: int| 0 <= x < a2.len() && a2[x] == k;
                assert(a.contains(k));
                assert(T::key_lt(a[0], a[x + 1]));
                let y = choose|y: int| 0 <= y < b.len() && b[y] == k;
                if y == 0 {
                    T::lemma_key_order(a[0], a[0], a[0]);
                }
                assert(b2[y - 1] == k);
            }
            if b2.contains(k) {
                let x = choose|x: int| 0 <= x < b2.len() && b2[x] == k;
                assert(b.contains(k));
                assert(T::key_lt(b[0], b[x + 1]));
                let y = choose|y: int| 0 <= y < a.len() && a[y] == k;
                if y == 0 {
                    T::lemma_key_order(b[0], b[0], b[0]);
                }
                assert(a2[y - 1] == k);
            }
        }
        assert forall|x: int, y: int| 0 <= x < y < a2.len() implies T::key_lt(
            #[trigger] a2[x],
            #[trigger] a2[y],
        ) by {
            assert(T::key_lt(a[x + 1], a[y + 1]));
        }
        assert forall|x: int, y: int| 0 <= x < y < b2.len() implies T::key_lt(
            #[trigger] b2[x],
            #[trigger] b2[y],
        ) by {
            assert(T::key_lt(b[x + 1], b[y + 1]));
        }
        lemma_sorted_unique::<T>(a2, b2);
        assert(a =~= b) by {
            assert forall|x: int| 0 <= x < a.len() implies a[x] == b[x] by {
                if x > 0 {
                    assert(a[x] == a2[x - 1]);
                    assert(b[x] == b2[x - 1]);
                }
            }
        }
    }
}

/// Inserts `k` into the strictly ascending `ks` unless present.
fn insert_sorted<T: Keyed>(ks: &mut Vec<T::Key>, k: T::Key)
    requires
        forall|i: int, j: int|
            0 <= i < j < old(ks)@.len() ==> T::key_lt(#[trigger] old(ks)@[i]@, #[trigger] old(ks)@[j]@),
    ensures
        forall|i: int, j: int|
            0 <= i < j < final(ks)@.len() ==> T::key_lt(#[trigger] final(ks)@[i]@, #[trigger] final(ks)@[j]@),
        forall|x: <T::Key as View>::V|
            seq_view(final(ks)@).contains(x) <==> (seq_view(old(ks)@).contains(x) || x == k@),
{
    let ghost old_v = seq_view(ks@);
    let mut p: usize = 0;
    while p < ks.len() && T::key_less(&ks[p], &k)
        invariant
            p <= ks@.len(),
            ks@ == old(ks)@,
            forall|j: int| 0 <= j < p ==> T::key_lt(#[trigger] ks@[j]@, k@),
        decreases ks@.len() - p,
    {
        p = p + 1;
    }
    if p < ks.len() && T::key_eq(&ks[p], &k) {
        assert(old_v[p as int] == k@);
        return ;
    }
    proof {
        if p < ks@.len() {
            T::lemma_key_order(ks@[p as int]@, k@, k@);
        }
    }
    let ghost kv = k@;
    let ghost ov = ks@;
    ks.insert(p, k);
    assert(seq_view(ks@) =~= old_v.insert(p as int, kv));
    assert forall|x: int| p < x < ks@.len() implies ks@[x] == ov[x - 1] by {}
    assert forall|x: int| 0 <= x < p implies ks@[x] == ov[x] by {}
    assert(ks@[p as int]@ == kv);
    proof {
        assert forall|i: int, j: int| 0 <= i < j < ks@.len() implies T::key_lt(
            #[trigger] ks@[i]@,
            #[trigger] ks@[j]@,
        ) by {
            if i < p && j == p {
            } else if i < p && j > p {
                assert(ks@[j] == old(ks)@[j - 1]);
                if j - 1 > p {
                    assert(T::key_lt(old(ks)@[p as int]@, old(ks)@[j - 1]@));
                    T::lemma_key_order(ks@[i]@, kv, old(ks)@[p as int]@);
                    T::lemma_key_order(ks@[i]@, old(ks)@[p as int]@, ks@[j]@);
                } else {
                    T::lemma_key_order(ks@[i]@, kv, ks@[j]@);
                }
            } else if i == p {
                assert(ks@[j] == old(ks)@[j - 1]);
                if j - 1 > p {
                    assert(T::key_lt(old(ks)@[p as int]@, old(ks)@[j - 1]@));
                    T::lemma_key_order(kv, old(ks)@[p as int]@, old(ks)@[j - 1]@);
                }
            } else if i > p {
                assert(ks@[i] == ov[i - 1]);
                assert(ks@[j] == ov[j - 1]);
                assert(T::key_lt(ov[i - 1]@, ov[j - 1]@));
            } else {
                assert(ks@[i] == ov[i]);
                assert(ks@[j] == ov[j]);
                assert(T::key_lt(ov[i]@, ov[j]@));
            }
        }
        assert forall|x: <T::Key as View>::V|
            seq_view(ks@).contains(x) <== (old_v.contains(x) || x == kv) by {
            if x == kv {
                assert(seq_view(ks@)[p as int] == x);
            } else if old_v.contains(x) {
                let y = choose|y: int| 0 <= y < old_v.len() && old_v[y] == x;
                if y < p {
                    assert(seq_view(ks@)[y] == x);
                } else {
                    assert(seq_view(ks@)[y + 1] == x);
                }
            }
        }
        assert forall|x: <T::Key as View>::V|
            seq_view(ks@).contains(x) ==> (old_v.contains(x) || x == kv) by {
            if seq_view(ks@).contains(x) {
                let y = choose|y: int| 0 <= y < seq_view(ks@).len() && seq_view(ks@)[y] == x;
                if y < p {
                    assert(old_v[y] == x);
                } else if y > p {
                    assert(old_v[y - 1] == x);
                }
            }
        }
    }
}

/// Some record among the first `n` of `items` has key `k`.
spec fn in_prefix<T: Keyed>(items: Seq<T::V>, n: int, k: <T::Key as View>::V) -> bool {
    exists|i: int| 0 <= i < n && T::key_of(#[trigger] items[i]) == k
}

proof fn lemma_in_prefix_step<T: Keyed>(items: Seq<T::V>, n: int, k: <T::Key as View>::V)
    requires
        0 <= n < items.len(),
    ensures
        in_prefix::<T>(items, n + 1, k) <==> (in_prefix::<T>(items, n, k) || T::key_of(items[n])
            == k),
{
    if in_prefix::<T>(items, n + 1, k) {
        let i = choose|i: int| 0 <= i < n + 1 && T::key_of(#[trigger] items[i]) == k;
        if i < n {
            assert(0 <= i < n && T::key_of(items[i]) == k);
        }
    }
    if in_prefix::<T>(items, n, k) {
        let i = choose|i: int| 0 <= i < n && T::key_of(#[trigger] items[i]) == k;
        assert(0 <= i < n + 1 && T::key_of(items[i]) == k);
    }
    if T::key_of(items[n]) == k {
        assert(0 <= n < n + 1 && T::key_of(items[n]) == k);
    }
}

proof fn lemma_in_prefix_all<T: Keyed>(items: Seq<T::V>, k: <T::Key as View>::V)
    ensures
        in_prefix::<T>(items, items.len() as int, k) <==> has_key::<T>(items, k),
{
    if has_key::<T>(items, k) {
        let i = choose|i: int| 0 <= i < items.len() && T::key_of(items[i]) == k;
        assert(T::key_of(items[i]) == k);
    }
    if in_prefix::<T>(items, items.len() as int, k) {
        let i = choose|i: int| 0 <= i < items.len() && T::key_of(#[trigger] items[i]) == k;
        assert(T::key_of(items[i]) == k);
    }
}

/// Adds the keys of `items` to the strictly ascending `ks`.
fn add_keys<T: Keyed>(ks: &mut Vec<T::Key>, items: &Vec<T>)
    requires
        forall|i: int, j: int|
            0 <= i < j < old(ks)@.len() ==> T::key_lt(#[trigger] old(ks)@[i]@, #[trigger] old(ks)@[j]@),
    ensures
        forall|i: int, j: int|
            0 <= i < j < final(ks)@.len() ==> T::key_lt(#[trigger] final(ks)@[i]@, #[trigger] final(ks)@[j]@),
        forall|x: <T::Key as View>::V|
            #![trigger seq_view(final(ks)@).contains(x)]
            seq_view(final(ks)@).contains(x) <==> (seq_view(old(ks)@).contains(x) || has_key::<T>(
                seq_view(items@),
                x,
            )),
{
    let ghost iv = seq_view(items@);
    let ghost ov = seq_view(ks@);
    let mut i: usize = 0;
    while i < items.len()
        invariant
            i <= items@.len(),
            iv == seq_view(items@),
            ov == seq_view(old(ks)@),
            forall|a: int, b: int|
                0 <= a < b < ks@.len() ==> T::key_lt(#[trigger] ks@[a]@, #[trigger] ks@[b]@),
            forall|x: <T::Key as View>::V|
                #![trigger seq_view(ks@).contains(x)]
                seq_view(ks@).contains(x) <==> (ov.contains(x) || in_prefix::<T>(iv, i as int, x)),
        decreases items@.len() - i,
    {
        let k = items[i].key();
        let ghost kv = k@;
        let ghost before = seq_view(ks@);
        insert_sorted::<T>(ks, k);
        proof {
            assert(T::key_of(iv[i as int]) == kv);
            assert forall|x: <T::Key as View>::V| #[trigger] seq_view(ks@).contains(x) <==> (ov.contains(x)
                || in_prefix::<T>(iv, i + 1, x)) by {
                lemma_in_prefix_step::<T>(iv, i as int, x);
                assert(before.contains(x) <==> (ov.contains(x) || in_prefix::<T>(iv, i as int, x)));
            }
        }
        i = i + 1;
    }
    proof {
        assert forall|x: <T::Key as View>::V| #[trigger] seq_view(ks@).contains(x) <==> (ov.contains(x)
            || has_key::<T>(iv, x)) by {
            lemma_in_prefix_all::<T>(iv, x);
        }
    }
}

/// The keys of `prev` and `next`, strictly ascending.
fn sorted_union_keys<T: Keyed>(prev: &Vec<T>, next: &Vec<T>) -> (ks: Vec<T::Key>)
    ensures
        sorted_key_union::<T>(seq_view(prev@), seq_view(next@), seq_view(ks@)),
{
    let mut ks: Vec<T::Key> = Vec::new();
    assert(seq_view(ks@) =~= Seq::<<T::Key as View>::V>::empty());
    add_keys(&mut ks, prev);
    let ghost mid = seq_view(ks@);
    add_keys(&mut ks, next);
    proof {
        assert forall|x: <T::Key as View>::V| #[trigger] seq_view(ks@).contains(x) <==> (has_key::<T>(
            seq_view(prev@),
            x,
        ) || has_key::<T>(seq_view(next@), x)) by {
            assert(mid.contains(x) <==> (Seq::<<T::Key as View>::V>::empty().contains(x)
                || has_key::<T>(seq_view(prev@), x)));
        }
        assert forall|a: int, b: int|
            0 <= a < b < seq_view(ks@).len() implies T::key_lt(
            #[trigger] seq_view(ks@)[a],
            #[trigger] seq_view(ks@)[b],
        ) by {
            assert(T::key_lt(ks@[a]@, ks@[b]@));
        }
    }
    ks
}

/// Index of the last record of `items` whose key is `k`.
fn last_with_key<T: Keyed>(items: &Vec<T>, k: &T::Key) -> (r: Option<usize>)
    ensures
        match r {
            Some(i) => i < items@.len() && last_key_index::<T>(seq_view(items@), k@) == i,
            None => last_key_index::<T>(seq_view(items@), k@) == -1,
        },
{
    let ghost v = seq_view(items@);
    let mut i = items.len();
    while i > 0
        invariant
            i <= items@.len(),
            v == seq_view(items@),
            forall|j: int| i <= j < items@.len() ==> T::key_of(v[j]) != k@,
        decreases i,
    {
        let ki = items[i - 1].key();
        if T::key_eq(&ki, k) {
            proof {
                lemma_last_key_index_at::<T>(v, k@, i - 1);
            }
            return Some(i - 1);
        }
        i = i - 1;
    }
    proof {
        lemma_last_key_index_at::<T>(v, k@, -1);
    }
    None
}

proof fn lemma_last_key_index_at<T: Keyed>(items: Seq<T::V>, k: <T::Key as View>::V, i: int)
    requires
        -1 <= i < items.len(),
        forall|j: int| i < j < items.len() ==> T::key_of(items[j]) != k,
        i >= 0 ==> T::key_of(items[i]) == k,
    ensures
        last_key_index::<T>(items, k) == i,
    decreases items.len(),
{
    if items.len() > 0 && T::key_of(items.last()) != k {
        lemma_last_key_index_at::<T>(items.drop_last(), k, i);
    }
}

/// The changes between two collections, per `collection_diff`.
pub fn diff_collection<T: Keyed>(prev: &Vec<T>, next: &Vec<T>) -> (r: Vec<Change<T>>)
    ensures
        seq_view(r@) == collection_diff::<T>(seq_view(prev@), seq_view(next@)),
{
    let ghost pv = seq_view(prev@);
    let ghost nv = seq_view(next@);
    let ks = sorted_union_keys(prev, next);
    let ghost kv = seq_view(ks@);
    let mut out: Vec<Change<T>> = Vec::new();
    let mut i: usize = 0;
    assert(kv.take(0) =~= Seq::<<T::Key as View>::V>::empty());
    while i < ks.len()
        invariant
            i <= ks@.len(),
            kv == seq_view(ks@),
            pv == seq_view(prev@),
            nv == seq_view(next@),
            seq_view(out@) == changes_for::<T>(pv, nv, kv.take(i as int)),
        decreases ks@.len() - i,
    {
        let k = &ks[i];
        let lp = last_with_key(prev, k);
        let ln = last_with_key(next, k);
        proof {
            lemma_last_key_index_props::<T>(pv, k@);
            lemma_last_key_index_props::<T>(nv, k@);
            assert(kv.take(i + 1).drop_last() =~= kv.take(i as int));
            assert(kv.take(i + 1).last() == k@);
        }
        let ghost before = out@;
        match (lp, ln) {
            (Some(a), Some(b)) => {
                if !prev[a].same(&next[b]) {
                    out.push(Change::Upsert(next[b].duplicate()));
                    assert(seq_view(out@) =~= seq_view(before).push(ChangeV::Upsert(nv[b as int])));
                }
            },
            (None, Some(b)) => {
                out.push(Change::Upsert(next[b].duplicate()));
                assert(seq_view(out@) =~= seq_view(before).push(ChangeV::Upsert(nv[b as int])));
            },
            (Some(_), None) => {
                out.push(Change::Delete(T::key_copy(k)));
                assert(seq_view(out@) =~= seq_view(before).push(ChangeV::Delete(k@)));
            },
            (None, None) => {},
        }
        i = i + 1;
    }
    assert(kv.take(i as int) =~= kv);
    proof {
        let ks2 = choose|ks2: Seq<<T::Key as View>::V>| sorted_key_union::<T>(pv, nv, ks2);
        assert(sorted_key_union::<T>(pv, nv, kv));
        lemma_sorted_unique::<T>(kv, ks2);
    }
    out
}

/// The operations that turn `previous` into `next`: for each collection and
/// each key of either snapshot, in ascending key order, an upsert of the
/// record of `next` when it is new or changed, or a deletion when `next`
/// lacks the key.
pub fn diff_snapshots(previous: &ConfigSnapshot, next: &ConfigSnapshot) -> (r: Vec<ConfigOperation>)
    ensures
        seq_view(r@) == diff_spec(previous@, next@),
{
    let mut ops: Vec<ConfigOperation> = Vec::new();
    let c1 = diff_collection(&previous.ingress_listeners, &next.ingress_listeners);
    let c2 = diff_collection(&previous.client_groups, &next.client_groups);
    let c3 = diff_collection(&previous.egress_upstreams, &next.egress_upstreams);
    let c4 = diff_collection(&previous.egress_vhost_rules, &next.egress_vhost_rules);
    let c5 = diff_collection(&previous.token_cache, &next.token_cache);
    let ghost s1 = seq_view(c1@).map_values(|c| ingress_op(c));
    let ghost s2 = seq_view(c2@).map_values(|c| group_op(c));
    let ghost s3 = seq_view(c3@).map_values(|c| upstream_op(c));
    let ghost s4 = seq_view(c4@).map_values(|c| vhost_op(c));
    let ghost s5 = seq_view(c5@).map_values(|c| token_op(c));
    let mut i: usize = 0;
    while i < c1.len()
        invariant
            i <= c1@.len(),
            s1 == seq_view(c1@).map_values(|c| ingress_op(c)),
            seq_view(ops@) == s1.take(i as int),
        decreases c1@.len() - i,
    {
        let op = match &c1[i] {
            Change::Upsert(v) => ConfigOperation::UpsertIngressListener(v.duplicate()),
            Change::Delete(k) => ConfigOperation::DeleteIngressListener { port: *k },
        };
        let ghost prev_ops = seq_view(ops@);
        assert(op@ == s1[i as int]);
        ops.push(op);
        assert(seq_view(ops@) =~= prev_ops.push(s1[i as int]));
        assert(s1.take(i + 1) =~= s1.take(i as int).push(s1[i as int]));
        i = i + 1;
        assert(seq_view(ops@) =~= s1.take(i as int));
    }
    assert(s1.take(i as int) =~= s1);
    let ghost base = seq_view(ops@);
    let mut i: usize = 0;
    while i < c2.len()
        invariant
            i <= c2@.len(),
            s2 == seq_view(c2@).map_values(|c| group_op(c)),
            seq_view(ops@) == base + s2.take(i as int),
        decreases c2@.len() - i,
    {
        let op = match &c2[i] {
            Change::Upsert(v) => ConfigOperation::UpsertClientGroup(v.duplicate()),
            Change::Delete(k) => ConfigOperation::DeleteClientGroup { group_id: k.clone() },
        };
        let ghost prev_ops = seq_view(ops@);
        assert(op@ == s2[i as int]);
        ops.push(op);
        assert(seq_view(ops@) =~= prev_ops.push(s2[i as int]));
        assert(s2.take(i + 1) =~= s2.take(i as int).push(s2[i as int]));
        i = i + 1;
        assert(seq_view(ops@) =~= base + s2.take(i as int));
    }
    assert(s2.take(i as int) =~= s2);
    let ghost base = seq_view(ops@);
    let mut i: usize = 0;
    while i < c3.len()
        invariant
            i <= c3@.len(),
            s3 == seq_view(c3@).map_values(|c| upstream_op(c)),
            seq_view(ops@) == base + s3.take(i as int),
        decreases c3@.len() - i,
    {
        let op = match &c3[i] {
            Change::Upsert(v) => ConfigOperation::UpsertEgressUpstream(v.duplicate()),
            Change::Delete(k) => ConfigOperation::DeleteEgressUpstream { name: k.clone() },
        };
        let ghost prev_ops = seq_view(ops@);
        assert(op@ == s3[i as int]);
        ops.push(op);
        assert(seq_view(ops@) =~= prev_ops.push(s3[i as int]));
        assert(s3.take(i + 1) =~= s3.take(i as int).push(s3[i as int]));
        i = i + 1;
        assert(seq_view(ops@) =~= base + s3.take(i as int));
    }
    assert(s3.take(i as int) =~= s3);
    let ghost base = seq_view(ops@);
    let mut i: usize = 0;
    while i < c4.len()
        invariant
            i <= c4@.len(),
            s4 == seq_view(c4@).map_values(|c| vhost_op(c)),
            seq_view(ops@) == base + s4.take(i as int),
        decreases c4@.len() - i,
    {
        let op = match &c4[i] {
            Change::Upsert(v) => ConfigOperation::UpsertEgressVhostRule(v.duplicate()),
            Change::Delete(k) => ConfigOperation::DeleteEgressVhostRule { match_host: k.clone() },
        };
        let ghost prev_ops = seq_view(ops@);
        assert(op@ == s4[i as int]);
        ops.push(op);
        assert(seq_view(ops@) =~= prev_ops.push(s4[i as int]));
        assert(s4.take(i + 1) =~= s4.take(i as int).push(s4[i as int]));
        i = i + 1;
        assert(seq_view(ops@) =~= base + s4.take(i as int));
    }
    assert(s4.take(i as int) =~= s4);
    let ghost base = seq_view(ops@);
    let mut i: usize = 0;
    while i < c5.len()
        invariant
            i <= c5@.len(),
            s5 == seq_view(c5@).map_values(|c| token_op(c)),
            seq_view(ops@) == base + s5.take(i as int),
        decreases c5@.len() - i,
    {
        let op = match &c5[i] {
            Change::Upsert(v) => ConfigOperation::UpsertToken(v.duplicate()),
            Change::Delete(k) => ConfigOperation::DeleteToken { hash_hex: k.clone() },
        };
        let ghost prev_ops = seq_view(ops@);
        assert(op@ == s5[i as int]);
        ops.push(op);
        assert(seq_view(ops@) =~= prev_ops.push(s5[i as int]));
        assert(s5.take(i + 1) =~= s5.take(i as int).push(s5[i as int]));
        i = i + 1;
        assert(seq_view(ops@) =~= base + s5.take(i as int));
    }
    assert(s5.take(i as int) =~= s5);
    ops
}

/// `k` inserted into the strictly ascending `ks`, unless present.
pub open spec fn insert_key<T: Keyed>(ks: Seq<<T::Key as View>::V>, k: <T::Key as View>::V) -> Seq<
    <T::Key as View>::V,
>
    decreases ks.len(),
{
    if ks.len() == 0 {
        seq![k]
    } else if ks[0] == k {
        ks
    } else if T::key_lt(k, ks[0]) {
        seq![k] + ks
    } else {
        seq![ks[0]] + insert_key::<T>(ks.drop_first(), k)
    }
}

/// The keys of `items`, strictly ascending.
pub open spec fn sorted_keys<T: Keyed>(items: Seq<T::V>) -> Seq<<T::Key as View>::V>
    decreases items.len(),
{
    if items.len() == 0 {
        Seq::empty()
    } else {
        insert_key::<T>(sorted_keys::<T>(items.drop_last()), T::key_of(items.last()))
    }
}

pub open spec fn strictly_ascending<T: Keyed>(ks: Seq<<T::Key as View>::V>) -> bool {
    forall|i: int, j: int| 0 <= i < j < ks.len() ==> T::key_lt(#[trigger] ks[i], #[trigger] ks[j])
}

proof fn lemma_insert_key<T: Keyed>(ks: Seq<<T::Key as View>::V>, k: <T::Key as View>::V)
    requires
        strictly_ascending::<T>(ks),
    ensures
        strictly_ascending::<T>(insert_key::<T>(ks, k)),
        forall|x: <T::Key as View>::V|
            #[trigger] insert_key::<T>(ks, k).contains(x) <==> (ks.contains(x) || x == k),
    decreases ks.len(),
{
    let r = insert_key::<T>(ks, k);
    if ks.len() == 0 {
        assert(r[0] == k);
    } else if ks[0] == k {
    } else if T::key_lt(k, ks[0]) {
        assert forall|i: int, j: int| 0 <= i < j < r.len() implies T::key_lt(#[trigger] r[i], #[trigger] r[j]) by {
            if i == 0 {
                if j > 1 {
                    assert(T::key_lt(ks[0], ks[j - 1]));
                    T::lemma_key_order(k, ks[0], ks[j - 1]);
                }
            } else {
                assert(T::key_lt(ks[i - 1], ks[j - 1]));
            }
        }
        assert forall|x: <T::Key as View>::V| #[trigger] r.contains(x) <==> (ks.contains(x) || x == k) by {
            if r.contains(x) {
                let i = choose|i: int| 0 <= i < r.len() && r[i] == x;
                if i > 0 {
                    assert(ks[i - 1] == x);
                }
            }
            if ks.contains(x) {
                let i = choose|i: int| 0 <= i < ks.len() && ks[i] == x;
                assert(r[i + 1] == x);
            }
            if x == k {
                assert(r[0] == x);
            }
        }
    } else {
        let t = ks.drop_first();
        assert forall|i: int, j: int| 0 <= i < j < t.len() implies T::key_lt(#[trigger] t[i], #[trigger] t[j]) by {
            assert(T::key_lt(ks[i + 1], ks[j + 1]));
        }
        lemma_insert_key::<T>(t, k);
        let rt = insert_key::<T>(t, k);
        T::lemma_key_order(ks[0], k, k);
        assert forall|x: <T::Key as View>::V| #[trigger] r.contains(x) <==> (ks.contains(x) || x == k) by {
            assert(rt.contains(x) <==> (t.contains(x) || x == k));
            if r.contains(x) {
                let i = choose|i: int| 0 <= i < r.len() && r[i] == x;
                if i > 0 {
                    assert(rt[i - 1] == x);
                    if t.contains(x) {
                        let j = choose|j: int| 0 <= j < t.len() && t[j] == x;
                        assert(ks[j + 1] == x);
                    }
                } else {
                    assert(ks[0] == x);
                }
            }
            if ks.contains(x) {
                let i = choose|i: int| 0 <= i < ks.len() && ks[i] == x;
                if i > 0 {
                    assert(t[i - 1] == x);
                    assert(rt.contains(x));
                    let j = choose|j: int| 0 <= j < rt.len() && rt[j] == x;
                    assert(r[j + 1] == x);
                } else {
                    assert(r[0] == x);
                }
            }
            if x == k {
                assert(rt.contains(x));
                let j = choose|j: int| 0 <= j < rt.len() && rt[j] == x;
                assert(r[j + 1] == x);
            }
        }
        assert forall|i: int, j: int| 0 <= i < j < r.len() implies T::key_lt(#[trigger] r[i], #[trigger] r[j]) by {
            if i == 0 {
                assert(r[j] == rt[j - 1]);
                assert(rt.contains(rt[j - 1]));
                if t.contains(rt[j - 1]) {
                    let a = choose|a: int| 0 <= a < t.len() && t[a] == rt[j - 1];
                    assert(T::key_lt(ks[0], ks[a + 1]));
                }
            } else {
                assert(T::key_lt(rt[i - 1], rt[j - 1]));
            }
        }
    }
}

proof fn lemma_sorted_keys<T: Keyed>(items: Seq<T::V>)
    ensures
        strictly_ascending::<T>(sorted_keys::<T>(items)),
        forall|x: <T::Key as View>::V|
            #[trigger] sorted_keys::<T>(items).contains(x) <==> has_key::<T>(items, x),
    decreases items.len(),
{
    if items.len() > 0 {
        let s = items.drop_last();
        lemma_sorted_keys::<T>(s);
        lemma_insert_key::<T>(sorted_keys::<T>(s), T::key_of(items.last()));
        assert forall|x: <T::Key as View>::V| #[trigger] sorted_keys::<T>(items).contains(x)
            <==> has_key::<T>(items, x) by {
            assert(sorted_keys::<T>(s).contains(x) <==> has_key::<T>(s, x));
            if has_key::<T>(items, x) {
                let j = choose|j: int| 0 <= j < items.len() && T::key_of(items[j]) == x;
                if j < s.len() {
                    assert(T::key_of(s[j]) == x);
                }
            }
            if has_key::<T>(s, x) {
                let j = choose|j: int| 0 <= j < s.len() && T::key_of(s[j]) == x;
                assert(T::key_of(items[j]) == x);
            }
            if x == T::key_of(items.last()) {
                assert(T::key_of(items[items.len() - 1]) == x);
            }
        }
    }
}

/// Every pair of collections has an ascending union of keys.
proof fn lemma_sorted_union_exists<T: Keyed>(prev: Seq<T::V>, next: Seq<T::V>)
    ensures
        sorted_key_union::<T>(prev, next, sorted_keys::<T>(prev + next)),
{
    let both = prev + next;
    lemma_sorted_keys::<T>(both);
    assert forall|x: <T::Key as View>::V| has_key::<T>(both, x) <==> (has_key::<T>(prev, x)
        || has_key::<T>(next, x)) by {
        if has_key::<T>(both, x) {
            let j = choose|j: int| 0 <= j < both.len() && T::key_of(both[j]) == x;
            if j < prev.len() {
                assert(T::key_of(prev[j]) == x);
            } else {
                assert(T::key_of(next[j - prev.len()]) == x);
            }
        }
        if has_key::<T>(prev, x) {
            let j = choose|j: int| 0 <= j < prev.len() && T::key_of(prev[j]) == x;
            assert(T::key_of(both[j]) == x);
        }
        if has_key::<T>(next, x) {
            let j = choose|j: int| 0 <= j < next.len() && T::key_of(next[j]) == x;
            assert(T::key_of(both[j + prev.len()]) == x);
        }
    }
}

/// The effect of one change on a collection.
pub open spec fn apply_change<T: Keyed>(items: Seq<T::V>, c: ChangeV<T::V, <T::Key as View>::V>) -> Seq<T::V> {
    match c {
        ChangeV::Upsert(v) => upsert_spec::<T>(items, v),
        ChangeV::Delete(k) => delete_spec::<T>(items, k),
    }
}

/// The effect of a sequence of changes, applied in order.
pub open spec fn apply_changes<T: Keyed>(
    items: Seq<T::V>,
    cs: Seq<ChangeV<T::V, <T::Key as View>::V>>,
) -> Seq<T::V>
    decreases cs.len(),
{
    if cs.len() == 0 {
        items
    } else {
        apply_change::<T>(apply_changes::<T>(items, cs.drop_last()), cs.last())
    }
}

/// The map `prev` denotes, with the keys in `ks` taken from `next` instead.
pub open spec fn merged<T: Keyed>(
    prev: Seq<T::V>,
    next: Seq<T::V>,
    ks: Seq<<T::Key as View>::V>,
) -> Map<<T::Key as View>::V, T::V> {
    Map::new(
        |x: <T::Key as View>::V|
            if ks.contains(x) {
                has_key::<T>(next, x)
            } else {
                has_key::<T>(prev, x)
            },
        |x: <T::Key as View>::V|
            if ks.contains(x) {
                key_map::<T>(next)[x]
            } else {
                key_map::<T>(prev)[x]
            },
    )
}

proof fn lemma_changes_prefix<T: Keyed>(
    prev: Seq<T::V>,
    next: Seq<T::V>,
    ks: Seq<<T::Key as View>::V>,
    n: int,
)
    requires
        keys_unique::<T>(prev),
        keys_unique::<T>(next),
        strictly_ascending::<T>(ks),
        0 <= n <= ks.len(),
    ensures
        keys_unique::<T>(apply_changes::<T>(prev, changes_for::<T>(prev, next, ks.take(n)))),
        key_map::<T>(apply_changes::<T>(prev, changes_for::<T>(prev, next, ks.take(n))))
            == merged::<T>(prev, next, ks.take(n)),
    decreases n,
{
    if n == 0 {
        assert(ks.take(0) =~= Seq::<<T::Key as View>::V>::empty());
        assert(key_map::<T>(prev) =~= merged::<T>(prev, next, ks.take(0)));
    } else {
        lemma_changes_prefix::<T>(prev, next, ks, n - 1);
        let kn = ks.take(n);
        let km = ks.take(n - 1);
        assert(kn.drop_last() =~= km);
        let k = ks[n - 1];
        assert(kn.last() == k);
        let cm = changes_for::<T>(prev, next, km);
        let rm = apply_changes::<T>(prev, cm);
        let cn = changes_for::<T>(prev, next, kn);
        let rn = apply_changes::<T>(prev, cn);
        T::lemma_key_order(k, k, k);
        assert(!km.contains(k)) by {
            if km.contains(k) {
                let i = choose|i: int| 0 <= i < km.len() && km[i] == k;
                assert(T::key_lt(ks[i], ks[n - 1]));
            }
        }
        assert forall|x: <T::Key as View>::V| #[trigger] kn.contains(x) <==> (km.contains(x) || x == k) by {
            if kn.contains(x) {
                let i = choose|i: int| 0 <= i < kn.len() && kn[i] == x;
                if i < n - 1 {
                    assert(km[i] == x);
                }
            }
            if km.contains(x) {
                let i = choose|i: int| 0 <= i < km.len() && km[i] == x;
                assert(kn[i] == x);
            }
            if x == k {
                assert(kn[n - 1] == x);
            }
        }
        lemma_last_key_index_props::<T>(prev, k);
        lemma_last_key_index_props::<T>(next, k);
        let mm = merged::<T>(prev, next, km);
        let mn = merged::<T>(prev, next, kn);
        match change_for::<T>(prev, next, k) {
            Some(ch) => {
                assert(cn == cm.push(ch));
                assert(cn.drop_last() =~= cm);
                assert(rn == apply_change::<T>(rm, ch));
                match ch {
                    ChangeV::Upsert(v) => {
                        lemma_upsert_key_map::<T>(rm, v);
                        assert(key_map::<T>(rn) =~= mn);
                    },
                    ChangeV::Delete(d) => {
                        lemma_delete_key_map::<T>(rm, d);
                        assert(key_map::<T>(rn) =~= mn);
                    },
                }
            },
            None => {
                assert(cn == cm);
                assert(key_map::<T>(rn) =~= mn);
            },
        }
    }
}

/// Applying the changes for an ascending union of keys to `prev` gives a
/// collection with distinct keys that denotes the same map as `next`.
proof fn lemma_collection_diff_applies<T: Keyed>(prev: Seq<T::V>, next: Seq<T::V>)
    requires
        keys_unique::<T>(prev),
        keys_unique::<T>(next),
    ensures
        keys_unique::<T>(apply_changes::<T>(prev, collection_diff::<T>(prev, next))),
        key_map::<T>(apply_changes::<T>(prev, collection_diff::<T>(prev, next))) == key_map::<T>(next),
{
    lemma_sorted_union_exists::<T>(prev, next);
    let ks = choose|ks: Seq<<T::Key as View>::V>| sorted_key_union::<T>(prev, next, ks);
    assert(sorted_key_union::<T>(prev, next, ks));
    lemma_changes_prefix::<T>(prev, next, ks, ks.len() as int);
    assert(ks.take(ks.len() as int) =~= ks);
    let m = merged::<T>(prev, next, ks);
    assert forall|x: <T::Key as View>::V| #[trigger] m.dom().contains(x) <==> key_map::<T>(next).dom().contains(x) by {
        if has_key::<T>(next, x) {
            assert(ks.contains(x));
        }
    }
    assert(m =~= key_map::<T>(next));
}

proof fn lemma_apply_operations_concat(s: SnapshotV, a: Seq<OperationV>, b: Seq<OperationV>)
    ensures
        apply_operations(s, a + b) == apply_operations(apply_operations(s, a), b),
    decreases b.len(),
{
    if b.len() == 0 {
        assert(a + b =~= a);
    } else {
        lemma_apply_operations_concat(s, a, b.drop_last());
        assert((a + b).drop_last() =~= a + b.drop_last());
        assert((a + b).last() == b.last());
    }
}

proof fn lemma_ingress_ops(s: SnapshotV, cs: Seq<ChangeV<IngressListenerV, u16>>)
    ensures
        apply_operations(s, cs.map_values(|c| ingress_op(c))) == (SnapshotV {
            ingress_listeners: apply_changes::<IngressListenerDef>(s.ingress_listeners, cs),
            ..s
        }),
    decreases cs.len(),
{
    if cs.len() > 0 {
        lemma_ingress_ops(s, cs.drop_last());
        assert(cs.map_values(|c| ingress_op(c)).drop_last() =~= cs.drop_last().map_values(
            |c| ingress_op(c),
        ));
    } else {
        assert(cs.map_values(|c| ingress_op(c)) =~= Seq::<OperationV>::empty());
    }
}

proof fn lemma_group_ops(s: SnapshotV, cs: Seq<ChangeV<ClientGroupV, Seq<char>>>)
    ensures
        apply_operations(s, cs.map_values(|c| group_op(c))) == (SnapshotV {
            client_groups: apply_changes::<ClientGroupDef>(s.client_groups, cs),
            ..s
        }),
    decreases cs.len(),
{
    if cs.len() > 0 {
        lemma_group_ops(s, cs.drop_last());
        assert(cs.map_values(|c| group_op(c)).drop_last() =~= cs.drop_last().map_values(
            |c| group_op(c),
        ));
    } else {
        assert(cs.map_values(|c| group_op(c)) =~= Seq::<OperationV>::empty());
    }
}

proof fn lemma_upstream_ops(s: SnapshotV, cs: Seq<ChangeV<EgressUpstreamV, Seq<char>>>)
    ensures
        apply_operations(s, cs.map_values(|c| upstream_op(c))) == (SnapshotV {
            egress_upstreams: apply_changes::<EgressUpstreamDef>(s.egress_upstreams, cs),
            ..s
        }),
    decreases cs.len(),
{
    if cs.len() > 0 {
        lemma_upstream_ops(s, cs.drop_last());
        assert(cs.map_values(|c| upstream_op(c)).drop_last() =~= cs.drop_last().map_values(
            |c| upstream_op(c),
        ));
    } else {
        assert(cs.map_values(|c| upstream_op(c)) =~= Seq::<OperationV>::empty());
    }
}

proof fn lemma_vhost_ops(s: SnapshotV, cs: Seq<ChangeV<EgressVhostRuleV, Seq<char>>>)
    ensures
        apply_operations(s, cs.map_values(|c| vhost_op(c))) == (SnapshotV {
            egress_vhost_rules: apply_changes::<EgressVhostRuleDef>(s.egress_vhost_rules, cs),
            ..s
        }),
    decreases cs.len(),
{
    if cs.len() > 0 {
        lemma_vhost_ops(s, cs.drop_last());
        assert(cs.map_values(|c| vhost_op(c)).drop_last() =~= cs.drop_last().map_values(
            |c| vhost_op(c),
        ));
    } else {
        assert(cs.map_values(|c| vhost_op(c)) =~= Seq::<OperationV>::empty());
    }
}

proof fn lemma_token_ops(s: SnapshotV, cs: Seq<ChangeV<TokenCacheEntryV, Seq<char>>>)
    ensures
        apply_operations(s, cs.map_values(|c| token_op(c))) == (SnapshotV {
            token_cache: apply_changes::<TokenCacheEntryDef>(s.token_cache, cs),
            ..s
        }),
    decreases cs.len(),
{
    if cs.len() > 0 {
        lemma_token_ops(s, cs.drop_last());
        assert(cs.map_values(|c| token_op(c)).drop_last() =~= cs.drop_last().map_values(
            |c| token_op(c),
        ));
    } else {
        assert(cs.map_values(|c| token_op(c)) =~= Seq::<OperationV>::empty());
    }
}

/// Applying the operations `diff_snapshots` computes from `prev` to `next`
/// to `prev` gives a snapshot whose collections have distinct keys and hold,
/// key by key, the records of `next`; the resource version stays that of
/// `prev`. (Records come out in the order the operations put them, which
/// need not be the order of `next`.)
pub proof fn law_diff_then_apply_reconstructs(prev: SnapshotV, next: SnapshotV)
    requires
        snapshot_keys_unique(prev),
        snapshot_keys_unique(next),
    ensures
        snapshot_keys_unique(apply_operations(prev, diff_spec(prev, next))),
        apply_operations(prev, diff_spec(prev, next)).resource_version == prev.resource_version,
        key_map::<IngressListenerDef>(apply_operations(prev, diff_spec(prev, next)).ingress_listeners)
            == key_map::<IngressListenerDef>(next.ingress_listeners),
        key_map::<ClientGroupDef>(apply_operations(prev, diff_spec(prev, next)).client_groups)
            == key_map::<ClientGroupDef>(next.client_groups),
        key_map::<EgressUpstreamDef>(apply_operations(prev, diff_spec(prev, next)).egress_upstreams)
            == key_map::<EgressUpstreamDef>(next.egress_upstreams),
        key_map::<EgressVhostRuleDef>(
            apply_operations(prev, diff_spec(prev, next)).egress_vhost_rules,
        ) == key_map::<EgressVhostRuleDef>(next.egress_vhost_rules),
        key_map::<TokenCacheEntryDef>(apply_operations(prev, diff_spec(prev, next)).token_cache)
            == key_map::<TokenCacheEntryDef>(next.token_cache),
{
    let d1 = collection_diff::<IngressListenerDef>(prev.ingress_listeners, next.ingress_listeners);
    let d2 = collection_diff::<ClientGroupDef>(prev.client_groups, next.client_groups);
    let d3 = collection_diff::<EgressUpstreamDef>(prev.egress_upstreams, next.egress_upstreams);
    let d4 = collection_diff::<EgressVhostRuleDef>(prev.egress_vhost_rules, next.egress_vhost_rules);
    let d5 = collection_diff::<TokenCacheEntryDef>(prev.token_cache, next.token_cache);
    let o1 = d1.map_values(|c| ingress_op(c));
    let o2 = d2.map_values(|c| group_op(c));
    let o3 = d3.map_values(|c| upstream_op(c));
    let o4 = d4.map_values(|c| vhost_op(c));
    let o5 = d5.map_values(|c| token_op(c));
    assert(diff_spec(prev, next) == o1 + o2 + o3 + o4 + o5);
    lemma_apply_operations_concat(prev, o1 + o2 + o3 + o4, o5);
    lemma_apply_operations_concat(prev, o1 + o2 + o3, o4);
    lemma_apply_operations_concat(prev, o1 + o2, o3);
    lemma_apply_operations_concat(prev, o1, o2);
    lemma_ingress_ops(prev, d1);
    let s1 = apply_operations(prev, o1);
    lemma_group_ops(s1, d2);
    let s2 = apply_operations(s1, o2);
    lemma_upstream_ops(s2, d3);
    let s3 = apply_operations(s2, o3);
    lemma_vhost_ops(s3, d4);
    let s4 = apply_operations(s3, o4);
    lemma_token_ops(s4, d5);
    lemma_collection_diff_applies::<IngressListenerDef>(prev.ingress_listeners, next.ingress_listeners);
    lemma_collection_diff_applies::<ClientGroupDef>(prev.client_groups, next.client_groups);
    lemma_collection_diff_applies::<EgressUpstreamDef>(prev.egress_upstreams, next.egress_upstreams);
    lemma_collection_diff_applies::<EgressVhostRuleDef>(
        prev.egress_vhost_rules,
        next.egress_vhost_rules,
    );
    lemma_collection_diff_applies::<TokenCacheEntryDef>(prev.token_cache, next.token_cache);
}

/// Applying the operations `diff_snapshots` computes from `prev` to `next`
/// to `prev` gives a snapshot with the canonical form of `next`, and so the
/// content hash of `next`.
pub proof fn law_diff_then_apply_has_target_content(prev: SnapshotV, next: SnapshotV)
    requires
        snapshot_keys_unique(prev),
        snapshot_keys_unique(next),
    ensures
        canonical_view(apply_operations(prev, diff_spec(prev, next))) == canonical_view(next),
{
    let s = apply_operations(prev, diff_spec(prev, next));
    law_diff_then_apply_reconstructs(prev, next);
    law_same_key_map_sorts_alike::<IngressListenerDef>(s.ingress_listeners, next.ingress_listeners);
    law_same_key_map_sorts_alike::<ClientGroupDef>(s.client_groups, next.client_groups);
    law_same_key_map_sorts_alike::<EgressUpstreamDef>(s.egress_upstreams, next.egress_upstreams);
    law_same_key_map_sorts_alike::<EgressVhostRuleDef>(s.egress_vhost_rules, next.egress_vhost_rules);
    law_same_key_map_sorts_alike::<TokenCacheEntryDef>(s.token_cache, next.token_cache);
}

proof fn lemma_no_changes_for_same<T: Keyed>(items: Seq<T::V>, ks: Seq<<T::Key as View>::V>)
    ensures
        changes_for::<T>(items, items, ks) == Seq::<ChangeV<T::V, <T::Key as View>::V>>::empty(),
    decreases ks.len(),
{
    if ks.len() > 0 {
        lemma_no_changes_for_same::<T>(items, ks.drop_last());
    }
}

/// A snapshot compared with itself yields no operations.
pub proof fn law_diff_of_same_is_empty(s: SnapshotV)
    ensures
        diff_spec(s, s) == Seq::<OperationV>::empty(),
{
    lemma_no_changes_for_same::<IngressListenerDef>(
        s.ingress_listeners,
        choose|ks: Seq<u16>| sorted_key_union::<IngressListenerDef>(s.ingress_listeners, s.ingress_listeners, ks),
    );
    lemma_no_changes_for_same::<ClientGroupDef>(
        s.client_groups,
        choose|ks: Seq<Seq<char>>| sorted_key_union::<ClientGroupDef>(s.client_groups, s.client_groups, ks),
    );
    lemma_no_changes_for_same::<EgressUpstreamDef>(
        s.egress_upstreams,
        choose|ks: Seq<Seq<char>>| sorted_key_union::<EgressUpstreamDef>(s.egress_upstreams, s.egress_upstreams, ks),
    );
    lemma_no_changes_for_same::<EgressVhostRuleDef>(
        s.egress_vhost_rules,
        choose|ks: Seq<Seq<char>>| sorted_key_union::<EgressVhostRuleDef>(s.egress_vhost_rules, s.egress_vhost_rules, ks),
    );
    lemma_no_changes_for_same::<TokenCacheEntryDef>(
        s.token_cache,
        choose|ks: Seq<Seq<char>>| sorted_key_union::<TokenCacheEntryDef>(s.token_cache, s.token_cache, ks),
    );
    assert(diff_spec(s, s) =~= Seq::<OperationV>::empty());
}

} // verus!
