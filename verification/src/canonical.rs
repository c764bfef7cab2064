//! The canonical form of a configuration snapshot, in which every
//! collection is sorted by its key and the transport revision is zero, and
//! the content hash computed over its serialised form.

use vstd::prelude::*;
use crate::model::{
    seq_view, vec_duplicate, Keyed, SameView, ClientGroupDef, ClientGroupV, ClientUpstreamDef,
    ClientUpstreamV, EgressUpstreamDef, EgressUpstreamV, EgressVhostRuleDef, IngressListenerDef,
    IngressListenerModeDef, IngressListenerV, IngressModeV, IngressVhostRuleDef, TokenCacheEntryDef,
    UpstreamServerDef, UpstreamServerV,
};
use crate::ctld::{ConfigSnapshot, SnapshotV};
use crate::collection::{has_key, key_map, keys_unique, lemma_key_map_unique};
use crate::auth::{hex_encode, hex_lower, sha256, sha256_digest};

verus! {

/// `s` (sorted) with `x` inserted after every element whose key is not
/// greater than its own: one step of a stable insertion sort.
pub open spec fn insert_stable<T: Keyed>(s: Seq<T::V>, x: T::V) -> Seq<T::V>
    decreases s.len(),
{
    if s.len() == 0 {
        seq![x]
    } else if T::key_lt(T::key_of(x), T::key_of(s.last())) {
        insert_stable::<T>(s.drop_last(), x).push(s.last())
    } else {
        s.push(x)
    }
}

/// `s` stably sorted by key (what `sort_by` on the key yields).
pub open spec fn sorted_by_key<T: Keyed>(s: Seq<T::V>) -> Seq<T::V>
    decreases s.len(),
{
    if s.len() == 0 {
        s
    } else {
        insert_stable::<T>(sorted_by_key::<T>(s.drop_last()), s.last())
    }
}

/// Sorts `items` stably by key.
pub fn sort_by_key<T: Keyed>(items: &mut Vec<T>)
    ensures
        seq_view(final(items)@) == sorted_by_key::<T>(seq_view(old(items)@)),
{
    let ghost src = seq_view(items@);
    let mut out: Vec<T> = Vec::new();
    let mut i: usize = 0;
    assert(src.take(0) =~= Seq::<T::V>::empty());
    while i < items.len()
        invariant
            src == seq_view(items@),
            i <= items@.len(),
            seq_view(out@) == sorted_by_key::<T>(src.take(i as int)),
        decreases items@.len() - i,
    {
        let x = items[i].duplicate();
        let kx = x.key();
        let ghost s = seq_view(out@);
        let mut j: usize = out.len();
        assert(s.skip(j as int) =~= Seq::<T::V>::empty());
        assert(s.take(j as int) =~= s);
        while j > 0 && T::key_less(&kx, &out[j - 1].key())
            invariant
                s == seq_view(out@),
                kx@ == T::key_of(x@),
                j <= out@.len(),
                insert_stable::<T>(s, x@) == insert_stable::<T>(s.take(j as int), x@) + s.skip(
                    j as int,
                ),
            decreases j,
        {
            assert(s.take(j as int).drop_last() =~= s.take(j - 1));
            assert(s.take(j as int).last() == s[j - 1]);
            assert(insert_stable::<T>(s.take(j - 1), x@).push(s[j - 1]) + s.skip(j as int)
                =~= insert_stable::<T>(s.take(j - 1), x@) + s.skip(j - 1));
            j = j - 1;
        }
        proof {
            if j > 0 {
                assert(s.take(j as int).last() == s[j - 1]);
            }
            assert(insert_stable::<T>(s.take(j as int), x@) == s.take(j as int).push(x@));
        }
        out.insert(j, x);
        proof {
            assert(src.take(i + 1).drop_last() =~= src.take(i as int));
            assert(src.take(i + 1).last() == x@);
            assert(seq_view(out@) =~= s.take(j as int).push(x@) + s.skip(j as int));
        }
        i = i + 1;
    }
    assert(src.take(i as int) =~= src);
    *items = out;
}

/// Keys never decrease along `s`.
pub open spec fn key_sorted<T: Keyed>(s: Seq<T::V>) -> bool {
    forall|i: int, j: int|
        0 <= i < j < s.len() ==> !T::key_lt(T::key_of(#[trigger] s[j]), T::key_of(#[trigger] s[i]))
}

/// Elements of `s` that share a key are the same element.
pub open spec fn keys_determine<T: Keyed>(s: Seq<T::V>) -> bool {
    forall|i: int, j: int|
        0 <= i < s.len() && 0 <= j < s.len() && T::key_of(#[trigger] s[i]) == T::key_of(
            #[trigger] s[j],
        ) ==> s[i] == s[j]
}

proof fn lemma_insert_stable<T: Keyed>(s: Seq<T::V>, x: T::V)
    requires
        key_sorted::<T>(s),
    ensures
        insert_stable::<T>(s, x).to_multiset() == s.to_multiset().insert(x),
        key_sorted::<T>(insert_stable::<T>(s, x)),
    decreases s.len(),
{
    broadcast use vstd::seq_lib::group_to_multiset_ensures;

    let kx = T::key_of(x);
    if s.len() == 0 {
        assert(seq![x] =~= Seq::<T::V>::empty().push(x));
        assert(s =~= Seq::<T::V>::empty());
    } else {
        let p = s.drop_last();
        let l = s.last();
        let kl = T::key_of(l);
        assert(p.push(l) =~= s);
        assert(key_sorted::<T>(p)) by {
            assert forall|i: int, j: int| 0 <= i < j < p.len() implies !T::key_lt(
                T::key_of(#[trigger] p[j]),
                T::key_of(#[trigger] p[i]),
            ) by {
                assert(p[i] == s[i] && p[j] == s[j]);
            }
        }
        if T::key_lt(kx, kl) {
            lemma_insert_stable::<T>(p, x);
            let q = insert_stable::<T>(p, x);
            assert(q.push(l).to_multiset() =~= s.to_multiset().insert(x));
            assert forall|i: int| 0 <= i < q.len() implies !T::key_lt(kl, T::key_of(q[i])) by {
                assert(q.contains(q[i]));
                assert(q.to_multiset().count(q[i]) > 0);
                if q[i] == x {
                    T::lemma_key_order(kx, kl, kx);
                } else {
                    assert(p.to_multiset().count(q[i]) > 0);
                    assert(p.contains(q[i]));
                    let k = choose|k: int| 0 <= k < p.len() && p[k] == q[i];
                    assert(s[k] == q[i]);
                    assert(s[s.len() - 1] == l);
                }
            }
            let r = q.push(l);
            assert forall|i: int, j: int| 0 <= i < j < r.len() implies !T::key_lt(
                T::key_of(#[trigger] r[j]),
                T::key_of(#[trigger] r[i]),
            ) by {
                if j < q.len() {
                    assert(r[i] == q[i] && r[j] == q[j]);
                } else {
                    assert(r[j] == l);
                    assert(r[i] == q[i]);
                }
            }
        } else {
            let r = s.push(x);
            assert(r.to_multiset() =~= s.to_multiset().insert(x));
            assert forall|i: int| 0 <= i < s.len() implies !T::key_lt(kx, T::key_of(s[i])) by {
                let ki = T::key_of(s[i]);
                T::lemma_key_order(kl, ki, kl);
                T::lemma_key_order(kx, ki, kl);
                if i < s.len() - 1 {
                    assert(s[s.len() - 1] == l);
                }
            }
            assert forall|i: int, j: int| 0 <= i < j < r.len() implies !T::key_lt(
                T::key_of(#[trigger] r[j]),
                T::key_of(#[trigger] r[i]),
            ) by {
                if j < s.len() {
                    assert(r[i] == s[i] && r[j] == s[j]);
                } else {
                    assert(r[j] == x);
                    assert(r[i] == s[i]);
                }
            }
        }
    }
}

/// A stable sort by key puts keys in order and keeps every element.
pub proof fn lemma_sorted_by_key<T: Keyed>(s: Seq<T::V>)
    ensures
        sorted_by_key::<T>(s).to_multiset() == s.to_multiset(),
        key_sorted::<T>(sorted_by_key::<T>(s)),
    decreases s.len(),
{
    broadcast use vstd::seq_lib::group_to_multiset_ensures;

    if s.len() > 0 {
        lemma_sorted_by_key::<T>(s.drop_last());
        lemma_insert_stable::<T>(sorted_by_key::<T>(s.drop_last()), s.last());
        assert(s.drop_last().push(s.last()) =~= s);
    }
}

proof fn lemma_keys_determine_transfer<T: Keyed>(a: Seq<T::V>, b: Seq<T::V>)
    requires
        a.to_multiset() == b.to_multiset(),
        keys_determine::<T>(a),
    ensures
        keys_determine::<T>(b),
{
    broadcast use vstd::seq_lib::group_to_multiset_ensures;

    assert forall|i: int, j: int|
        0 <= i < b.len() && 0 <= j < b.len() && T::key_of(#[trigger] b[i]) == T::key_of(
            #[trigger] b[j],
        ) implies b[i] == b[j] by {
        assert(b.contains(b[i]) && b.contains(b[j]));
        assert(b.to_multiset().count(b[i]) > 0 && b.to_multiset().count(b[j]) > 0);
        assert(a.to_multiset().count(b[i]) > 0 && a.to_multiset().count(b[j]) > 0);
        assert(a.contains(b[i]) && a.contains(b[j]));
        let p = choose|p: int| 0 <= p < a.len() && a[p] == b[i];
        let q = choose|q: int| 0 <= q < a.len() && a[q] == b[j];
        assert(T::key_of(a[p]) == T::key_of(a[q]));
    }
}

proof fn lemma_sorted_equal<T: Keyed>(a: Seq<T::V>, b: Seq<T::V>)
    requires
        a.to_multiset() == b.to_multiset(),
        key_sorted::<T>(a),
        key_sorted::<T>(b),
        keys_determine::<T>(a),
        keys_determine::<T>(b),
    ensures
        a == b,
    decreases a.len(),
{
    broadcast use vstd::seq_lib::group_to_multiset_ensures;

    assert(a.len() == a.to_multiset().len());
    assert(b.len() == b.to_multiset().len());
    if a.len() == 0 {
        assert(a =~= b);
    } else {
        let a0 = a[0];
        let b0 = b[0];
        assert(a.contains(a0) && b.contains(b0));
        assert(a.to_multiset().count(a0) > 0 && b.to_multiset().count(b0) > 0);
        assert(b.to_multiset().count(a0) > 0 && a.to_multiset().count(b0) > 0);
        assert(b.contains(a0) && a.contains(b0));
        let k = choose|k: int| 0 <= k < b.len() && b[k] == a0;
        let m = choose|m: int| 0 <= m < a.len() && a[m] == b0;
        let ka = T::key_of(a0);
        let kb = T::key_of(b0);
        if a0 != b0 {
            assert(k != 0 && m != 0);
            assert(T::key_of(b[k]) != T::key_of(b[0]));
            T::lemma_key_order(kb, ka, kb);
            T::lemma_key_order(ka, kb, ka);
            assert(false);
        }
        let ta = a.drop_first();
        let tb = b.drop_first();
        assert(a.remove(0) =~= ta);
        assert(b.remove(0) =~= tb);
        assert(ta.to_multiset() == tb.to_multiset());
        assert(key_sorted::<T>(ta)) by {
            assert forall|i: int, j: int| 0 <= i < j < ta.len() implies !T::key_lt(
                T::key_of(#[trigger] ta[j]),
                T::key_of(#[trigger] ta[i]),
            ) by {
                assert(ta[i] == a[i + 1] && ta[j] == a[j + 1]);
            }
        }
        assert(key_sorted::<T>(tb)) by {
            assert forall|i: int, j: int| 0 <= i < j < tb.len() implies !T::key_lt(
                T::key_of(#[trigger] tb[j]),
                T::key_of(#[trigger] tb[i]),
            ) by {
                assert(tb[i] == b[i + 1] && tb[j] == b[j + 1]);
            }
        }
        assert(keys_determine::<T>(ta)) by {
            assert forall|i: int, j: int|
                0 <= i < ta.len() && 0 <= j < ta.len() && T::key_of(#[trigger] ta[i]) == T::key_of(
                    #[trigger] ta[j],
                ) implies ta[i] == ta[j] by {
                assert(ta[i] == a[i + 1] && ta[j] == a[j + 1]);
            }
        }
        assert(keys_determine::<T>(tb)) by {
            assert forall|i: int, j: int|
                0 <= i < tb.len() && 0 <= j < tb.len() && T::key_of(#[trigger] tb[i]) == T::key_of(
                    #[trigger] tb[j],
                ) implies tb[i] == tb[j] by {
                assert(tb[i] == b[i + 1] && tb[j] == b[j + 1]);
            }
        }
        lemma_sorted_equal::<T>(ta, tb);
        assert(a =~= b) by {
            assert forall|i: int| 0 <= i < a.len() implies a[i] == b[i] by {
                if i > 0 {
                    assert(a[i] == ta[i - 1] && b[i] == tb[i - 1]);
                }
            }
        }
    }
}

/// Sorting by key does not depend on the order the elements came in, when
/// elements that share a key are identical: any two orderings of the same
/// elements sort alike.
pub proof fn law_sort_is_order_independent<T: Keyed>(a: Seq<T::V>, b: Seq<T::V>)
    requires
        a.to_multiset() == b.to_multiset(),
        keys_determine::<T>(a),
    ensures
        sorted_by_key::<T>(a) == sorted_by_key::<T>(b),
{
    lemma_sorted_by_key::<T>(a);
    lemma_sorted_by_key::<T>(b);
    lemma_keys_determine_transfer::<T>(a, b);
    lemma_keys_determine_transfer::<T>(a, sorted_by_key::<T>(a));
    lemma_keys_determine_transfer::<T>(b, sorted_by_key::<T>(b));
    lemma_sorted_equal::<T>(sorted_by_key::<T>(a), sorted_by_key::<T>(b));
}

proof fn lemma_insert_map<T: Keyed>(s: Seq<T::V>, x: T::V, f: spec_fn(T::V) -> T::V)
    requires
        forall|v: T::V| #[trigger] T::key_of(f(v)) == T::key_of(v),
    ensures
        insert_stable::<T>(s.map_values(f), f(x)) == insert_stable::<T>(s, x).map_values(f),
    decreases s.len(),
{
    if s.len() > 0 {
        lemma_insert_map::<T>(s.drop_last(), x, f);
        assert(s.map_values(f).drop_last() =~= s.drop_last().map_values(f));
        assert(s.map_values(f).last() == f(s.last()));
        assert(T::key_of(f(x)) == T::key_of(x));
        assert(T::key_of(f(s.last())) == T::key_of(s.last()));
        assert(insert_stable::<T>(s.drop_last(), x).push(s.last()).map_values(f)
            =~= insert_stable::<T>(s.drop_last(), x).map_values(f).push(f(s.last())));
        assert(s.push(x).map_values(f) =~= s.map_values(f).push(f(x)));
    } else {
        assert(seq![f(x)] =~= seq![x].map_values(f));
    }
}

/// Sorting commutes with a map that keeps every key.
proof fn lemma_sorted_map<T: Keyed>(s: Seq<T::V>, f: spec_fn(T::V) -> T::V)
    requires
        forall|v: T::V| #[trigger] T::key_of(f(v)) == T::key_of(v),
    ensures
        sorted_by_key::<T>(s.map_values(f)) == sorted_by_key::<T>(s).map_values(f),
    decreases s.len(),
{
    if s.len() == 0 {
        assert(s.map_values(f) =~= s);
        assert(s.map_values(f) =~= sorted_by_key::<T>(s).map_values(f));
    } else {
        lemma_sorted_map::<T>(s.drop_last(), f);
        assert(s.map_values(f).drop_last() =~= s.drop_last().map_values(f));
        lemma_insert_map::<T>(sorted_by_key::<T>(s.drop_last()), s.last(), f);
    }
}

/// A copy of `items` stably sorted by key.
fn sorted_copy<T: Keyed>(items: &Vec<T>) -> (r: Vec<T>)
    ensures
        seq_view(r@) == sorted_by_key::<T>(seq_view(items@)),
{
    let mut v = vec_duplicate(items);
    sort_by_key(&mut v);
    v
}

/// An ingress mode with its virtual hosts sorted by host.
pub open spec fn canonical_mode(m: IngressModeV) -> IngressModeV {
    match m {
        IngressModeV::Http { vhost } => IngressModeV::Http {
            vhost: sorted_by_key::<IngressVhostRuleDef>(vhost),
        },
        IngressModeV::Tcp { group_id, proxy_name } => IngressModeV::Tcp { group_id, proxy_name },
    }
}

/// A listener in canonical form.
pub open spec fn canonical_listener(l: IngressListenerV) -> IngressListenerV {
    IngressListenerV { mode: canonical_mode(l.mode), ..l }
}

/// A client upstream with its servers sorted.
pub open spec fn canonical_client_upstream(u: ClientUpstreamV) -> ClientUpstreamV {
    ClientUpstreamV { servers: sorted_by_key::<UpstreamServerDef>(u.servers), ..u }
}

/// A client group with its upstreams sorted by name, each in canonical
/// form.
pub open spec fn canonical_group(g: ClientGroupV) -> ClientGroupV {
    ClientGroupV {
        upstreams: sorted_by_key::<ClientUpstreamDef>(g.upstreams).map_values(
            |u: ClientUpstreamV| canonical_client_upstream(u),
        ),
        ..g
    }
}

/// An egress upstream with its servers sorted.
pub open spec fn canonical_egress_upstream(u: EgressUpstreamV) -> EgressUpstreamV {
    EgressUpstreamV { servers: sorted_by_key::<UpstreamServerDef>(u.servers), ..u }
}

/// The canonical form of a snapshot: revision zero, every collection
/// sorted by its key (listeners by port, groups by id, upstreams by name,
/// servers by address then resolve flag, rules by host, tokens by hash).
pub open spec fn canonical_view(s: SnapshotV) -> SnapshotV {
    SnapshotV {
        resource_version: 0,
        ingress_listeners: sorted_by_key::<IngressListenerDef>(s.ingress_listeners).map_values(
            |l: IngressListenerV| canonical_listener(l),
        ),
        client_groups: sorted_by_key::<ClientGroupDef>(s.client_groups).map_values(
            |g: ClientGroupV| canonical_group(g),
        ),
        egress_upstreams: sorted_by_key::<EgressUpstreamDef>(s.egress_upstreams).map_values(
            |u: EgressUpstreamV| canonical_egress_upstream(u),
        ),
        egress_vhost_rules: sorted_by_key::<EgressVhostRuleDef>(s.egress_vhost_rules),
        token_cache: sorted_by_key::<TokenCacheEntryDef>(s.token_cache),
    }
}

fn canonical_listeners(items: &Vec<IngressListenerDef>) -> (r: Vec<IngressListenerDef>)
    ensures
        seq_view(r@) == sorted_by_key::<IngressListenerDef>(seq_view(items@)).map_values(
            |l: IngressListenerV| canonical_listener(l),
        ),
{
    let sorted = sorted_copy(items);
    let ghost target = seq_view(sorted@).map_values(|l: IngressListenerV| canonical_listener(l));
    let mut out: Vec<IngressListenerDef> = Vec::new();
    let mut i: usize = 0;
    while i < sorted.len()
        invariant
            i <= sorted@.len(),
            target.len() == sorted@.len(),
            target == seq_view(sorted@).map_values(|l: IngressListenerV| canonical_listener(l)),
            seq_view(out@) == target.take(i as int),
            out@.len() == i,
        decreases sorted@.len() - i,
    {
        let l = &sorted[i];
        let mode = match &l.mode {
            IngressListenerModeDef::Http { vhost } => IngressListenerModeDef::Http {
                vhost: sorted_copy(vhost),
            },
            IngressListenerModeDef::Tcp { group_id, proxy_name } => IngressListenerModeDef::Tcp {
                group_id: group_id.clone(),
                proxy_name: proxy_name.clone(),
            },
        };
        let e = IngressListenerDef { id: l.id, port: l.port, mode };
        assert(e@ == target[i as int]);
        out.push(e);
        proof {
            assert(seq_view(out@) =~= target.take(i + 1));
        }
        i = i + 1;
    }
    assert(target.take(i as int) =~= target);
    out
}

fn canonical_client_upstreams(items: &Vec<ClientUpstreamDef>) -> (r: Vec<ClientUpstreamDef>)
    ensures
        seq_view(r@) == sorted_by_key::<ClientUpstreamDef>(seq_view(items@)).map_values(
            |u: ClientUpstreamV| canonical_client_upstream(u),
        ),
{
    let sorted = sorted_copy(items);
    let ghost target = seq_view(sorted@).map_values(
        |u: ClientUpstreamV| canonical_client_upstream(u),
    );
    let mut out: Vec<ClientUpstreamDef> = Vec::new();
    let mut i: usize = 0;
    while i < sorted.len()
        invariant
            i <= sorted@.len(),
            target.len() == sorted@.len(),
            target == seq_view(sorted@).map_values(
                |u: ClientUpstreamV| canonical_client_upstream(u),
            ),
            seq_view(out@) == target.take(i as int),
            out@.len() == i,
        decreases sorted@.len() - i,
    {
        let u = &sorted[i];
        let e = ClientUpstreamDef {
            name: u.name.clone(),
            lb_policy: u.lb_policy.clone(),
            servers: sorted_copy(&u.servers),
        };
        assert(e@ == target[i as int]);
        out.push(e);
        proof {
            assert(seq_view(out@) =~= target.take(i + 1));
        }
        i = i + 1;
    }
    assert(target.take(i as int) =~= target);
    out
}

fn canonical_groups(items: &Vec<ClientGroupDef>) -> (r: Vec<ClientGroupDef>)
    ensures
        seq_view(r@) == sorted_by_key::<ClientGroupDef>(seq_view(items@)).map_values(
            |g: ClientGroupV| canonical_group(g),
        ),
{
    let sorted = sorted_copy(items);
    let ghost target = seq_view(sorted@).map_values(|g: ClientGroupV| canonical_group(g));
    let mut out: Vec<ClientGroupDef> = Vec::new();
    let mut i: usize = 0;
    while i < sorted.len()
        invariant
            i <= sorted@.len(),
            target.len() == sorted@.len(),
            target == seq_view(sorted@).map_values(|g: ClientGroupV| canonical_group(g)),
            seq_view(out@) == target.take(i as int),
            out@.len() == i,
        decreases sorted@.len() - i,
    {
        let g = &sorted[i];
        let e = ClientGroupDef {
            group_id: g.group_id.clone(),
            config_version: g.config_version.clone(),
            upstreams: canonical_client_upstreams(&g.upstreams),
        };
        assert(e@ == target[i as int]);
        out.push(e);
        proof {
            assert(seq_view(out@) =~= target.take(i + 1));
        }
        i = i + 1;
    }
    assert(target.take(i as int) =~= target);
    out
}

fn canonical_egress_upstreams(items: &Vec<EgressUpstreamDef>) -> (r: Vec<EgressUpstreamDef>)
    ensures
        seq_view(r@) == sorted_by_key::<EgressUpstreamDef>(seq_view(items@)).map_values(
            |u: EgressUpstreamV| canonical_egress_upstream(u),
        ),
{
    let sorted = sorted_copy(items);
    let ghost target = seq_view(sorted@).map_values(
        |u: EgressUpstreamV| canonical_egress_upstream(u),
    );
    let mut out: Vec<EgressUpstreamDef> = Vec::new();
    let mut i: usize = 0;
    while i < sorted.len()
        invariant
            i <= sorted@.len(),
            target.len() == sorted@.len(),
            target == seq_view(sorted@).map_values(
                |u: EgressUpstreamV| canonical_egress_upstream(u),
            ),
            seq_view(out@) == target.take(i as int),
            out@.len() == i,
        decreases sorted@.len() - i,
    {
        let u = &sorted[i];
        let e = EgressUpstreamDef {
            name: u.name.clone(),
            lb_policy: u.lb_policy.clone(),
            servers: sorted_copy(&u.servers),
        };
        assert(e@ == target[i as int]);
        out.push(e);
        proof {
            assert(seq_view(out@) =~= target.take(i + 1));
        }
        i = i + 1;
    }
    assert(target.take(i as int) =~= target);
    out
}

/// The canonical form of `snapshot`, the one its content hash is taken
/// of: revision zero and every collection sorted by its key.
pub fn canonical_snapshot(snapshot: &ConfigSnapshot) -> (r: ConfigSnapshot)
    ensures
        r@ == canonical_view(snapshot@),
{
    ConfigSnapshot {
        resource_version: 0,
        ingress_listeners: canonical_listeners(&snapshot.ingress_listeners),
        client_groups: canonical_groups(&snapshot.client_groups),
        egress_upstreams: canonical_egress_upstreams(&snapshot.egress_upstreams),
        egress_vhost_rules: sorted_copy(&snapshot.egress_vhost_rules),
        token_cache: sorted_copy(&snapshot.token_cache),
    }
}

/// The domain separator hashed before the serialised snapshot:
/// `duotunnel-control-protocol-v3` and a zero byte.
pub open spec fn content_hash_domain() -> Seq<u8> {
    seq![
        0x64u8, 0x75, 0x6f, 0x74, 0x75, 0x6e, 0x6e, 0x65, 0x6c, 0x2d, 0x63, 0x6f, 0x6e, 0x74, 0x72,
        0x6f, 0x6c, 0x2d, 0x70, 0x72, 0x6f, 0x74, 0x6f, 0x63, 0x6f, 0x6c, 0x2d, 0x76, 0x33, 0x00,
    ]
}

/// The content hash of a snapshot whose canonical form serialises to
/// `json`: the lowercase hex SHA-256 of the domain separator followed by
/// `json`.
pub open spec fn content_hash_text(json: Seq<u8>) -> Seq<char> {
    hex_lower(sha256_digest(content_hash_domain() + json))
}

/// The content hash of the serialised canonical snapshot `json`.
pub fn content_hash_of_json(json: &[u8]) -> (r: String)
    ensures
        r@ == content_hash_text(json@),
{
    let mut data: Vec<u8> = vec![
        0x64u8, 0x75, 0x6f, 0x74, 0x75, 0x6e, 0x6e, 0x65, 0x6c, 0x2d, 0x63, 0x6f, 0x6e, 0x74, 0x72,
        0x6f, 0x6c, 0x2d, 0x70, 0x72, 0x6f, 0x74, 0x6f, 0x63, 0x6f, 0x6c, 0x2d, 0x76, 0x33, 0x00,
    ];
    assert(data@ =~= content_hash_domain());
    let mut i: usize = 0;
    while i < json.len()
        invariant
            i <= json@.len(),
            data@ == content_hash_domain() + json@.take(i as int),
        decreases json@.len() - i,
    {
        data.push(json[i]);
        assert(data@ =~= content_hash_domain() + json@.take(i + 1));
        i = i + 1;
    }
    assert(json@.take(i as int) =~= json@);
    let digest = sha256(data.as_slice());
    hex_encode(&digest)
}

/// The content a hash is taken of leaves out the transport revision: two
/// snapshots that differ only in it have the same canonical form.
pub proof fn law_canonical_ignores_revision(s: SnapshotV, revision: u64)
    ensures
        canonical_view(SnapshotV { resource_version: revision, ..s }) == canonical_view(s),
{
}

proof fn lemma_unique_count<T: Keyed>(a: Seq<T::V>, x: T::V)
    requires
        keys_unique::<T>(a),
    ensures
        a.to_multiset().count(x) == if a.contains(x) {
            1nat
        } else {
            0nat
        },
    decreases a.len(),
{
    broadcast use vstd::seq_lib::group_to_multiset_ensures;

    if a.len() > 0 {
        let p = a.drop_last();
        let l = a.last();
        assert(p.push(l) =~= a);
        assert(keys_unique::<T>(p)) by {
            assert forall|i: int, j: int| 0 <= i < j < p.len() implies T::key_of(#[trigger] p[i])
                != T::key_of(#[trigger] p[j]) by {
                assert(p[i] == a[i] && p[j] == a[j]);
            }
        }
        lemma_unique_count::<T>(p, x);
        if l == x && p.contains(x) {
            let i = choose|i: int| 0 <= i < p.len() && p[i] == x;
            assert(a[i] == p[i]);
            assert(T::key_of(a[i]) != T::key_of(a[a.len() - 1]));
        }
        if a.contains(x) && l != x {
            let i = choose|i: int| 0 <= i < a.len() && a[i] == x;
            assert(p[i] == x);
        }
        if p.contains(x) {
            let i = choose|i: int| 0 <= i < p.len() && p[i] == x;
            assert(a[i] == x);
        }
    } else {
        assert(a =~= Seq::<T::V>::empty());
    }
}

proof fn lemma_key_map_contains<T: Keyed>(a: Seq<T::V>, b: Seq<T::V>, x: T::V)
    requires
        keys_unique::<T>(a),
        keys_unique::<T>(b),
        key_map::<T>(a) == key_map::<T>(b),
        a.contains(x),
    ensures
        b.contains(x),
{
    lemma_key_map_unique::<T>(a);
    lemma_key_map_unique::<T>(b);
    let i = choose|i: int| 0 <= i < a.len() && a[i] == x;
    let k = T::key_of(x);
    assert(key_map::<T>(a)[T::key_of(a[i])] == a[i]);
    assert(has_key::<T>(a, k));
    assert(key_map::<T>(a).dom().contains(k));
    assert(has_key::<T>(b, k));
    let j = choose|j: int| 0 <= j < b.len() && T::key_of(b[j]) == k;
    assert(key_map::<T>(b)[T::key_of(b[j])] == b[j]);
}

/// Two collections with distinct keys that map every key to the same
/// record sort alike, whatever order they hold their records in.
pub proof fn law_same_key_map_sorts_alike<T: Keyed>(a: Seq<T::V>, b: Seq<T::V>)
    requires
        keys_unique::<T>(a),
        keys_unique::<T>(b),
        key_map::<T>(a) == key_map::<T>(b),
    ensures
        sorted_by_key::<T>(a) == sorted_by_key::<T>(b),
{
    assert forall|x: T::V| a.to_multiset().count(x) == b.to_multiset().count(x) by {
        lemma_unique_count::<T>(a, x);
        lemma_unique_count::<T>(b, x);
        if a.contains(x) {
            lemma_key_map_contains::<T>(a, b, x);
        }
        if b.contains(x) {
            lemma_key_map_contains::<T>(b, a, x);
        }
    }
    assert(a.to_multiset() =~= b.to_multiset());
    assert(keys_determine::<T>(a)) by {
        assert forall|i: int, j: int|
            0 <= i < a.len() && 0 <= j < a.len() && T::key_of(#[trigger] a[i]) == T::key_of(
                #[trigger] a[j],
            ) implies a[i] == a[j] by {
            if i < j {
                assert(T::key_of(a[i]) != T::key_of(a[j]));
            } else if j < i {
                assert(T::key_of(a[j]) != T::key_of(a[i]));
            }
        }
    }
    law_sort_is_order_independent::<T>(a, b);
}

/// A server is its key: servers with equal keys are equal.
proof fn lemma_server_keys_determine(s: Seq<UpstreamServerV>)
    ensures
        keys_determine::<UpstreamServerDef>(s),
{
}

/// A listener's canonical form does not depend on the order of its
/// virtual hosts, when hosts that repeat carry the same rule.
pub proof fn law_canonical_listener_ignores_vhost_order(a: IngressListenerV, b: IngressListenerV)
    requires
        a.mode is Http,
        b.mode is Http,
        a.mode->vhost.to_multiset() == b.mode->vhost.to_multiset(),
        keys_determine::<IngressVhostRuleDef>(a.mode->vhost),
        (IngressListenerV { mode: b.mode, ..a }) == b,
    ensures
        canonical_listener(a) == canonical_listener(b),
{
    law_sort_is_order_independent::<IngressVhostRuleDef>(a.mode->vhost, b.mode->vhost);
}

/// A client upstream's canonical form does not depend on the order of its
/// servers.
pub proof fn law_canonical_client_upstream_ignores_server_order(a: ClientUpstreamV, b: ClientUpstreamV)
    requires
        a.servers.to_multiset() == b.servers.to_multiset(),
        (ClientUpstreamV { servers: b.servers, ..a }) == b,
    ensures
        canonical_client_upstream(a) == canonical_client_upstream(b),
{
    lemma_server_keys_determine(a.servers);
    law_sort_is_order_independent::<UpstreamServerDef>(a.servers, b.servers);
}

/// An egress upstream's canonical form does not depend on the order of its
/// servers.
pub proof fn law_canonical_egress_upstream_ignores_server_order(a: EgressUpstreamV, b: EgressUpstreamV)
    requires
        a.servers.to_multiset() == b.servers.to_multiset(),
        (EgressUpstreamV { servers: b.servers, ..a }) == b,
    ensures
        canonical_egress_upstream(a) == canonical_egress_upstream(b),
{
    lemma_server_keys_determine(a.servers);
    law_sort_is_order_independent::<UpstreamServerDef>(a.servers, b.servers);
}

/// A group's canonical form does not depend on the order of its upstreams,
/// nor on the order of the servers inside each: two groups whose upstreams,
/// each in canonical form, are the same records in some order (those that
/// share a name being equal) have the same canonical form.
pub proof fn law_canonical_group_ignores_upstream_order(a: ClientGroupV, b: ClientGroupV)
    requires
        a.upstreams.map_values(|u: ClientUpstreamV| canonical_client_upstream(u)).to_multiset()
            == b.upstreams.map_values(|u: ClientUpstreamV| canonical_client_upstream(u)).to_multiset(),
        keys_determine::<ClientUpstreamDef>(
            a.upstreams.map_values(|u: ClientUpstreamV| canonical_client_upstream(u)),
        ),
        (ClientGroupV { upstreams: b.upstreams, ..a }) == b,
    ensures
        canonical_group(a) == canonical_group(b),
{
    let f = |u: ClientUpstreamV| canonical_client_upstream(u);
    assert forall|v: ClientUpstreamV| #[trigger] ClientUpstreamDef::key_of(f(v))
        == ClientUpstreamDef::key_of(v) by {}
    lemma_sorted_map::<ClientUpstreamDef>(a.upstreams, f);
    lemma_sorted_map::<ClientUpstreamDef>(b.upstreams, f);
    assert(a.upstreams.map_values(f) =~= a.upstreams.map_values(
        |u: ClientUpstreamV| canonical_client_upstream(u),
    ));
    assert(b.upstreams.map_values(f) =~= b.upstreams.map_values(
        |u: ClientUpstreamV| canonical_client_upstream(u),
    ));
    law_sort_is_order_independent::<ClientUpstreamDef>(
        a.upstreams.map_values(f),
        b.upstreams.map_values(f),
    );
    assert(canonical_group(a).upstreams =~= sorted_by_key::<ClientUpstreamDef>(a.upstreams).map_values(f));
    assert(canonical_group(b).upstreams =~= sorted_by_key::<ClientUpstreamDef>(b.upstreams).map_values(f));
}

/// The canonical form, and so the content hash, does not depend on the
/// order of the records in any collection, nor on the order inside the
/// records' own lists: two snapshots whose collections hold, record by
/// record in canonical form, the same records in some order (records that
/// share a key being equal) have the same canonical form. The laws above
/// say when two records have the same canonical form.
pub proof fn law_canonical_is_order_independent(a: SnapshotV, b: SnapshotV)
    requires
        a.ingress_listeners.map_values(|l: IngressListenerV| canonical_listener(l)).to_multiset()
            == b.ingress_listeners.map_values(|l: IngressListenerV| canonical_listener(l)).to_multiset(),
        keys_determine::<IngressListenerDef>(
            a.ingress_listeners.map_values(|l: IngressListenerV| canonical_listener(l)),
        ),
        a.client_groups.map_values(|g: ClientGroupV| canonical_group(g)).to_multiset()
            == b.client_groups.map_values(|g: ClientGroupV| canonical_group(g)).to_multiset(),
        keys_determine::<ClientGroupDef>(
            a.client_groups.map_values(|g: ClientGroupV| canonical_group(g)),
        ),
        a.egress_upstreams.map_values(|u: EgressUpstreamV| canonical_egress_upstream(u)).to_multiset()
            == b.egress_upstreams.map_values(
            |u: EgressUpstreamV| canonical_egress_upstream(u),
        ).to_multiset(),
        keys_determine::<EgressUpstreamDef>(
            a.egress_upstreams.map_values(|u: EgressUpstreamV| canonical_egress_upstream(u)),
        ),
        a.egress_vhost_rules.to_multiset() == b.egress_vhost_rules.to_multiset(),
        keys_determine::<EgressVhostRuleDef>(a.egress_vhost_rules),
        a.token_cache.to_multiset() == b.token_cache.to_multiset(),
        keys_determine::<TokenCacheEntryDef>(a.token_cache),
    ensures
        canonical_view(a) == canonical_view(b),
{
    let fl = |l: IngressListenerV| canonical_listener(l);
    assert forall|v: IngressListenerV| #[trigger] IngressListenerDef::key_of(fl(v))
        == IngressListenerDef::key_of(v) by {}
    lemma_sorted_map::<IngressListenerDef>(a.ingress_listeners, fl);
    lemma_sorted_map::<IngressListenerDef>(b.ingress_listeners, fl);
    assert(a.ingress_listeners.map_values(fl) =~= a.ingress_listeners.map_values(
        |l: IngressListenerV| canonical_listener(l),
    ));
    assert(b.ingress_listeners.map_values(fl) =~= b.ingress_listeners.map_values(
        |l: IngressListenerV| canonical_listener(l),
    ));
    law_sort_is_order_independent::<IngressListenerDef>(
        a.ingress_listeners.map_values(fl),
        b.ingress_listeners.map_values(fl),
    );
    assert(canonical_view(a).ingress_listeners =~= sorted_by_key::<IngressListenerDef>(
        a.ingress_listeners,
    ).map_values(fl));
    assert(canonical_view(b).ingress_listeners =~= sorted_by_key::<IngressListenerDef>(
        b.ingress_listeners,
    ).map_values(fl));

    let fg = |g: ClientGroupV| canonical_group(g);
    assert forall|v: ClientGroupV| #[trigger] ClientGroupDef::key_of(fg(v)) == ClientGroupDef::key_of(
        v,
    ) by {}
    lemma_sorted_map::<ClientGroupDef>(a.client_groups, fg);
    lemma_sorted_map::<ClientGroupDef>(b.client_groups, fg);
    assert(a.client_groups.map_values(fg) =~= a.client_groups.map_values(
        |g: ClientGroupV| canonical_group(g),
    ));
    assert(b.client_groups.map_values(fg) =~= b.client_groups.map_values(
        |g: ClientGroupV| canonical_group(g),
    ));
    law_sort_is_order_independent::<ClientGroupDef>(
        a.client_groups.map_values(fg),
        b.client_groups.map_values(fg),
    );
    assert(canonical_view(a).client_groups =~= sorted_by_key::<ClientGroupDef>(
        a.client_groups,
    ).map_values(fg));
    assert(canonical_view(b).client_groups =~= sorted_by_key::<ClientGroupDef>(
        b.client_groups,
    ).map_values(fg));

    let fe = |u: EgressUpstreamV| canonical_egress_upstream(u);
    assert forall|v: EgressUpstreamV| #[trigger] EgressUpstreamDef::key_of(fe(v))
        == EgressUpstreamDef::key_of(v) by {}
    lemma_sorted_map::<EgressUpstreamDef>(a.egress_upstreams, fe);
    lemma_sorted_map::<EgressUpstreamDef>(b.egress_upstreams, fe);
    assert(a.egress_upstreams.map_values(fe) =~= a.egress_upstreams.map_values(
        |u: EgressUpstreamV| canonical_egress_upstream(u),
    ));
    assert(b.egress_upstreams.map_values(fe) =~= b.egress_upstreams.map_values(
        |u: EgressUpstreamV| canonical_egress_upstream(u),
    ));
    law_sort_is_order_independent::<EgressUpstreamDef>(
        a.egress_upstreams.map_values(fe),
        b.egress_upstreams.map_values(fe),
    );
    assert(canonical_view(a).egress_upstreams =~= sorted_by_key::<EgressUpstreamDef>(
        a.egress_upstreams,
    ).map_values(fe));
    assert(canonical_view(b).egress_upstreams =~= sorted_by_key::<EgressUpstreamDef>(
        b.egress_upstreams,
    ).map_values(fe));

    law_sort_is_order_independent::<EgressVhostRuleDef>(
        a.egress_vhost_rules,
        b.egress_vhost_rules,
    );
    law_sort_is_order_independent::<TokenCacheEntryDef>(a.token_cache, b.token_cache);
}

/// The canonical form keeps every record: each collection of it holds the
/// records of the snapshot's collection (each in canonical form) with the
/// same multiplicities, only reordered; the revision is zero.
pub proof fn law_canonical_keeps_every_record(s: SnapshotV)
    ensures
        canonical_view(s).resource_version == 0,
        canonical_view(s).ingress_listeners.to_multiset() == s.ingress_listeners.map_values(
            |l: IngressListenerV| canonical_listener(l),
        ).to_multiset(),
        canonical_view(s).client_groups.to_multiset() == s.client_groups.map_values(
            |g: ClientGroupV| canonical_group(g),
        ).to_multiset(),
        canonical_view(s).egress_upstreams.to_multiset() == s.egress_upstreams.map_values(
            |u: EgressUpstreamV| canonical_egress_upstream(u),
        ).to_multiset(),
        canonical_view(s).egress_vhost_rules.to_multiset() == s.egress_vhost_rules.to_multiset(),
        canonical_view(s).token_cache.to_multiset() == s.token_cache.to_multiset(),
{
    lemma_sorted_by_key::<EgressVhostRuleDef>(s.egress_vhost_rules);
    lemma_sorted_by_key::<TokenCacheEntryDef>(s.token_cache);

    let fl = |l: IngressListenerV| canonical_listener(l);
    assert forall|v: IngressListenerV| #[trigger] IngressListenerDef::key_of(fl(v))
        == IngressListenerDef::key_of(v) by {}
    lemma_sorted_map::<IngressListenerDef>(s.ingress_listeners, fl);
    lemma_sorted_by_key::<IngressListenerDef>(s.ingress_listeners.map_values(fl));
    assert(s.ingress_listeners.map_values(fl) =~= s.ingress_listeners.map_values(
        |l: IngressListenerV| canonical_listener(l),
    ));
    assert(canonical_view(s).ingress_listeners =~= sorted_by_key::<IngressListenerDef>(
        s.ingress_listeners,
    ).map_values(fl));

    let fg = |g: ClientGroupV| canonical_group(g);
    assert forall|v: ClientGroupV| #[trigger] ClientGroupDef::key_of(fg(v)) == ClientGroupDef::key_of(
        v,
    ) by {}
    lemma_sorted_map::<ClientGroupDef>(s.client_groups, fg);
    lemma_sorted_by_key::<ClientGroupDef>(s.client_groups.map_values(fg));
    assert(s.client_groups.map_values(fg) =~= s.client_groups.map_values(
        |g: ClientGroupV| canonical_group(g),
    ));
    assert(canonical_view(s).client_groups =~= sorted_by_key::<ClientGroupDef>(
        s.client_groups,
    ).map_values(fg));

    let fe = |u: EgressUpstreamV| canonical_egress_upstream(u);
    assert forall|v: EgressUpstreamV| #[trigger] EgressUpstreamDef::key_of(fe(v))
        == EgressUpstreamDef::key_of(v) by {}
    lemma_sorted_map::<EgressUpstreamDef>(s.egress_upstreams, fe);
    lemma_sorted_by_key::<EgressUpstreamDef>(s.egress_upstreams.map_values(fe));
    assert(s.egress_upstreams.map_values(fe) =~= s.egress_upstreams.map_values(
        |u: EgressUpstreamV| canonical_egress_upstream(u),
    ));
    assert(canonical_view(s).egress_upstreams =~= sorted_by_key::<EgressUpstreamDef>(
        s.egress_upstreams,
    ).map_values(fe));
}

/// Putting a record in canonical form only reorders its inner lists: every
/// other field stays, and each list keeps its entries with the same
/// multiplicities (a group's upstreams each in canonical form).
pub proof fn law_canonical_records_keep_their_lists(
    l: IngressListenerV,
    g: ClientGroupV,
    cu: ClientUpstreamV,
    eu: EgressUpstreamV,
)
    ensures
        canonical_listener(l).id == l.id,
        canonical_listener(l).port == l.port,
        match l.mode {
            IngressModeV::Http { vhost } => canonical_listener(l).mode is Http
                && canonical_listener(l).mode->vhost.to_multiset() == vhost.to_multiset(),
            IngressModeV::Tcp { .. } => canonical_listener(l).mode == l.mode,
        },
        canonical_group(g).group_id == g.group_id,
        canonical_group(g).config_version == g.config_version,
        canonical_group(g).upstreams.to_multiset() == g.upstreams.map_values(
            |u: ClientUpstreamV| canonical_client_upstream(u),
        ).to_multiset(),
        canonical_client_upstream(cu).name == cu.name,
        canonical_client_upstream(cu).lb_policy == cu.lb_policy,
        canonical_client_upstream(cu).servers.to_multiset() == cu.servers.to_multiset(),
        canonical_egress_upstream(eu).name == eu.name,
        canonical_egress_upstream(eu).lb_policy == eu.lb_policy,
        canonical_egress_upstream(eu).servers.to_multiset() == eu.servers.to_multiset(),
{
    if let IngressModeV::Http { vhost } = l.mode {
        lemma_sorted_by_key::<IngressVhostRuleDef>(vhost);
    }
    lemma_sorted_by_key::<UpstreamServerDef>(cu.servers);
    lemma_sorted_by_key::<UpstreamServerDef>(eu.servers);
    let f = |u: ClientUpstreamV| canonical_client_upstream(u);
    assert forall|v: ClientUpstreamV| #[trigger] ClientUpstreamDef::key_of(f(v))
        == ClientUpstreamDef::key_of(v) by {}
    lemma_sorted_map::<ClientUpstreamDef>(g.upstreams, f);
    lemma_sorted_by_key::<ClientUpstreamDef>(g.upstreams.map_values(f));
    assert(g.upstreams.map_values(f) =~= g.upstreams.map_values(
        |u: ClientUpstreamV| canonical_client_upstream(u),
    ));
    assert(canonical_group(g).upstreams =~= sorted_by_key::<ClientUpstreamDef>(g.upstreams).map_values(f));
}

} // verus!
