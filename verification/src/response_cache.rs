//! The in-memory store of token-bearing admin responses, by request key.
//! It holds a bounded number of responses; past the bound the oldest one
//! leaves, so a replay of an old request may no longer find its token.

use vstd::prelude::*;
use crate::idempotency::{
    cached_view, record_view, replay_decision, replay_spec, replay_view, sensitive, stored_record,
    AdminIdempotencyRecord, AdminMutationKind, AdminMutationResponse, CachedAdminResponse,
    ReplayDecision,
};
use crate::assoc::{has_key, keys_unique, lemma_lookup_unique, lookup, set_value};
use crate::layer::str_is;

verus! {

/// How many token-bearing responses are kept.
pub const ADMIN_RESPONSE_CACHE_MAX_ENTRIES: usize = 4096;

/// A store within its bound, holding each key once.
pub open spec fn cache_wf<K, V>(s: Seq<(K, V)>, max: nat) -> bool {
    &&& 1 <= max
    &&& s.len() <= max
    &&& keys_unique(s)
}

/// The entries after keeping `v` under `k`: a kept key has its value
/// replaced where it stands; a new key goes last, and when that passes the
/// bound the oldest entry leaves.
pub open spec fn cache_insert<K, V>(s: Seq<(K, V)>, k: K, v: V, max: nat) -> Seq<(K, V)> {
    if has_key(s, k) {
        set_value(s, k, v)
    } else if s.len() < max {
        s.push((k, v))
    } else {
        s.push((k, v)).drop_first()
    }
}

/// Keeping a value keeps the store within its bound, each key once.
pub proof fn lemma_cache_insert_wf<K, V>(s: Seq<(K, V)>, k: K, v: V, max: nat)
    requires
        cache_wf(s, max),
    ensures
        cache_wf(cache_insert(s, k, v, max), max),
{
    let r = cache_insert(s, k, v, max);
    if has_key(s, k) {
        assert forall|i: int, j: int| 0 <= i < j < r.len() implies #[trigger] r[i].0
            != #[trigger] r[j].0 by {
            assert(r[i].0 == s[i].0 && r[j].0 == s[j].0);
        }
    } else {
        let p = s.push((k, v));
        assert(keys_unique(p)) by {
            assert forall|i: int, j: int| 0 <= i < j < p.len() implies #[trigger] p[i].0
                != #[trigger] p[j].0 by {
                if j == s.len() {
                    assert(p[i] == s[i]);
                    if s[i].0 == k {
                        assert(has_key(s, k));
                    }
                } else {
                    assert(p[i] == s[i] && p[j] == s[j]);
                }
            }
        }
        if s.len() >= max {
            assert forall|i: int, j: int| 0 <= i < j < r.len() implies #[trigger] r[i].0
                != #[trigger] r[j].0 by {
                assert(r[i] == p[i + 1] && r[j] == p[j + 1]);
            }
        }
    }
}

/// A value just kept is what a lookup of its key gives.
pub proof fn law_cache_read_after_write<K, V>(s: Seq<(K, V)>, k: K, v: V, max: nat)
    requires
        cache_wf(s, max),
    ensures
        lookup(cache_insert(s, k, v, max), k) == Some(v),
{
    let r = cache_insert(s, k, v, max);
    lemma_cache_insert_wf(s, k, v, max);
    lemma_lookup_unique(r, k);
    if has_key(s, k) {
        let i = choose|i: int| 0 <= i < s.len() && #[trigger] s[i].0 == k;
        assert(r[i] == (k, v));
        assert(r[i].0 == k);
    } else {
        assert(r[r.len() - 1] == (k, v));
        assert(r[r.len() - 1].0 == k);
    }
}

/// Keeping a value under one key changes what another key gives only when
/// the store was full, the key was new, and the other key was the oldest
/// entry, which then leaves.
pub proof fn law_cache_others_kept<K, V>(
    s: Seq<(K, V)>,
    k: K,
    v: V,
    max: nat,
    other: K,
)
    requires
        cache_wf(s, max),
        other != k,
    ensures
        lookup(cache_insert(s, k, v, max), other) == if !has_key(s, k) && s.len() == max
            && s[0].0 == other {
            None
        } else {
            lookup(s, other)
        },
{
    let r = cache_insert(s, k, v, max);
    lemma_cache_insert_wf(s, k, v, max);
    lemma_lookup_unique(r, other);
    lemma_lookup_unique(s, other);
    if has_key(s, other) {
        let i = choose|i: int| 0 <= i < s.len() && #[trigger] s[i].0 == other;
        if has_key(s, k) {
            assert(r[i] == s[i]);
        } else if s.len() < max {
            assert(r[i] == s[i]);
        } else if i == 0 {
            assert(!has_key(r, other)) by {
                if has_key(r, other) {
                    let j = choose|j: int| 0 <= j < r.len() && #[trigger] r[j].0 == other;
                    if j + 1 < s.len() {
                        assert(r[j] == s[j + 1]);
                    }
                }
            }
        } else {
            assert(r[i - 1] == s[i]);
        }
    } else {
        assert(!has_key(r, other)) by {
            if has_key(r, other) {
                let j = choose|j: int| 0 <= j < r.len() && #[trigger] r[j].0 == other;
                if has_key(s, k) {
                    assert(r[j].0 == s[j].0);
                } else if s.len() < max {
                    if j < s.len() {
                        assert(r[j] == s[j]);
                    }
                } else if j + 1 < s.len() {
                    assert(r[j] == s[j + 1]);
                }
            }
        }
    }
}

/// What a request with key `request_key` and `fingerprint` gets, given the
/// record stored under its key (if any) and the responses kept in memory.
pub fn replay_for(
    record: Option<&AdminIdempotencyRecord>,
    request_key: &str,
    fingerprint: &str,
    cache: &AdminResponseCache,
) -> (r: ReplayDecision)
    requires
        cache.wf(),
    ensures
        replay_view(r) == replay_spec(
            match record {
                Some(x) => Some(record_view(*x)),
                None => None,
            },
            fingerprint@,
            lookup(cache@, request_key@),
        ),
{
    let cached = cache.get(request_key);
    replay_decision(record, fingerprint, cached)
}

/// Keeps in memory the response of a mutation of `kind` committed under
/// `request_key` and `fingerprint`, when that response carries a token.
pub fn remember_response(
    cache: &mut AdminResponseCache,
    kind: AdminMutationKind,
    request_key: &str,
    fingerprint: &str,
    response: &AdminMutationResponse,
)
    requires
        old(cache).wf(),
    ensures
        final(cache).wf(),
        final(cache).limit() == old(cache).limit(),
        final(cache)@ == if sensitive(kind) {
            cache_insert(
                old(cache)@,
                request_key@,
                (fingerprint@, response.status, response.body@),
                old(cache).limit(),
            )
        } else {
            old(cache)@
        },
{
    if kind.is_sensitive() {
        let cached = CachedAdminResponse {
            fingerprint: fingerprint.to_owned(),
            response: AdminMutationResponse { status: response.status, body: response.body.clone() },
        };
        cache.insert(request_key.to_owned(), cached);
    }
}

/// A token-issuing request that committed, replayed with its key and
/// fingerprint right after, gets the response it got the first time.
pub proof fn law_committed_token_response_replays(
    kind: AdminMutationKind,
    request_key: Seq<char>,
    fingerprint: Seq<char>,
    first: (u16, Seq<char>),
    kept: Seq<(Seq<char>, (Seq<char>, u16, Seq<char>))>,
    max: nat,
)
    requires
        sensitive(kind),
        cache_wf(kept, max),
    ensures
        replay_spec(
            Some(stored_record(kind, fingerprint, first.1)),
            fingerprint,
            lookup(cache_insert(kept, request_key, (fingerprint, first.0, first.1), max), request_key),
        ) == (1int, first.0, first.1),
{
    law_cache_read_after_write(kept, request_key, (fingerprint, first.0, first.1), max);
    reveal_strlit("plaintext-v1");
    reveal_strlit("redacted-v1");
}

/// Token-bearing responses by request key, oldest first.
pub struct AdminResponseCache {
    entries: Vec<(String, CachedAdminResponse)>,
    max_entries: usize,
}

/// An entry by its contents.
pub open spec fn entry_view(e: (String, CachedAdminResponse)) -> (Seq<char>, (Seq<char>, u16, Seq<char>)) {
    (e.0@, cached_view(e.1))
}

impl View for AdminResponseCache {
    type V = Seq<(Seq<char>, (Seq<char>, u16, Seq<char>))>;

    closed spec fn view(&self) -> Self::V {
        self.entries@.map_values(|e: (String, CachedAdminResponse)| entry_view(e))
    }
}

impl AdminResponseCache {
    /// The number of responses kept at most.
    pub closed spec fn limit(&self) -> nat {
        self.max_entries as nat
    }

    /// Within its bound, each key once.
    pub open spec fn wf(&self) -> bool {
        cache_wf(self@, self.limit())
    }

    /// An empty store with the default bound.
    pub fn new() -> (r: AdminResponseCache)
        ensures
            r.wf(),
            r@.len() == 0,
            r.limit() == ADMIN_RESPONSE_CACHE_MAX_ENTRIES,
    {
        AdminResponseCache::with_max_entries(ADMIN_RESPONSE_CACHE_MAX_ENTRIES)
    }

    /// An empty store that keeps at most `max_entries` responses.
    pub fn with_max_entries(max_entries: usize) -> (r: AdminResponseCache)
        requires
            max_entries >= 1,
        ensures
            r.wf(),
            r@.len() == 0,
            r.limit() == max_entries,
    {
        let r = AdminResponseCache { entries: Vec::new(), max_entries };
        assert(r@.len() == 0);
        r
    }

    /// The number of responses kept.
    pub fn len(&self) -> (r: usize)
        ensures
            r == self@.len(),
    {
        self.entries.len()
    }

    fn position(&self, key: &str) -> (r: Option<usize>)
        requires
            self.wf(),
        ensures
            match r {
                Some(i) => i < self@.len() && self@[i as int].0 == key@,
                None => !has_key(self@, key@),
            },
    {
        let mut i: usize = 0;
        while i < self.entries.len()
            invariant
                i <= self.entries@.len(),
                self@.len() == self.entries@.len(),
                self@ == self.entries@.map_values(
                    |e: (String, CachedAdminResponse)| entry_view(e),
                ),
                forall|j: int| 0 <= j < i ==> #[trigger] self@[j].0 != key@,
            decreases self.entries@.len() - i,
        {
            assert(self@[i as int] == entry_view(self.entries@[i as int]));
            if str_is(self.entries[i].0.as_str(), key) {
                return Some(i);
            }
            i = i + 1;
        }
        assert(!has_key(self@, key@)) by {
            if has_key(self@, key@) {
                let j = choose|j: int| 0 <= j < self@.len() && #[trigger] self@[j].0 == key@;
            }
        }
        None
    }

    /// The response kept under `key`, if any.
    pub fn get(&self, key: &str) -> (r: Option<&CachedAdminResponse>)
        requires
            self.wf(),
        ensures
            match r {
                Some(c) => lookup(self@, key@) == Some(cached_view(*c)),
                None => lookup(self@, key@) is None,
            },
    {
        proof {
            lemma_lookup_unique(self@, key@);
        }
        match self.position(key) {
            Some(i) => {
                assert(self@[i as int] == entry_view(self.entries@[i as int]));
                Some(&self.entries[i].1)
            },
            None => None,
        }
    }

    /// Keeps `value` under `key`, replacing what the key held; when a new
    /// key passes the bound, the oldest response leaves.
    pub fn insert(&mut self, key: String, value: CachedAdminResponse)
        requires
            old(self).wf(),
        ensures
            final(self).wf(),
            final(self).limit() == old(self).limit(),
            final(self)@ == cache_insert(old(self)@, key@, cached_view(value), old(self).limit()),
    {
        let ghost s = self@;
        let ghost k = key@;
        let ghost v = cached_view(value);
        let ghost max = self.limit();
        proof {
            lemma_cache_insert_wf(s, k, v, max);
        }
        match self.position(key.as_str()) {
            Some(i) => {
                self.entries.set(i, (key, value));
                assert(self@ =~= s.map_values(
                    |e: (Seq<char>, (Seq<char>, u16, Seq<char>))| if e.0 == k {
                        (k, v)
                    } else {
                        e
                    },
                )) by {
                    assert forall|j: int| 0 <= j < s.len() implies #[trigger] self@[j] == (if s[j].0
                        == k {
                        (k, v)
                    } else {
                        s[j]
                    }) by {
                        if j != i {
                            assert(s[j].0 != s[i as int].0 || j == i);
                        }
                    }
                }
                assert(has_key(s, k)) by {
                    assert(s[i as int].0 == k);
                }
            },
            None => {
                self.entries.push((key, value));
                assert(self@ =~= s.push((k, v)));
                if self.entries.len() > self.max_entries {
                    self.entries.remove(0);
                    assert(self@ =~= s.push((k, v)).drop_first());
                }
            },
        }
    }
}

} // verus!
