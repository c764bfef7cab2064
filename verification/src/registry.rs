//! The bookkeeping of the client registry: which client connections are
//! registered, in which group and shard, under which token, and whether
//! each has been retired. Connections themselves (and how one is picked
//! for a request) stay with the caller; here the registry decides what a
//! registration, an unregistration, a purge of closed connections and a
//! token revocation do to its books.

use vstd::prelude::*;
use crate::assoc::{has_key, keys_unique, lemma_lookup_unique, lookup};
use crate::layer::str_is;

verus! {

/// What the registry keeps of a connection: its group, its shard, the hash
/// of the token it logged in with, and whether it was retired.
pub type ClientEntryV = (Seq<char>, usize, Seq<u8>, bool);

/// A registered client connection.
pub struct RegisteredClient {
    pub client_id: String,
    pub group_id: String,
    pub shard_id: usize,
    pub token_hash: [u8; 32],
    pub retired: bool,
}

/// A registered connection by its contents, keyed by client id.
pub open spec fn client_view(c: RegisteredClient) -> (Seq<char>, ClientEntryV) {
    (c.client_id@, (c.group_id@, c.shard_id, c.token_hash@, c.retired))
}

/// The registry's books.
pub struct ClientRegistry {
    clients: Vec<RegisteredClient>,
    shard_count: usize,
    next_register_shard: usize,
    alive: bool,
}

/// The state of the books: the connections by client id in order of
/// registration, the number of shards, the shard counter, and whether the
/// registry still works.
pub struct RegistryV {
    pub clients: Seq<(Seq<char>, ClientEntryV)>,
    pub shard_count: nat,
    pub next_register_shard: nat,
    pub alive: bool,
}

impl View for ClientRegistry {
    type V = RegistryV;

    closed spec fn view(&self) -> RegistryV {
        RegistryV {
            clients: self.clients@.map_values(|c: RegisteredClient| client_view(c)),
            shard_count: self.shard_count as nat,
            next_register_shard: self.next_register_shard as nat,
            alive: self.alive,
        }
    }
}

/// The books without the connections whose client id is in `closed`.
pub open spec fn keep_open(s: Seq<(Seq<char>, ClientEntryV)>, closed: Seq<Seq<char>>) -> Seq<
    (Seq<char>, ClientEntryV),
>
    decreases s.len(),
{
    if s.len() == 0 {
        s
    } else {
        let rest = keep_open(s.drop_last(), closed);
        if closed.contains(s.last().0) {
            rest
        } else {
            rest.push(s.last())
        }
    }
}

/// The books with every connection that logged in with a token in
/// `hashes` retired.
pub open spec fn revoke_spec(s: Seq<(Seq<char>, ClientEntryV)>, hashes: Seq<Seq<u8>>) -> Seq<
    (Seq<char>, ClientEntryV),
> {
    s.map_values(
        |e: (Seq<char>, ClientEntryV)|
            if hashes.contains(e.1.2) {
                (e.0, (e.1.0, e.1.1, e.1.2, true))
            } else {
                e
            },
    )
}

/// How many connections a revocation of `hashes` retires: those with such
/// a token not yet retired.
pub open spec fn revoked_count(s: Seq<(Seq<char>, ClientEntryV)>, hashes: Seq<Seq<u8>>) -> nat
    decreases s.len(),
{
    if s.len() == 0 {
        0
    } else {
        revoked_count(s.drop_last(), hashes) + if hashes.contains(s.last().1.2) && !s.last().1.3 {
            1nat
        } else {
            0nat
        }
    }
}

/// The shard counter after one more registration: it wraps at
/// `usize::MAX`.
pub open spec fn next_shard_counter(c: nat) -> nat {
    if c >= usize::MAX {
        0
    } else {
        c + 1
    }
}

fn same_hash(a: &[u8; 32], b: &[u8; 32]) -> (r: bool)
    ensures
        r == (a@ == b@),
{
    let mut i: usize = 0;
    while i < 32
        invariant
            i <= 32,
            a@.len() == 32,
            b@.len() == 32,
            forall|j: int| 0 <= j < i ==> a@[j] == b@[j],
        decreases 32 - i,
    {
        if a[i] != b[i] {
            return false;
        }
        i = i + 1;
    }
    assert(a@ =~= b@);
    true
}

fn hash_listed(hashes: &[[u8; 32]], h: &[u8; 32]) -> (r: bool)
    ensures
        r == hashes@.map_values(|x: [u8; 32]| x@).contains(h@),
{
    let ghost hs = hashes@.map_values(|x: [u8; 32]| x@);
    let mut i: usize = 0;
    while i < hashes.len()
        invariant
            i <= hashes@.len(),
            hs == hashes@.map_values(|x: [u8; 32]| x@),
            forall|j: int| 0 <= j < i ==> hs[j] != h@,
        decreases hashes@.len() - i,
    {
        if same_hash(&hashes[i], h) {
            assert(hs[i as int] == h@);
            return true;
        }
        i = i + 1;
    }
    false
}

fn id_listed(ids: &[String], id: &str) -> (r: bool)
    ensures
        r == ids@.map_values(|x: String| x@).contains(id@),
{
    let ghost vs = ids@.map_values(|x: String| x@);
    let mut i: usize = 0;
    while i < ids.len()
        invariant
            i <= ids@.len(),
            vs == ids@.map_values(|x: String| x@),
            forall|j: int| 0 <= j < i ==> vs[j] != id@,
        decreases ids@.len() - i,
    {
        if str_is(ids[i].as_str(), id) {
            assert(vs[i as int] == id@);
            return true;
        }
        i = i + 1;
    }
    false
}

impl ClientRegistry {
    /// Each client id once, and the number of shards at least one.
    pub open spec fn wf(&self) -> bool {
        &&& keys_unique(self@.clients)
        &&& self@.shard_count >= 1
    }

    /// Empty books over `shard_count` shards (at least one).
    pub fn new(shard_count: usize) -> (r: Self)
        ensures
            r.wf(),
            r@.clients.len() == 0,
            r@.shard_count == if shard_count == 0 {
                1
            } else {
                shard_count as nat
            },
            r@.next_register_shard == 0,
            r@.alive,
    {
        let shard_count = if shard_count == 0 {
            1
        } else {
            shard_count
        };
        let r = ClientRegistry { clients: Vec::new(), shard_count, next_register_shard: 0, alive: true };
        assert(r@.clients.len() == 0);
        r
    }

    /// The number of registered connections.
    pub fn len(&self) -> (r: usize)
        ensures
            r == self@.clients.len(),
    {
        self.clients.len()
    }

    fn position(&self, client_id: &str) -> (r: Option<usize>)
        requires
            self.wf(),
        ensures
            match r {
                Some(i) => i < self@.clients.len() && self@.clients[i as int].0 == client_id@,
                None => !has_key(self@.clients, client_id@),
            },
    {
        let ghost s = self@.clients;
        let mut i: usize = 0;
        while i < self.clients.len()
            invariant
                i <= self.clients@.len(),
                s == self.clients@.map_values(|c: RegisteredClient| client_view(c)),
                forall|j: int| 0 <= j < i ==> #[trigger] s[j].0 != client_id@,
            decreases self.clients@.len() - i,
        {
            assert(s[i as int] == client_view(self.clients@[i as int]));
            if str_is(self.clients[i].client_id.as_str(), client_id) {
                return Some(i);
            }
            i = i + 1;
        }
        assert(!has_key(s, client_id@)) by {
            if has_key(s, client_id@) {
                let j = choose|j: int| 0 <= j < s.len() && #[trigger] s[j].0 == client_id@;
            }
        }
        None
    }

    /// The group and shard `client_id` is registered in, if it is.
    pub fn client_group(&self, client_id: &str) -> (r: Option<(String, usize)>)
        requires
            self.wf(),
        ensures
            match r {
                Some((g, sh)) => lookup(self@.clients, client_id@) matches Some(e) && e.0 == g@
                    && e.1 == sh,
                None => lookup(self@.clients, client_id@) is None,
            },
    {
        proof {
            lemma_lookup_unique(self@.clients, client_id@);
        }
        match self.position(client_id) {
            Some(i) => {
                assert(self@.clients[i as int] == client_view(self.clients@[i as int]));
                Some((self.clients[i].group_id.clone(), self.clients[i].shard_id))
            },
            None => None,
        }
    }

    /// Registers connection `client_id` of group `group_id`, logged in with
    /// `token_hash`, in the next shard in turn. Refused when the registry
    /// no longer works, when the client id is already registered, or when
    /// no connection state could be allocated for it (`state_available`).
    /// Returns the shard.
    pub fn register(
        &mut self,
        client_id: &str,
        group_id: &str,
        token_hash: [u8; 32],
        state_available: bool,
    ) -> (r: Result<usize, &'static str>)
        requires
            old(self).wf(),
        ensures
            final(self).wf(),
            final(self)@.shard_count == old(self)@.shard_count,
            final(self)@.alive == old(self)@.alive,
            !old(self)@.alive ==> r is Err && r->Err_0@ == "registry unavailable"@ && final(self)@
                == old(self)@,
            old(self)@.alive ==> final(self)@.next_register_shard == next_shard_counter(
                old(self)@.next_register_shard,
            ),
            old(self)@.alive && has_key(old(self)@.clients, client_id@) ==> r is Err
                && r->Err_0@ == "client id already registered"@ && final(self)@.clients == old(self)@.clients,
            old(self)@.alive && !has_key(old(self)@.clients, client_id@) && !state_available
                ==> r is Err && r->Err_0@ == "connection state capacity exhausted"@ && final(self)@.clients == old(self)@.clients,
            old(self)@.alive && !has_key(old(self)@.clients, client_id@) && state_available ==> {
                let shard = (old(self)@.next_register_shard % old(self)@.shard_count) as usize;
                &&& r == Ok::<usize, &'static str>(shard)
                &&& final(self)@.clients == old(self)@.clients.push(
                    (client_id@, (group_id@, shard, token_hash@, false)),
                )
            },
    {
        if !self.alive {
            return Err("registry unavailable");
        }
        let shard = self.next_register_shard % self.shard_count;
        self.next_register_shard = if self.next_register_shard == usize::MAX {
            0
        } else {
            self.next_register_shard + 1
        };
        if self.position(client_id).is_some() {
            return Err("client id already registered");
        }
        if !state_available {
            return Err("connection state capacity exhausted");
        }
        let ghost s = self@.clients;
        let entry = RegisteredClient {
            client_id: client_id.to_owned(),
            group_id: group_id.to_owned(),
            shard_id: shard,
            token_hash,
            retired: false,
        };
        self.clients.push(entry);
        assert(self@.clients =~= s.push((client_id@, (group_id@, shard, token_hash@, false))));
        assert(keys_unique(self@.clients)) by {
            let t = self@.clients;
            assert forall|i: int, j: int| 0 <= i < j < t.len() implies #[trigger] t[i].0
                != #[trigger] t[j].0 by {
                if j == s.len() {
                    assert(t[i] == s[i]);
                    if s[i].0 == client_id@ {
                        assert(has_key(s, client_id@));
                    }
                } else {
                    assert(t[i] == s[i] && t[j] == s[j]);
                }
            }
        }
        Ok(shard)
    }

    /// Takes `client_id` out of the books, retiring it; returns whether it
    /// was registered. Nothing happens once the registry no longer works.
    pub fn unregister(&mut self, client_id: &str) -> (r: bool)
        requires
            old(self).wf(),
        ensures
            final(self).wf(),
            final(self)@.shard_count == old(self)@.shard_count,
            final(self)@.next_register_shard == old(self)@.next_register_shard,
            final(self)@.alive == old(self)@.alive,
            r == (old(self)@.alive && has_key(old(self)@.clients, client_id@)),
            !r ==> final(self)@.clients == old(self)@.clients,
            r ==> exists|i: int|
                0 <= i < old(self)@.clients.len() && old(self)@.clients[i].0 == client_id@
                    && final(self)@.clients == #[trigger] old(self)@.clients.remove(i),
    {
        if !self.alive {
            return false;
        }
        let ghost s = self@.clients;
        match self.position(client_id) {
            Some(i) => {
                self.clients.remove(i);
                assert(self@.clients =~= s.remove(i as int));
                assert(keys_unique(self@.clients)) by {
                    let t = self@.clients;
                    assert forall|a: int, b: int| 0 <= a < b < t.len() implies #[trigger] t[a].0
                        != #[trigger] t[b].0 by {
                        let a2 = if a < i { a } else { a + 1 };
                        let b2 = if b < i { b } else { b + 1 };
                        assert(t[a] == s[a2] && t[b] == s[b2]);
                    }
                }
                assert(has_key(s, client_id@)) by {
                    assert(s[i as int].0 == client_id@);
                }
                true
            },
            None => false,
        }
    }

    /// Drops the connections whose client id is in `closed` (those the
    /// caller found closed) and returns how many were dropped.
    pub fn purge_dead(&mut self, closed: &[String]) -> (r: Result<usize, &'static str>)
        requires
            old(self).wf(),
        ensures
            final(self).wf(),
            final(self)@.shard_count == old(self)@.shard_count,
            final(self)@.next_register_shard == old(self)@.next_register_shard,
            final(self)@.alive == old(self)@.alive,
            !old(self)@.alive ==> r is Err && r->Err_0@ == "registry unavailable"@ && final(self)@
                == old(self)@,
            old(self)@.alive ==> {
                let kept = keep_open(old(self)@.clients, closed@.map_values(|x: String| x@));
                &&& final(self)@.clients == kept
                &&& r == Ok::<usize, &'static str>((old(self)@.clients.len() - kept.len()) as usize)
            },
    {
        if !self.alive {
            return Err("registry unavailable");
        }
        let ghost s = self@.clients;
        let ghost cl = closed@.map_values(|x: String| x@);
        let mut rest: Vec<RegisteredClient> = Vec::new();
        std::mem::swap(&mut rest, &mut self.clients);
        let total = rest.len();
        let ghost orig = rest@;
        assert(s == orig.map_values(|c: RegisteredClient| client_view(c)));
        let mut kept: Vec<RegisteredClient> = Vec::new();
        let mut dead: usize = 0;
        let mut i: usize = 0;
        while rest.len() > 0
            invariant
                i <= orig.len(),
                orig.len() == total,
                rest@ == orig.subrange(i as int, orig.len() as int),
                s == orig.map_values(|c: RegisteredClient| client_view(c)),
                cl == closed@.map_values(|x: String| x@),
                kept@.map_values(|c: RegisteredClient| client_view(c)) == keep_open(
                    s.take(i as int),
                    cl,
                ),
                dead + kept@.len() == i,
            decreases rest@.len(),
        {
            let c = rest.remove(0);
            assert(c == orig[i as int]);
            assert(s.take(i + 1).drop_last() =~= s.take(i as int));
            assert(s.take(i + 1).last() == client_view(c));
            let ghost before = kept@;
            if id_listed(closed, c.client_id.as_str()) {
                dead = dead + 1;
            } else {
                kept.push(c);
                assert(kept@.map_values(|c: RegisteredClient| client_view(c)) =~= before.map_values(
                    |c: RegisteredClient| client_view(c),
                ).push(client_view(c)));
            }
            i = i + 1;
            assert(rest@ =~= orig.subrange(i as int, orig.len() as int));
        }
        assert(s.take(i as int) =~= s);
        proof {
            lemma_keep_open_props(s, cl);
        }
        self.clients = kept;
        Ok(dead)
    }

    /// Retires every connection that logged in with a token whose hash is
    /// in `hashes` and returns how many it retired (those not retired
    /// already). The connections stay registered until they close.
    pub fn revoke_tokens(&mut self, hashes: &[[u8; 32]]) -> (r: Result<usize, &'static str>)
        requires
            old(self).wf(),
        ensures
            final(self).wf(),
            final(self)@.shard_count == old(self)@.shard_count,
            final(self)@.next_register_shard == old(self)@.next_register_shard,
            final(self)@.alive == old(self)@.alive,
            hashes@.len() == 0 ==> r == Ok::<usize, &'static str>(0) && final(self)@ == old(self)@,
            hashes@.len() > 0 && !old(self)@.alive ==> r is Err && r->Err_0@
                == "registry unavailable"@ && final(self)@ == old(self)@,
            hashes@.len() > 0 && old(self)@.alive ==> {
                let hs = hashes@.map_values(|x: [u8; 32]| x@);
                &&& final(self)@.clients == revoke_spec(old(self)@.clients, hs)
                &&& r == Ok::<usize, &'static str>(revoked_count(old(self)@.clients, hs) as usize)
            },
    {
        if hashes.len() == 0 {
            return Ok(0);
        }
        if !self.alive {
            return Err("registry unavailable");
        }
        let ghost s = self@.clients;
        let ghost start = self@;
        let ghost hs = hashes@.map_values(|x: [u8; 32]| x@);
        let mut revoked: usize = 0;
        let mut i: usize = 0;
        let n = self.clients.len();
        while i < n
            invariant
                i <= n,
                n == self.clients@.len(),
                s.len() == n,
                hs == hashes@.map_values(|x: [u8; 32]| x@),
                forall|j: int|
                    0 <= j < i ==> #[trigger] self@.clients[j] == revoke_spec(s, hs)[j],
                forall|j: int| i <= j < n ==> #[trigger] self@.clients[j] == s[j],
                revoked == revoked_count(s.take(i as int), hs),
                revoked <= i,
                self@.shard_count == start.shard_count,
                self@.next_register_shard == start.next_register_shard,
                self@.alive == start.alive,
                start.shard_count >= 1,
            decreases n - i,
        {
            assert(s.take(i + 1).drop_last() =~= s.take(i as int));
            assert(self@.clients[i as int] == client_view(self.clients@[i as int]));
            let listed = hash_listed(hashes, &self.clients[i].token_hash);
            let ghost pre = self.clients@;
            let ghost pre_v = self@.clients;
            assert(pre_v[i as int] == s[i as int]);
            assert(s[i as int].1.2 == pre[i as int].token_hash@);
            if listed && !self.clients[i].retired {
                let mut c = self.clients.remove(i);
                c.retired = true;
                self.clients.insert(i, c);
                revoked = revoked + 1;
                assert forall|j: int| 0 <= j < n && j != i implies self.clients@[j] == pre[j] by {}
            }
            proof {
                assert forall|j: int| 0 <= j < n && j != i implies #[trigger] self@.clients[j]
                    == pre_v[j] by {
                    assert(self@.clients[j] == client_view(self.clients@[j]));
                    assert(pre_v[j] == client_view(pre[j]));
                }
                assert(self@.clients[i as int] == client_view(self.clients@[i as int]));
                assert(self@.clients[i as int] == revoke_spec(s, hs)[i as int]);
                assert forall|j: int| 0 <= j < i + 1 implies #[trigger] self@.clients[j]
                    == revoke_spec(s, hs)[j] by {
                    if j < i {
                        assert(self@.clients[j] == pre_v[j]);
                    }
                }
                assert forall|j: int| i + 1 <= j < n implies #[trigger] self@.clients[j] == s[j] by {
                    assert(self@.clients[j] == pre_v[j]);
                }
                assert(s[i as int] == s.take(i + 1).last());
            }
            i = i + 1;
        }
        assert(s.take(n as int) =~= s);
        assert(self@.clients =~= revoke_spec(s, hs));
        assert(keys_unique(self@.clients)) by {
            let t = self@.clients;
            assert forall|a: int, b: int| 0 <= a < b < t.len() implies #[trigger] t[a].0
                != #[trigger] t[b].0 by {
                assert(t[a].0 == s[a].0 && t[b].0 == s[b].0);
            }
        }
        Ok(revoked)
    }

    /// Stops the registry after a fault: no connection stays registered
    /// and every later request is refused.
    pub fn fail_closed(&mut self)
        requires
            old(self).wf(),
        ensures
            final(self).wf(),
            !final(self)@.alive,
            final(self)@.clients.len() == 0,
            final(self)@.shard_count == old(self)@.shard_count,
    {
        self.alive = false;
        self.clients = Vec::new();
        assert(self@.clients.len() == 0);
    }
}

/// Dropping closed connections keeps each client id once, keeps only
/// connections that were there, and drops exactly those listed.
pub proof fn lemma_keep_open_props(s: Seq<(Seq<char>, ClientEntryV)>, closed: Seq<Seq<char>>)
    ensures
        keep_open(s, closed).len() <= s.len(),
        keys_unique(s) ==> keys_unique(keep_open(s, closed)),
        forall|j: int|
            0 <= j < keep_open(s, closed).len() ==> has_key(s, #[trigger] keep_open(s, closed)[j].0),
        forall|j: int|
            0 <= j < keep_open(s, closed).len() ==> !closed.contains(
                #[trigger] keep_open(s, closed)[j].0,
            ),
    decreases s.len(),
{
    if s.len() > 0 {
        let d = s.drop_last();
        lemma_keep_open_props(d, closed);
        let rest = keep_open(d, closed);
        let r = keep_open(s, closed);
        assert forall|j: int| 0 <= j < r.len() implies has_key(s, #[trigger] r[j].0) by {
            if j < rest.len() {
                assert(r[j] == rest[j]);
                assert(has_key(d, rest[j].0));
                let k = choose|k: int| 0 <= k < d.len() && #[trigger] d[k].0 == rest[j].0;
                assert(s[k] == d[k]);
            } else {
                assert(r[j] == s.last());
                assert(s[s.len() - 1].0 == r[j].0);
            }
        }
        assert forall|j: int| 0 <= j < r.len() implies !closed.contains(#[trigger] r[j].0) by {
            if j < rest.len() {
                assert(r[j] == rest[j]);
            }
        }
        if keys_unique(s) {
            assert(keys_unique(d)) by {
                assert forall|a: int, b: int| 0 <= a < b < d.len() implies #[trigger] d[a].0
                    != #[trigger] d[b].0 by {
                    assert(d[a] == s[a] && d[b] == s[b]);
                }
            }
            assert forall|a: int, b: int| 0 <= a < b < r.len() implies #[trigger] r[a].0
                != #[trigger] r[b].0 by {
                if b < rest.len() {
                    assert(r[a] == rest[a] && r[b] == rest[b]);
                } else {
                    assert(r[a] == rest[a]);
                    assert(r[b] == s.last());
                    assert(has_key(d, rest[a].0));
                    let k = choose|k: int| 0 <= k < d.len() && #[trigger] d[k].0 == rest[a].0;
                    assert(s[k] == d[k]);
                    assert(s[k].0 != s[s.len() - 1].0);
                }
            }
        }
    }
}

/// A connection just registered is found under its client id, in its
/// group and shard, not retired; every other client id reads as before.
pub proof fn law_register_then_lookup(
    s: Seq<(Seq<char>, ClientEntryV)>,
    id: Seq<char>,
    e: ClientEntryV,
    other: Seq<char>,
)
    requires
        other != id,
    ensures
        lookup(s.push((id, e)), id) == Some(e),
        lookup(s.push((id, e)), other) == lookup(s, other),
{
    assert(s.push((id, e)).drop_last() =~= s);
}

/// Unregistering a client id leaves nothing under it and every other
/// client id as it was.
pub proof fn law_unregister_removes(
    s: Seq<(Seq<char>, ClientEntryV)>,
    i: int,
    other: Seq<char>,
)
    requires
        keys_unique(s),
        0 <= i < s.len(),
        other != s[i].0,
    ensures
        lookup(s.remove(i), s[i].0) is None,
        lookup(s.remove(i), other) == lookup(s, other),
{
    let r = s.remove(i);
    assert(keys_unique(r)) by {
        assert forall|a: int, b: int| 0 <= a < b < r.len() implies #[trigger] r[a].0
            != #[trigger] r[b].0 by {
            let a2 = if a < i { a } else { a + 1 };
            let b2 = if b < i { b } else { b + 1 };
            assert(r[a] == s[a2] && r[b] == s[b2]);
        }
    }
    lemma_lookup_unique(r, s[i].0);
    lemma_lookup_unique(r, other);
    lemma_lookup_unique(s, other);
    assert(!has_key(r, s[i].0)) by {
        if has_key(r, s[i].0) {
            let j = choose|j: int| 0 <= j < r.len() && #[trigger] r[j].0 == s[i].0;
            if j < i {
                assert(r[j] == s[j]);
            } else {
                assert(r[j] == s[j + 1]);
            }
        }
    }
    if has_key(s, other) {
        let j = choose|j: int| 0 <= j < s.len() && #[trigger] s[j].0 == other;
        if j < i {
            assert(r[j] == s[j]);
        } else {
            assert(j != i);
            assert(r[j - 1] == s[j]);
        }
    } else {
        assert(!has_key(r, other)) by {
            if has_key(r, other) {
                let j = choose|j: int| 0 <= j < r.len() && #[trigger] r[j].0 == other;
                if j < i {
                    assert(r[j] == s[j]);
                } else {
                    assert(r[j] == s[j + 1]);
                }
            }
        }
    }
}

/// After a purge no closed connection is registered, and every connection
/// not listed as closed is still registered as it was.
pub proof fn law_purge_keeps_open_connections(
    s: Seq<(Seq<char>, ClientEntryV)>,
    closed: Seq<Seq<char>>,
    id: Seq<char>,
)
    requires
        keys_unique(s),
    ensures
        closed.contains(id) ==> lookup(keep_open(s, closed), id) is None,
        !closed.contains(id) ==> lookup(keep_open(s, closed), id) == lookup(s, id),
    decreases s.len(),
{
    if s.len() > 0 {
        let d = s.drop_last();
        assert(keys_unique(d)) by {
            assert forall|a: int, b: int| 0 <= a < b < d.len() implies #[trigger] d[a].0
                != #[trigger] d[b].0 by {
                assert(d[a] == s[a] && d[b] == s[b]);
            }
        }
        law_purge_keeps_open_connections(d, closed, id);
        let rest = keep_open(d, closed);
        if !closed.contains(s.last().0) {
            assert(rest.push(s.last()).drop_last() =~= rest);
        }
    }
}

/// Revoking the same tokens again retires nothing more and changes
/// nothing.
pub proof fn law_revoke_is_idempotent(s: Seq<(Seq<char>, ClientEntryV)>, hashes: Seq<Seq<u8>>)
    ensures
        revoke_spec(revoke_spec(s, hashes), hashes) == revoke_spec(s, hashes),
        revoked_count(revoke_spec(s, hashes), hashes) == 0,
    decreases s.len(),
{
    let r = revoke_spec(s, hashes);
    assert(revoke_spec(r, hashes) =~= r);
    if s.len() > 0 {
        law_revoke_is_idempotent(s.drop_last(), hashes);
        assert(revoke_spec(s.drop_last(), hashes) =~= r.drop_last());
    }
}

/// The stream limits a registered connection gets: at least one stream at
/// once, and at least one but no more pending opens than streams.
pub fn stream_limits(max_concurrent_streams: u32, max_pending_streams: usize) -> (r: (usize, usize))
    ensures
        r.0 == if max_concurrent_streams == 0 {
            1
        } else {
            max_concurrent_streams as usize
        },
        r.1 == if max_pending_streams == 0 {
            1
        } else if max_pending_streams > r.0 {
            r.0
        } else {
            max_pending_streams
        },
        1 <= r.1 <= r.0,
{
    let stream_limit: usize = if max_concurrent_streams == 0 {
        1
    } else {
        max_concurrent_streams as usize
    };
    let pending = if max_pending_streams == 0 {
        1
    } else {
        max_pending_streams
    };
    let pending_limit = if pending > stream_limit {
        stream_limit
    } else {
        pending
    };
    (stream_limit, pending_limit)
}

} // verus!
